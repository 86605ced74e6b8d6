//! Decoding raw component payloads against the registry.
use vstd::prelude::*;
use byteorder::{BigEndian, ByteOrder};
use crate::schema::{AttributeType, AttributesModel, ComponentSchema, RegistryModel, Schema};

verus! {

/// Bytes taken by an integer attribute.
pub const INTEGER_WIDTH: usize = 16;

/// Bytes taken by a floating-point attribute.
pub const FLOAT_WIDTH: usize = 8;

/// The value of a byte sequence read as a big-endian unsigned number.
pub open spec fn be_unsigned(b: Seq<u8>) -> nat
    decreases b.len(),
{
    if b.len() == 0 {
        0
    } else {
        be_unsigned(b.drop_last()) * 256 + b.last() as nat
    }
}

/// The first sixteen bytes of `b` read as a big-endian two's-complement number.
pub open spec fn be_signed_128(b: Seq<u8>) -> int {
    let u = be_unsigned(b.take(16));
    if u >= 0x8000_0000_0000_0000_0000_0000_0000_0000 {
        u - 0x1_0000_0000_0000_0000_0000_0000_0000_0000
    } else {
        u as int
    }
}

/// The text that a byte sequence spells in UTF-8, or `None` where it is not
/// valid UTF-8.
pub uninterp spec fn utf8_text(bytes: Seq<u8>) -> Option<Seq<char>>;

/// Relies on byteorder's `BigEndian::read_i128`: the first sixteen bytes as a
/// big-endian two's-complement integer (it panics on a shorter buffer).
#[verifier::external_body]
fn read_be_i128(buf: &[u8]) -> (r: i128)
    requires
        buf@.len() >= 16,
    ensures
        r as int == be_signed_128(buf@),
{
    BigEndian::read_i128(buf)
}

/// Relies on byteorder's `BigEndian::read_u64`: the first eight bytes as a
/// big-endian unsigned integer (it panics on a shorter buffer).
#[verifier::external_body]
fn read_be_u64(buf: &[u8]) -> (r: u64)
    requires
        buf@.len() >= 8,
    ensures
        r as int == be_unsigned(buf@.take(8)),
{
    BigEndian::read_u64(buf)
}

/// Relies on `std::str::from_utf8`: the text, exactly where the bytes are
/// valid UTF-8.
#[verifier::external_body]
fn decode_utf8(data: &[u8]) -> (r: Option<&str>)
    ensures
        match r {
            Some(s) => utf8_text(data@) == Some(s@),
            None => utf8_text(data@) is None,
        },
{
    std::str::from_utf8(data).ok()
}

/// A decoded attribute value, as the mathematics sees it. A float is held as
/// the bit pattern of its IEEE-754 double.
pub enum AttributeValueModel {
    Text(Seq<char>),
    Integer(int),
    Float(int),
}

/// Why a payload could not be decoded.
#[derive(Clone, Copy, Debug, PartialEq, Eq, Structural)]
pub enum DecodeErrorKind {
    /// No schema is registered under the component's name.
    UnknownComponent,
    /// The component's schema declares no attribute of that name.
    UnknownAttribute,
    /// The bytes of a string attribute are not valid UTF-8.
    InvalidEncoding,
    /// The bytes of a fixed-width attribute are fewer than its width.
    TruncatedBuffer,
}

/// A decode error, with the component and, where one is at fault, the
/// attribute that it concerns.
#[derive(Debug)]
pub struct DecodeError {
    pub kind: DecodeErrorKind,
    pub component: String,
    pub attribute: Option<String>,
}

/// The mathematical form of a decode error.
pub struct DecodeErrorModel {
    pub kind: DecodeErrorKind,
    pub component: Seq<char>,
    pub attribute: Option<Seq<char>>,
}

impl View for DecodeError {
    type V = DecodeErrorModel;

    open spec fn view(&self) -> DecodeErrorModel {
        DecodeErrorModel {
            kind: self.kind,
            component: self.component@,
            attribute: match self.attribute {
                Some(a) => Some(a@),
                None => None,
            },
        }
    }
}

/// A decoded attribute value: exactly one variant, fixed by the declared type.
#[derive(Debug)]
pub enum ComponentAttributeValue {
    String(String),
    Integer(i128),
    /// The bit pattern of an IEEE-754 double.
    Float(u64),
}

impl View for ComponentAttributeValue {
    type V = AttributeValueModel;

    open spec fn view(&self) -> AttributeValueModel {
        match self {
            ComponentAttributeValue::String(s) => AttributeValueModel::Text(s@),
            ComponentAttributeValue::Integer(i) => AttributeValueModel::Integer(*i as int),
            ComponentAttributeValue::Float(b) => AttributeValueModel::Float(*b as int),
        }
    }
}

/// What the bytes of an attribute of type `t` decode to.
pub open spec fn decode_value(t: AttributeType, b: Seq<u8>) -> Result<AttributeValueModel, DecodeErrorKind> {
    match t {
        AttributeType::String => match utf8_text(b) {
            Some(s) => Ok(AttributeValueModel::Text(s)),
            None => Err(DecodeErrorKind::InvalidEncoding),
        },
        AttributeType::Integer => if b.len() < INTEGER_WIDTH {
            Err(DecodeErrorKind::TruncatedBuffer)
        } else {
            Ok(AttributeValueModel::Integer(be_signed_128(b)))
        },
        AttributeType::Float => if b.len() < FLOAT_WIDTH {
            Err(DecodeErrorKind::TruncatedBuffer)
        } else {
            Ok(AttributeValueModel::Float(be_unsigned(b.take(8)) as int))
        },
    }
}

impl ComponentAttributeValue {
    /// The string value for the outcome of a UTF-8 decode: the text where
    /// there is one, else `InvalidEncoding`.
    pub fn from_text(decoded: Option<&str>) -> (r: Result<ComponentAttributeValue, DecodeErrorKind>)
        ensures
            match r {
                Ok(v) => decoded is Some && v@ == AttributeValueModel::Text(decoded->0@),
                Err(k) => decoded is None && k == DecodeErrorKind::InvalidEncoding,
            },
    {
        match decoded {
            Some(s) => Ok(ComponentAttributeValue::String(s.to_owned())),
            None => Err(DecodeErrorKind::InvalidEncoding),
        }
    }

    /// Decodes the bytes of an attribute by its declared type: strings as
    /// UTF-8, integers as sixteen big-endian bytes, floats as eight; any bytes
    /// past the width are ignored.
    pub fn parse_attribute_type(attribute_type: &AttributeType, data: &[u8]) -> (r: Result<ComponentAttributeValue, DecodeErrorKind>)
        ensures
            match r {
                Ok(v) => decode_value(*attribute_type, data@) == Ok::<AttributeValueModel, DecodeErrorKind>(v@),
                Err(k) => decode_value(*attribute_type, data@) == Err::<AttributeValueModel, DecodeErrorKind>(k),
            },
    {
        match attribute_type {
            AttributeType::String => ComponentAttributeValue::from_text(decode_utf8(data)),
            AttributeType::Integer => {
                if data.len() < INTEGER_WIDTH {
                    Err(DecodeErrorKind::TruncatedBuffer)
                } else {
                    Ok(ComponentAttributeValue::Integer(read_be_i128(data)))
                }
            },
            AttributeType::Float => {
                if data.len() < FLOAT_WIDTH {
                    Err(DecodeErrorKind::TruncatedBuffer)
                } else {
                    Ok(ComponentAttributeValue::Float(read_be_u64(data)))
                }
            },
        }
    }
}

/// One attribute of a raw payload: its name and its undecoded bytes.
#[derive(Debug)]
pub struct RawAttribute {
    pub name: String,
    pub value: Vec<u8>,
}

/// A raw component payload: the component's name and its attributes.
#[derive(Debug)]
pub struct RawComponent {
    pub name: String,
    pub values: Vec<RawAttribute>,
}

/// A decoded attribute: its name and its typed value.
#[derive(Debug)]
pub struct ComponentAttribute {
    pub name: String,
    pub value: ComponentAttributeValue,
}

impl View for ComponentAttribute {
    type V = (Seq<char>, AttributeValueModel);

    open spec fn view(&self) -> (Seq<char>, AttributeValueModel) {
        (self.name@, self.value@)
    }
}

/// A decoded component: its name and its attributes in payload order.
#[derive(Debug)]
pub struct Component {
    pub name: String,
    pub attributes: Vec<ComponentAttribute>,
}

/// The mathematical form of a decoded component.
pub type ComponentModel = (Seq<char>, Seq<(Seq<char>, AttributeValueModel)>);

impl View for Component {
    type V = ComponentModel;

    open spec fn view(&self) -> ComponentModel {
        (self.name@, self.attributes@.map_values(|a: ComponentAttribute| a@))
    }
}

/// What one raw attribute decodes to under a component's attribute map.
pub open spec fn decode_attribute(schema: AttributesModel, name: Seq<char>, bytes: Seq<u8>) -> Result<AttributeValueModel, DecodeErrorKind> {
    if schema.contains_key(name) {
        decode_value(schema[name], bytes)
    } else {
        Err(DecodeErrorKind::UnknownAttribute)
    }
}

/// What a sequence of raw attributes decodes to: every attribute in order,
/// or the error of the first that fails, with that attribute's name.
pub open spec fn decode_attributes(schema: AttributesModel, values: Seq<RawAttribute>) -> Result<Seq<(Seq<char>, AttributeValueModel)>, (DecodeErrorKind, Seq<char>)>
    decreases values.len(),
{
    if values.len() == 0 {
        Ok(Seq::empty())
    } else {
        match decode_attributes(schema, values.drop_last()) {
            Ok(prefix) => match decode_attribute(schema, values.last().name@, values.last().value@) {
                Ok(v) => Ok(prefix.push((values.last().name@, v))),
                Err(k) => Err((k, values.last().name@)),
            },
            Err(e) => Err(e),
        }
    }
}

/// What a raw component decodes to against a registry.
pub open spec fn decode_component(registry: RegistryModel, name: Seq<char>, values: Seq<RawAttribute>) -> Result<ComponentModel, DecodeErrorModel> {
    if !registry.contains_key(name) {
        Err(DecodeErrorModel { kind: DecodeErrorKind::UnknownComponent, component: name, attribute: None })
    } else {
        match decode_attributes(registry[name], values) {
            Ok(attributes) => Ok((name, attributes)),
            Err((kind, attribute)) => Err(DecodeErrorModel { kind, component: name, attribute: Some(attribute) }),
        }
    }
}

impl ComponentAttribute {
    /// Decodes one raw attribute against the schema of its component.
    pub fn parse_component_attribute(component_schema: &ComponentSchema, component_value: &RawAttribute) -> (r: Result<ComponentAttribute, DecodeErrorKind>)
        requires
            component_schema.wf(),
        ensures
            match r {
                Ok(a) => a.name@ == component_value.name@ && decode_attribute(component_schema@, component_value.name@, component_value.value@)
                    == Ok::<AttributeValueModel, DecodeErrorKind>(a.value@),
                Err(k) => decode_attribute(component_schema@, component_value.name@, component_value.value@)
                    == Err::<AttributeValueModel, DecodeErrorKind>(k),
            },
    {
        match component_schema.attribute_type(component_value.name.as_str()) {
            Some(attribute_type) => {
                let value = ComponentAttributeValue::parse_attribute_type(&attribute_type, component_value.value.as_slice())?;
                Ok(ComponentAttribute { name: component_value.name.clone(), value })
            },
            None => Err(DecodeErrorKind::UnknownAttribute),
        }
    }
}

impl Component {
    /// Decodes a raw component against the registry. The first attribute
    /// that fails aborts the decode, and its error names the component and
    /// the attribute.
    pub fn parse_component(schema: &Schema, component: &RawComponent) -> (r: Result<Component, DecodeError>)
        requires
            schema.wf(),
        ensures
            match r {
                Ok(c) => decode_component(schema@, component.name@, component.values@) == Ok::<ComponentModel, DecodeErrorModel>(c@),
                Err(e) => decode_component(schema@, component.name@, component.values@) == Err::<ComponentModel, DecodeErrorModel>(e@),
            },
    {
        let component_schema = match schema.lookup(component.name.as_str()) {
            Some(c) => c,
            None => {
                return Err(DecodeError {
                    kind: DecodeErrorKind::UnknownComponent,
                    component: component.name.clone(),
                    attribute: None,
                });
            },
        };
        let ghost attrs = schema@[component.name@];
        let mut attributes: Vec<ComponentAttribute> = Vec::new();
        let mut i: usize = 0;
        proof {
            assert(component.values@.take(0) =~= Seq::<RawAttribute>::empty());
            assert(attributes@.map_values(|a: ComponentAttribute| a@) =~= Seq::empty());
        }
        while i < component.values.len()
            invariant
                i <= component.values@.len(),
                component_schema.wf(),
                component_schema@ == attrs,
                schema@.contains_key(component.name@),
                attrs == schema@[component.name@],
                decode_attributes(attrs, component.values@.take(i as int))
                    == Ok::<Seq<(Seq<char>, AttributeValueModel)>, (DecodeErrorKind, Seq<char>)>(
                    attributes@.map_values(|a: ComponentAttribute| a@),
                ),
            decreases component.values@.len() - i,
        {
            let raw = &component.values[i];
            proof {
                assert(component.values@.take(i + 1).drop_last() =~= component.values@.take(i as int));
            }
            match ComponentAttribute::parse_component_attribute(component_schema, raw) {
                Ok(a) => {
                    proof {
                        assert(attributes@.push(a).map_values(|a: ComponentAttribute| a@)
                            =~= attributes@.map_values(|a: ComponentAttribute| a@).push(a@));
                    }
                    attributes.push(a);
                },
                Err(kind) => {
                    proof {
                        assert(component.values@.take(i + 1).last() == *raw);
                        assert(decode_attributes(attrs, component.values@.take(i + 1))
                            == Err::<Seq<(Seq<char>, AttributeValueModel)>, (DecodeErrorKind, Seq<char>)>((kind, raw.name@)));
                        lemma_decode_attributes_error_kept(attrs, component.values@, i as int + 1);
                    }
                    let e = DecodeError {
                        kind,
                        component: component.name.clone(),
                        attribute: Some(raw.name.clone()),
                    };
                    proof {
                        assert(e@.attribute == Some(raw.name@));
                    }
                    return Err(e);
                },
            }
            i = i + 1;
        }
        proof {
            assert(component.values@.take(i as int) =~= component.values@);
        }
        Ok(Component { name: component.name.clone(), attributes })
    }
}

/// A decoded entity: its components.
#[derive(Debug)]
pub struct Entity {
    pub components: Vec<Component>,
}

impl Entity {
    /// Decodes each raw component on its own; whether one failure spoils the
    /// rest is left to the caller.
    pub fn decode_each(schema: &Schema, components: &Vec<RawComponent>) -> (r: Vec<Result<Component, DecodeError>>)
        requires
            schema.wf(),
        ensures
            r@.len() == components@.len(),
            forall|i: int| 0 <= i < r@.len() ==> match #[trigger] r@[i] {
                Ok(c) => decode_component(schema@, components@[i].name@, components@[i].values@) == Ok::<ComponentModel, DecodeErrorModel>(c@),
                Err(e) => decode_component(schema@, components@[i].name@, components@[i].values@) == Err::<ComponentModel, DecodeErrorModel>(e@),
            },
    {
        let mut out: Vec<Result<Component, DecodeError>> = Vec::new();
        let mut i: usize = 0;
        while i < components.len()
            invariant
                schema.wf(),
                i <= components@.len(),
                out@.len() == i,
                forall|j: int| 0 <= j < i ==> match #[trigger] out@[j] {
                    Ok(c) => decode_component(schema@, components@[j].name@, components@[j].values@) == Ok::<ComponentModel, DecodeErrorModel>(c@),
                    Err(e) => decode_component(schema@, components@[j].name@, components@[j].values@) == Err::<ComponentModel, DecodeErrorModel>(e@),
                },
            decreases components@.len() - i,
        {
            out.push(Component::parse_component(schema, &components[i]));
            i = i + 1;
        }
        out
    }
}

/// Once a prefix of the attributes fails, every longer prefix fails with the
/// same error.
pub proof fn lemma_decode_attributes_error_kept(schema: AttributesModel, values: Seq<RawAttribute>, n: int)
    requires
        0 <= n <= values.len(),
        decode_attributes(schema, values.take(n)) is Err,
    ensures
        decode_attributes(schema, values) == decode_attributes(schema, values.take(n)),
    decreases values.len() - n,
{
    if n < values.len() {
        assert(values.take(n + 1).drop_last() =~= values.take(n));
        lemma_decode_attributes_error_kept(schema, values, n + 1);
    } else {
        assert(values.take(n) =~= values);
    }
}

/// The number of bytes that a fixed-width type takes.
pub open spec fn fixed_width(t: AttributeType) -> nat {
    match t {
        AttributeType::Integer => INTEGER_WIDTH as nat,
        AttributeType::Float => FLOAT_WIDTH as nat,
        AttributeType::String => 0,
    }
}

/// The bytes suit the declared type: valid UTF-8 for a string, at least the
/// width for an integer or a float.
pub open spec fn bytes_suit(t: AttributeType, b: Seq<u8>) -> bool {
    match t {
        AttributeType::String => utf8_text(b) is Some,
        _ => b.len() >= fixed_width(t),
    }
}

/// The variant of a decoded value is the one of the declared type.
pub open spec fn value_has_type(v: AttributeValueModel, t: AttributeType) -> bool {
    match v {
        AttributeValueModel::Text(_) => t == AttributeType::String,
        AttributeValueModel::Integer(_) => t == AttributeType::Integer,
        AttributeValueModel::Float(_) => t == AttributeType::Float,
    }
}

/// A payload for a registered component whose every attribute is declared and
/// carries bytes that suit its type decodes, one value per attribute, in
/// order, each of the declared type.
pub proof fn lemma_valid_payload_decodes(registry: RegistryModel, name: Seq<char>, values: Seq<RawAttribute>)
    requires
        registry.contains_key(name),
        forall|i: int| 0 <= i < values.len() ==> registry[name].contains_key(#[trigger] values[i].name@)
            && bytes_suit(registry[name][values[i].name@], values[i].value@),
    ensures
        decode_component(registry, name, values) matches Ok((n, attributes)) && n == name
            && attributes.len() == values.len()
            && forall|i: int| 0 <= i < values.len() ==> (#[trigger] attributes[i]).0 == values[i].name@
                && value_has_type(attributes[i].1, registry[name][values[i].name@]),
    decreases values.len(),
{
    let schema = registry[name];
    if values.len() > 0 {
        let prefix = values.drop_last();
        assert forall|i: int| 0 <= i < prefix.len() implies schema.contains_key(#[trigger] prefix[i].name@)
            && bytes_suit(schema[prefix[i].name@], prefix[i].value@) by {
            assert(prefix[i] == values[i]);
        }
        lemma_valid_payload_decodes(registry, name, prefix);
        let last = values.last();
        assert(schema.contains_key(values[values.len() - 1].name@));
        let t = schema[last.name@];
        if t == AttributeType::Integer {
            assert(decode_value(t, last.value@) is Ok);
        }
    }
}

/// A payload for a component that is not registered fails with
/// `UnknownComponent`, naming the component and no attribute.
pub proof fn lemma_unknown_component_fails(registry: RegistryModel, name: Seq<char>, values: Seq<RawAttribute>)
    requires
        !registry.contains_key(name),
    ensures
        decode_component(registry, name, values) == Err::<ComponentModel, DecodeErrorModel>(
            DecodeErrorModel { kind: DecodeErrorKind::UnknownComponent, component: name, attribute: None },
        ),
{
}

/// A payload whose first failing attribute is one that the component does not
/// declare fails with `UnknownAttribute`, naming that attribute, and yields no
/// component.
pub proof fn lemma_unknown_attribute_fails(registry: RegistryModel, name: Seq<char>, values: Seq<RawAttribute>, i: int)
    requires
        registry.contains_key(name),
        0 <= i < values.len(),
        !registry[name].contains_key(values[i].name@),
        forall|j: int| 0 <= j < i ==> decode_attribute(registry[name], (#[trigger] values[j]).name@, values[j].value@) is Ok,
    ensures
        decode_component(registry, name, values) == Err::<ComponentModel, DecodeErrorModel>(
            DecodeErrorModel { kind: DecodeErrorKind::UnknownAttribute, component: name, attribute: Some(values[i].name@) },
        ),
{
    let schema = registry[name];
    lemma_prefix_decodes(schema, values, i);
    assert(values.take(i + 1).drop_last() =~= values.take(i));
    assert(values.take(i + 1).last() == values[i]);
    lemma_decode_attributes_error_kept(schema, values, i + 1);
}

/// Where every attribute of a prefix decodes, the prefix decodes.
proof fn lemma_prefix_decodes(schema: AttributesModel, values: Seq<RawAttribute>, n: int)
    requires
        0 <= n <= values.len(),
        forall|j: int| 0 <= j < n ==> decode_attribute(schema, (#[trigger] values[j]).name@, values[j].value@) is Ok,
    ensures
        decode_attributes(schema, values.take(n)) is Ok,
    decreases n,
{
    if n > 0 {
        assert(values.take(n).drop_last() =~= values.take(n - 1));
        lemma_prefix_decodes(schema, values, n - 1);
        assert(values.take(n).last() == values[n - 1]);
    }
}

/// An integer or a float fails with `TruncatedBuffer` on fewer bytes than its
/// width; on at least that many it decodes, from the first bytes alone.
pub proof fn lemma_fixed_width_decoding(t: AttributeType, b: Seq<u8>)
    requires
        t != AttributeType::String,
    ensures
        b.len() < fixed_width(t) ==> decode_value(t, b) == Err::<AttributeValueModel, DecodeErrorKind>(
            DecodeErrorKind::TruncatedBuffer,
        ),
        b.len() >= fixed_width(t) ==> decode_value(t, b) is Ok
            && decode_value(t, b) == decode_value(t, b.take(fixed_width(t) as int)),
{
    if b.len() >= fixed_width(t) {
        let w = fixed_width(t) as int;
        assert(b.take(w).take(w) =~= b.take(w));
    }
}

} // verus!
