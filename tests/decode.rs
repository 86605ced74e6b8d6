use ecs_schema::entity::{
    Component, ComponentAttributeValue, DecodeErrorKind, Entity, RawAttribute, RawComponent,
};
use ecs_schema::schema::{AttributeDefinition, AttributeType, Schema};

fn def(name: &str, attribute_type: AttributeType) -> AttributeDefinition {
    AttributeDefinition { name: String::from(name), attribute_type }
}

fn raw(name: &str, value: Vec<u8>) -> RawAttribute {
    RawAttribute { name: String::from(name), value }
}

fn velocity_schema() -> Schema {
    let mut schema = Schema::new();
    schema.add_component(
        "Velocity",
        vec![
            def("x", AttributeType::Integer),
            def("y", AttributeType::Integer),
            def("z", AttributeType::Integer),
        ],
    );
    schema
}

fn int_bytes(v: i128) -> Vec<u8> {
    v.to_be_bytes().to_vec()
}

#[test]
fn velocity_payload_decodes() {
    let schema = velocity_schema();
    let payload = RawComponent {
        name: String::from("Velocity"),
        values: vec![raw("x", int_bytes(517)), raw("y", int_bytes(12)), raw("z", int_bytes(25))],
    };
    let c = Component::parse_component(&schema, &payload).unwrap();
    assert_eq!(c.name, "Velocity");
    assert_eq!(c.attributes.len(), 3);
    let expected = [("x", 517i128), ("y", 12), ("z", 25)];
    for (a, (n, v)) in c.attributes.iter().zip(expected.iter()) {
        assert_eq!(a.name, *n);
        assert!(matches!(a.value, ComponentAttributeValue::Integer(i) if i == *v));
    }
}

#[test]
fn unregistered_component_fails() {
    let schema = velocity_schema();
    let payload = RawComponent { name: String::from("Explosive"), values: vec![] };
    let e = Component::parse_component(&schema, &payload).unwrap_err();
    assert_eq!(e.kind, DecodeErrorKind::UnknownComponent);
    assert_eq!(e.component, "Explosive");
    assert!(e.attribute.is_none());
}

#[test]
fn undeclared_attribute_fails() {
    let schema = velocity_schema();
    let payload = RawComponent {
        name: String::from("Velocity"),
        values: vec![raw("x", int_bytes(1)), raw("w", int_bytes(2))],
    };
    let e = Component::parse_component(&schema, &payload).unwrap_err();
    assert_eq!(e.kind, DecodeErrorKind::UnknownAttribute);
    assert_eq!(e.component, "Velocity");
    assert_eq!(e.attribute.as_deref(), Some("w"));
}

#[test]
fn first_failing_attribute_decides() {
    let schema = velocity_schema();
    let payload = RawComponent {
        name: String::from("Velocity"),
        values: vec![raw("x", vec![0, 1, 2]), raw("w", int_bytes(2))],
    };
    let e = Component::parse_component(&schema, &payload).unwrap_err();
    assert_eq!(e.kind, DecodeErrorKind::TruncatedBuffer);
    assert_eq!(e.attribute.as_deref(), Some("x"));
}

#[test]
fn short_integer_is_truncated() {
    let r = ComponentAttributeValue::parse_attribute_type(&AttributeType::Integer, &[0u8; 15]);
    assert!(matches!(r, Err(DecodeErrorKind::TruncatedBuffer)));
    let r = ComponentAttributeValue::parse_attribute_type(&AttributeType::Integer, &[]);
    assert!(matches!(r, Err(DecodeErrorKind::TruncatedBuffer)));
}

#[test]
fn short_float_is_truncated() {
    let r = ComponentAttributeValue::parse_attribute_type(&AttributeType::Float, &[0u8; 7]);
    assert!(matches!(r, Err(DecodeErrorKind::TruncatedBuffer)));
}

#[test]
fn integer_reads_first_sixteen_bytes() {
    let mut b = int_bytes(-2);
    let r = ComponentAttributeValue::parse_attribute_type(&AttributeType::Integer, &b);
    assert!(matches!(r, Ok(ComponentAttributeValue::Integer(-2))));
    b.extend_from_slice(&[9, 9, 9]);
    let r = ComponentAttributeValue::parse_attribute_type(&AttributeType::Integer, &b);
    assert!(matches!(r, Ok(ComponentAttributeValue::Integer(-2))));
    let r = ComponentAttributeValue::parse_attribute_type(&AttributeType::Integer, &int_bytes(i128::MAX));
    assert!(matches!(r, Ok(ComponentAttributeValue::Integer(i128::MAX))));
}

#[test]
fn float_reads_first_eight_bytes() {
    let mut b = 1.5f64.to_be_bytes().to_vec();
    b.push(7);
    let r = ComponentAttributeValue::parse_attribute_type(&AttributeType::Float, &b);
    match r {
        Ok(ComponentAttributeValue::Float(bits)) => assert_eq!(f64::from_bits(bits), 1.5),
        _ => panic!("expected a float"),
    }
}

#[test]
fn string_decodes_utf8() {
    let r = ComponentAttributeValue::parse_attribute_type(&AttributeType::String, "héllo".as_bytes());
    match r {
        Ok(ComponentAttributeValue::String(s)) => assert_eq!(s, "héllo"),
        _ => panic!("expected a string"),
    }
    let r = ComponentAttributeValue::parse_attribute_type(&AttributeType::String, &[]);
    assert!(matches!(r, Ok(ComponentAttributeValue::String(s)) if s.is_empty()));
}

#[test]
fn invalid_utf8_is_invalid_encoding() {
    let r = ComponentAttributeValue::parse_attribute_type(&AttributeType::String, &[0xff, 0xfe]);
    assert!(matches!(r, Err(DecodeErrorKind::InvalidEncoding)));
    let r = ComponentAttributeValue::from_text(None);
    assert!(matches!(r, Err(DecodeErrorKind::InvalidEncoding)));
    let r = ComponentAttributeValue::from_text(Some("ok"));
    assert!(matches!(r, Ok(ComponentAttributeValue::String(s)) if s == "ok"));
}

#[test]
fn mixed_types_decode_by_declared_type() {
    let mut schema = Schema::new();
    schema.add_component(
        "Label",
        vec![def("text", AttributeType::String), def("n", AttributeType::Integer), def("f", AttributeType::Float)],
    );
    let payload = RawComponent {
        name: String::from("Label"),
        values: vec![
            raw("f", 2.0f64.to_be_bytes().to_vec()),
            raw("text", b"abc".to_vec()),
            raw("n", int_bytes(7)),
        ],
    };
    let c = Component::parse_component(&schema, &payload).unwrap();
    assert_eq!(c.attributes.len(), 3);
    assert_eq!(c.attributes[0].name, "f");
    assert!(matches!(c.attributes[0].value, ComponentAttributeValue::Float(b) if f64::from_bits(b) == 2.0));
    assert!(matches!(&c.attributes[1].value, ComponentAttributeValue::String(s) if s == "abc"));
    assert!(matches!(c.attributes[2].value, ComponentAttributeValue::Integer(7)));
}

#[test]
fn entity_components_decode_independently() {
    let schema = velocity_schema();
    let comps = vec![
        RawComponent { name: String::from("Explosive"), values: vec![] },
        RawComponent { name: String::from("Velocity"), values: vec![raw("x", int_bytes(3))] },
    ];
    let results = Entity::decode_each(&schema, &comps);
    assert_eq!(results.len(), 2);
    assert!(results[0].is_err());
    let c = results[1].as_ref().unwrap();
    assert!(matches!(c.attributes[0].value, ComponentAttributeValue::Integer(3)));
}
