//! The registry of component schemas: for each component name, the type of
//! each of its attributes.
use vstd::prelude::*;
use crate::keyed::{
    KeyedEntry, keyed_map, unique_keys, lemma_keyed_map_domain, lemma_keyed_map_index,
    lemma_keyed_map_update, lemma_keyed_push_unique, lemma_keyed_map_congruent,
    lemma_keyed_map_reordered,
};

verus! {

/// How the bytes of an attribute are to be read.
#[derive(Clone, Copy, Debug, PartialEq, Eq, Structural)]
pub enum AttributeType {
    Integer,
    String,
    Float,
}

/// One attribute of a component schema: its name and its type.
#[derive(Debug)]
pub struct AttributeDefinition {
    pub name: String,
    pub attribute_type: AttributeType,
}

impl KeyedEntry for AttributeDefinition {
    type Value = AttributeType;

    open spec fn entry_key(&self) -> Seq<char> {
        self.name@
    }

    open spec fn entry_value(&self) -> AttributeType {
        self.attribute_type
    }
}

/// The attribute map of one component: attribute name to type.
pub type AttributesModel = Map<Seq<char>, AttributeType>;

/// The registry as a map: component name to its attribute map.
pub type RegistryModel = Map<Seq<char>, AttributesModel>;

/// The schema of one component: its name and its attribute definitions.
#[derive(Debug)]
pub struct ComponentSchema {
    pub name: String,
    pub attributes: Vec<AttributeDefinition>,
}

impl View for ComponentSchema {
    type V = AttributesModel;

    open spec fn view(&self) -> AttributesModel {
        keyed_map(self.attributes@)
    }
}

impl KeyedEntry for ComponentSchema {
    type Value = AttributesModel;

    open spec fn entry_key(&self) -> Seq<char> {
        self.name@
    }

    open spec fn entry_value(&self) -> AttributesModel {
        self@
    }
}

impl AttributeDefinition {
    /// A copy of this definition.
    pub fn duplicate(&self) -> (r: AttributeDefinition)
        ensures
            r == *self,
    {
        AttributeDefinition { name: self.name.clone(), attribute_type: self.attribute_type }
    }
}

/// The index of the definition named `name`, if there is one.
fn position_of(definitions: &Vec<AttributeDefinition>, name: &String) -> (r: Option<usize>)
    ensures
        match r {
            Some(j) => j < definitions@.len() && definitions@[j as int].name@ == name@,
            None => forall|k: int| 0 <= k < definitions@.len() ==> #[trigger] definitions@[k].name@ != name@,
        },
{
    let mut j: usize = 0;
    while j < definitions.len()
        invariant
            j <= definitions@.len(),
            forall|k: int| 0 <= k < j ==> #[trigger] definitions@[k].name@ != name@,
        decreases definitions@.len() - j,
    {
        if definitions[j].name == *name {
            return Some(j);
        }
        j = j + 1;
    }
    None
}

impl ComponentSchema {
    /// Attribute names are unique within the component.
    pub open spec fn wf(&self) -> bool {
        unique_keys(self.attributes@)
    }

    /// The type declared for an attribute, if the component declares it.
    pub fn attribute_type(&self, name: &str) -> (r: Option<AttributeType>)
        requires
            self.wf(),
        ensures
            r == (if self@.contains_key(name@) {
                Some(self@[name@])
            } else {
                None::<AttributeType>
            }),
    {
        let key = name.to_owned();
        let mut i: usize = 0;
        while i < self.attributes.len()
            invariant
                self.wf(),
                i <= self.attributes@.len(),
                key@ == name@,
                forall|j: int| 0 <= j < i ==> #[trigger] self.attributes@[j].name@ != name@,
            decreases self.attributes@.len() - i,
        {
            if self.attributes[i].name == key {
                proof {
                    lemma_keyed_map_index(self.attributes@, i as int);
                }
                return Some(self.attributes[i].attribute_type);
            }
            i = i + 1;
        }
        proof {
            lemma_keyed_map_domain(self.attributes@, name@);
        }
        None
    }

    /// A copy of this schema with the same name and the same attribute map.
    pub fn duplicate(&self) -> (r: ComponentSchema)
        ensures
            r.name == self.name,
            r.attributes@ == self.attributes@,
            r@ == self@,
    {
        let mut out: Vec<AttributeDefinition> = Vec::new();
        let mut i: usize = 0;
        while i < self.attributes.len()
            invariant
                i <= self.attributes@.len(),
                out@ == self.attributes@.take(i as int),
            decreases self.attributes@.len() - i,
        {
            out.push(self.attributes[i].duplicate());
            proof {
                assert(self.attributes@.take(i + 1) =~= self.attributes@.take(i as int).push(
                    self.attributes@[i as int],
                ));
            }
            i = i + 1;
        }
        proof {
            assert(self.attributes@.take(i as int) =~= self.attributes@);
        }
        ComponentSchema { name: self.name.clone(), attributes: out }
    }

    /// Builds the schema of a component from a list of definitions. Where two
    /// definitions share a name, the later one wins.
    pub fn from_definitions(name: &str, definitions: Vec<AttributeDefinition>) -> (r: ComponentSchema)
        ensures
            r.wf(),
            r.name@ == name@,
            r@ == keyed_map(definitions@),
    {
        let mut out: Vec<AttributeDefinition> = Vec::new();
        let mut i: usize = 0;
        while i < definitions.len()
            invariant
                i <= definitions@.len(),
                unique_keys(out@),
                keyed_map(out@) == keyed_map(definitions@.take(i as int)),
            decreases definitions@.len() - i,
        {
            let d = definitions[i].duplicate();
            proof {
                assert(definitions@.take(i + 1).drop_last() =~= definitions@.take(i as int));
            }
            let found = position_of(&out, &d.name);
            if let Some(j) = found {
                proof {
                    lemma_keyed_map_update(out@, j as int, d);
                }
                out.set(j, d);
            } else {
                proof {
                    lemma_keyed_push_unique(out@, d);
                }
                out.push(d);
            }
            i = i + 1;
        }
        proof {
            assert(definitions@.take(i as int) =~= definitions@);
        }
        ComponentSchema { name: name.to_owned(), attributes: out }
    }
}

/// The registry: one schema per component name.
pub struct Schema {
    components: Vec<ComponentSchema>,
}

impl View for Schema {
    type V = RegistryModel;

    closed spec fn view(&self) -> RegistryModel {
        keyed_map(self.components@)
    }
}

/// The index of the component schema named `name`, if there is one.
fn component_position(components: &Vec<ComponentSchema>, name: &String) -> (r: Option<usize>)
    ensures
        match r {
            Some(j) => j < components@.len() && components@[j as int].name@ == name@,
            None => forall|k: int| 0 <= k < components@.len() ==> #[trigger] components@[k].name@ != name@,
        },
{
    let mut j: usize = 0;
    while j < components.len()
        invariant
            j <= components@.len(),
            forall|k: int| 0 <= k < j ==> #[trigger] components@[k].name@ != name@,
        decreases components@.len() - j,
    {
        if components[j].name == *name {
            return Some(j);
        }
        j = j + 1;
    }
    None
}

impl Schema {
    /// Component names are unique, and so are attribute names within each
    /// component.
    pub closed spec fn wf(&self) -> bool {
        &&& unique_keys(self.components@)
        &&& forall|i: int| 0 <= i < self.components@.len() ==> #[trigger] self.components@[i].wf()
    }

    /// The empty registry.
    pub fn new() -> (r: Schema)
        ensures
            r.wf(),
            r@ == RegistryModel::empty(),
    {
        let r = Schema { components: Vec::new() };
        proof {
            assert(r@ =~= RegistryModel::empty());
        }
        r
    }

    /// Registers the schema of component `name`, replacing wholesale any
    /// schema registered under that name before. Where two definitions share
    /// a name, the later one wins.
    pub fn add_component(&mut self, name: &str, component_attributes: Vec<AttributeDefinition>)
        requires
            old(self).wf(),
        ensures
            final(self).wf(),
            final(self)@ == old(self)@.insert(name@, keyed_map(component_attributes@)),
    {
        let c = ComponentSchema::from_definitions(name, component_attributes);
        match component_position(&self.components, &c.name) {
            Some(j) => {
                proof {
                    lemma_keyed_map_update(self.components@, j as int, c);
                }
                self.components.set(j, c);
            },
            None => {
                proof {
                    lemma_keyed_push_unique(self.components@, c);
                }
                self.components.push(c);
            },
        }
    }

    /// The schema registered under `name`, if any.
    pub fn lookup(&self, name: &str) -> (r: Option<&ComponentSchema>)
        requires
            self.wf(),
        ensures
            match r {
                Some(c) => {
                    &&& self@.contains_key(name@)
                    &&& c.name@ == name@
                    &&& c@ == self@[name@]
                    &&& c.wf()
                },
                None => !self@.contains_key(name@),
            },
    {
        let key = name.to_owned();
        match component_position(&self.components, &key) {
            Some(j) => {
                proof {
                    lemma_keyed_map_index(self.components@, j as int);
                }
                Some(&self.components[j])
            },
            None => {
                proof {
                    lemma_keyed_map_domain(self.components@, name@);
                }
                None
            },
        }
    }

    /// Every registered schema, each component once, in no particular order.
    pub fn components(&self) -> (r: &Vec<ComponentSchema>)
        requires
            self.wf(),
        ensures
            keyed_map(r@) == self@,
            unique_keys(r@),
            forall|i: int| 0 <= i < r@.len() ==> #[trigger] r@[i].wf(),
    {
        &self.components
    }

    /// The registry that registers each of `components` in turn.
    pub fn from_components(components: Vec<ComponentSchema>) -> (r: Schema)
        ensures
            r.wf(),
            r@ == keyed_map(components@),
    {
        let mut r = Schema::new();
        let mut i: usize = 0;
        while i < components.len()
            invariant
                i <= components@.len(),
                r.wf(),
                r@ == keyed_map(components@.take(i as int)),
            decreases components@.len() - i,
        {
            let c = components[i].duplicate();
            r.add_component(c.name.as_str(), c.attributes);
            proof {
                assert(components@.take(i + 1).drop_last() =~= components@.take(i as int));
            }
            i = i + 1;
        }
        proof {
            assert(components@.take(i as int) =~= components@);
        }
        r
    }

    /// A copy of the registry as it stands, independent of later
    /// registrations.
    pub fn snapshot(&self) -> (r: Schema)
        requires
            self.wf(),
        ensures
            r.wf(),
            r@ == self@,
    {
        let mut out: Vec<ComponentSchema> = Vec::new();
        let mut i: usize = 0;
        while i < self.components.len()
            invariant
                i <= self.components@.len(),
                out@.len() == i,
                forall|j: int| 0 <= j < i ==> #[trigger] out@[j].name == self.components@[j].name
                    && out@[j].attributes@ == self.components@[j].attributes@,
            decreases self.components@.len() - i,
        {
            out.push(self.components[i].duplicate());
            i = i + 1;
        }
        let r = Schema { components: out };
        proof {
            assert forall|a: int, b: int|
                0 <= a < out@.len() && 0 <= b < out@.len() && a != b implies #[trigger] out@[a].entry_key()
                != #[trigger] out@[b].entry_key() by {
                assert(self.components@[a].entry_key() != self.components@[b].entry_key());
            }
            assert forall|j: int| 0 <= j < out@.len() implies #[trigger] out@[j].wf() by {
                assert(out@[j].name == self.components@[j].name);
                assert(self.components@[j].wf());
            }
            lemma_keyed_map_congruent(out@, self.components@);
        }
        r
    }
}

/// The registry after registering each (name, attribute map) in turn.
pub open spec fn register_all(registry: RegistryModel, registrations: Seq<(Seq<char>, AttributesModel)>) -> RegistryModel
    decreases registrations.len(),
{
    if registrations.len() == 0 {
        registry
    } else {
        register_all(registry, registrations.drop_last()).insert(
            registrations.last().0,
            registrations.last().1,
        )
    }
}

/// Registrations under distinct names, one after another, are all kept: each
/// name maps to the whole attribute map it was registered with, and the names
/// registered before keep theirs.
pub proof fn lemma_distinct_registrations_kept(registry: RegistryModel, registrations: Seq<(Seq<char>, AttributesModel)>)
    requires
        forall|i: int, j: int|
            0 <= i < registrations.len() && 0 <= j < registrations.len() && i != j
                ==> #[trigger] registrations[i].0 != #[trigger] registrations[j].0,
    ensures
        forall|i: int| 0 <= i < registrations.len() ==> register_all(registry, registrations).contains_key(
            (#[trigger] registrations[i]).0,
        ) && register_all(registry, registrations)[registrations[i].0] == registrations[i].1,
        forall|k: Seq<char>| #[trigger] registry.contains_key(k) && (forall|i: int| 0 <= i < registrations.len()
            ==> (#[trigger] registrations[i]).0 != k) ==> register_all(registry, registrations).contains_key(k)
            && register_all(registry, registrations)[k] == registry[k],
    decreases registrations.len(),
{
    if registrations.len() > 0 {
        let prefix = registrations.drop_last();
        assert forall|i: int, j: int|
            0 <= i < prefix.len() && 0 <= j < prefix.len() && i != j implies #[trigger] prefix[i].0
            != #[trigger] prefix[j].0 by {
            assert(registrations[i].0 != registrations[j].0);
        }
        lemma_distinct_registrations_kept(registry, prefix);
        assert forall|i: int| 0 <= i < registrations.len() implies register_all(registry, registrations).contains_key(
            (#[trigger] registrations[i]).0,
        ) && register_all(registry, registrations)[registrations[i].0] == registrations[i].1 by {
            if i < registrations.len() - 1 {
                assert(prefix[i] == registrations[i]);
                assert(registrations[i].0 != registrations[registrations.len() - 1].0);
            }
        }
        assert forall|k: Seq<char>| #[trigger] registry.contains_key(k) && (forall|i: int| 0 <= i < registrations.len()
            ==> (#[trigger] registrations[i]).0 != k) implies register_all(registry, registrations).contains_key(k)
            && register_all(registry, registrations)[k] == registry[k] by {
            assert forall|i: int| 0 <= i < prefix.len() implies (#[trigger] prefix[i]).0 != k by {
                assert(prefix[i] == registrations[i]);
            }
            assert(registrations[registrations.len() - 1].0 != k);
        }
    }
}

/// Saving lists the registered schemas; loading registers a listing back.
/// Whatever order the saved listing comes back in, and whatever order each
/// schema's attributes come back in, loading it gives the registry that was
/// saved.
pub proof fn lemma_save_load_round_trip(schema: &Schema, saved: Seq<ComponentSchema>, loaded: Seq<ComponentSchema>)
    requires
        keyed_map(saved) == schema@,
        unique_keys(saved),
        unique_keys(loaded),
        forall|i: int| 0 <= i < saved.len() ==> exists|j: int| 0 <= j < loaded.len()
            && #[trigger] saved[i].name@ == #[trigger] loaded[j].name@ && saved[i]@ == loaded[j]@,
        forall|j: int| 0 <= j < loaded.len() ==> exists|i: int| 0 <= i < saved.len()
            && #[trigger] saved[i].name@ == #[trigger] loaded[j].name@,
    ensures
        keyed_map(loaded) == schema@,
{
    assert forall|i: int| #![trigger saved[i]] 0 <= i < saved.len() implies exists|j: int| 0 <= j < loaded.len()
        && #[trigger] saved[i].entry_key() == #[trigger] loaded[j].entry_key()
        && saved[i].entry_value() == loaded[j].entry_value() by {
        let j = choose|j: int| 0 <= j < loaded.len()
            && #[trigger] saved[i].name@ == #[trigger] loaded[j].name@ && saved[i]@ == loaded[j]@;
        assert(saved[i].entry_key() == loaded[j].entry_key() && saved[i].entry_value() == loaded[j].entry_value());
    }
    assert forall|j: int| #![trigger loaded[j]] 0 <= j < loaded.len() implies exists|i: int| 0 <= i < saved.len()
        && #[trigger] saved[i].entry_key() == #[trigger] loaded[j].entry_key() by {
        let i = choose|i: int| 0 <= i < saved.len() && #[trigger] saved[i].name@ == #[trigger] loaded[j].name@;
        assert(saved[i].entry_key() == loaded[j].entry_key());
    }
    lemma_keyed_map_reordered(saved, loaded);
}

impl Default for Schema {
    fn default() -> (r: Schema)
        ensures
            r.wf(),
            r@ == RegistryModel::empty(),
    {
        Schema::new()
    }
}

} // verus!
