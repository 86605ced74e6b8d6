use ecs_schema::entity::{Component, ComponentAttributeValue, DecodeErrorKind, RawAttribute, RawComponent};
use ecs_schema::query::get_entities_in_all_map;
use ecs_schema::schema::{AttributeDefinition, AttributeType, ComponentSchema, Schema};
use ecs_schema::session::{handle_event, DefinitionMessage, SessionAction, SessionEvent};

fn def(name: &str, attribute_type: AttributeType) -> AttributeDefinition {
    AttributeDefinition { name: String::from(name), attribute_type }
}

fn type_of(schema: &Schema, component: &str, attribute: &str) -> Option<AttributeType> {
    schema.lookup(component).and_then(|c| c.attribute_type(attribute))
}

#[test]
fn lookup_of_missing_component_is_none() {
    let schema = Schema::new();
    assert!(schema.lookup("Velocity").is_none());
    assert!(Schema::default().components().is_empty());
}

#[test]
fn register_replaces_wholesale() {
    let mut schema = Schema::new();
    schema.add_component("P", vec![def("a", AttributeType::Integer), def("b", AttributeType::Float)]);
    schema.add_component("P", vec![def("c", AttributeType::String)]);
    let p = schema.lookup("P").unwrap();
    assert_eq!(p.attributes.len(), 1);
    assert_eq!(type_of(&schema, "P", "c"), Some(AttributeType::String));
    assert_eq!(type_of(&schema, "P", "a"), None);
    assert_eq!(schema.components().len(), 1);
}

#[test]
fn later_duplicate_definition_wins() {
    let mut schema = Schema::new();
    schema.add_component("P", vec![def("a", AttributeType::Integer), def("a", AttributeType::Float)]);
    assert_eq!(schema.lookup("P").unwrap().attributes.len(), 1);
    assert_eq!(type_of(&schema, "P", "a"), Some(AttributeType::Float));
}

#[test]
fn distinct_registrations_are_all_kept() {
    let mut schema = Schema::new();
    let names = ["A", "B", "C", "D", "E"];
    for n in names.iter() {
        schema.add_component(n, vec![def("v", AttributeType::Integer)]);
    }
    let snap = schema.snapshot();
    for n in names.iter() {
        assert_eq!(type_of(&snap, n, "v"), Some(AttributeType::Integer));
    }
    assert_eq!(snap.components().len(), 5);
}

#[test]
fn snapshot_ignores_later_registrations() {
    let mut schema = Schema::new();
    schema.add_component("P", vec![def("a", AttributeType::Integer), def("b", AttributeType::Integer)]);
    let snap = schema.snapshot();
    schema.add_component("P", vec![def("c", AttributeType::Float)]);
    assert_eq!(type_of(&snap, "P", "a"), Some(AttributeType::Integer));
    assert_eq!(type_of(&snap, "P", "b"), Some(AttributeType::Integer));
    assert_eq!(type_of(&snap, "P", "c"), None);
}

#[test]
fn saved_listing_loads_back() {
    let mut schema = Schema::new();
    schema.add_component("P", vec![def("a", AttributeType::Integer), def("b", AttributeType::String)]);
    schema.add_component("Q", vec![def("c", AttributeType::Float)]);
    let mut listing: Vec<ComponentSchema> = schema.components().iter().map(|c| c.duplicate()).collect();
    listing.reverse();
    listing[1].attributes.reverse();
    let loaded = Schema::from_components(listing);
    assert_eq!(loaded.components().len(), 2);
    assert_eq!(type_of(&loaded, "P", "a"), Some(AttributeType::Integer));
    assert_eq!(type_of(&loaded, "P", "b"), Some(AttributeType::String));
    assert_eq!(type_of(&loaded, "Q", "c"), Some(AttributeType::Float));
    assert_eq!(loaded.lookup("P").unwrap().attributes.len(), 2);
}

#[test]
fn schema_from_definitions_normalizes() {
    let c = ComponentSchema::from_definitions(
        "P",
        vec![def("a", AttributeType::Integer), def("b", AttributeType::Float), def("a", AttributeType::String)],
    );
    assert_eq!(c.name, "P");
    assert_eq!(c.attributes.len(), 2);
    assert_eq!(c.attribute_type("a"), Some(AttributeType::String));
    assert_eq!(c.attribute_type("b"), Some(AttributeType::Float));
    assert_eq!(c.attribute_type("z"), None);
}

#[test]
fn session_registers_then_decodes() {
    let mut schema = Schema::new();
    let action = handle_event(
        &mut schema,
        SessionEvent::Definition(DefinitionMessage {
            component_name: String::from("Velocity"),
            attributes: vec![def("x", AttributeType::Integer)],
        }),
    );
    assert!(matches!(action, SessionAction::Persist));
    assert!(schema.lookup("Velocity").is_some());
    let payload = RawComponent {
        name: String::from("Velocity"),
        values: vec![RawAttribute { name: String::from("x"), value: 517i128.to_be_bytes().to_vec() }],
    };
    match handle_event(&mut schema, SessionEvent::Payload(payload)) {
        SessionAction::Forward(Ok(Component { name, attributes })) => {
            assert_eq!(name, "Velocity");
            assert!(matches!(attributes[0].value, ComponentAttributeValue::Integer(517)));
        }
        _ => panic!("expected a decoded component"),
    }
    let payload = RawComponent { name: String::from("Explosive"), values: vec![] };
    match handle_event(&mut schema, SessionEvent::Payload(payload)) {
        SessionAction::Forward(Err(e)) => assert_eq!(e.kind, DecodeErrorKind::UnknownComponent),
        _ => panic!("expected a decode error"),
    }
}

#[test]
fn session_skips_malformed_and_closes() {
    let mut schema = Schema::new();
    assert!(matches!(handle_event(&mut schema, SessionEvent::Malformed), SessionAction::KeepReading));
    assert!(matches!(handle_event(&mut schema, SessionEvent::Closed), SessionAction::Close));
    assert!(matches!(handle_event(&mut schema, SessionEvent::ReadFailed), SessionAction::Close));
    assert!(schema.components().is_empty());
}

fn keys(list: &[&str]) -> Vec<String> {
    list.iter().map(|s| String::from(*s)).collect()
}

#[test]
fn entities_in_all_maps() {
    let maps = vec![
        keys(&["A", "C", "E", "F", "H"]),
        keys(&["C", "D", "I", "E", "H"]),
        keys(&["A", "E", "I", "Z", "H"]),
    ];
    let mut r = get_entities_in_all_map(&maps).unwrap();
    r.sort();
    assert_eq!(r, keys(&["E", "H"]));
    assert!(get_entities_in_all_map(&vec![]).is_none());
    let r = get_entities_in_all_map(&vec![keys(&["B", "A", "B"])]).unwrap();
    assert_eq!(r, keys(&["B", "A"]));
}
