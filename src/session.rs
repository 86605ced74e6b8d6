//! What a session does with each inbound event: register a definition, decode
//! a payload, skip what is malformed, stop when the connection ends.
use vstd::prelude::*;
use crate::keyed::keyed_map;
use crate::schema::{AttributeDefinition, Schema};
use crate::entity::{Component, ComponentModel, DecodeError, DecodeErrorModel, RawComponent, decode_component};

verus! {

/// A message that defines (or redefines) the schema of a component.
#[derive(Debug)]
pub struct DefinitionMessage {
    pub component_name: String,
    pub attributes: Vec<AttributeDefinition>,
}

/// What a session reads from its connection.
#[derive(Debug)]
pub enum SessionEvent {
    /// A component definition.
    Definition(DefinitionMessage),
    /// A component payload to decode.
    Payload(RawComponent),
    /// Bytes that parse as neither message.
    Malformed,
    /// The peer closed the connection (a read of zero bytes).
    Closed,
    /// Reading failed.
    ReadFailed,
}

/// What the session does next.
#[derive(Debug)]
pub enum SessionAction {
    /// Write the registry to the persisted store, then keep reading.
    Persist,
    /// Hand the decode result downstream, then keep reading.
    Forward(Result<Component, DecodeError>),
    /// Ignore the message and keep reading.
    KeepReading,
    /// End the session and release the connection.
    Close,
}

/// Applies one event to the registry and says what the session does next.
pub fn handle_event(schema: &mut Schema, event: SessionEvent) -> (r: SessionAction)
    requires
        old(schema).wf(),
    ensures
        final(schema).wf(),
        match event {
            SessionEvent::Definition(d) => {
                &&& final(schema)@ == old(schema)@.insert(d.component_name@, keyed_map(d.attributes@))
                &&& r is Persist
            },
            SessionEvent::Payload(p) => {
                &&& final(schema)@ == old(schema)@
                &&& r matches SessionAction::Forward(res) && match res {
                    Ok(c) => decode_component(old(schema)@, p.name@, p.values@) == Ok::<ComponentModel, DecodeErrorModel>(c@),
                    Err(e) => decode_component(old(schema)@, p.name@, p.values@) == Err::<ComponentModel, DecodeErrorModel>(e@),
                }
            },
            SessionEvent::Malformed => final(schema)@ == old(schema)@ && r is KeepReading,
            _ => final(schema)@ == old(schema)@ && r is Close,
        },
{
    match event {
        SessionEvent::Definition(d) => {
            schema.add_component(d.component_name.as_str(), d.attributes);
            SessionAction::Persist
        },
        SessionEvent::Payload(p) => SessionAction::Forward(Component::parse_component(schema, &p)),
        SessionEvent::Malformed => SessionAction::KeepReading,
        SessionEvent::Closed => SessionAction::Close,
        SessionEvent::ReadFailed => SessionAction::Close,
    }
}

} // verus!
