//! Protocol schemas: connection states, traffic directions, packet
//! records with conditional fields, and the dispatcher that maps a
//! (state, direction, opcode) triple to its decode routine.

use vstd::prelude::*;

pub mod record;
pub mod schema;
pub mod value;

use crate::protocol::record::spec_decode_record;
use crate::protocol::schema::spec_lookup;
use crate::protocol::schema::PacketSpec;
use crate::protocol::schema::PacketValue;
use crate::protocol::value::values_model;
use crate::stream::ByteStream;
use crate::stream::CodecError;

verus! {

/// The coarse connection phase gating which opcodes are valid.
#[derive(Clone, Copy, Debug, PartialEq, Eq, Structural)]
pub enum State {
    Handshaking,
    Status,
    Login,
    Play,
}

/// Which endpoint originates a packet.
#[derive(Clone, Copy, Debug, PartialEq, Eq, Structural)]
pub enum Direction {
    ClientBound,
    ServerBound,
}

/// A packet value tagged with the opcode of its record type.
pub trait Packet: Sized {
    /// The opcode this packet was dispatched under.
    spec fn spec_packet_id(&self) -> i32;

    fn packet_id(&self) -> (r: i32)
        ensures
            r == self.spec_packet_id(),
    ;
}

/// One compiled protocol version: named, numbered, and dispatching on a
/// (state, direction, opcode) triple.
pub trait Protocol: Sized {
    /// The version's display name.
    spec fn protocol_name_spec(&self) -> Seq<char>;

    /// The numeric protocol identifier.
    spec fn protocol_id_spec(&self) -> i32;

    /// The registered packet records, in registration order.
    spec fn protocol_entries_spec(&self) -> Seq<PacketSpec>;

    fn name(&self) -> (r: &String)
        ensures
            r@ == self.protocol_name_spec(),
    ;

    fn protocol(&self) -> (r: i32)
        ensures
            r == self.protocol_id_spec(),
    ;

    /// Dispatch. A triple with no registered record yields `Ok(None)`
    /// and consumes nothing: the caller decides whether an unrecognized
    /// opcode is fatal. A registered record is decoded from the stream;
    /// a codec failure propagates unchanged.
    fn packet_by_id(
        &self,
        state: State,
        direction: Direction,
        id: i32,
        reader: &mut ByteStream,
    ) -> (r: Result<Option<PacketValue>, CodecError>)
        requires
            old(reader).wf(),
        ensures
            final(reader).wf(),
            final(reader).buf() == old(reader).buf(),
            old(reader).pos() <= final(reader).pos(),
            match spec_lookup(self.protocol_entries_spec(), state, direction, id) {
                None => r == Ok::<Option<PacketValue>, CodecError>(None) && final(reader).pos()
                    == old(reader).pos(),
                Some(e) => match spec_decode_record(e.fields@, old(reader).remaining()) {
                    Ok((vs, n)) => (r matches Ok(op) && op matches Some(p) && p.state == state
                        && p.direction == direction && p.id == id && values_model(p.fields@)
                        == vs) && final(reader).pos() == old(reader).pos() + n,
                    Err(err) => r == Err::<Option<PacketValue>, CodecError>(err),
                },
            },
    ;
}

} // verus!
