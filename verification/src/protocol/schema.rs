//! The protocol schema: a conflict-checked table of
//! (state, direction, opcode) entries, each carrying a record layout,
//! and the dispatcher that looks a triple up and decodes the record.

use vstd::prelude::*;

use crate::protocol::record::decode_record;
use crate::protocol::record::record_wf;
use crate::protocol::record::spec_decode_record;
use crate::protocol::record::FieldSpec;
use crate::protocol::record::Pred;
use crate::protocol::record::pred_refs_below;
use crate::protocol::value::values_model;
use crate::protocol::value::Value;
use crate::protocol::Direction;
use crate::protocol::Packet;
use crate::protocol::Protocol;
use crate::protocol::State;
use crate::stream::ByteStream;
use crate::stream::CodecError;

verus! {

/// One packet record registered in a schema: its name, the triple that
/// selects it, and its field layout.
#[derive(Debug)]
pub struct PacketSpec {
    pub name: String,
    pub state: State,
    pub direction: Direction,
    pub id: i32,
    pub fields: Vec<FieldSpec>,
}

/// Whether two entries claim the same (state, direction, opcode) triple.
pub open spec fn same_triple(a: PacketSpec, b: PacketSpec) -> bool {
    a.state == b.state && a.direction == b.direction && a.id == b.id
}

/// No two entries claim the same triple.
pub open spec fn entries_unique(entries: Seq<PacketSpec>) -> bool {
    forall|i: int, j: int|
        0 <= i < j < entries.len() ==> !#[trigger] same_triple(entries[i], entries[j])
}

/// Every entry's record layout is well-formed.
pub open spec fn entries_wf(entries: Seq<PacketSpec>) -> bool {
    forall|i: int| 0 <= i < entries.len() ==> #[trigger] record_wf(entries[i].fields@)
}

/// The first entry registered for the triple, if any. In a well-formed
/// schema it is the only one.
pub open spec fn spec_lookup(
    entries: Seq<PacketSpec>,
    state: State,
    direction: Direction,
    id: i32,
) -> Option<PacketSpec>
    decreases entries.len(),
{
    if entries.len() == 0 {
        None
    } else if entries[0].state == state && entries[0].direction == direction && entries[0].id
        == id {
        Some(entries[0])
    } else {
        spec_lookup(entries.subrange(1, entries.len() as int), state, direction, id)
    }
}

/// Why a schema definition is rejected. Both are definition-time errors:
/// a rejected schema is never built, so neither can arise at runtime.
#[derive(Clone, Copy, Debug, PartialEq, Eq, Structural)]
pub enum SchemaError {
    /// A presence predicate reads its own field or a later one, which
    /// decoding cannot honour.
    ForwardPredicate,
    /// Two records claim the same (state, direction, opcode) triple.
    DuplicateOpcode,
}

/// A compiled protocol version: a name, a numeric protocol identifier,
/// and the conflict-checked entry table. Built once by
/// [`ProtocolSchema::new`] and immutable afterwards.
#[derive(Debug)]
pub struct ProtocolSchema {
    name: String,
    protocol: i32,
    entries: Vec<PacketSpec>,
}

/// One decoded packet: the triple it was dispatched under and its
/// fields, in the record's declaration order.
#[derive(Debug)]
pub struct PacketValue {
    pub state: State,
    pub direction: Direction,
    pub id: i32,
    pub fields: Vec<Value>,
}

impl Packet for PacketValue {
    open spec fn spec_packet_id(&self) -> i32 {
        self.id
    }

    fn packet_id(&self) -> i32 {
        self.id
    }
}

/// Whether every index `p` reads lies below `n`.
fn check_pred_below(p: &Pred, n: usize) -> (r: bool)
    ensures
        r == pred_refs_below(*p, n as int),
    decreases p,
{
    match p {
        Pred::Const(_) => true,
        Pred::IsTrue(i) => *i < n,
        Pred::EqInt(i, _) => *i < n,
        Pred::Not(q) => check_pred_below(&**q, n),
        Pred::And(a, b) => check_pred_below(&**a, n) && check_pred_below(&**b, n),
        Pred::Or(a, b) => check_pred_below(&**a, n) && check_pred_below(&**b, n),
    }
}

/// Whether every predicate of the layout reads only earlier fields.
fn check_record_wf(fields: &Vec<FieldSpec>) -> (r: bool)
    ensures
        r == record_wf(fields@),
{
    let mut i: usize = 0;
    while i < fields.len()
        invariant
            i <= fields@.len(),
            forall|k: int| 0 <= k < i ==> match (#[trigger] fields@[k]).cond {
                Some(p) => pred_refs_below(p, k),
                None => true,
            },
        decreases fields@.len() - i,
    {
        let ok = match &fields[i].cond {
            Some(p) => check_pred_below(p, i),
            None => true,
        };
        if !ok {
            return false;
        }
        i = i + 1;
    }
    true
}

impl ProtocolSchema {
    /// The protocol version's display name.
    pub closed spec fn spec_name(&self) -> Seq<char> {
        self.name@
    }

    /// The numeric protocol identifier.
    pub closed spec fn spec_protocol(&self) -> i32 {
        self.protocol
    }

    /// The registered entries, in registration order.
    pub closed spec fn spec_entries(&self) -> Seq<PacketSpec> {
        self.entries@
    }

    /// What [`ProtocolSchema::new`] establishes: unique triples and
    /// well-formed record layouts.
    pub open spec fn wf(&self) -> bool {
        entries_unique(self.spec_entries()) && entries_wf(self.spec_entries())
    }

    /// Builds a schema, rejecting a predicate that reads a field not yet
    /// decoded and a duplicate (state, direction, opcode) triple. A
    /// schema that would dispatch ambiguously is never constructed.
    #[verifier::loop_isolation(false)]
    pub fn new(name: String, protocol: i32, entries: Vec<PacketSpec>) -> (r: Result<
        ProtocolSchema,
        SchemaError,
    >)
        ensures
            r is Ok <==> entries_wf(entries@) && entries_unique(entries@),
            r matches Ok(s) ==> s.wf() && s.spec_name() == name@ && s.spec_protocol() == protocol
                && s.spec_entries() == entries@,
            r == Err::<ProtocolSchema, SchemaError>(SchemaError::ForwardPredicate) <==> !entries_wf(
                entries@,
            ),
            r == Err::<ProtocolSchema, SchemaError>(SchemaError::DuplicateOpcode) <==> (entries_wf(
                entries@,
            ) && !entries_unique(entries@)),
    {
        let mut i: usize = 0;
        while i < entries.len()
            invariant
                i <= entries@.len(),
                forall|k: int| 0 <= k < i ==> #[trigger] record_wf(entries@[k].fields@),
            decreases entries@.len() - i,
        {
            if !check_record_wf(&entries[i].fields) {
                proof {
                    assert(!record_wf(entries@[i as int].fields@));
                }
                return Err(SchemaError::ForwardPredicate);
            }
            i = i + 1;
        }
        let mut a: usize = 0;
        while a < entries.len()
            invariant
                a <= entries@.len(),
                entries_wf(entries@),
                forall|x: int, y: int|
                    0 <= x < y < entries@.len() && x < a ==> !#[trigger] same_triple(
                        entries@[x],
                        entries@[y],
                    ),
            decreases entries@.len() - a,
        {
            let mut b: usize = a + 1;
            while b < entries.len()
                invariant
                    a + 1 <= b <= entries@.len(),
                    forall|y: int|
                        a < y < b ==> !#[trigger] same_triple(entries@[a as int], entries@[y]),
                decreases entries@.len() - b,
            {
                let dup = entries[a].state == entries[b].state && entries[a].direction
                    == entries[b].direction && entries[a].id == entries[b].id;
                if dup {
                    proof {
                        assert(same_triple(entries@[a as int], entries@[b as int]));
                    }
                    return Err(SchemaError::DuplicateOpcode);
                }
                b = b + 1;
            }
            a = a + 1;
        }
        Ok(ProtocolSchema { name, protocol, entries })
    }
}

impl Protocol for ProtocolSchema {
    open spec fn protocol_name_spec(&self) -> Seq<char> {
        self.spec_name()
    }

    open spec fn protocol_id_spec(&self) -> i32 {
        self.spec_protocol()
    }

    open spec fn protocol_entries_spec(&self) -> Seq<PacketSpec> {
        self.spec_entries()
    }

    fn name(&self) -> &String {
        &self.name
    }

    fn protocol(&self) -> i32 {
        self.protocol
    }

    /// The dispatcher: looks the (state, direction, opcode) triple up
    /// and, when a record is registered, decodes it from the stream. An
    /// unregistered triple is not an error: the caller learns there was
    /// no match and the stream stands untouched.
    #[verifier::loop_isolation(false)]
    fn packet_by_id(&self, state: State, direction: Direction, id: i32, reader: &mut ByteStream)
        -> (r: Result<Option<PacketValue>, CodecError>) {
        proof {
            assert(self.spec_entries().skip(0) =~= self.spec_entries());
        }
        let mut i: usize = 0;
        while i < self.entries.len()
            invariant
                reader.wf(),
                reader.buf() == old(reader).buf(),
                reader.pos() == old(reader).pos(),
                i <= self.spec_entries().len(),
                spec_lookup(self.spec_entries(), state, direction, id) == spec_lookup(
                    self.spec_entries().skip(i as int),
                    state,
                    direction,
                    id,
                ),
            decreases self.spec_entries().len() - i,
        {
            proof {
                assert(self.spec_entries().skip(i as int)[0] == self.spec_entries()[i as int]);
            }
            let hit = self.entries[i].state == state && self.entries[i].direction == direction
                && self.entries[i].id == id;
            if hit {
                let vals = match decode_record(&self.entries[i].fields, reader) {
                    Ok(vals) => vals,
                    Err(err) => {
                        return Err(err);
                    },
                };
                return Ok(
                    Some(PacketValue { state, direction, id, fields: vals }),
                );
            }
            i = i + 1;
            proof {
                assert(self.spec_entries().skip((i - 1) as int).subrange(
                    1,
                    self.spec_entries().skip((i - 1) as int).len() as int,
                ) =~= self.spec_entries().skip(i as int));
            }
        }
        proof {
            assert(self.spec_entries().skip(self.spec_entries().len() as int).len() == 0);
        }
        Ok(None)
    }
}

/// Dispatch uniqueness: in a well-formed schema the triples identify at
/// most one record, so dispatch is a function of the triple, never a
/// search among rivals.
pub proof fn lemma_dispatch_unique(entries: Seq<PacketSpec>, i: int, j: int)
    requires
        entries_unique(entries),
        0 <= i < entries.len(),
        0 <= j < entries.len(),
        same_triple(entries[i], entries[j]),
    ensures
        i == j,
{
    if i < j {
        assert(!same_triple(entries[i], entries[j]));
    } else if j < i {
        assert(!same_triple(entries[j], entries[i]));
    }
}

/// What the lookup finds: an entry of the table carrying exactly the
/// asked-for triple, and nothing when no entry carries it.
pub proof fn lemma_lookup_characterises(
    entries: Seq<PacketSpec>,
    state: State,
    direction: Direction,
    id: i32,
)
    ensures
        match spec_lookup(entries, state, direction, id) {
            Some(e) => e.state == state && e.direction == direction && e.id == id && exists|i: int|
                0 <= i < entries.len() && entries[i] == e,
            None => forall|i: int|
                0 <= i < entries.len() ==> !(#[trigger] entries[i].state == state
                    && entries[i].direction == direction && entries[i].id == id),
        },
    decreases entries.len(),
{
    if entries.len() > 0 {
        let tail = entries.subrange(1, entries.len() as int);
        lemma_lookup_characterises(tail, state, direction, id);
        match spec_lookup(entries, state, direction, id) {
            Some(e) => {
                if !(entries[0].state == state && entries[0].direction == direction
                    && entries[0].id == id) {
                    let w = choose|i: int| 0 <= i < tail.len() && tail[i] == e;
                    assert(entries[w + 1] == e);
                }
            },
            None => {
                assert forall|i: int|
                    0 <= i < entries.len() implies !(#[trigger] entries[i].state == state
                    && entries[i].direction == direction && entries[i].id == id) by {
                    if i > 0 {
                        assert(tail[i - 1] == entries[i]);
                    }
                }
            },
        }
    }
}

} // verus!
