//! Packet records: ordered fields, each with a wire type and an optional
//! presence predicate.
//!
//! Decoding starts from a fully defaulted record and fills the fields in
//! declaration order; a predicate is evaluated against the partially
//! decoded record, so it may only read fields declared earlier. Encoding
//! evaluates predicates against the fully populated record and skips
//! absent fields. Fields absent under their predicate keep their default
//! and never touch the stream.

use vstd::prelude::*;

use crate::protocol::value::decode_val;
use crate::protocol::value::default_of;
use crate::protocol::value::encode_val;
use crate::protocol::value::lemma_val_round_trip;
use crate::protocol::value::lemma_values_model;
use crate::protocol::value::make_default;
use crate::protocol::value::spec_decode_val;
use crate::protocol::value::val_ok;
use crate::protocol::value::val_present;
use crate::protocol::value::value_model;
use crate::protocol::value::values_model;
use crate::protocol::value::wire_of;
use crate::protocol::value::FieldType;
use crate::protocol::value::SpecValue;
use crate::protocol::value::Value;
use crate::stream::ByteStream;
use crate::stream::CodecError;

verus! {

/// A presence predicate: a pure boolean function of the record's fields,
/// kept as a small expression tree so that a schema stays plain data.
#[derive(Debug, PartialEq, Eq)]
pub enum Pred {
    /// Always the given truth value.
    Const(bool),
    /// The field at the index is boolean true.
    IsTrue(usize),
    /// The field at the index is an integer equal to the constant.
    EqInt(usize, i64),
    Not(Box<Pred>),
    And(Box<Pred>, Box<Pred>),
    Or(Box<Pred>, Box<Pred>),
}

/// The number a value carries, when it is of an integer kind.
pub open spec fn int_of(v: SpecValue) -> Option<int> {
    match v {
        SpecValue::U8(x) => Some(x as int),
        SpecValue::U16(x) => Some(x as int),
        SpecValue::U32(x) => Some(x as int),
        SpecValue::U64(x) => Some(x as int),
        SpecValue::I8(x) => Some(x as int),
        SpecValue::I16(x) => Some(x as int),
        SpecValue::I32(x) => Some(x as int),
        SpecValue::I64(x) => Some(x as int),
        SpecValue::VarNum(x) => Some(x as int),
        _ => None,
    }
}

/// Evaluates a predicate against a record's fields. An index outside the
/// record, or a comparison against a non-integer field, is false.
pub open spec fn pred_eval(p: Pred, vals: Seq<SpecValue>) -> bool
    decreases p,
{
    match p {
        Pred::Const(b) => b,
        Pred::IsTrue(i) => i < vals.len() && vals[i as int] == SpecValue::Bool(true),
        Pred::EqInt(i, c) => i < vals.len() && int_of(vals[i as int]) == Some(c as int),
        Pred::Not(q) => !pred_eval(*q, vals),
        Pred::And(a, b) => pred_eval(*a, vals) && pred_eval(*b, vals),
        Pred::Or(a, b) => pred_eval(*a, vals) || pred_eval(*b, vals),
    }
}

/// Whether every field index the predicate reads lies below `n`.
pub open spec fn pred_refs_below(p: Pred, n: int) -> bool
    decreases p,
{
    match p {
        Pred::Const(_) => true,
        Pred::IsTrue(i) => i < n,
        Pred::EqInt(i, _) => i < n,
        Pred::Not(q) => pred_refs_below(*q, n),
        Pred::And(a, b) => pred_refs_below(*a, n) && pred_refs_below(*b, n),
        Pred::Or(a, b) => pred_refs_below(*a, n) && pred_refs_below(*b, n),
    }
}

/// A predicate that reads only fields below `n` cannot tell apart two
/// records that agree below `n`.
pub proof fn lemma_pred_eval_agrees(p: Pred, a: Seq<SpecValue>, b: Seq<SpecValue>, n: int)
    requires
        pred_refs_below(p, n),
        a.len() == b.len(),
        n <= a.len(),
        forall|i: int| 0 <= i < n ==> a[i] == b[i],
    ensures
        pred_eval(p, a) == pred_eval(p, b),
    decreases p,
{
    match p {
        Pred::Not(q) => lemma_pred_eval_agrees(*q, a, b, n),
        Pred::And(x, y) => {
            lemma_pred_eval_agrees(*x, a, b, n);
            lemma_pred_eval_agrees(*y, a, b, n);
        },
        Pred::Or(x, y) => {
            lemma_pred_eval_agrees(*x, a, b, n);
            lemma_pred_eval_agrees(*y, a, b, n);
        },
        _ => {},
    }
}

/// Compares an integer-kind field against a constant.
fn int_eq(v: &Value, c: i64) -> (r: bool)
    ensures
        r == (int_of(v@) == Some(c as int)),
{
    match v {
        Value::U8(x) => *x as i64 == c,
        Value::U16(x) => *x as i64 == c,
        Value::U32(x) => *x as i64 == c,
        Value::U64(x) => c >= 0 && *x == c as u64,
        Value::I8(x) => *x as i64 == c,
        Value::I16(x) => *x as i64 == c,
        Value::I32(x) => *x as i64 == c,
        Value::I64(x) => *x == c,
        Value::VarNum(x) => *x as i64 == c,
        _ => false,
    }
}

/// Evaluates a predicate against the record decoded (or to be encoded)
/// so far.
pub fn eval_pred(p: &Pred, vals: &Vec<Value>) -> (r: bool)
    ensures
        r == pred_eval(*p, values_model(vals@)),
    decreases p,
{
    proof {
        lemma_values_model(vals@);
    }
    match p {
        Pred::Const(b) => *b,
        Pred::IsTrue(i) => {
            if *i < vals.len() {
                match &vals[*i] {
                    Value::Bool(b) => *b,
                    _ => false,
                }
            } else {
                false
            }
        },
        Pred::EqInt(i, c) => {
            if *i < vals.len() {
                int_eq(&vals[*i], *c)
            } else {
                false
            }
        },
        Pred::Not(q) => !eval_pred(&**q, vals),
        Pred::And(a, b) => eval_pred(&**a, vals) && eval_pred(&**b, vals),
        Pred::Or(a, b) => eval_pred(&**a, vals) || eval_pred(&**b, vals),
    }
}

/// One field of a packet record: a name (kept for the schema's reader;
/// the codec goes by position), a wire type, and an optional presence
/// predicate. A field without a predicate is always on the wire.
#[derive(Debug)]
pub struct FieldSpec {
    pub name: String,
    pub ty: FieldType,
    pub cond: Option<Pred>,
}

/// Whether field `i` is on the wire for a record holding `vals`.
pub open spec fn present(fields: Seq<FieldSpec>, vals: Seq<SpecValue>, i: int) -> bool {
    match fields[i].cond {
        Some(p) => pred_eval(p, vals),
        None => true,
    }
}

/// A record layout is well-formed when every predicate reads only fields
/// declared strictly earlier: during decode those are the only ones
/// populated.
pub open spec fn record_wf(fields: Seq<FieldSpec>) -> bool {
    forall|i: int| 0 <= i < fields.len() ==> match (#[trigger] fields[i]).cond {
        Some(p) => pred_refs_below(p, i),
        None => true,
    }
}

/// The fully defaulted record decoding starts from.
pub open spec fn defaults_of(fields: Seq<FieldSpec>) -> Seq<SpecValue> {
    Seq::new(fields.len(), |i: int| default_of(fields[i].ty))
}

/// Decoding a record from field `i` on: `vals` holds the fields decoded
/// so far (earlier ones) and defaults for the rest.
pub open spec fn spec_decode_fields_from(
    fields: Seq<FieldSpec>,
    vals: Seq<SpecValue>,
    bytes: Seq<u8>,
    i: int,
) -> Result<(Seq<SpecValue>, nat), CodecError>
    decreases fields.len() - i,
{
    if i < 0 || i >= fields.len() {
        Ok((vals, 0))
    } else if present(fields, vals, i) {
        match spec_decode_val(fields[i].ty, bytes) {
            Ok((v, n)) => match spec_decode_fields_from(
                fields,
                vals.update(i, v),
                bytes.skip(n as int),
                i + 1,
            ) {
                Ok((fv, m)) => Ok((fv, (n + m) as nat)),
                Err(e) => Err(e),
            },
            Err(e) => Err(e),
        }
    } else {
        spec_decode_fields_from(fields, vals, bytes, i + 1)
    }
}

/// Decoding a whole record from the front of `bytes`.
pub open spec fn spec_decode_record(fields: Seq<FieldSpec>, bytes: Seq<u8>) -> Result<
    (Seq<SpecValue>, nat),
    CodecError,
> {
    spec_decode_fields_from(fields, defaults_of(fields), bytes, 0)
}

/// The bytes a record writes from field `i` on; predicates see the whole
/// record.
pub open spec fn spec_encode_fields_from(
    fields: Seq<FieldSpec>,
    vals: Seq<SpecValue>,
    i: int,
) -> Seq<u8>
    decreases fields.len() - i,
{
    if i < 0 || i >= fields.len() {
        Seq::empty()
    } else {
        (if present(fields, vals, i) {
            wire_of(fields[i].ty, vals[i])
        } else {
            Seq::empty()
        }) + spec_encode_fields_from(fields, vals, i + 1)
    }
}

/// The bytes a whole record writes.
pub open spec fn spec_encode_record(fields: Seq<FieldSpec>, vals: Seq<SpecValue>) -> Seq<u8> {
    spec_encode_fields_from(fields, vals, 0)
}

/// The values a record may hold for encoding: one value per field, of
/// the field's shape wherever the field is present.
pub open spec fn record_vals_ok(fields: Seq<FieldSpec>, vals: Seq<SpecValue>) -> bool {
    &&& vals.len() == fields.len()
    &&& forall|i: int|
        0 <= i < fields.len() ==> (#[trigger] present(fields, vals, i) ==> val_ok(
            fields[i].ty,
            vals[i],
        ))
}

/// The internal consistency the round trip rests on: a present field
/// holds a value that reads back (every optional in it is populated),
/// and an absent field holds its default.
pub open spec fn record_consistent(fields: Seq<FieldSpec>, vals: Seq<SpecValue>) -> bool {
    &&& forall|i: int|
        0 <= i < fields.len() ==> (#[trigger] present(fields, vals, i) ==> val_present(
            fields[i].ty,
            vals[i],
        ))
    &&& forall|i: int|
        0 <= i < fields.len() ==> (!#[trigger] present(fields, vals, i) ==> vals[i] == default_of(
            fields[i].ty,
        ))
}

/// The record as it stands before field `i` is decoded: the true values
/// below `i`, defaults from `i` on.
pub open spec fn masked(fields: Seq<FieldSpec>, vals: Seq<SpecValue>, i: int) -> Seq<SpecValue> {
    Seq::new(
        fields.len(),
        |j: int|
            if j < i {
                vals[j]
            } else {
                default_of(fields[j].ty)
            },
    )
}

proof fn lemma_record_round_trip_from(
    fields: Seq<FieldSpec>,
    vals: Seq<SpecValue>,
    rest: Seq<u8>,
    i: int,
)
    requires
        record_wf(fields),
        record_vals_ok(fields, vals),
        record_consistent(fields, vals),
        0 <= i <= fields.len(),
    ensures
        spec_decode_fields_from(
            fields,
            masked(fields, vals, i),
            spec_encode_fields_from(fields, vals, i) + rest,
            i,
        ) == Ok::<(Seq<SpecValue>, nat), CodecError>(
            (vals, spec_encode_fields_from(fields, vals, i).len()),
        ),
    decreases fields.len() - i,
{
    let mi = masked(fields, vals, i);
    let w = spec_encode_fields_from(fields, vals, i);
    if i == fields.len() {
        assert(mi =~= vals);
    } else {
        assert(match fields[i].cond {
            Some(p) => pred_refs_below(p, i),
            None => true,
        });
        match fields[i].cond {
            Some(p) => lemma_pred_eval_agrees(p, mi, vals, i),
            None => {},
        }
        assert(present(fields, mi, i) == present(fields, vals, i));
        let wtail = spec_encode_fields_from(fields, vals, i + 1);
        if present(fields, vals, i) {
            let wi = wire_of(fields[i].ty, vals[i]);
            lemma_val_round_trip(fields[i].ty, vals[i], wtail + rest);
            assert(w + rest =~= wi + (wtail + rest));
            assert((w + rest).skip(wi.len() as int) =~= wtail + rest);
            assert(mi.update(i, vals[i]) =~= masked(fields, vals, i + 1));
            lemma_record_round_trip_from(fields, vals, rest, i + 1);
        } else {
            assert(vals[i] == default_of(fields[i].ty));
            assert(mi =~= masked(fields, vals, i + 1));
            assert(w + rest =~= wtail + rest);
            lemma_record_round_trip_from(fields, vals, rest, i + 1);
        }
    }
}

/// Round trip for a whole record: decoding what encoding produced yields
/// the same record, field for field, and consumes exactly as many bytes
/// as encoding wrote — whatever bytes follow.
pub proof fn lemma_record_round_trip(fields: Seq<FieldSpec>, vals: Seq<SpecValue>, rest: Seq<u8>)
    requires
        record_wf(fields),
        record_vals_ok(fields, vals),
        record_consistent(fields, vals),
    ensures
        spec_decode_record(fields, spec_encode_record(fields, vals) + rest) == Ok::<
            (Seq<SpecValue>, nat),
            CodecError,
        >((vals, spec_encode_record(fields, vals).len())),
{
    assert(masked(fields, vals, 0) =~= defaults_of(fields));
    lemma_record_round_trip_from(fields, vals, rest, 0);
}

/// Predicates are stable under the round trip: the decoded record marks
/// exactly the fields present that the encoded record's predicates
/// marked present.
pub proof fn lemma_presence_stable(fields: Seq<FieldSpec>, vals: Seq<SpecValue>, rest: Seq<u8>)
    requires
        record_wf(fields),
        record_vals_ok(fields, vals),
        record_consistent(fields, vals),
    ensures
        spec_decode_record(fields, spec_encode_record(fields, vals) + rest) matches Ok((dv, n))
            && forall|i: int|
            0 <= i < fields.len() ==> #[trigger] present(fields, dv, i) == present(
                fields,
                vals,
                i,
            ),
{
    lemma_record_round_trip(fields, vals, rest);
}

/// Decodes a record: every field starts from its default, then each
/// field in declaration order whose predicate holds against the record
/// decoded so far is decoded in place.
#[verifier::loop_isolation(false)]
pub fn decode_record(fields: &Vec<FieldSpec>, reader: &mut ByteStream) -> (r: Result<
    Vec<Value>,
    CodecError,
>)
    requires
        old(reader).wf(),
    ensures
        final(reader).wf(),
        final(reader).buf() == old(reader).buf(),
        old(reader).pos() <= final(reader).pos(),
        match spec_decode_record(fields@, old(reader).remaining()) {
            Ok((vs, n)) => r matches Ok(vals) && values_model(vals@) == vs && final(reader).pos()
                == old(reader).pos() + n,
            Err(e) => r == Err::<Vec<Value>, CodecError>(e),
        },
{
    let mut vals: Vec<Value> = Vec::new();
    let mut i: usize = 0;
    while i < fields.len()
        invariant
            i <= fields@.len(),
            vals@.len() == i,
            values_model(vals@) == defaults_of(fields@).take(i as int),
        decreases fields@.len() - i,
    {
        let ghost before = vals@;
        let d = make_default(&fields[i].ty);
        vals.push(d);
        i = i + 1;
        proof {
            crate::protocol::value::lemma_values_model_push(before, d);
            assert(values_model(vals@) =~= defaults_of(fields@).take(i as int));
        }
    }
    proof {
        assert(values_model(vals@) =~= defaults_of(fields@));
    }
    let mut j: usize = 0;
    while j < fields.len()
        invariant
            reader.wf(),
            reader.buf() == old(reader).buf(),
            old(reader).pos() <= reader.pos() <= reader.buf().len(),
            j <= fields@.len(),
            vals@.len() == fields@.len(),
            spec_decode_record(fields@, old(reader).remaining()) == match spec_decode_fields_from(
                fields@,
                values_model(vals@),
                reader.remaining(),
                j as int,
            ) {
                Ok((fv, m)) => Ok::<(Seq<SpecValue>, nat), CodecError>(
                    (fv, ((reader.pos() - old(reader).pos()) + m) as nat),
                ),
                Err(e) => Err::<(Seq<SpecValue>, nat), CodecError>(e),
            },
        decreases fields@.len() - j,
    {
        let go = match &fields[j].cond {
            Some(p) => eval_pred(p, &vals),
            None => true,
        };
        proof {
            assert(go == present(fields@, values_model(vals@), j as int));
        }
        if go {
            let ghost rem_here = reader.remaining();
            let ghost pos_here = reader.pos();
            let v = match decode_val(&fields[j].ty, reader) {
                Ok(v) => v,
                Err(e) => {
                    return Err(e);
                },
            };
            proof {
                assert(reader.remaining() =~= rem_here.skip((reader.pos() - pos_here) as int));
            }
            let ghost before = vals@;
            vals.set(j, v);
            proof {
                crate::protocol::value::lemma_values_model_update(before, j as int, v);
            }
        }
        j = j + 1;
    }
    Ok(vals)
}

/// Encodes a record: each field in declaration order whose predicate
/// holds against the fully populated record is written; the others put
/// nothing on the wire. Encoding a well-formed record cannot fail.
#[verifier::loop_isolation(false)]
pub fn encode_record(fields: &Vec<FieldSpec>, vals: &Vec<Value>, writer: &mut ByteStream) -> (r:
    Result<(), CodecError>)
    requires
        old(writer).wf(),
        vals@.len() == fields@.len(),
        record_vals_ok(fields@, values_model(vals@)),
    ensures
        final(writer).wf(),
        r == Ok::<(), CodecError>(()),
        final(writer).buf() == old(writer).buf() + spec_encode_record(
            fields@,
            values_model(vals@),
        ),
        final(writer).pos() == old(writer).pos(),
{
    let ghost m = values_model(vals@);
    proof {
        lemma_values_model(vals@);
    }
    let mut i: usize = 0;
    while i < fields.len()
        invariant
            writer.wf(),
            writer.pos() == old(writer).pos(),
            i <= fields@.len(),
            old(writer).buf() + spec_encode_record(fields@, m) == writer.buf()
                + spec_encode_fields_from(fields@, m, i as int),
        decreases fields@.len() - i,
    {
        let go = match &fields[i].cond {
            Some(p) => eval_pred(p, vals),
            None => true,
        };
        proof {
            assert(go == present(fields@, m, i as int));
        }
        if go {
            proof {
                assert(val_ok(fields@[i as int].ty, m[i as int]));
                assert(m[i as int] == vals@[i as int]@);
            }
            let ghost buf_b = writer.buf();
            let r2 = encode_val(&fields[i].ty, &vals[i], writer);
            proof {
                let wi = wire_of(fields@[i as int].ty, m[i as int]);
                assert(buf_b + (wi + spec_encode_fields_from(fields@, m, i + 1)) =~= (buf_b + wi)
                    + spec_encode_fields_from(fields@, m, i + 1));
            }
        } else {
            proof {
                assert(Seq::<u8>::empty() + spec_encode_fields_from(fields@, m, i + 1)
                    =~= spec_encode_fields_from(fields@, m, i + 1));
            }
        }
        i = i + 1;
    }
    proof {
        assert(writer.buf() + Seq::<u8>::empty() =~= writer.buf());
    }
    Ok(())
}

} // verus!
