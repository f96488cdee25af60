//! The dynamic field model of the schema interpreter.
//!
//! A [`FieldType`] names the wire type of one record field; a [`Value`]
//! carries one decoded field. Their wire format delegates to the typed
//! codecs of [`crate::segment`], so both layers provably agree byte for
//! byte. [`SpecValue`] is the mathematical model of a [`Value`]: it holds
//! sequences where the executable value holds vectors.

use vstd::prelude::*;

use crate::segment::implementation::varint::VarInt;
use crate::segment::Segment;
use crate::stream::ByteStream;
use crate::stream::CodecError;
use crate::wire::be_bytes;
use crate::wire::lemma_be_bytes_len;
use crate::wire::lemma_be_round_trip;
use crate::wire::lemma_nat_from_be_bound;
use crate::wire::lemma_pow128_values;
use crate::wire::lemma_pow256_values;
use crate::wire::lemma_read_varint_bound;
use crate::wire::lemma_varint_bytes_len;
use crate::wire::lemma_varint_round_trip;
use crate::wire::nat_from_be;
use crate::wire::read_be;
use crate::wire::read_varint_raw;
use crate::wire::spec_read_varint;
use crate::wire::varint_bytes;
use crate::wire::write_be;
use crate::wire::write_varint_raw;

verus! {

/// The wire form of the length prefix of a sequence, blob or string.
#[derive(Clone, Copy, Debug, PartialEq, Eq, Structural)]
pub enum LenKind {
    /// A variable-length 32-bit integer.
    Var,
    /// One unsigned byte.
    Byte,
    /// A big-endian 16-bit signed integer; a negative count is malformed.
    Short,
    /// A big-endian 32-bit signed integer; a negative count is malformed.
    Int,
}

/// The wire type of one record field.
#[derive(Debug, PartialEq, Eq)]
pub enum FieldType {
    Bool,
    U8,
    U16,
    U32,
    U64,
    I8,
    I16,
    I32,
    I64,
    /// A variable-length 32-bit integer.
    VarNum,
    /// A string: a `Var` length prefix counting bytes, then that many
    /// bytes of text.
    Str,
    /// A raw byte blob behind a length prefix.
    Blob(LenKind),
    /// A length-prefixed sequence: the prefix counts elements, each
    /// encoded by the element type's codec.
    SeqOf(LenKind, Box<FieldType>),
    /// An optional value; whether it is on the wire at all is the
    /// enclosing record's decision.
    OptionOf(Box<FieldType>),
    /// An owned-indirection wrapper; does not change the wire format.
    Boxed(Box<FieldType>),
}

/// One decoded field.
#[derive(Debug, PartialEq, Eq)]
pub enum Value {
    Bool(bool),
    U8(u8),
    U16(u16),
    U32(u32),
    U64(u64),
    I8(i8),
    I16(i16),
    I32(i32),
    I64(i64),
    VarNum(i32),
    Str(Vec<u8>),
    Blob(Vec<u8>),
    List(Vec<Value>),
    OptVal(Option<Box<Value>>),
    Boxed(Box<Value>),
}

/// The mathematical model of a [`Value`].
pub enum SpecValue {
    Bool(bool),
    U8(u8),
    U16(u16),
    U32(u32),
    U64(u64),
    I8(i8),
    I16(i16),
    I32(i32),
    I64(i64),
    VarNum(i32),
    Str(Seq<u8>),
    Blob(Seq<u8>),
    List(Seq<SpecValue>),
    OptVal(Option<Box<SpecValue>>),
    Boxed(Box<SpecValue>),
}

/// The model of one executable value.
pub open spec fn value_model(v: Value) -> SpecValue
    decreases v,
{
    match v {
        Value::Bool(b) => SpecValue::Bool(b),
        Value::U8(x) => SpecValue::U8(x),
        Value::U16(x) => SpecValue::U16(x),
        Value::U32(x) => SpecValue::U32(x),
        Value::U64(x) => SpecValue::U64(x),
        Value::I8(x) => SpecValue::I8(x),
        Value::I16(x) => SpecValue::I16(x),
        Value::I32(x) => SpecValue::I32(x),
        Value::I64(x) => SpecValue::I64(x),
        Value::VarNum(x) => SpecValue::VarNum(x),
        Value::Str(s) => SpecValue::Str(s@),
        Value::Blob(s) => SpecValue::Blob(s@),
        Value::List(vs) => SpecValue::List(values_model(vs@)),
        Value::OptVal(o) => SpecValue::OptVal(
            match o {
                Some(v) => Some(Box::new(value_model(*v))),
                None => None,
            },
        ),
        Value::Boxed(v) => SpecValue::Boxed(Box::new(value_model(*v))),
    }
}

/// The models of a run of executable values.
pub open spec fn values_model(s: Seq<Value>) -> Seq<SpecValue>
    decreases s,
{
    if s.len() == 0 {
        Seq::empty()
    } else {
        seq![value_model(s[0])] + values_model(s.subrange(1, s.len() as int))
    }
}

impl View for Value {
    type V = SpecValue;

    open spec fn view(&self) -> SpecValue {
        value_model(*self)
    }
}

/// `values_model` is the pointwise model of the sequence.
pub proof fn lemma_values_model(s: Seq<Value>)
    ensures
        values_model(s).len() == s.len(),
        forall|i: int| 0 <= i < s.len() ==> #[trigger] values_model(s)[i] == s[i]@,
    decreases s.len(),
{
    if s.len() > 0 {
        let tail = s.subrange(1, s.len() as int);
        lemma_values_model(tail);
        assert forall|i: int| 0 <= i < s.len() implies #[trigger] values_model(s)[i] == s[i]@ by {
            if i > 0 {
                assert(tail[i - 1] == s[i]);
                assert(values_model(s)[i] == values_model(tail)[i - 1]);
            }
        }
    }
}

/// The default a field of type `t` holds before decoding and when its
/// presence predicate rules it off the wire.
pub open spec fn default_of(t: FieldType) -> SpecValue
    decreases t,
{
    match t {
        FieldType::Bool => SpecValue::Bool(false),
        FieldType::U8 => SpecValue::U8(0),
        FieldType::U16 => SpecValue::U16(0),
        FieldType::U32 => SpecValue::U32(0),
        FieldType::U64 => SpecValue::U64(0),
        FieldType::I8 => SpecValue::I8(0),
        FieldType::I16 => SpecValue::I16(0),
        FieldType::I32 => SpecValue::I32(0),
        FieldType::I64 => SpecValue::I64(0),
        FieldType::VarNum => SpecValue::VarNum(0),
        FieldType::Str => SpecValue::Str(Seq::empty()),
        FieldType::Blob(_) => SpecValue::Blob(Seq::empty()),
        FieldType::SeqOf(_, _) => SpecValue::List(Seq::empty()),
        FieldType::OptionOf(_) => SpecValue::OptVal(None),
        FieldType::Boxed(et) => SpecValue::Boxed(Box::new(default_of(*et))),
    }
}

/// A field's default is a well-formed value of the field's type, so a
/// record built from defaults is always fit to encode.
pub proof fn lemma_default_val_ok(t: FieldType)
    ensures
        val_ok(t, default_of(t)),
    decreases t,
{
    match t {
        FieldType::SeqOf(_, et) => {
            assert(vals_ok(*et, Seq::<SpecValue>::empty()));
        },
        FieldType::Boxed(et) => lemma_default_val_ok(*et),
        _ => {},
    }
}

/// Whether `v` has the shape of type `t` and every length in it fits its
/// prefix: exactly the values the encoder accepts.
pub open spec fn val_ok(t: FieldType, v: SpecValue) -> bool
    decreases t, 0nat,
{
    match t {
        FieldType::Bool => v is Bool,
        FieldType::U8 => v is U8,
        FieldType::U16 => v is U16,
        FieldType::U32 => v is U32,
        FieldType::U64 => v is U64,
        FieldType::I8 => v is I8,
        FieldType::I16 => v is I16,
        FieldType::I32 => v is I32,
        FieldType::I64 => v is I64,
        FieldType::VarNum => v is VarNum,
        FieldType::Str => v matches SpecValue::Str(s) && len_fits(LenKind::Var, s.len()),
        FieldType::Blob(lk) => v matches SpecValue::Blob(s) && len_fits(lk, s.len()),
        FieldType::SeqOf(lk, et) => v matches SpecValue::List(vs) && len_fits(lk, vs.len())
            && vals_ok(*et, vs),
        FieldType::OptionOf(et) => v matches SpecValue::OptVal(o) && match o {
            Some(x) => val_ok(*et, *x),
            None => true,
        },
        FieldType::Boxed(et) => v matches SpecValue::Boxed(x) && val_ok(*et, *x),
    }
}

/// [`val_ok`] for every value of a run.
pub open spec fn vals_ok(t: FieldType, vs: Seq<SpecValue>) -> bool
    decreases t, vs.len() + 1,
{
    vs.len() == 0 || (val_ok(t, vs[0]) && vals_ok(t, vs.subrange(1, vs.len() as int)))
}

/// Whether decoding `v`'s own encoding yields `v` back: every optional
/// value reachable in `v` must be present, since an absent one writes
/// nothing and the decoder would read whatever follows instead.
pub open spec fn val_present(t: FieldType, v: SpecValue) -> bool
    decreases t, 0nat,
{
    match t {
        FieldType::SeqOf(_, et) => v matches SpecValue::List(vs) ==> vals_present(*et, vs),
        FieldType::OptionOf(et) => v matches SpecValue::OptVal(o) ==> match o {
            Some(x) => val_present(*et, *x),
            None => false,
        },
        FieldType::Boxed(et) => v matches SpecValue::Boxed(x) ==> val_present(*et, *x),
        _ => true,
    }
}

/// [`val_present`] for every value of a run.
pub open spec fn vals_present(t: FieldType, vs: Seq<SpecValue>) -> bool
    decreases t, vs.len() + 1,
{
    vs.len() == 0 || (val_present(t, vs[0]) && vals_present(t, vs.subrange(1, vs.len() as int)))
}

/// A run is well-formed exactly when each of its values is.
pub proof fn lemma_vals_elementwise(t: FieldType, vs: Seq<SpecValue>)
    ensures
        vals_ok(t, vs) <==> (forall|i: int| 0 <= i < vs.len() ==> #[trigger] val_ok(t, vs[i])),
        vals_present(t, vs) <==> (forall|i: int|
            0 <= i < vs.len() ==> #[trigger] val_present(t, vs[i])),
    decreases vs.len(),
{
    if vs.len() > 0 {
        let tail = vs.subrange(1, vs.len() as int);
        lemma_vals_elementwise(t, tail);
        if vals_ok(t, vs) {
            assert forall|i: int| 0 <= i < vs.len() implies #[trigger] val_ok(t, vs[i]) by {
                if i > 0 {
                    assert(val_ok(t, tail[i - 1]));
                }
            }
        }
        if forall|i: int| 0 <= i < vs.len() ==> #[trigger] val_ok(t, vs[i]) {
            assert forall|i: int| 0 <= i < tail.len() implies #[trigger] val_ok(t, tail[i]) by {
                assert(tail[i] == vs[i + 1]);
                assert(val_ok(t, vs[i + 1]));
            }
            assert(val_ok(t, vs[0]));
            assert(vals_ok(t, vs));
        }
        if vals_present(t, vs) {
            assert forall|i: int| 0 <= i < vs.len() implies #[trigger] val_present(t, vs[i]) by {
                if i > 0 {
                    assert(val_present(t, tail[i - 1]));
                }
            }
        }
        if forall|i: int| 0 <= i < vs.len() ==> #[trigger] val_present(t, vs[i]) {
            assert forall|i: int| 0 <= i < tail.len() implies #[trigger] val_present(
                t,
                tail[i],
            ) by {
                assert(tail[i] == vs[i + 1]);
                assert(val_present(t, vs[i + 1]));
            }
            assert(val_present(t, vs[0]));
            assert(vals_present(t, vs));
        }
    }
}

/// Whether `count` items can be counted by a `lk` prefix.
pub open spec fn len_fits(lk: LenKind, count: nat) -> bool {
    match lk {
        LenKind::Var => count < 0x1_0000_0000,
        LenKind::Byte => count < 0x100,
        LenKind::Short => count < 0x8000,
        LenKind::Int => count < 0x8000_0000,
    }
}

/// The bytes of a `lk` length prefix counting `count` items.
pub open spec fn len_wire(lk: LenKind, count: nat) -> Seq<u8> {
    match lk {
        LenKind::Var => varint_bytes(count),
        LenKind::Byte => seq![count as u8],
        LenKind::Short => be_bytes(count, 2),
        LenKind::Int => be_bytes(count, 4),
    }
}

/// Reading a `lk` length prefix from the front of `bytes`: the count and
/// the bytes consumed, or the error.
pub open spec fn spec_read_len(lk: LenKind, bytes: Seq<u8>) -> Result<(nat, nat), CodecError> {
    match lk {
        LenKind::Var => match spec_read_varint(bytes, 5) {
            Ok((raw, n)) => Ok(((raw % 0x1_0000_0000) as nat, n)),
            Err(e) => Err(e),
        },
        LenKind::Byte => if bytes.len() >= 1 {
            Ok((bytes[0] as nat, 1))
        } else {
            Err(CodecError::ShortRead)
        },
        LenKind::Short => if bytes.len() >= 2 {
            if nat_from_be(bytes.take(2)) % 0x1_0000 < 0x8000 {
                Ok(((nat_from_be(bytes.take(2)) % 0x1_0000) as nat, 2))
            } else {
                Err(CodecError::InvalidData)
            }
        } else {
            Err(CodecError::ShortRead)
        },
        LenKind::Int => if bytes.len() >= 4 {
            if nat_from_be(bytes.take(4)) % 0x1_0000_0000 < 0x8000_0000 {
                Ok(((nat_from_be(bytes.take(4)) % 0x1_0000_0000) as nat, 4))
            } else {
                Err(CodecError::InvalidData)
            }
        } else {
            Err(CodecError::ShortRead)
        },
    }
}

/// The bytes `v` of type `t` puts on the wire. Meaningful when
/// `val_ok(t, v)`.
pub open spec fn wire_of(t: FieldType, v: SpecValue) -> Seq<u8>
    decreases t, 0nat,
{
    match t {
        FieldType::Bool => match v {
            SpecValue::Bool(b) => b.wire(),
            _ => Seq::empty(),
        },
        FieldType::U8 => match v {
            SpecValue::U8(x) => x.wire(),
            _ => Seq::empty(),
        },
        FieldType::U16 => match v {
            SpecValue::U16(x) => x.wire(),
            _ => Seq::empty(),
        },
        FieldType::U32 => match v {
            SpecValue::U32(x) => x.wire(),
            _ => Seq::empty(),
        },
        FieldType::U64 => match v {
            SpecValue::U64(x) => x.wire(),
            _ => Seq::empty(),
        },
        FieldType::I8 => match v {
            SpecValue::I8(x) => x.wire(),
            _ => Seq::empty(),
        },
        FieldType::I16 => match v {
            SpecValue::I16(x) => x.wire(),
            _ => Seq::empty(),
        },
        FieldType::I32 => match v {
            SpecValue::I32(x) => x.wire(),
            _ => Seq::empty(),
        },
        FieldType::I64 => match v {
            SpecValue::I64(x) => x.wire(),
            _ => Seq::empty(),
        },
        FieldType::VarNum => match v {
            SpecValue::VarNum(x) => VarInt(x).wire(),
            _ => Seq::empty(),
        },
        FieldType::Str => match v {
            SpecValue::Str(s) => len_wire(LenKind::Var, s.len()) + s,
            _ => Seq::empty(),
        },
        FieldType::Blob(lk) => match v {
            SpecValue::Blob(s) => len_wire(lk, s.len()) + s,
            _ => Seq::empty(),
        },
        FieldType::SeqOf(lk, et) => match v {
            SpecValue::List(vs) => len_wire(lk, vs.len()) + wires_of(*et, vs),
            _ => Seq::empty(),
        },
        FieldType::OptionOf(et) => match v {
            SpecValue::OptVal(Some(x)) => wire_of(*et, *x),
            _ => Seq::empty(),
        },
        FieldType::Boxed(et) => match v {
            SpecValue::Boxed(x) => wire_of(*et, *x),
            _ => Seq::empty(),
        },
    }
}

/// The concatenated encodings of a run of values, first to last.
pub open spec fn wires_of(t: FieldType, vs: Seq<SpecValue>) -> Seq<u8>
    decreases t, vs.len() + 1,
{
    if vs.len() == 0 {
        Seq::empty()
    } else {
        wire_of(t, vs[0]) + wires_of(t, vs.skip(1))
    }
}

/// Reading one value of type `t` from the front of `bytes`: the value and
/// the bytes consumed, or the error.
pub open spec fn spec_decode_val(t: FieldType, bytes: Seq<u8>) -> Result<
    (SpecValue, nat),
    CodecError,
>
    decreases t, 0nat,
{
    match t {
        FieldType::Bool => match <bool as Segment>::spec_read(bytes) {
            Ok((v, n)) => Ok((SpecValue::Bool(v), n)),
            Err(e) => Err(e),
        },
        FieldType::U8 => match <u8 as Segment>::spec_read(bytes) {
            Ok((v, n)) => Ok((SpecValue::U8(v), n)),
            Err(e) => Err(e),
        },
        FieldType::U16 => match <u16 as Segment>::spec_read(bytes) {
            Ok((v, n)) => Ok((SpecValue::U16(v), n)),
            Err(e) => Err(e),
        },
        FieldType::U32 => match <u32 as Segment>::spec_read(bytes) {
            Ok((v, n)) => Ok((SpecValue::U32(v), n)),
            Err(e) => Err(e),
        },
        FieldType::U64 => match <u64 as Segment>::spec_read(bytes) {
            Ok((v, n)) => Ok((SpecValue::U64(v), n)),
            Err(e) => Err(e),
        },
        FieldType::I8 => match <i8 as Segment>::spec_read(bytes) {
            Ok((v, n)) => Ok((SpecValue::I8(v), n)),
            Err(e) => Err(e),
        },
        FieldType::I16 => match <i16 as Segment>::spec_read(bytes) {
            Ok((v, n)) => Ok((SpecValue::I16(v), n)),
            Err(e) => Err(e),
        },
        FieldType::I32 => match <i32 as Segment>::spec_read(bytes) {
            Ok((v, n)) => Ok((SpecValue::I32(v), n)),
            Err(e) => Err(e),
        },
        FieldType::I64 => match <i64 as Segment>::spec_read(bytes) {
            Ok((v, n)) => Ok((SpecValue::I64(v), n)),
            Err(e) => Err(e),
        },
        FieldType::VarNum => match <VarInt as Segment>::spec_read(bytes) {
            Ok((v, n)) => Ok((SpecValue::VarNum(v.0), n)),
            Err(e) => Err(e),
        },
        FieldType::Str => match spec_read_len(LenKind::Var, bytes) {
            Ok((c, n)) => if n + c <= bytes.len() {
                Ok((SpecValue::Str(bytes.subrange(n as int, (n + c) as int)), (n + c) as nat))
            } else {
                Err(CodecError::ShortRead)
            },
            Err(e) => Err(e),
        },
        FieldType::Blob(lk) => match spec_read_len(lk, bytes) {
            Ok((c, n)) => if n + c <= bytes.len() {
                Ok((SpecValue::Blob(bytes.subrange(n as int, (n + c) as int)), (n + c) as nat))
            } else {
                Err(CodecError::ShortRead)
            },
            Err(e) => Err(e),
        },
        FieldType::SeqOf(lk, et) => match spec_read_len(lk, bytes) {
            Ok((c, n)) => match spec_decode_list(*et, bytes.skip(n as int), c) {
                Ok((vs, m)) => Ok((SpecValue::List(vs), (n + m) as nat)),
                Err(e) => Err(e),
            },
            Err(e) => Err(e),
        },
        FieldType::OptionOf(et) => match spec_decode_val(*et, bytes) {
            Ok((v, n)) => Ok((SpecValue::OptVal(Some(Box::new(v))), n)),
            Err(e) => Err(e),
        },
        FieldType::Boxed(et) => match spec_decode_val(*et, bytes) {
            Ok((v, n)) => Ok((SpecValue::Boxed(Box::new(v)), n)),
            Err(e) => Err(e),
        },
    }
}

/// Reading `count` values of type `t` in sequence.
pub open spec fn spec_decode_list(t: FieldType, bytes: Seq<u8>, count: nat) -> Result<
    (Seq<SpecValue>, nat),
    CodecError,
>
    decreases t, count,
{
    if count == 0 {
        Ok((Seq::empty(), 0))
    } else {
        match spec_decode_val(t, bytes) {
            Ok((v, n)) => match spec_decode_list(t, bytes.skip(n as int), (count - 1) as nat) {
                Ok((vs, m)) => Ok((seq![v] + vs, (n + m) as nat)),
                Err(e) => Err(e),
            },
            Err(e) => Err(e),
        }
    }
}

/// A length prefix reads back as the count it was written from.
pub proof fn lemma_len_round_trip(lk: LenKind, count: nat, rest: Seq<u8>)
    requires
        len_fits(lk, count),
    ensures
        spec_read_len(lk, len_wire(lk, count) + rest) == Ok::<(nat, nat), CodecError>(
            (count, len_wire(lk, count).len()),
        ),
{
    let w = len_wire(lk, count);
    match lk {
        LenKind::Var => {
            lemma_pow128_values();
            lemma_varint_bytes_len(count, 5);
            lemma_varint_round_trip(count, rest, 5);
        },
        LenKind::Byte => {
            assert((w + rest)[0] == count as u8);
        },
        LenKind::Short => {
            lemma_pow256_values();
            lemma_be_bytes_len(count, 2);
            assert((w + rest).take(2) =~= w);
            lemma_be_round_trip(count, 2);
        },
        LenKind::Int => {
            lemma_pow256_values();
            lemma_be_bytes_len(count, 4);
            assert((w + rest).take(4) =~= w);
            lemma_be_round_trip(count, 4);
        },
    }
}

/// A successfully read length prefix consumed at least one byte, no more
/// than were there, and yielded a count that fits the prefix.
pub proof fn lemma_read_len_bound(lk: LenKind, bytes: Seq<u8>)
    ensures
        spec_read_len(lk, bytes) matches Ok((c, n)) ==> 1 <= n <= bytes.len() && len_fits(
            lk,
            c,
        ),
{
    if lk is Var {
        lemma_read_varint_bound(bytes, 5);
    }
}

/// A successful decode consumed at least one byte and no more than were
/// there.
pub proof fn lemma_decode_val_bound(t: FieldType, bytes: Seq<u8>)
    ensures
        spec_decode_val(t, bytes) matches Ok((v, n)) ==> 1 <= n <= bytes.len(),
    decreases t, 0nat,
{
    match t {
        FieldType::VarNum => {
            lemma_read_varint_bound(bytes, 5);
        },
        FieldType::Str => {
            lemma_read_len_bound(LenKind::Var, bytes);
        },
        FieldType::Blob(lk) => {
            lemma_read_len_bound(lk, bytes);
        },
        FieldType::SeqOf(lk, et) => {
            lemma_read_len_bound(lk, bytes);
            match spec_read_len(lk, bytes) {
                Ok((c, n)) => lemma_decode_list_bound(*et, bytes.skip(n as int), c),
                _ => {},
            }
        },
        FieldType::OptionOf(et) => {
            lemma_decode_val_bound(*et, bytes);
        },
        FieldType::Boxed(et) => {
            lemma_decode_val_bound(*et, bytes);
        },
        _ => {},
    }
}

/// A successfully decoded run holds exactly `count` values and consumed at
/// least one byte for each of them.
pub proof fn lemma_decode_list_bound(t: FieldType, bytes: Seq<u8>, count: nat)
    ensures
        spec_decode_list(t, bytes, count) matches Ok((vs, m)) ==> vs.len() == count && count <= m
            <= bytes.len(),
    decreases t, count,
{
    if count > 0 {
        lemma_decode_val_bound(t, bytes);
        match spec_decode_val(t, bytes) {
            Ok((v, n)) => lemma_decode_list_bound(t, bytes.skip(n as int), (count - 1) as nat),
            _ => {},
        }
    }
}

/// A sequence whose declared element count exceeds the bytes available
/// cannot decode: the result is an error, never a truncated sequence.
pub proof fn lemma_seq_overrun(lk: LenKind, et: FieldType, bytes: Seq<u8>)
    requires
        spec_read_len(lk, bytes) matches Ok((c, n)) && c + n > bytes.len(),
    ensures
        spec_decode_val(FieldType::SeqOf(lk, Box::new(et)), bytes) is Err,
{
    lemma_read_len_bound(lk, bytes);
    match spec_read_len(lk, bytes) {
        Ok((c, n)) => lemma_decode_list_bound(et, bytes.skip(n as int), c),
        _ => {},
    }
}

/// Round trip for one value: decoding its own encoding yields it back and
/// consumes exactly the bytes encoding produced.
#[verifier::rlimit(100)]
pub proof fn lemma_val_round_trip(t: FieldType, v: SpecValue, rest: Seq<u8>)
    requires
        val_ok(t, v),
        val_present(t, v),
    ensures
        spec_decode_val(t, wire_of(t, v) + rest) == Ok::<(SpecValue, nat), CodecError>(
            (v, wire_of(t, v).len()),
        ),
    decreases t, 0nat,
{
    let w = wire_of(t, v);
    match t {
        FieldType::Bool => match v {
            SpecValue::Bool(b) => b.lemma_round_trip(rest),
            _ => {},
        },
        FieldType::U8 => match v {
            SpecValue::U8(x) => x.lemma_round_trip(rest),
            _ => {},
        },
        FieldType::U16 => match v {
            SpecValue::U16(x) => x.lemma_round_trip(rest),
            _ => {},
        },
        FieldType::U32 => match v {
            SpecValue::U32(x) => x.lemma_round_trip(rest),
            _ => {},
        },
        FieldType::U64 => match v {
            SpecValue::U64(x) => x.lemma_round_trip(rest),
            _ => {},
        },
        FieldType::I8 => match v {
            SpecValue::I8(x) => x.lemma_round_trip(rest),
            _ => {},
        },
        FieldType::I16 => match v {
            SpecValue::I16(x) => x.lemma_round_trip(rest),
            _ => {},
        },
        FieldType::I32 => match v {
            SpecValue::I32(x) => x.lemma_round_trip(rest),
            _ => {},
        },
        FieldType::I64 => match v {
            SpecValue::I64(x) => x.lemma_round_trip(rest),
            _ => {},
        },
        FieldType::VarNum => match v {
            SpecValue::VarNum(x) => VarInt(x).lemma_round_trip(rest),
            _ => {},
        },
        FieldType::Str => match v {
            SpecValue::Str(s) => lemma_prefixed_bytes_round_trip(LenKind::Var, s, rest),
            _ => {},
        },
        FieldType::Blob(lk) => match v {
            SpecValue::Blob(s) => lemma_prefixed_bytes_round_trip(lk, s, rest),
            _ => {},
        },
        FieldType::SeqOf(lk, et) => match v {
            SpecValue::List(vs) => lemma_prefixed_list_round_trip(lk, *et, vs, rest),
            _ => {},
        },
        FieldType::OptionOf(et) => match v {
            SpecValue::OptVal(Some(x)) => lemma_val_round_trip(*et, *x, rest),
            _ => {},
        },
        FieldType::Boxed(et) => match v {
            SpecValue::Boxed(x) => lemma_val_round_trip(*et, *x, rest),
            _ => {},
        },
    }
}

/// Round trip for the body of a string or blob: the length prefix reads
/// back, and the payload is recovered exactly.
proof fn lemma_prefixed_bytes_round_trip(lk: LenKind, s: Seq<u8>, rest: Seq<u8>)
    requires
        len_fits(lk, s.len()),
    ensures
        spec_read_len(lk, (len_wire(lk, s.len()) + s) + rest) == Ok::<(nat, nat), CodecError>(
            (s.len(), len_wire(lk, s.len()).len()),
        ),
        ((len_wire(lk, s.len()) + s) + rest).subrange(
            len_wire(lk, s.len()).len() as int,
            (len_wire(lk, s.len()).len() + s.len()) as int,
        ) == s,
{
    let lw = len_wire(lk, s.len());
    lemma_len_round_trip(lk, s.len(), s + rest);
    assert((lw + s) + rest =~= lw + (s + rest));
    assert(((lw + s) + rest).subrange(lw.len() as int, (lw.len() + s.len()) as int) =~= s);
}

/// Round trip for a whole length-prefixed sequence value.
proof fn lemma_prefixed_list_round_trip(lk: LenKind, et: FieldType, vs: Seq<SpecValue>, rest: Seq<u8>)
    requires
        len_fits(lk, vs.len()),
        vals_ok(et, vs),
        vals_present(et, vs),
    ensures
        spec_decode_val(
            FieldType::SeqOf(lk, Box::new(et)),
            (len_wire(lk, vs.len()) + wires_of(et, vs)) + rest,
        ) == Ok::<(SpecValue, nat), CodecError>(
            (
                SpecValue::List(vs),
                (len_wire(lk, vs.len()) + wires_of(et, vs)).len(),
            ),
        ),
    decreases et, vs.len() + 2,
{
    let lw = len_wire(lk, vs.len());
    let ew = wires_of(et, vs);
    lemma_len_round_trip(lk, vs.len(), ew + rest);
    assert((lw + ew) + rest =~= lw + (ew + rest));
    assert(((lw + ew) + rest).skip(lw.len() as int) =~= ew + rest);
    lemma_list_round_trip(et, vs, rest);
}

/// Round trip for a run of values decoded with its exact count.
pub proof fn lemma_list_round_trip(t: FieldType, vs: Seq<SpecValue>, rest: Seq<u8>)
    requires
        vals_ok(t, vs),
        vals_present(t, vs),
    ensures
        spec_decode_list(t, wires_of(t, vs) + rest, vs.len()) == Ok::<
            (Seq<SpecValue>, nat),
            CodecError,
        >((vs, wires_of(t, vs).len())),
    decreases t, vs.len() + 1,
{
    if vs.len() > 0 {
        let tail = vs.subrange(1, vs.len() as int);
        let w0 = wire_of(t, vs[0]);
        let wt = wires_of(t, tail);
        assert(vs.skip(1) == tail);
        assert(wires_of(t, vs) == w0 + wt);
        lemma_val_round_trip(t, vs[0], wt + rest);
        assert(spec_decode_val(t, wires_of(t, vs) + rest) == Ok::<(SpecValue, nat), CodecError>(
            (vs[0], w0.len()),
        )) by {
            assert(wires_of(t, vs) + rest =~= w0 + (wt + rest));
        }
        assert((wires_of(t, vs) + rest).skip(w0.len() as int) =~= wt + rest);
        lemma_list_round_trip(t, tail, rest);
        assert(seq![vs[0]] + tail =~= vs);
    } else {
        assert(vs =~= Seq::<SpecValue>::empty());
    }
}

/// Appending a value to a run appends its model.
pub proof fn lemma_values_model_push(s: Seq<Value>, v: Value)
    ensures
        values_model(s.push(v)) == values_model(s) + seq![v@],
{
    lemma_values_model(s.push(v));
    lemma_values_model(s);
    assert(values_model(s.push(v)) =~= values_model(s) + seq![v@]);
}

/// Replacing a value in a run replaces its model.
pub proof fn lemma_values_model_update(s: Seq<Value>, i: int, v: Value)
    requires
        0 <= i < s.len(),
    ensures
        values_model(s.update(i, v)) == values_model(s).update(i, v@),
{
    lemma_values_model(s.update(i, v));
    lemma_values_model(s);
    assert(values_model(s.update(i, v)) =~= values_model(s).update(i, v@));
}

/// The encoding of a concatenation is the concatenation of the encodings.
pub proof fn lemma_wires_of_concat(t: FieldType, a: Seq<SpecValue>, b: Seq<SpecValue>)
    ensures
        wires_of(t, a + b) == wires_of(t, a) + wires_of(t, b),
    decreases a.len(),
{
    if a.len() == 0 {
        assert(a + b =~= b);
        assert(wires_of(t, a) + wires_of(t, b) =~= wires_of(t, b));
    } else {
        let ta = a.subrange(1, a.len() as int);
        assert((a + b)[0] == a[0]);
        assert((a + b).subrange(1, (a + b).len() as int) =~= ta + b);
        lemma_wires_of_concat(t, ta, b);
        assert(a.skip(1) == ta);
        assert(wire_of(t, a[0]) + (wires_of(t, ta) + wires_of(t, b)) =~= (wire_of(t, a[0])
            + wires_of(t, ta)) + wires_of(t, b));
    }
}

/// The encoding of a single value.
pub proof fn lemma_wires_of_single(t: FieldType, v: SpecValue)
    ensures
        wires_of(t, seq![v]) == wire_of(t, v),
{
    let s1 = seq![v];
    assert(s1[0] == v);
    assert(s1.subrange(1, 1).len() == 0);
    assert(wires_of(t, s1.subrange(1, 1)) == Seq::<u8>::empty());
    assert(wire_of(t, v) + Seq::<u8>::empty() =~= wire_of(t, v));
}

/// Reads a length prefix; the count is widened to `u64` so every prefix
/// kind fits it.
pub fn read_len(lk: LenKind, reader: &mut ByteStream) -> (r: Result<u64, CodecError>)
    requires
        old(reader).wf(),
    ensures
        final(reader).wf(),
        final(reader).buf() == old(reader).buf(),
        old(reader).pos() <= final(reader).pos(),
        match spec_read_len(lk, old(reader).remaining()) {
            Ok((c, n)) => r == Ok::<u64, CodecError>(c as u64) && final(reader).pos() == old(
                reader,
            ).pos() + n,
            Err(e) => r == Err::<u64, CodecError>(e),
        },
{
    match lk {
        LenKind::Var => {
            let raw = match read_varint_raw(reader, 5) {
                Ok(raw) => raw,
                Err(e) => {
                    return Err(e);
                },
            };
            proof {
                lemma_read_varint_bound(old(reader).remaining(), 5);
                lemma_pow128_values();
            }
            Ok(raw % 0x1_0000_0000)
        },
        LenKind::Byte => {
            let b = match reader.read_byte() {
                Ok(b) => b,
                Err(e) => {
                    return Err(e);
                },
            };
            Ok(b as u64)
        },
        LenKind::Short => {
            let v = match read_be(reader, 2) {
                Ok(v) => v,
                Err(e) => {
                    return Err(e);
                },
            };
            proof {
                lemma_nat_from_be_bound(old(reader).remaining().take(2));
                lemma_pow256_values();
            }
            if v < 0x8000 {
                Ok(v)
            } else {
                Err(CodecError::InvalidData)
            }
        },
        LenKind::Int => {
            let v = match read_be(reader, 4) {
                Ok(v) => v,
                Err(e) => {
                    return Err(e);
                },
            };
            proof {
                lemma_nat_from_be_bound(old(reader).remaining().take(4));
                lemma_pow256_values();
            }
            if v < 0x8000_0000 {
                Ok(v)
            } else {
                Err(CodecError::InvalidData)
            }
        },
    }
}

/// Appends a length prefix counting `count` items.
pub fn write_len(lk: LenKind, count: u64, writer: &mut ByteStream)
    requires
        old(writer).wf(),
        len_fits(lk, count as nat),
    ensures
        final(writer).wf(),
        final(writer).buf() == old(writer).buf() + len_wire(lk, count as nat),
        final(writer).pos() == old(writer).pos(),
{
    proof {
        lemma_pow256_values();
    }
    match lk {
        LenKind::Var => write_varint_raw(writer, count),
        LenKind::Byte => writer.write_byte(count as u8),
        LenKind::Short => write_be(writer, count, 2),
        LenKind::Int => write_be(writer, count, 4),
    }
}

/// The default value a field of type `t` starts from.
pub fn make_default(t: &FieldType) -> (v: Value)
    ensures
        v@ == default_of(*t),
    decreases t,
{
    match t {
        FieldType::Bool => Value::Bool(false),
        FieldType::U8 => Value::U8(0),
        FieldType::U16 => Value::U16(0),
        FieldType::U32 => Value::U32(0),
        FieldType::U64 => Value::U64(0),
        FieldType::I8 => Value::I8(0),
        FieldType::I16 => Value::I16(0),
        FieldType::I32 => Value::I32(0),
        FieldType::I64 => Value::I64(0),
        FieldType::VarNum => Value::VarNum(0),
        FieldType::Str => Value::Str(Vec::new()),
        FieldType::Blob(_) => Value::Blob(Vec::new()),
        FieldType::SeqOf(_, _) => {
            let items: Vec<Value> = Vec::new();
            let v = Value::List(items);
            proof {
                assert(values_model(Seq::<Value>::empty()) == Seq::<SpecValue>::empty());
            }
            v
        },
        FieldType::OptionOf(_) => Value::OptVal(None),
        FieldType::Boxed(et) => Value::Boxed(Box::new(make_default(&**et))),
    }
}

/// Reads a length prefix and then that many raw bytes.
fn read_prefixed_bytes(lk: LenKind, reader: &mut ByteStream) -> (r: Result<Vec<u8>, CodecError>)
    requires
        old(reader).wf(),
    ensures
        final(reader).wf(),
        final(reader).buf() == old(reader).buf(),
        old(reader).pos() <= final(reader).pos(),
        match spec_read_len(lk, old(reader).remaining()) {
            Ok((c, n)) => if n + c <= old(reader).remaining().len() {
                r matches Ok(bs) && bs@ == old(reader).remaining().subrange(n as int, (n + c) as int)
                    && final(reader).pos() == old(reader).pos() + n + c
            } else {
                r == Err::<Vec<u8>, CodecError>(CodecError::ShortRead)
            },
            Err(e) => r == Err::<Vec<u8>, CodecError>(e),
        },
{
    let c = match read_len(lk, reader) {
        Ok(c) => c,
        Err(e) => {
            return Err(e);
        },
    };
    proof {
        lemma_read_len_bound(lk, old(reader).remaining());
        assert(reader.remaining() =~= old(reader).remaining().skip(
            (reader.pos() - old(reader).pos()) as int,
        ));
    }
    let bs = match reader.read_bytes(c as usize) {
        Ok(bs) => bs,
        Err(e) => {
            return Err(e);
        },
    };
    proof {
        let rem = old(reader).remaining();
        let n = (spec_read_len(lk, rem)->Ok_0).1;
        assert(rem.skip(n as int).take(c as int) =~= rem.subrange(n as int, n + c));
    }
    Ok(bs)
}

/// Decodes one typed scalar through its [`Segment`] codec.
fn decode_scalar<T: Segment>(reader: &mut ByteStream) -> (r: Result<T, CodecError>)
    requires
        old(reader).wf(),
    ensures
        final(reader).wf(),
        final(reader).buf() == old(reader).buf(),
        old(reader).pos() <= final(reader).pos(),
        match T::spec_read(old(reader).remaining()) {
            Ok((v, n)) => r matches Ok(x) && x == v && final(reader).pos() == old(reader).pos()
                + n,
            Err(e) => r == Err::<T, CodecError>(e),
        },
{
    let mut x = T::codec_default();
    match x.read_from_stream(reader) {
        Ok(()) => Ok(x),
        Err(e) => Err(e),
    }
}

/// Decodes one value of type `t`, consuming exactly the bytes that
/// determine it, as [`spec_decode_val`] says.
#[verifier::rlimit(100)]
pub fn decode_val(t: &FieldType, reader: &mut ByteStream) -> (r: Result<Value, CodecError>)
    requires
        old(reader).wf(),
    ensures
        final(reader).wf(),
        final(reader).buf() == old(reader).buf(),
        old(reader).pos() <= final(reader).pos(),
        match spec_decode_val(*t, old(reader).remaining()) {
            Ok((sv, n)) => r matches Ok(v) && v@ == sv && final(reader).pos() == old(reader).pos()
                + n,
            Err(e) => r == Err::<Value, CodecError>(e),
        },
    decreases t, 0nat,
{
    match t {
        FieldType::Bool => {
            match decode_scalar::<bool>(reader) {
                Ok(x) => Ok(Value::Bool(x)),
                Err(e) => Err(e),
            }
        },
        FieldType::U8 => {
            match decode_scalar::<u8>(reader) {
                Ok(x) => Ok(Value::U8(x)),
                Err(e) => Err(e),
            }
        },
        FieldType::U16 => {
            match decode_scalar::<u16>(reader) {
                Ok(x) => Ok(Value::U16(x)),
                Err(e) => Err(e),
            }
        },
        FieldType::U32 => {
            match decode_scalar::<u32>(reader) {
                Ok(x) => Ok(Value::U32(x)),
                Err(e) => Err(e),
            }
        },
        FieldType::U64 => {
            match decode_scalar::<u64>(reader) {
                Ok(x) => Ok(Value::U64(x)),
                Err(e) => Err(e),
            }
        },
        FieldType::I8 => {
            match decode_scalar::<i8>(reader) {
                Ok(x) => Ok(Value::I8(x)),
                Err(e) => Err(e),
            }
        },
        FieldType::I16 => {
            match decode_scalar::<i16>(reader) {
                Ok(x) => Ok(Value::I16(x)),
                Err(e) => Err(e),
            }
        },
        FieldType::I32 => {
            match decode_scalar::<i32>(reader) {
                Ok(x) => Ok(Value::I32(x)),
                Err(e) => Err(e),
            }
        },
        FieldType::I64 => {
            match decode_scalar::<i64>(reader) {
                Ok(x) => Ok(Value::I64(x)),
                Err(e) => Err(e),
            }
        },
        FieldType::VarNum => {
            match decode_scalar::<VarInt>(reader) {
                Ok(x) => Ok(Value::VarNum(x.0)),
                Err(e) => Err(e),
            }
        },
        FieldType::Str => {
            match read_prefixed_bytes(LenKind::Var, reader) {
                Ok(bs) => Ok(Value::Str(bs)),
                Err(e) => Err(e),
            }
        },
        FieldType::Blob(lk) => {
            match read_prefixed_bytes(*lk, reader) {
                Ok(bs) => Ok(Value::Blob(bs)),
                Err(e) => Err(e),
            }
        },
        FieldType::SeqOf(lk, et) => decode_list(*lk, &**et, reader),
        FieldType::OptionOf(et) => {
            match decode_val(&**et, reader) {
                Ok(v) => Ok(Value::OptVal(Some(Box::new(v)))),
                Err(e) => Err(e),
            }
        },
        FieldType::Boxed(et) => {
            match decode_val(&**et, reader) {
                Ok(v) => Ok(Value::Boxed(Box::new(v))),
                Err(e) => Err(e),
            }
        },
    }
}

/// Decodes a whole length-prefixed sequence: the prefix, then that many
/// elements.
#[verifier::loop_isolation(false)]
fn decode_list(lk: LenKind, et: &FieldType, reader: &mut ByteStream) -> (r: Result<
    Value,
    CodecError,
>)
    requires
        old(reader).wf(),
    ensures
        final(reader).wf(),
        final(reader).buf() == old(reader).buf(),
        old(reader).pos() <= final(reader).pos(),
        match spec_decode_val(FieldType::SeqOf(lk, Box::new(*et)), old(reader).remaining()) {
            Ok((sv, n)) => r matches Ok(v) && v@ == sv && final(reader).pos() == old(reader).pos()
                + n,
            Err(e) => r == Err::<Value, CodecError>(e),
        },
    decreases et, 1nat,
{
    let ghost whole = FieldType::SeqOf(lk, Box::new(*et));
    let ghost rem_start = old(reader).remaining();
    let c = match read_len(lk, reader) {
        Ok(c) => c,
        Err(e) => {
            return Err(e);
        },
    };
    proof {
        lemma_read_len_bound(lk, rem_start);
        assert(reader.remaining() =~= rem_start.skip((reader.pos() - old(reader).pos()) as int));
    }
    let ghost rem0 = reader.remaining();
    let ghost pos0 = reader.pos();
    let mut items: Vec<Value> = Vec::new();
    let mut j: u64 = 0;
    proof {
        match spec_decode_list(*et, rem0, c as nat) {
            Ok((vs, m)) => {
                assert(values_model(Seq::<Value>::empty()) + vs =~= vs);
            },
            Err(e) => {},
        }
    }
    while j < c
        invariant
            reader.wf(),
            reader.buf() == old(reader).buf(),
            pos0 <= reader.pos() <= reader.buf().len(),
            rem0 == reader.buf().skip(pos0 as int),
            j <= c,
            items@.len() == j as nat,
            spec_decode_list(*et, rem0, c as nat) == match spec_decode_list(
                *et,
                reader.remaining(),
                (c - j) as nat,
            ) {
                Ok((vs, m)) => Ok::<(Seq<SpecValue>, nat), CodecError>(
                    (values_model(items@) + vs, ((reader.pos() - pos0) + m) as nat),
                ),
                Err(e) => Err::<(Seq<SpecValue>, nat), CodecError>(e),
            },
        decreases c - j,
    {
        let ghost rem_here = reader.remaining();
        let ghost pos_here = reader.pos();
        let v = match decode_val(et, reader) {
            Ok(v) => v,
            Err(e) => {
                return Err(e);
            },
        };
        proof {
            assert(reader.remaining() =~= rem_here.skip((reader.pos() - pos_here) as int));
        }
        let ghost items_before = items@;
        items.push(v);
        j = j + 1;
        proof {
            lemma_values_model_push(items_before, v);
            match spec_decode_list(*et, reader.remaining(), (c - j) as nat) {
                Ok((vs, m)) => {
                    assert((values_model(items_before) + seq![v@]) + vs =~= values_model(
                        items_before,
                    ) + (seq![v@] + vs));
                },
                Err(e) => {},
            }
        }
    }
    proof {
        assert(values_model(items@) + Seq::<SpecValue>::empty() =~= values_model(items@));
    }
    Ok(Value::List(items))
}

/// Encodes one value of type `t`, appending exactly [`wire_of`] to the
/// stream. Encoding cannot fail on a well-formed value.
pub fn encode_val(t: &FieldType, v: &Value, writer: &mut ByteStream) -> (r: Result<
    (),
    CodecError,
>)
    requires
        old(writer).wf(),
        val_ok(*t, v@),
    ensures
        final(writer).wf(),
        r == Ok::<(), CodecError>(()),
        final(writer).buf() == old(writer).buf() + wire_of(*t, v@),
        final(writer).pos() == old(writer).pos(),
    decreases t, 0nat,
{
    match (t, v) {
        (FieldType::Bool, Value::Bool(b)) => b.write_to_stream(writer),
        (FieldType::U8, Value::U8(x)) => x.write_to_stream(writer),
        (FieldType::U16, Value::U16(x)) => x.write_to_stream(writer),
        (FieldType::U32, Value::U32(x)) => x.write_to_stream(writer),
        (FieldType::U64, Value::U64(x)) => x.write_to_stream(writer),
        (FieldType::I8, Value::I8(x)) => x.write_to_stream(writer),
        (FieldType::I16, Value::I16(x)) => x.write_to_stream(writer),
        (FieldType::I32, Value::I32(x)) => x.write_to_stream(writer),
        (FieldType::I64, Value::I64(x)) => x.write_to_stream(writer),
        (FieldType::VarNum, Value::VarNum(x)) => VarInt(*x).write_to_stream(writer),
        (FieldType::Str, Value::Str(bs)) => {
            write_len(LenKind::Var, bs.len() as u64, writer);
            writer.write_bytes(bs);
            proof {
                assert((old(writer).buf() + len_wire(LenKind::Var, bs@.len())) + bs@ =~= old(
                    writer,
                ).buf() + (len_wire(LenKind::Var, bs@.len()) + bs@));
            }
            Ok(())
        },
        (FieldType::Blob(lk), Value::Blob(bs)) => {
            write_len(*lk, bs.len() as u64, writer);
            writer.write_bytes(bs);
            proof {
                assert((old(writer).buf() + len_wire(*lk, bs@.len())) + bs@ =~= old(
                    writer,
                ).buf() + (len_wire(*lk, bs@.len()) + bs@));
            }
            Ok(())
        },
        (FieldType::SeqOf(lk, et), Value::List(vs)) => {
            proof {
                lemma_values_model(vs@);
            }
            encode_list(*lk, &**et, vs, writer)
        },
        (FieldType::OptionOf(et), Value::OptVal(o)) => match o {
            Some(bv) => encode_val(&**et, &**bv, writer),
            None => {
                proof {
                    assert(old(writer).buf() + wire_of(*t, v@) =~= old(writer).buf());
                }
                Ok(())
            },
        },
        (FieldType::Boxed(et), Value::Boxed(bv)) => encode_val(&**et, &**bv, writer),
        _ => {
            proof {
                assert(false);
            }
            Err(CodecError::InvalidData)
        },
    }
}

/// Encodes a whole length-prefixed sequence: the prefix, then each
/// element in order.
#[verifier::loop_isolation(false)]
fn encode_list(lk: LenKind, et: &FieldType, vs: &Vec<Value>, writer: &mut ByteStream) -> (r:
    Result<(), CodecError>)
    requires
        old(writer).wf(),
        len_fits(lk, vs@.len()),
        vals_ok(*et, values_model(vs@)),
    ensures
        final(writer).wf(),
        r == Ok::<(), CodecError>(()),
        final(writer).buf() == old(writer).buf() + (len_wire(lk, values_model(vs@).len())
            + wires_of(*et, values_model(vs@))),
        final(writer).pos() == old(writer).pos(),
    decreases et, 1nat,
{
    let ghost m = values_model(vs@);
    proof {
        lemma_values_model(vs@);
        lemma_vals_elementwise(*et, m);
    }
    write_len(lk, vs.len() as u64, writer);
    let ghost buf1 = writer.buf();
    let mut i: usize = 0;
    while i < vs.len()
        invariant
            writer.wf(),
            writer.pos() == old(writer).pos(),
            i <= vs.len(),
            writer.buf() == buf1 + wires_of(*et, m.take(i as int)),
        decreases vs.len() - i,
    {
        proof {
            assert(m.take((i + 1) as int) =~= m.take(i as int) + seq![m[i as int]]);
            lemma_wires_of_concat(*et, m.take(i as int), seq![m[i as int]]);
            lemma_wires_of_single(*et, m[i as int]);
        }
        let r = encode_val(et, &vs[i], writer);
        proof {
            assert((buf1 + wires_of(*et, m.take(i as int))) + wire_of(*et, m[i as int]) =~= buf1
                + wires_of(*et, m.take((i + 1) as int)));
        }
        i = i + 1;
    }
    proof {
        assert(m.take(vs@.len() as int) =~= m);
        assert((old(writer).buf() + len_wire(lk, m.len())) + wires_of(*et, m) =~= old(
            writer,
        ).buf() + (len_wire(lk, m.len()) + wires_of(*et, m)));
    }
    Ok(())
}

} // verus!
