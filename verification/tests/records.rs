//! Tests of the dynamic value codec, packet records with conditional
//! fields, and the schema dispatcher.

use packet_codec::protocol::record::decode_record;
use packet_codec::protocol::record::encode_record;
use packet_codec::protocol::record::eval_pred;
use packet_codec::protocol::record::FieldSpec;
use packet_codec::protocol::record::Pred;
use packet_codec::protocol::schema::PacketSpec;
use packet_codec::protocol::schema::ProtocolSchema;
use packet_codec::protocol::schema::SchemaError;
use packet_codec::protocol::value::decode_val;
use packet_codec::protocol::value::encode_val;
use packet_codec::protocol::value::make_default;
use packet_codec::protocol::value::FieldType;
use packet_codec::protocol::value::LenKind;
use packet_codec::protocol::value::Value;
use packet_codec::protocol::Direction;
use packet_codec::protocol::Packet;
use packet_codec::protocol::Protocol;
use packet_codec::protocol::State;
use packet_codec::stream::ByteStream;
use packet_codec::stream::CodecError;

fn encode_value_of(t: &FieldType, v: &Value) -> Vec<u8> {
    let mut w = ByteStream::new(Vec::new());
    encode_val(t, v, &mut w).expect("encode");
    w.into_vec()
}

fn decode_value_of(t: &FieldType, bytes: Vec<u8>) -> Result<Value, CodecError> {
    let mut r = ByteStream::new(bytes);
    decode_val(t, &mut r)
}

fn field(name: &str, ty: FieldType) -> FieldSpec {
    FieldSpec { name: name.to_string(), ty, cond: None }
}

fn field_when(name: &str, ty: FieldType, p: Pred) -> FieldSpec {
    FieldSpec { name: name.to_string(), ty, cond: Some(p) }
}

#[test]
fn string_wire_format() {
    let t = FieldType::Str;
    let v = Value::Str(b"hi".to_vec());
    assert_eq!(encode_value_of(&t, &v), vec![2, b'h', b'i']);
    assert_eq!(decode_value_of(&t, vec![2, b'h', b'i']), Ok(v));
    // the empty string is a single zero-length prefix
    assert_eq!(encode_value_of(&t, &Value::Str(Vec::new())), vec![0]);
    // a length that exceeds the bytes available fails
    assert_eq!(
        decode_value_of(&t, vec![5, b'h', b'i']),
        Err(CodecError::ShortRead)
    );
}

#[test]
fn blob_prefix_kinds() {
    let bytes = b"abc".to_vec();
    let var = FieldType::Blob(LenKind::Var);
    assert_eq!(
        encode_value_of(&var, &Value::Blob(bytes.clone())),
        vec![3, b'a', b'b', b'c']
    );
    let short = FieldType::Blob(LenKind::Short);
    assert_eq!(
        encode_value_of(&short, &Value::Blob(bytes.clone())),
        vec![0, 3, b'a', b'b', b'c']
    );
    let int = FieldType::Blob(LenKind::Int);
    assert_eq!(
        encode_value_of(&int, &Value::Blob(bytes.clone())),
        vec![0, 0, 0, 3, b'a', b'b', b'c']
    );
    let byte = FieldType::Blob(LenKind::Byte);
    assert_eq!(
        encode_value_of(&byte, &Value::Blob(bytes.clone())),
        vec![3, b'a', b'b', b'c']
    );
    // a negative signed prefix is malformed, not a huge count
    assert_eq!(
        decode_value_of(&short, vec![0xFF, 0xFF]),
        Err(CodecError::InvalidData)
    );
    assert_eq!(
        decode_value_of(&int, vec![0x80, 0, 0, 0]),
        Err(CodecError::InvalidData)
    );
}

#[test]
fn sequence_zero_length_round_trip() {
    // encoding then decoding a zero-length sequence yields an empty one
    let t = FieldType::SeqOf(LenKind::Var, Box::new(FieldType::U8));
    let v = Value::List(Vec::new());
    let bytes = encode_value_of(&t, &v);
    assert_eq!(bytes, vec![0]);
    assert_eq!(decode_value_of(&t, bytes), Ok(Value::List(Vec::new())));
}

#[test]
fn sequence_round_trip() {
    let t = FieldType::SeqOf(LenKind::Var, Box::new(FieldType::U16));
    let v = Value::List(vec![Value::U16(1), Value::U16(0x1234)]);
    let bytes = encode_value_of(&t, &v);
    assert_eq!(bytes, vec![2, 0, 1, 0x12, 0x34]);
    assert_eq!(decode_value_of(&t, bytes), Ok(v));
}

#[test]
fn sequence_length_exceeds_available() {
    // a declared element count beyond the bytes available is a stream
    // error, never a truncated sequence
    let t = FieldType::SeqOf(LenKind::Var, Box::new(FieldType::U8));
    assert_eq!(
        decode_value_of(&t, vec![5, 1, 2]),
        Err(CodecError::ShortRead)
    );
}

#[test]
fn nested_sequence_round_trip() {
    let t = FieldType::SeqOf(
        LenKind::Var,
        Box::new(FieldType::SeqOf(LenKind::Var, Box::new(FieldType::U8))),
    );
    let v = Value::List(vec![
        Value::List(vec![Value::U8(1)]),
        Value::List(Vec::new()),
    ]);
    let bytes = encode_value_of(&t, &v);
    assert_eq!(bytes, vec![2, 1, 1, 0]);
    assert_eq!(decode_value_of(&t, bytes), Ok(v));
}

#[test]
fn defaults_per_type() {
    assert_eq!(make_default(&FieldType::Bool), Value::Bool(false));
    assert_eq!(make_default(&FieldType::U16), Value::U16(0));
    assert_eq!(make_default(&FieldType::VarNum), Value::VarNum(0));
    assert_eq!(make_default(&FieldType::Str), Value::Str(Vec::new()));
    assert_eq!(
        make_default(&FieldType::OptionOf(Box::new(FieldType::U8))),
        Value::OptVal(None)
    );
    assert_eq!(
        make_default(&FieldType::Boxed(Box::new(FieldType::I8))),
        Value::Boxed(Box::new(Value::I8(0)))
    );
}

#[test]
fn predicate_evaluation() {
    let vals = vec![Value::Bool(true), Value::VarNum(2), Value::U64(9)];
    assert!(eval_pred(&Pred::Const(true), &vals));
    assert!(eval_pred(&Pred::IsTrue(0), &vals));
    assert!(!eval_pred(&Pred::IsTrue(1), &vals));
    assert!(eval_pred(&Pred::EqInt(1, 2), &vals));
    assert!(eval_pred(&Pred::EqInt(2, 9), &vals));
    assert!(!eval_pred(&Pred::EqInt(2, -9), &vals));
    assert!(eval_pred(
        &Pred::Or(Box::new(Pred::EqInt(1, 0)), Box::new(Pred::EqInt(1, 2))),
        &vals
    ));
    assert!(eval_pred(
        &Pred::And(Box::new(Pred::IsTrue(0)), Box::new(Pred::EqInt(1, 2))),
        &vals
    ));
    assert!(!eval_pred(&Pred::Not(Box::new(Pred::IsTrue(0))), &vals));
    // an index outside the record is simply false
    assert!(!eval_pred(&Pred::IsTrue(7), &vals));
}

#[test]
fn conditional_field_omitted() {
    // a record {flag: bool, value: u8 where flag} encoding
    // {flag: false, value: 7} omits the byte for value; decoding yields
    // the default 0, not 7
    let fields = vec![
        field("flag", FieldType::Bool),
        field_when("value", FieldType::U8, Pred::IsTrue(0)),
    ];
    let vals = vec![Value::Bool(false), Value::U8(7)];
    let mut w = ByteStream::new(Vec::new());
    encode_record(&fields, &vals, &mut w).expect("encode");
    let bytes = w.into_vec();
    assert_eq!(bytes, vec![0]);
    let mut r = ByteStream::new(bytes);
    let back = decode_record(&fields, &mut r).expect("decode");
    assert_eq!(back, vec![Value::Bool(false), Value::U8(0)]);
}

#[test]
fn conditional_field_present() {
    let fields = vec![
        field("flag", FieldType::Bool),
        field_when("value", FieldType::U8, Pred::IsTrue(0)),
    ];
    let vals = vec![Value::Bool(true), Value::U8(7)];
    let mut w = ByteStream::new(Vec::new());
    encode_record(&fields, &vals, &mut w).expect("encode");
    let bytes = w.into_vec();
    assert_eq!(bytes, vec![1, 7]);
    let mut r = ByteStream::new(bytes);
    let back = decode_record(&fields, &mut r).expect("decode");
    assert_eq!(back, vals);
}

#[test]
fn record_error_propagates() {
    let fields = vec![field("a", FieldType::U16), field("b", FieldType::U16)];
    let mut r = ByteStream::new(vec![0x12, 0x34, 0x56]);
    assert_eq!(decode_record(&fields, &mut r), Err(CodecError::ShortRead));
}

fn handshake_schema() -> ProtocolSchema {
    let entries = vec![PacketSpec {
        name: "Handshake".to_string(),
        state: State::Handshaking,
        direction: Direction::ServerBound,
        id: 0,
        fields: vec![
            field("protocol_version", FieldType::VarNum),
            field("host", FieldType::Str),
            field("port", FieldType::U16),
            field("next", FieldType::VarNum),
        ],
    }];
    ProtocolSchema::new("1.17".to_string(), 755, entries).expect("schema")
}

#[test]
fn handshake_dispatch_round_trip() {
    let schema = handshake_schema();
    assert_eq!(schema.name().as_str(), "1.17");
    assert_eq!(schema.protocol(), 755);

    let vals = vec![
        Value::VarNum(758),
        Value::Str(b"play.example.com".to_vec()),
        Value::U16(25565),
        Value::VarNum(2),
    ];
    let fields = vec![
        field("protocol_version", FieldType::VarNum),
        field("host", FieldType::Str),
        field("port", FieldType::U16),
        field("next", FieldType::VarNum),
    ];
    let mut w = ByteStream::new(Vec::new());
    encode_record(&fields, &vals, &mut w).expect("encode");
    let bytes = w.into_vec();

    let mut r = ByteStream::new(bytes);
    let got = schema
        .packet_by_id(State::Handshaking, Direction::ServerBound, 0, &mut r)
        .expect("dispatch")
        .expect("a registered opcode");
    assert_eq!(got.packet_id(), 0);
    assert_eq!(got.fields, vals);
    // the dispatcher consumed exactly the record's bytes
    assert_eq!(r.remaining_len(), 0);
}

#[test]
fn unknown_opcode_is_not_an_error() {
    // dispatch on an unregistered triple: an explicit no-match, no bytes
    // consumed
    let schema = handshake_schema();
    let mut r = ByteStream::new(vec![1, 2, 3]);
    let got = schema
        .packet_by_id(State::Status, Direction::ServerBound, 0, &mut r)
        .expect("no codec error");
    assert!(got.is_none());
    assert_eq!(r.position(), 0);

    let mut r2 = ByteStream::new(vec![1, 2, 3]);
    let got2 = schema
        .packet_by_id(State::Handshaking, Direction::ServerBound, 99, &mut r2)
        .expect("no codec error");
    assert!(got2.is_none());
    assert_eq!(r2.position(), 0);
}

#[test]
fn duplicate_opcode_rejected() {
    // two records claiming one (state, direction, opcode) triple cannot
    // form a schema
    let entry = |name: &str| PacketSpec {
        name: name.to_string(),
        state: State::Login,
        direction: Direction::ClientBound,
        id: 1,
        fields: Vec::new(),
    };
    let r = ProtocolSchema::new("v".to_string(), 1, vec![entry("A"), entry("B")]);
    assert!(matches!(r, Err(SchemaError::DuplicateOpcode)));
}

#[test]
fn same_opcode_other_direction_allowed() {
    let mk = |direction: Direction| PacketSpec {
        name: "P".to_string(),
        state: State::Status,
        direction,
        id: 0,
        fields: Vec::new(),
    };
    let r = ProtocolSchema::new(
        "v".to_string(),
        1,
        vec![mk(Direction::ClientBound), mk(Direction::ServerBound)],
    );
    assert!(r.is_ok());
}

#[test]
fn forward_predicate_rejected() {
    // a predicate reading its own field cannot be honoured during decode
    let entries = vec![PacketSpec {
        name: "Bad".to_string(),
        state: State::Play,
        direction: Direction::ClientBound,
        id: 3,
        fields: vec![field_when("x", FieldType::U8, Pred::IsTrue(0))],
    }];
    let r = ProtocolSchema::new("v".to_string(), 1, entries);
    assert!(matches!(r, Err(SchemaError::ForwardPredicate)));
}

#[test]
fn dispatch_error_propagates() {
    let schema = handshake_schema();
    // varint field truncated: continuation bit set, then nothing
    let mut r = ByteStream::new(vec![0x80]);
    let got = schema.packet_by_id(State::Handshaking, Direction::ServerBound, 0, &mut r);
    assert_eq!(got.unwrap_err(), CodecError::ShortRead);
}

#[test]
fn option_value_round_trip() {
    let t = FieldType::OptionOf(Box::new(FieldType::U16));
    let v = Value::OptVal(Some(Box::new(Value::U16(0x0102))));
    let bytes = encode_value_of(&t, &v);
    assert_eq!(bytes, vec![1, 2]);
    assert_eq!(decode_value_of(&t, bytes), Ok(v));
    // an absent optional value writes nothing
    assert_eq!(
        encode_value_of(&t, &Value::OptVal(None)),
        Vec::<u8>::new()
    );
}

#[test]
fn boxed_value_round_trip() {
    let t = FieldType::Boxed(Box::new(FieldType::I16));
    let v = Value::Boxed(Box::new(Value::I16(-5)));
    let bytes = encode_value_of(&t, &v);
    // the indirection wrapper leaves the wire format unchanged
    assert_eq!(bytes, encode_value_of(&FieldType::I16, &Value::I16(-5)));
    assert_eq!(decode_value_of(&t, bytes), Ok(v));
}

#[test]
fn discriminator_predicate_round_trip() {
    // a numeric mode field gates later fields, the common shape of
    // conditional layouts
    let fields = vec![
        field("mode", FieldType::VarNum),
        field_when("target", FieldType::I16, Pred::EqInt(0, 2)),
        field_when(
            "either",
            FieldType::U8,
            Pred::Or(
                Box::new(Pred::EqInt(0, 0)),
                Box::new(Pred::EqInt(0, 2)),
            ),
        ),
    ];
    // mode 2: both conditional fields on the wire
    let on = vec![Value::VarNum(2), Value::I16(-3), Value::U8(9)];
    let mut w = ByteStream::new(Vec::new());
    encode_record(&fields, &on, &mut w).expect("encode");
    let bytes = w.into_vec();
    assert_eq!(bytes, vec![2, 0xFF, 0xFD, 9]);
    let mut r = ByteStream::new(bytes);
    assert_eq!(decode_record(&fields, &mut r).expect("decode"), on);

    // mode 1: neither is on the wire; decode restores defaults
    let off = vec![Value::VarNum(1), Value::I16(0), Value::U8(0)];
    let mut w2 = ByteStream::new(Vec::new());
    encode_record(&fields, &off, &mut w2).expect("encode");
    let bytes2 = w2.into_vec();
    assert_eq!(bytes2, vec![1]);
    let mut r2 = ByteStream::new(bytes2);
    assert_eq!(decode_record(&fields, &mut r2).expect("decode"), off);
}
