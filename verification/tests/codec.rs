//! Tests of the byte stream and the typed wire codecs.

use packet_codec::segment::implementation::varint::VarInt;
use packet_codec::segment::Segment;
use packet_codec::stream::ByteStream;
use packet_codec::stream::CodecError;

fn encode_of<T: Segment>(v: &T) -> Vec<u8> {
    let mut w = ByteStream::new(Vec::new());
    v.write_to_stream(&mut w).expect("write");
    w.into_vec()
}

fn decode_of<T: Segment>(bytes: Vec<u8>) -> Result<T, CodecError> {
    let mut r = ByteStream::new(bytes);
    let mut v = T::codec_default();
    v.read_from_stream(&mut r)?;
    Ok(v)
}

#[test]
fn stream_read_write() {
    let mut s = ByteStream::new(vec![1, 2, 3]);
    assert_eq!(s.remaining_len(), 3);
    assert_eq!(s.read_byte(), Ok(1));
    assert_eq!(s.position(), 1);
    let rest = s.read_bytes(2).expect("two bytes remain");
    assert_eq!(rest, vec![2, 3]);
    assert_eq!(s.read_byte(), Err(CodecError::ShortRead));

    let mut w = ByteStream::new(Vec::new());
    w.write_byte(9);
    w.write_bytes(&vec![8, 7]);
    assert_eq!(w.into_vec(), vec![9, 8, 7]);
}

#[test]
fn stream_read_bytes_short() {
    let mut s = ByteStream::new(vec![1]);
    assert_eq!(s.read_bytes(2), Err(CodecError::ShortRead));
    // a failed bulk read consumes nothing
    assert_eq!(s.position(), 0);
}

#[test]
fn bool_wire_format() {
    assert_eq!(encode_of(&true), vec![1]);
    assert_eq!(encode_of(&false), vec![0]);
    assert_eq!(decode_of::<bool>(vec![0]), Ok(false));
    // any nonzero byte reads as true
    assert_eq!(decode_of::<bool>(vec![7]), Ok(true));
    assert_eq!(decode_of::<bool>(vec![]), Err(CodecError::ShortRead));
}

#[test]
fn unsigned_big_endian() {
    assert_eq!(encode_of(&0x12u8), vec![0x12]);
    assert_eq!(encode_of(&0x1234u16), vec![0x12, 0x34]);
    assert_eq!(encode_of(&0x0102_0304u32), vec![1, 2, 3, 4]);
    assert_eq!(
        encode_of(&0x0102_0304_0506_0708u64),
        vec![1, 2, 3, 4, 5, 6, 7, 8]
    );
    assert_eq!(decode_of::<u16>(vec![0xFF, 0xFE]), Ok(0xFFFE));
    assert_eq!(decode_of::<u16>(vec![0xFF]), Err(CodecError::ShortRead));
    assert_eq!(decode_of::<u32>(vec![0, 0, 1, 0]), Ok(256));
    assert_eq!(decode_of::<u64>(vec![0; 8]), Ok(0));
}

#[test]
fn signed_twos_complement() {
    assert_eq!(encode_of(&-1i8), vec![0xFF]);
    assert_eq!(encode_of(&-2i16), vec![0xFF, 0xFE]);
    assert_eq!(encode_of(&i32::MIN), vec![0x80, 0, 0, 0]);
    assert_eq!(encode_of(&-1i64), vec![0xFF; 8]);
    assert_eq!(decode_of::<i8>(vec![0x80]), Ok(i8::MIN));
    assert_eq!(decode_of::<i16>(vec![0x7F, 0xFF]), Ok(i16::MAX));
    assert_eq!(decode_of::<i32>(vec![0xFF, 0xFF, 0xFF, 0xFF]), Ok(-1));
    assert_eq!(
        decode_of::<i64>(vec![0x80, 0, 0, 0, 0, 0, 0, 0]),
        Ok(i64::MIN)
    );
}

#[test]
fn signed_round_trips() {
    for v in [i16::MIN, -300, -1, 0, 1, 300, i16::MAX] {
        assert_eq!(decode_of::<i16>(encode_of(&v)), Ok(v));
    }
    for v in [i64::MIN, -1, 0, 1, i64::MAX] {
        assert_eq!(decode_of::<i64>(encode_of(&v)), Ok(v));
    }
}

#[test]
fn varint_wire_format() {
    assert_eq!(encode_of(&VarInt(0)), vec![0]);
    assert_eq!(encode_of(&VarInt(1)), vec![1]);
    assert_eq!(encode_of(&VarInt(127)), vec![0x7F]);
    assert_eq!(encode_of(&VarInt(128)), vec![0x80, 0x01]);
    assert_eq!(encode_of(&VarInt(300)), vec![0xAC, 0x02]);
    assert_eq!(
        encode_of(&VarInt(-1)),
        vec![0xFF, 0xFF, 0xFF, 0xFF, 0x0F]
    );
}

#[test]
fn varint_round_trips() {
    for v in [i32::MIN, -1, 0, 1, 127, 128, 300, 758, i32::MAX] {
        assert_eq!(decode_of::<VarInt>(encode_of(&VarInt(v))), Ok(VarInt(v)));
    }
}

#[test]
fn varint_malformed() {
    // a sixth continuation byte would be needed: the fifth still carries
    // the continuation bit
    assert_eq!(
        decode_of::<VarInt>(vec![0x80, 0x80, 0x80, 0x80, 0x80]),
        Err(CodecError::InvalidData)
    );
    assert_eq!(
        decode_of::<VarInt>(vec![0x80]),
        Err(CodecError::ShortRead)
    );
}

#[test]
fn option_codec() {
    // an absent optional writes nothing at all
    let none: Option<u16> = None;
    assert_eq!(encode_of(&none), Vec::<u8>::new());
    // a present optional writes the inner value
    assert_eq!(encode_of(&Some(0x1234u16)), vec![0x12, 0x34]);
    // the codec always decodes the inner value and marks it present:
    // presence decisions belong to the record's predicate
    assert_eq!(decode_of::<Option<u16>>(vec![0x12, 0x34]), Ok(Some(0x1234)));
    assert_eq!(
        decode_of::<Option<u16>>(vec![0x12]),
        Err(CodecError::ShortRead)
    );
}

#[test]
fn boxed_codec_transparent() {
    // the owned-indirection wrapper does not change the wire format
    let boxed: Box<u32> = Box::new(0xCAFE);
    assert_eq!(encode_of(&boxed), encode_of(&0xCAFEu32));
    assert_eq!(decode_of::<Box<u32>>(vec![0, 0, 0xCA, 0xFE]), Ok(Box::new(0xCAFE)));
}

#[test]
fn partial_read_positions_stream() {
    // two values in sequence: each decode consumes exactly its bytes
    let mut r = ByteStream::new(vec![0x12, 0x34, 0x01]);
    let mut a: u16 = 0;
    a.read_from_stream(&mut r).expect("first value");
    assert_eq!(a, 0x1234);
    assert_eq!(r.position(), 2);
    let mut b: bool = false;
    b.read_from_stream(&mut r).expect("second value");
    assert!(b);
    assert_eq!(r.position(), 3);
}
