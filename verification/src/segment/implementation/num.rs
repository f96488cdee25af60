//! Primitive codecs: boolean as one byte, fixed-width integers as
//! big-endian two's-complement.

use vstd::prelude::*;

use crate::segment::Segment;
use crate::stream::ByteStream;
use crate::stream::CodecError;
use crate::wire::be_bytes;
use crate::wire::lemma_be_bytes_len;
use crate::wire::lemma_be_round_trip;
use crate::wire::lemma_nat_from_be_bound;
use crate::wire::lemma_pow256_values;
use crate::wire::nat_from_be;
use crate::wire::read_be;
use crate::wire::signed16;
use crate::wire::signed32;
use crate::wire::signed64;
use crate::wire::signed8;
use crate::wire::unsigned16;
use crate::wire::unsigned32;
use crate::wire::unsigned64;
use crate::wire::unsigned8;
use crate::wire::write_be;

verus! {

impl Segment for bool {
    /// One byte: zero for false, one for true.
    open spec fn wire(&self) -> Seq<u8> {
        seq![if *self { 1u8 } else { 0u8 }]
    }

    open spec fn encodable(&self) -> bool {
        true
    }

    open spec fn round_trippable(&self) -> bool {
        true
    }

    /// Any nonzero byte reads as true.
    open spec fn spec_read(bytes: Seq<u8>) -> Result<(bool, nat), CodecError> {
        if bytes.len() >= 1 {
            Ok((bytes[0] != 0, 1))
        } else {
            Err(CodecError::ShortRead)
        }
    }

    open spec fn spec_default() -> bool {
        false
    }

    proof fn lemma_round_trip(&self, rest: Seq<u8>) {
        assert((self.wire() + rest)[0] == self.wire()[0]);
    }

    fn codec_default() -> bool {
        false
    }

    fn read_from_stream(&mut self, reader: &mut ByteStream) -> Result<(), CodecError> {
        let b = match reader.read_byte() {
            Ok(b) => b,
            Err(e) => {
                return Err(e);
            },
        };
        *self = b != 0;
        Ok(())
    }

    fn write_to_stream(&self, writer: &mut ByteStream) -> Result<(), CodecError> {
        writer.write_byte(if *self { 1 } else { 0 });
        Ok(())
    }
}

impl Segment for u8 {
    open spec fn wire(&self) -> Seq<u8> {
        seq![*self]
    }

    open spec fn encodable(&self) -> bool {
        true
    }

    open spec fn round_trippable(&self) -> bool {
        true
    }

    open spec fn spec_read(bytes: Seq<u8>) -> Result<(u8, nat), CodecError> {
        if bytes.len() >= 1 {
            Ok((bytes[0], 1))
        } else {
            Err(CodecError::ShortRead)
        }
    }

    open spec fn spec_default() -> u8 {
        0
    }

    proof fn lemma_round_trip(&self, rest: Seq<u8>) {
        assert((self.wire() + rest)[0] == self.wire()[0]);
    }

    fn codec_default() -> u8 {
        0
    }

    fn read_from_stream(&mut self, reader: &mut ByteStream) -> Result<(), CodecError> {
        let b = match reader.read_byte() {
            Ok(b) => b,
            Err(e) => {
                return Err(e);
            },
        };
        *self = b;
        Ok(())
    }

    fn write_to_stream(&self, writer: &mut ByteStream) -> Result<(), CodecError> {
        writer.write_byte(*self);
        Ok(())
    }
}

impl Segment for u16 {
    open spec fn wire(&self) -> Seq<u8> {
        be_bytes(*self as nat, 2)
    }

    open spec fn encodable(&self) -> bool {
        true
    }

    open spec fn round_trippable(&self) -> bool {
        true
    }

    open spec fn spec_read(bytes: Seq<u8>) -> Result<(u16, nat), CodecError> {
        if bytes.len() >= 2 {
            Ok(((nat_from_be(bytes.take(2)) % 0x1_0000) as u16, 2))
        } else {
            Err(CodecError::ShortRead)
        }
    }

    open spec fn spec_default() -> u16 {
        0
    }

    proof fn lemma_round_trip(&self, rest: Seq<u8>) {
        lemma_pow256_values();
        lemma_u_round_trip(*self as nat, 2, self.wire(), rest);
    }

    fn codec_default() -> u16 {
        0
    }

    fn read_from_stream(&mut self, reader: &mut ByteStream) -> Result<(), CodecError> {
        let v = match read_be(reader, 2) {
            Ok(v) => v,
            Err(e) => {
                return Err(e);
            },
        };
        proof {
            lemma_nat_from_be_bound(old(reader).remaining().take(2));
            lemma_pow256_values();
        }
        *self = v as u16;
        Ok(())
    }

    fn write_to_stream(&self, writer: &mut ByteStream) -> Result<(), CodecError> {
        proof {
            lemma_pow256_values();
        }
        write_be(writer, *self as u64, 2);
        Ok(())
    }
}

impl Segment for u32 {
    open spec fn wire(&self) -> Seq<u8> {
        be_bytes(*self as nat, 4)
    }

    open spec fn encodable(&self) -> bool {
        true
    }

    open spec fn round_trippable(&self) -> bool {
        true
    }

    open spec fn spec_read(bytes: Seq<u8>) -> Result<(u32, nat), CodecError> {
        if bytes.len() >= 4 {
            Ok(((nat_from_be(bytes.take(4)) % 0x1_0000_0000) as u32, 4))
        } else {
            Err(CodecError::ShortRead)
        }
    }

    open spec fn spec_default() -> u32 {
        0
    }

    proof fn lemma_round_trip(&self, rest: Seq<u8>) {
        lemma_pow256_values();
        lemma_u_round_trip(*self as nat, 4, self.wire(), rest);
    }

    fn codec_default() -> u32 {
        0
    }

    fn read_from_stream(&mut self, reader: &mut ByteStream) -> Result<(), CodecError> {
        let v = match read_be(reader, 4) {
            Ok(v) => v,
            Err(e) => {
                return Err(e);
            },
        };
        proof {
            lemma_nat_from_be_bound(old(reader).remaining().take(4));
            lemma_pow256_values();
        }
        *self = v as u32;
        Ok(())
    }

    fn write_to_stream(&self, writer: &mut ByteStream) -> Result<(), CodecError> {
        proof {
            lemma_pow256_values();
        }
        write_be(writer, *self as u64, 4);
        Ok(())
    }
}

impl Segment for u64 {
    open spec fn wire(&self) -> Seq<u8> {
        be_bytes(*self as nat, 8)
    }

    open spec fn encodable(&self) -> bool {
        true
    }

    open spec fn round_trippable(&self) -> bool {
        true
    }

    open spec fn spec_read(bytes: Seq<u8>) -> Result<(u64, nat), CodecError> {
        if bytes.len() >= 8 {
            Ok(((nat_from_be(bytes.take(8)) % 0x1_0000_0000_0000_0000) as u64, 8))
        } else {
            Err(CodecError::ShortRead)
        }
    }

    open spec fn spec_default() -> u64 {
        0
    }

    proof fn lemma_round_trip(&self, rest: Seq<u8>) {
        lemma_pow256_values();
        lemma_u_round_trip(*self as nat, 8, self.wire(), rest);
    }

    fn codec_default() -> u64 {
        0
    }

    fn read_from_stream(&mut self, reader: &mut ByteStream) -> Result<(), CodecError> {
        let v = match read_be(reader, 8) {
            Ok(v) => v,
            Err(e) => {
                return Err(e);
            },
        };
        proof {
            lemma_nat_from_be_bound(old(reader).remaining().take(8));
            lemma_pow256_values();
        }
        *self = v;
        Ok(())
    }

    fn write_to_stream(&self, writer: &mut ByteStream) -> Result<(), CodecError> {
        proof {
            lemma_pow256_values();
        }
        write_be(writer, *self, 8);
        Ok(())
    }
}

impl Segment for i8 {
    open spec fn wire(&self) -> Seq<u8> {
        seq![unsigned8(*self) as u8]
    }

    open spec fn encodable(&self) -> bool {
        true
    }

    open spec fn round_trippable(&self) -> bool {
        true
    }

    open spec fn spec_read(bytes: Seq<u8>) -> Result<(i8, nat), CodecError> {
        if bytes.len() >= 1 {
            Ok((signed8(bytes[0] as nat), 1))
        } else {
            Err(CodecError::ShortRead)
        }
    }

    open spec fn spec_default() -> i8 {
        0
    }

    proof fn lemma_round_trip(&self, rest: Seq<u8>) {
        assert((self.wire() + rest)[0] == self.wire()[0]);
    }

    fn codec_default() -> i8 {
        0
    }

    fn read_from_stream(&mut self, reader: &mut ByteStream) -> Result<(), CodecError> {
        let b = match reader.read_byte() {
            Ok(b) => b,
            Err(e) => {
                return Err(e);
            },
        };
        *self = if b < 0x80 {
            b as i8
        } else {
            ((b as i16) - 0x100) as i8
        };
        Ok(())
    }

    fn write_to_stream(&self, writer: &mut ByteStream) -> Result<(), CodecError> {
        let u: u8 = if *self >= 0 {
            *self as u8
        } else {
            ((*self as i16) + 0x100) as u8
        };
        writer.write_byte(u);
        Ok(())
    }
}

impl Segment for i16 {
    open spec fn wire(&self) -> Seq<u8> {
        be_bytes(unsigned16(*self), 2)
    }

    open spec fn encodable(&self) -> bool {
        true
    }

    open spec fn round_trippable(&self) -> bool {
        true
    }

    open spec fn spec_read(bytes: Seq<u8>) -> Result<(i16, nat), CodecError> {
        if bytes.len() >= 2 {
            Ok((signed16(nat_from_be(bytes.take(2)) % 0x1_0000), 2))
        } else {
            Err(CodecError::ShortRead)
        }
    }

    open spec fn spec_default() -> i16 {
        0
    }

    proof fn lemma_round_trip(&self, rest: Seq<u8>) {
        lemma_pow256_values();
        lemma_u_round_trip(unsigned16(*self), 2, self.wire(), rest);
    }

    fn codec_default() -> i16 {
        0
    }

    fn read_from_stream(&mut self, reader: &mut ByteStream) -> Result<(), CodecError> {
        let v = match read_be(reader, 2) {
            Ok(v) => v,
            Err(e) => {
                return Err(e);
            },
        };
        proof {
            lemma_nat_from_be_bound(old(reader).remaining().take(2));
            lemma_pow256_values();
        }
        *self = if v < 0x8000 {
            v as i16
        } else {
            ((v as i32) - 0x1_0000) as i16
        };
        Ok(())
    }

    fn write_to_stream(&self, writer: &mut ByteStream) -> Result<(), CodecError> {
        let u: u16 = if *self >= 0 {
            *self as u16
        } else {
            ((*self as i32) + 0x1_0000) as u16
        };
        proof {
            lemma_pow256_values();
        }
        write_be(writer, u as u64, 2);
        Ok(())
    }
}

impl Segment for i32 {
    open spec fn wire(&self) -> Seq<u8> {
        be_bytes(unsigned32(*self), 4)
    }

    open spec fn encodable(&self) -> bool {
        true
    }

    open spec fn round_trippable(&self) -> bool {
        true
    }

    open spec fn spec_read(bytes: Seq<u8>) -> Result<(i32, nat), CodecError> {
        if bytes.len() >= 4 {
            Ok((signed32(nat_from_be(bytes.take(4)) % 0x1_0000_0000), 4))
        } else {
            Err(CodecError::ShortRead)
        }
    }

    open spec fn spec_default() -> i32 {
        0
    }

    proof fn lemma_round_trip(&self, rest: Seq<u8>) {
        lemma_pow256_values();
        lemma_u_round_trip(unsigned32(*self), 4, self.wire(), rest);
    }

    fn codec_default() -> i32 {
        0
    }

    fn read_from_stream(&mut self, reader: &mut ByteStream) -> Result<(), CodecError> {
        let v = match read_be(reader, 4) {
            Ok(v) => v,
            Err(e) => {
                return Err(e);
            },
        };
        proof {
            lemma_nat_from_be_bound(old(reader).remaining().take(4));
            lemma_pow256_values();
        }
        *self = if v < 0x8000_0000 {
            v as i32
        } else {
            ((v as i64) - 0x1_0000_0000) as i32
        };
        Ok(())
    }

    fn write_to_stream(&self, writer: &mut ByteStream) -> Result<(), CodecError> {
        let u: u32 = if *self >= 0 {
            *self as u32
        } else {
            ((*self as i64) + 0x1_0000_0000) as u32
        };
        proof {
            lemma_pow256_values();
        }
        write_be(writer, u as u64, 4);
        Ok(())
    }
}

impl Segment for i64 {
    open spec fn wire(&self) -> Seq<u8> {
        be_bytes(unsigned64(*self), 8)
    }

    open spec fn encodable(&self) -> bool {
        true
    }

    open spec fn round_trippable(&self) -> bool {
        true
    }

    open spec fn spec_read(bytes: Seq<u8>) -> Result<(i64, nat), CodecError> {
        if bytes.len() >= 8 {
            Ok((signed64(nat_from_be(bytes.take(8)) % 0x1_0000_0000_0000_0000), 8))
        } else {
            Err(CodecError::ShortRead)
        }
    }

    open spec fn spec_default() -> i64 {
        0
    }

    proof fn lemma_round_trip(&self, rest: Seq<u8>) {
        lemma_pow256_values();
        lemma_u_round_trip(unsigned64(*self), 8, self.wire(), rest);
    }

    fn codec_default() -> i64 {
        0
    }

    fn read_from_stream(&mut self, reader: &mut ByteStream) -> Result<(), CodecError> {
        let v = match read_be(reader, 8) {
            Ok(v) => v,
            Err(e) => {
                return Err(e);
            },
        };
        proof {
            lemma_nat_from_be_bound(old(reader).remaining().take(8));
            lemma_pow256_values();
        }
        *self = if v < 0x8000_0000_0000_0000 {
            v as i64
        } else {
            ((v as i128) - 0x1_0000_0000_0000_0000) as i64
        };
        Ok(())
    }

    fn write_to_stream(&self, writer: &mut ByteStream) -> Result<(), CodecError> {
        let u: u64 = if *self >= 0 {
            *self as u64
        } else {
            ((*self as i128) + 0x1_0000_0000_0000_0000) as u64
        };
        proof {
            lemma_pow256_values();
        }
        write_be(writer, u, 8);
        Ok(())
    }
}

/// Shared round-trip argument for the unsigned fixed-width codecs: the
/// `w`-byte encoding of `x < 256^w` reads back as `x`.
proof fn lemma_u_round_trip(x: nat, w: nat, wire: Seq<u8>, rest: Seq<u8>)
    requires
        wire == be_bytes(x, w),
        x < crate::wire::pow256(w),
    ensures
        wire.len() == w,
        (wire + rest).take(w as int) == wire,
        nat_from_be((wire + rest).take(w as int)) == x,
{
    lemma_be_bytes_len(x, w);
    assert((wire + rest).take(w as int) =~= wire);
    lemma_be_round_trip(x, w);
}

} // verus!
