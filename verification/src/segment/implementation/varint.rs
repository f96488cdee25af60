//! The variable-length 32-bit integer, the compact number format rich
//! domain codecs use for lengths and identifiers on the wire.

use vstd::prelude::*;

use crate::segment::Segment;
use crate::stream::ByteStream;
use crate::stream::CodecError;
use crate::wire::lemma_pow128_values;
use crate::wire::lemma_read_varint_bound;
use crate::wire::lemma_varint_bytes_len;
use crate::wire::lemma_varint_round_trip;
use crate::wire::read_varint_raw;
use crate::wire::signed32;
use crate::wire::spec_read_varint;
use crate::wire::unsigned32;
use crate::wire::varint_bytes;
use crate::wire::write_varint_raw;

verus! {

/// A 32-bit integer carried in one to five bytes: seven value bits per
/// byte, least significant group first, the high bit marking continuation.
#[derive(Clone, Copy, Debug, PartialEq, Eq, Structural)]
pub struct VarInt(pub i32);

impl Segment for VarInt {
    open spec fn wire(&self) -> Seq<u8> {
        varint_bytes(unsigned32(self.0))
    }

    open spec fn encodable(&self) -> bool {
        true
    }

    open spec fn round_trippable(&self) -> bool {
        true
    }

    /// At most five groups are accepted; bits past the thirty-second are
    /// dropped, so over-wide encodings still denote a value.
    open spec fn spec_read(bytes: Seq<u8>) -> Result<(VarInt, nat), CodecError> {
        match spec_read_varint(bytes, 5) {
            Ok((raw, n)) => Ok((VarInt(signed32(raw % 0x1_0000_0000)), n)),
            Err(e) => Err(e),
        }
    }

    open spec fn spec_default() -> VarInt {
        VarInt(0)
    }

    proof fn lemma_round_trip(&self, rest: Seq<u8>) {
        let u = unsigned32(self.0);
        lemma_pow128_values();
        lemma_varint_bytes_len(u, 5);
        lemma_varint_round_trip(u, rest, 5);
    }

    fn codec_default() -> VarInt {
        VarInt(0)
    }

    fn read_from_stream(&mut self, reader: &mut ByteStream) -> Result<(), CodecError> {
        let v = match read_varint_raw(reader, 5) {
            Ok(v) => v,
            Err(e) => {
                return Err(e);
            },
        };
        proof {
            lemma_read_varint_bound(old(reader).remaining(), 5);
            lemma_pow128_values();
        }
        let t = v % 0x1_0000_0000;
        *self = VarInt(
            if t < 0x8000_0000 {
                t as i32
            } else {
                ((t as i64) - 0x1_0000_0000) as i32
            },
        );
        Ok(())
    }

    fn write_to_stream(&self, writer: &mut ByteStream) -> Result<(), CodecError> {
        let u: u32 = if self.0 >= 0 {
            self.0 as u32
        } else {
            ((self.0 as i64) + 0x1_0000_0000) as u32
        };
        write_varint_raw(writer, u as u64);
        Ok(())
    }
}

} // verus!
