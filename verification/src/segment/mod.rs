//! The wire-codec capability: any value type that can read itself from and
//! write itself to a byte stream.

use vstd::prelude::*;

use crate::stream::ByteStream;
use crate::stream::CodecError;

pub mod implementation;

verus! {

/// A value type with a deterministic wire format.
///
/// `write_to_stream` appends exactly [`Segment::wire`] to the stream;
/// `read_from_stream` behaves exactly as [`Segment::spec_read`] says: on
/// success the receiver holds the decoded value and the stream stands
/// immediately after the consumed bytes; on failure the receiver is
/// untouched and no partial value is produced. [`Segment::lemma_round_trip`]
/// obliges every implementation to decode its own encoding back to the same
/// value.
pub trait Segment: Sized {
    /// The exact bytes `write_to_stream` produces for this value.
    spec fn wire(&self) -> Seq<u8>;

    /// Whether the value can be written at all (for instance, whether a
    /// length fits its prefix). `write_to_stream` demands it.
    spec fn encodable(&self) -> bool;

    /// Whether decoding the value's own encoding yields the value back.
    /// This fails only for an absent optional value, whose encoding is
    /// empty: presence decisions belong to the caller, not to the codec.
    spec fn round_trippable(&self) -> bool;

    /// What reading the front of `bytes` yields: the decoded value and the
    /// count of consumed bytes, or the error.
    spec fn spec_read(bytes: Seq<u8>) -> Result<(Self, nat), CodecError>;

    /// The value decoding starts from.
    spec fn spec_default() -> Self;

    /// Every implementation must decode its own encoding back: the value
    /// survives unchanged and exactly the written bytes are consumed.
    proof fn lemma_round_trip(&self, rest: Seq<u8>)
        requires
            self.encodable(),
            self.round_trippable(),
        ensures
            Self::spec_read(self.wire() + rest) == Ok::<(Self, nat), CodecError>(
                (*self, self.wire().len()),
            ),
    ;

    /// A fresh default value for decoding to start from.
    fn codec_default() -> (r: Self)
        ensures
            r == Self::spec_default(),
    ;

    /// Replaces `self` with the value read from the stream, consuming
    /// exactly the bytes that determine it.
    fn read_from_stream(&mut self, reader: &mut ByteStream) -> (r: Result<(), CodecError>)
        requires
            old(reader).wf(),
        ensures
            final(reader).wf(),
            final(reader).buf() == old(reader).buf(),
            old(reader).pos() <= final(reader).pos(),
            match Self::spec_read(old(reader).remaining()) {
                Ok((v, n)) => r == Ok::<(), CodecError>(()) && *final(self) == v
                    && final(reader).pos() == old(reader).pos() + n,
                Err(e) => r == Err::<(), CodecError>(e) && *final(self) == *old(self),
            },
    ;

    /// Appends this value's encoding to the stream.
    fn write_to_stream(&self, writer: &mut ByteStream) -> (r: Result<(), CodecError>)
        requires
            old(writer).wf(),
            self.encodable(),
        ensures
            final(writer).wf(),
            r == Ok::<(), CodecError>(()),
            final(writer).buf() == old(writer).buf() + self.wire(),
            final(writer).pos() == old(writer).pos(),
    ;
}

} // verus!
