//! Container codecs: the owned-indirection wrapper and the optional value.

use vstd::prelude::*;

use crate::segment::Segment;
use crate::stream::ByteStream;
use crate::stream::CodecError;

pub mod num;
pub mod varint;

verus! {

/// The owned-indirection wrapper forwards to the wrapped value: it exists
/// to bound record sizes and does not change the wire format.
impl<T: Segment> Segment for Box<T> {
    open spec fn wire(&self) -> Seq<u8> {
        (**self).wire()
    }

    open spec fn encodable(&self) -> bool {
        (**self).encodable()
    }

    open spec fn round_trippable(&self) -> bool {
        (**self).round_trippable()
    }

    open spec fn spec_read(bytes: Seq<u8>) -> Result<(Box<T>, nat), CodecError> {
        match T::spec_read(bytes) {
            Ok((v, n)) => Ok((Box::new(v), n)),
            Err(e) => Err(e),
        }
    }

    open spec fn spec_default() -> Box<T> {
        Box::new(T::spec_default())
    }

    proof fn lemma_round_trip(&self, rest: Seq<u8>) {
        (**self).lemma_round_trip(rest);
    }

    fn codec_default() -> Box<T> {
        Box::new(T::codec_default())
    }

    fn read_from_stream(&mut self, reader: &mut ByteStream) -> Result<(), CodecError> {
        (&mut **self).read_from_stream(reader)
    }

    fn write_to_stream(&self, writer: &mut ByteStream) -> Result<(), CodecError> {
        (**self).write_to_stream(writer)
    }
}

/// An optional value's codec always decodes the inner value and marks it
/// present: whether the codec runs at all is the caller's decision (a
/// packet record's presence predicate). Writing an absent value writes
/// nothing.
impl<T: Segment> Segment for Option<T> {
    open spec fn wire(&self) -> Seq<u8> {
        match *self {
            Some(ref v) => v.wire(),
            None => Seq::empty(),
        }
    }

    open spec fn encodable(&self) -> bool {
        match *self {
            Some(ref v) => v.encodable(),
            None => true,
        }
    }

    /// An absent value writes nothing, so only a present one reads back.
    open spec fn round_trippable(&self) -> bool {
        match *self {
            Some(ref v) => v.round_trippable(),
            None => false,
        }
    }

    open spec fn spec_read(bytes: Seq<u8>) -> Result<(Option<T>, nat), CodecError> {
        match T::spec_read(bytes) {
            Ok((v, n)) => Ok((Some(v), n)),
            Err(e) => Err(e),
        }
    }

    open spec fn spec_default() -> Option<T> {
        None
    }

    proof fn lemma_round_trip(&self, rest: Seq<u8>) {
        match *self {
            Some(ref v) => v.lemma_round_trip(rest),
            None => (),
        }
    }

    fn codec_default() -> Option<T> {
        None
    }

    fn read_from_stream(&mut self, reader: &mut ByteStream) -> Result<(), CodecError> {
        let mut v = T::codec_default();
        match v.read_from_stream(reader) {
            Ok(()) => {
                *self = Some(v);
                Ok(())
            },
            Err(e) => Err(e),
        }
    }

    fn write_to_stream(&self, writer: &mut ByteStream) -> Result<(), CodecError> {
        match self {
            Some(v) => v.write_to_stream(writer),
            None => Ok(()),
        }
    }
}

} // verus!
