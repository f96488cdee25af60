//! Wire-level building blocks: big-endian fixed-width integers and
//! base-128 variable-length integers.
//!
//! Every spec function here is a direct statement of the wire format; the
//! executable readers and writers are proved against them, and round-trip
//! lemmas tie the two directions together.

use vstd::prelude::*;

use crate::stream::ByteStream;
use crate::stream::CodecError;

verus! {

/// 256 to the power `w`: the number of values of a `w`-byte field.
pub open spec fn pow256(w: nat) -> nat
    decreases w,
{
    if w == 0 {
        1
    } else {
        256 * pow256((w - 1) as nat)
    }
}

/// 128 to the power `k`: the number of values a `k`-group varint can carry.
pub open spec fn pow128(k: nat) -> nat
    decreases k,
{
    if k == 0 {
        1
    } else {
        128 * pow128((k - 1) as nat)
    }
}

pub proof fn lemma_pow256_values()
    ensures
        pow256(1) == 0x100,
        pow256(2) == 0x10000,
        pow256(4) == 0x1_0000_0000,
        pow256(8) == 0x1_0000_0000_0000_0000,
{
    reveal_with_fuel(pow256, 9);
}

pub proof fn lemma_pow128_values()
    ensures
        pow128(5) == 0x8_0000_0000,
{
    reveal_with_fuel(pow128, 6);
}

/// The `w`-byte big-endian representation of `x`, most significant byte
/// first. Meaningful when `x < pow256(w)`.
pub open spec fn be_bytes(x: nat, w: nat) -> Seq<u8>
    decreases w,
{
    if w == 0 {
        Seq::empty()
    } else {
        be_bytes(x / 256, (w - 1) as nat) + seq![(x % 256) as u8]
    }
}

/// The number read from a big-endian byte sequence.
pub open spec fn nat_from_be(s: Seq<u8>) -> nat
    decreases s.len(),
{
    if s.len() == 0 {
        0
    } else {
        (nat_from_be(s.drop_last()) * 256 + s.last()) as nat
    }
}

pub proof fn lemma_be_bytes_len(x: nat, w: nat)
    ensures
        be_bytes(x, w).len() == w,
    decreases w,
{
    if w > 0 {
        lemma_be_bytes_len(x / 256, (w - 1) as nat);
    }
}

pub proof fn lemma_nat_from_be_bound(s: Seq<u8>)
    ensures
        nat_from_be(s) < pow256(s.len()),
    decreases s.len(),
{
    if s.len() > 0 {
        lemma_nat_from_be_bound(s.drop_last());
    }
}

/// Reading back the `w`-byte representation of `x` yields `x` again.
pub proof fn lemma_be_round_trip(x: nat, w: nat)
    requires
        x < pow256(w),
    ensures
        nat_from_be(be_bytes(x, w)) == x,
    decreases w,
{
    if w == 0 {
    } else {
        lemma_be_bytes_len(x / 256, (w - 1) as nat);
        lemma_be_round_trip(x / 256, (w - 1) as nat);
        assert(be_bytes(x, w).drop_last() =~= be_bytes(x / 256, (w - 1) as nat));
        assert(be_bytes(x, w).last() == x % 256);
    }
}

/// Appends the `w`-byte big-endian representation of `x`.
pub fn write_be(out: &mut ByteStream, x: u64, w: u8)
    requires
        old(out).wf(),
        w <= 8,
        (x as nat) < pow256(w as nat),
    ensures
        final(out).wf(),
        final(out).buf() == old(out).buf() + be_bytes(x as nat, w as nat),
        final(out).pos() == old(out).pos(),
    decreases w,
{
    if w == 0 {
        assert(final(out).buf() =~= old(out).buf() + be_bytes(x as nat, 0));
    } else {
        write_be(out, x / 256, w - 1);
        out.write_byte((x % 256) as u8);
        assert(final(out).buf() =~= old(out).buf() + be_bytes(x as nat, w as nat));
    }
}

/// Consumes the next `w` bytes and returns the number they spell in
/// big-endian order; fails if fewer than `w` bytes remain.
pub fn read_be(inp: &mut ByteStream, w: u8) -> (r: Result<u64, CodecError>)
    requires
        old(inp).wf(),
        w <= 8,
    ensures
        final(inp).wf(),
        final(inp).buf() == old(inp).buf(),
        if old(inp).remaining().len() >= w {
            r == Ok::<u64, CodecError>(nat_from_be(old(inp).remaining().take(w as int)) as u64)
                && final(inp).pos() == old(inp).pos() + w
        } else {
            r == Err::<u64, CodecError>(CodecError::ShortRead)
                && old(inp).pos() <= final(inp).pos()
        },
    decreases w,
{
    if w == 0 {
        assert(old(inp).remaining().take(0) =~= Seq::<u8>::empty());
        return Ok(0);
    }
    let hi = match read_be(inp, w - 1) {
        Ok(hi) => hi,
        Err(e) => {
            return Err(e);
        },
    };
    proof {
        assert(inp.remaining() =~= old(inp).remaining().skip(w - 1));
        lemma_nat_from_be_bound(old(inp).remaining().take(w - 1));
        lemma_pow256_increases((w - 1) as nat, 7);
        reveal_with_fuel(pow256, 9);
    }
    let b = match inp.read_byte() {
        Ok(b) => b,
        Err(e) => {
            return Err(e);
        },
    };
    proof {
        let rem = old(inp).remaining();
        let s = rem.take(w as int);
        assert(s.drop_last() =~= rem.take(w - 1));
        assert(s.last() == rem[w - 1]);
        lemma_nat_from_be_bound(s);
        lemma_pow256_increases(w as nat, 8);
    }
    Ok(hi * 256 + (b as u64))
}

pub proof fn lemma_pow128_pos(k: nat)
    ensures
        pow128(k) >= 1,
    decreases k,
{
    if k > 0 {
        lemma_pow128_pos((k - 1) as nat);
    }
}

pub proof fn lemma_pow256_increases(a: nat, b: nat)
    requires
        a <= b,
    ensures
        pow256(a) <= pow256(b),
    decreases b,
{
    if a < b && b > 0 {
        lemma_pow256_increases(a, (b - 1) as nat);
    }
}

pub proof fn lemma_pow128_increases(a: nat, b: nat)
    requires
        a <= b,
    ensures
        pow128(a) <= pow128(b),
    decreases b,
{
    if a < b && b > 0 {
        lemma_pow128_increases(a, (b - 1) as nat);
    }
}

/// The two's-complement bit pattern of an `i8`, as a number.
pub open spec fn unsigned8(x: i8) -> nat {
    if x >= 0 {
        x as nat
    } else {
        (x + 0x100) as nat
    }
}

/// The two's-complement bit pattern of an `i16`, as a number.
pub open spec fn unsigned16(x: i16) -> nat {
    if x >= 0 {
        x as nat
    } else {
        (x + 0x1_0000) as nat
    }
}

/// The two's-complement bit pattern of an `i32`, as a number.
pub open spec fn unsigned32(x: i32) -> nat {
    if x >= 0 {
        x as nat
    } else {
        (x + 0x1_0000_0000) as nat
    }
}

/// The two's-complement bit pattern of an `i64`, as a number.
pub open spec fn unsigned64(x: i64) -> nat {
    if x >= 0 {
        x as nat
    } else {
        (x + 0x1_0000_0000_0000_0000) as nat
    }
}

/// The `i8` whose two's-complement bit pattern is `n`.
pub open spec fn signed8(n: nat) -> i8
    recommends
        n < 0x100,
{
    if n < 0x80 {
        n as i8
    } else {
        (n - 0x100) as i8
    }
}

/// The `i16` whose two's-complement bit pattern is `n`.
pub open spec fn signed16(n: nat) -> i16
    recommends
        n < 0x1_0000,
{
    if n < 0x8000 {
        n as i16
    } else {
        (n - 0x1_0000) as i16
    }
}

/// The `i32` whose two's-complement bit pattern is `n`.
pub open spec fn signed32(n: nat) -> i32
    recommends
        n < 0x1_0000_0000,
{
    if n < 0x8000_0000 {
        n as i32
    } else {
        (n - 0x1_0000_0000) as i32
    }
}

/// The `i64` whose two's-complement bit pattern is `n`.
pub open spec fn signed64(n: nat) -> i64
    recommends
        n < 0x1_0000_0000_0000_0000,
{
    if n < 0x8000_0000_0000_0000 {
        n as i64
    } else {
        (n - 0x1_0000_0000_0000_0000) as i64
    }
}

/// The base-128 variable-length representation of `n`: seven value bits per
/// byte, least significant group first, the high bit of a byte marking that
/// another byte follows.
pub open spec fn varint_bytes(n: nat) -> Seq<u8>
    decreases n,
{
    if n < 128 {
        seq![n as u8]
    } else {
        seq![(n % 128 + 128) as u8] + varint_bytes(n / 128)
    }
}

/// Reads a variable-length integer from the front of `bytes`, allowing at
/// most `max` groups. Returns the raw (untruncated) value and the number of
/// bytes consumed.
pub open spec fn spec_read_varint(bytes: Seq<u8>, max: nat) -> Result<(nat, nat), CodecError>
    decreases max,
{
    if max == 0 {
        Err(CodecError::InvalidData)
    } else if bytes.len() == 0 {
        Err(CodecError::ShortRead)
    } else if bytes[0] < 128 {
        Ok((bytes[0] as nat, 1))
    } else {
        match spec_read_varint(bytes.skip(1), (max - 1) as nat) {
            Ok((v, n)) => Ok((((bytes[0] - 128) + 128 * v) as nat, (n + 1) as nat)),
            Err(e) => Err(e),
        }
    }
}

pub proof fn lemma_varint_bytes_len(n: nat, k: nat)
    requires
        n < pow128(k),
        k >= 1,
    ensures
        varint_bytes(n).len() <= k,
    decreases k,
{
    if n >= 128 {
        lemma_varint_bytes_len(n / 128, (k - 1) as nat);
    }
}

pub proof fn lemma_read_varint_bound(bytes: Seq<u8>, max: nat)
    ensures
        spec_read_varint(bytes, max) matches Ok((v, n))
            ==> v < pow128(max) && 1 <= n <= max && n <= bytes.len(),
    decreases max,
{
    if max > 0 && bytes.len() > 0 {
        if bytes[0] < 128 {
            lemma_pow128_pos((max - 1) as nat);
        } else {
            lemma_read_varint_bound(bytes.skip(1), (max - 1) as nat);
        }
    }
}

/// Reading back the variable-length representation of `n` yields `n` again,
/// whatever bytes follow it.
pub proof fn lemma_varint_round_trip(n: nat, rest: Seq<u8>, max: nat)
    requires
        varint_bytes(n).len() <= max,
    ensures
        spec_read_varint(varint_bytes(n) + rest, max)
            == Ok::<(nat, nat), CodecError>((n, varint_bytes(n).len())),
    decreases n,
{
    let s = varint_bytes(n) + rest;
    if n < 128 {
        assert(s[0] == n as u8);
    } else {
        assert(s[0] == (n % 128 + 128) as u8);
        assert(s.skip(1) =~= varint_bytes(n / 128) + rest);
        lemma_varint_round_trip(n / 128, rest, (max - 1) as nat);
    }
}

/// Appends the variable-length representation of `n`.
pub fn write_varint_raw(out: &mut ByteStream, n: u64)
    requires
        old(out).wf(),
    ensures
        final(out).wf(),
        final(out).buf() == old(out).buf() + varint_bytes(n as nat),
        final(out).pos() == old(out).pos(),
    decreases n,
{
    if n < 128 {
        out.write_byte(n as u8);
        assert(final(out).buf() =~= old(out).buf() + varint_bytes(n as nat));
    } else {
        out.write_byte((n % 128 + 128) as u8);
        write_varint_raw(out, n / 128);
        assert(final(out).buf() =~= old(out).buf() + varint_bytes(n as nat));
    }
}

/// Consumes a variable-length integer of at most `max` groups and returns
/// its raw value.
pub fn read_varint_raw(inp: &mut ByteStream, max: u8) -> (r: Result<u64, CodecError>)
    requires
        old(inp).wf(),
        max <= 8,
    ensures
        final(inp).wf(),
        final(inp).buf() == old(inp).buf(),
        match spec_read_varint(old(inp).remaining(), max as nat) {
            Ok((v, n)) => r == Ok::<u64, CodecError>(v as u64)
                && final(inp).pos() == old(inp).pos() + n,
            Err(e) => r == Err::<u64, CodecError>(e) && old(inp).pos() <= final(inp).pos(),
        },
    decreases max,
{
    if max == 0 {
        return Err(CodecError::InvalidData);
    }
    let b = match inp.read_byte() {
        Ok(b) => b,
        Err(e) => {
            return Err(e);
        },
    };
    if b < 128 {
        Ok(b as u64)
    } else {
        proof {
            assert(inp.remaining() =~= old(inp).remaining().skip(1));
        }
        let v = match read_varint_raw(inp, max - 1) {
            Ok(v) => v,
            Err(e) => {
                return Err(e);
            },
        };
        proof {
            lemma_read_varint_bound(old(inp).remaining().skip(1), (max - 1) as nat);
            lemma_pow128_increases((max - 1) as nat, 7);
            reveal_with_fuel(pow128, 9);
        }
        Ok((b - 128) as u64 + 128 * v)
    }
}

} // verus!
