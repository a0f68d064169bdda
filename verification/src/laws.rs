//! The guarantees that hold across the whole transcoding layer, stated
//! once and proved from the contracts of `to_bytes` and `from_bytes`.

use vstd::prelude::*;

use crate::containers::lemma_parse_elems_consumes;
use crate::stream::ByteSource;
use crate::stream::TranscodeError;
use crate::transcode::Transcode;
use crate::wire::le_to_nat;
use crate::wire::lemma_le_to_nat_bound;
use crate::wire::lemma_le_to_nat_injective;
use crate::wire::lemma_pow256_values;

verus! {

/// Encoding a value into an empty sink and decoding the result gives back
/// a value with the same abstract model — the same integer, the same
/// ordered sequence, the same set or map regardless of iteration order —
/// and the decoder consumes exactly the count of bytes the encoder
/// reported: nothing more, nothing less.
///
/// Returns the decoded value, the encoder's byte count, and the number of
/// bytes the decoder consumed.
pub fn transcode_cycle<T: Transcode>(v: &T) -> (r: Result<(T, usize, usize), TranscodeError>)
    ensures
        T::reliable() ==> (r matches Ok(p) && {
            &&& p.0.deep_view() == v.deep_view()
            &&& p.1 == p.2
        }),
{
    let mut buf: Vec<u8> = Vec::new();
    let n = match v.to_bytes(&mut buf) {
        Ok(n) => n,
        Err(e) => {
            return Err(e);
        },
    };
    let total = buf.len();
    let ghost encoded = buf@;
    let mut src = ByteSource::new(buf);
    proof {
        if T::reliable() {
            assert(encoded.skip(0) =~= encoded);
            assert(encoded + Seq::<u8>::empty() =~= encoded);
            assert(T::parse(encoded + Seq::<u8>::empty()) == Some((v.deep_view(), n as int)));
            assert(T::parse(encoded) == Some((v.deep_view(), n as int)));
        }
    }
    let w = match T::from_bytes(&mut src) {
        Ok(w) => w,
        Err(e) => {
            return Err(e);
        },
    };
    let rem = src.remaining_len();
    let consumed = if rem <= total {
        total - rem
    } else {
        0
    };
    proof {
        if T::reliable() {
            assert(src.remaining() =~= encoded.skip(n as int));
        }
    }
    Ok((w, n, consumed))
}

/// Every fixed-width scalar reads as exactly its width in bytes, and reads
/// at all exactly when that many bytes remain; the unit value reads as
/// zero bytes from any stream.  The pointer-sized types always take 8
/// bytes from the wire and fail, never truncate, on a short stream.
pub proof fn lemma_scalar_widths(s: Seq<u8>)
    ensures
        (<u8 as Transcode>::parse(s) is Some) <==> s.len() >= 1,
        <u8 as Transcode>::parse(s) matches Some(p) ==> p.1 == 1,
        (<i8 as Transcode>::parse(s) is Some) <==> s.len() >= 1,
        <i8 as Transcode>::parse(s) matches Some(p) ==> p.1 == 1,
        (<u16 as Transcode>::parse(s) is Some) <==> s.len() >= 2,
        <u16 as Transcode>::parse(s) matches Some(p) ==> p.1 == 2,
        (<i16 as Transcode>::parse(s) is Some) <==> s.len() >= 2,
        <i16 as Transcode>::parse(s) matches Some(p) ==> p.1 == 2,
        (<u32 as Transcode>::parse(s) is Some) <==> s.len() >= 4,
        <u32 as Transcode>::parse(s) matches Some(p) ==> p.1 == 4,
        (<i32 as Transcode>::parse(s) is Some) <==> s.len() >= 4,
        <i32 as Transcode>::parse(s) matches Some(p) ==> p.1 == 4,
        (<u64 as Transcode>::parse(s) is Some) <==> s.len() >= 8,
        <u64 as Transcode>::parse(s) matches Some(p) ==> p.1 == 8,
        (<i64 as Transcode>::parse(s) is Some) <==> s.len() >= 8,
        <i64 as Transcode>::parse(s) matches Some(p) ==> p.1 == 8,
        (<u128 as Transcode>::parse(s) is Some) <==> s.len() >= 16,
        <u128 as Transcode>::parse(s) matches Some(p) ==> p.1 == 16,
        (<i128 as Transcode>::parse(s) is Some) <==> s.len() >= 16,
        <i128 as Transcode>::parse(s) matches Some(p) ==> p.1 == 16,
        s.len() < 8 ==> <usize as Transcode>::parse(s) is None,
        <usize as Transcode>::parse(s) matches Some(p) ==> p.1 == 8,
        s.len() < 8 ==> <isize as Transcode>::parse(s) is None,
        <isize as Transcode>::parse(s) matches Some(p) ==> p.1 == 8,
        <() as Transcode>::parse(s) == Some(((), 0int)),
{
}

/// The zero-length array reads as zero bytes from any stream, just as the
/// unit value does: its length is part of the type, so nothing is stored.
pub proof fn lemma_zero_array<T: Transcode>(s: Seq<u8>)
    ensures
        <[T; 0] as Transcode>::parse(s) == Some((Seq::<T::V>::empty(), 0int)),
{
}

/// An encoded 32-bit integer occupies exactly 4 bytes, which hold its
/// value in little-endian order.
pub proof fn lemma_u32_encoding(s: Seq<u8>, x: u32, n: int)
    requires
        <u32 as Transcode>::parse(s) == Some((x, n)),
    ensures
        n == 4,
        s.len() >= 4,
        le_to_nat(s.take(4)) == x as nat,
{
    lemma_le_to_nat_bound(s.take(4));
    lemma_pow256_values();
}

/// An encoded 64-bit integer occupies exactly 8 bytes, which hold its
/// value in little-endian order.
pub proof fn lemma_u64_encoding(s: Seq<u8>, x: u64, n: int)
    requires
        <u64 as Transcode>::parse(s) == Some((x, n)),
    ensures
        n == 8,
        s.len() >= 8,
        le_to_nat(s.take(8)) == x as nat,
{
    lemma_le_to_nat_bound(s.take(8));
    lemma_pow256_values();
}

/// A 32-bit integer has exactly one 4-byte encoding: two streams that
/// read as the same value begin with the same 4 bytes.
pub proof fn lemma_u32_encoding_canonical(s1: Seq<u8>, s2: Seq<u8>, x: u32)
    requires
        <u32 as Transcode>::parse(s1) matches Some(p1) && p1.0 == x,
        <u32 as Transcode>::parse(s2) matches Some(p2) && p2.0 == x,
    ensures
        s1.take(4) == s2.take(4),
{
    lemma_le_to_nat_bound(s1.take(4));
    lemma_le_to_nat_bound(s2.take(4));
    lemma_pow256_values();
    lemma_le_to_nat_injective(s1.take(4), s2.take(4));
}

/// A 64-bit integer has exactly one 8-byte encoding.
pub proof fn lemma_u64_encoding_canonical(s1: Seq<u8>, s2: Seq<u8>, x: u64)
    requires
        <u64 as Transcode>::parse(s1) matches Some(p1) && p1.0 == x,
        <u64 as Transcode>::parse(s2) matches Some(p2) && p2.0 == x,
    ensures
        s1.take(8) == s2.take(8),
{
    lemma_le_to_nat_bound(s1.take(8));
    lemma_le_to_nat_bound(s2.take(8));
    lemma_pow256_values();
    lemma_le_to_nat_injective(s1.take(8), s2.take(8));
}

/// A stream that reads as an ordered sequence of `vs.len()` elements
/// begins with 8 bytes that hold exactly that element count, little
/// endian.
pub proof fn lemma_length_prefix<T: Transcode>(s: Seq<u8>, vs: Seq<T::V>, n: int)
    requires
        <Vec<T> as Transcode>::parse(s) == Some((vs, n)),
    ensures
        s.len() >= 8,
        le_to_nat(s.take(8)) == vs.len(),
{
    let p = <usize as Transcode>::parse(s)->Some_0;
    lemma_parse_elems_consumes::<T>(s.skip(p.1), p.0 as nat);
    assert(vs.len() == p.0);
}

} // verus!
