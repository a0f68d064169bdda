//! The transcoding capability: every supported type exposes exactly one
//! canonical encode/decode pair, `to_bytes` and `from_bytes`.
//!
//! The contract of both operations is stated through one spec function per
//! type, `parse`: how the front of a byte stream is read back as a value of
//! the type.  Encoding promises that whatever bytes it appended parse back
//! to the encoded value's abstract model — for every continuation of the
//! stream, so encodings concatenate soundly.  Decoding promises to return
//! exactly the parsed value and to consume exactly the parsed width, and to
//! fail exactly when the stream is too short.

use vstd::prelude::*;

use crate::stream::ByteSource;
use crate::stream::TranscodeError;
use crate::wire::le_to_nat;
use crate::wire::lemma_le_to_nat_bound;
use crate::wire::lemma_pow256_values;
use crate::wire::read_le_bytes;
use crate::wire::write_le_bytes;

verus! {

/// The uniform encode/decode contract.
///
/// `Self::V` (through [`DeepView`]) is the abstract model of a value: the
/// integer itself for scalars, a `Seq` for ordered sequences, a `Set` or
/// `Map` for the hash-based containers.  Stating the contract over models
/// makes the round trip of a hash container an equality of sets or maps,
/// never of iteration orders.
pub trait Transcode: DeepView + Sized {
    /// How a byte stream is read as a value of this type: the abstract
    /// value its front denotes and the exact number of bytes that reading
    /// it consumes, or `None` when the stream is exhausted too early.
    spec fn parse(s: Seq<u8>) -> Option<(Self::V, int)>;

    /// Whether the runtime machinery behind this type is known to follow
    /// its model.  Hash-based containers demand well-behaved keys; for
    /// every other rule this is unconditionally true.
    spec fn reliable() -> bool;

    /// Whether the abstract model determines the value: true for scalars
    /// and for composites of scalars.  Hash containers need it of their
    /// keys, so that a map's model keeps one entry per key.
    spec fn model_injective() -> bool;

    /// Reading a value never consumes more bytes than the stream holds.
    proof fn lemma_parse_consumes(s: Seq<u8>)
        ensures
            Self::parse(s) matches Some(p) ==> 0 <= p.1 <= s.len(),
    ;

    /// When the model is injective, equal models mean equal values.
    proof fn lemma_model_injective(a: Self, b: Self)
        ensures
            Self::model_injective() && a.deep_view() == b.deep_view() ==> a == b,
    ;

    /// Reading a value looks only at the bytes it consumes: a stream that
    /// starts with the same run is read the same way.
    proof fn lemma_parse_prefix_stable(s: Seq<u8>, t: Seq<u8>)
        ensures
            (Self::parse(s) matches Some(p) && p.1 <= t.len() && s.take(p.1) == t.take(p.1))
                ==> Self::parse(t) == Self::parse(s),
    ;

    /// Append the value's canonical encoding to the sink and return how
    /// many bytes were written.  The bytes appended parse back to the
    /// value's model, whatever follows them in a stream.
    fn to_bytes(&self, sink: &mut Vec<u8>) -> (r: Result<usize, TranscodeError>)
        ensures
            final(sink)@.len() >= old(sink)@.len(),
            final(sink)@.take(old(sink)@.len() as int) == old(sink)@,
            Self::reliable() ==> (r matches Ok(n) && {
                let e = final(sink)@.skip(old(sink)@.len() as int);
                &&& final(sink)@.len() == old(sink)@.len() + n
                &&& final(sink)@.take(old(sink)@.len() as int) == old(sink)@
                &&& forall|rest: Seq<u8>| #![trigger Self::parse(e + rest)]
                    Self::parse(e + rest) == Some((self.deep_view(), n as int))
            }),
    ;

    /// Read one value of this type from the front of the source.  Returns
    /// exactly the parsed value, consuming exactly its width; fails with an
    /// end-of-stream error exactly when the front of the source does not
    /// parse.
    fn from_bytes(src: &mut ByteSource) -> (r: Result<Self, TranscodeError>)
        requires
            old(src).wf(),
        ensures
            final(src).wf(),
            Self::reliable() ==> match Self::parse(old(src).remaining()) {
                Some(p) => r matches Ok(v) && v.deep_view() == p.0 && final(src).remaining()
                    == old(src).remaining().skip(p.1),
                None => r == Err::<Self, TranscodeError>(TranscodeError::UnexpectedEnd),
            },
    ;
}

/// A prefix of a prefix is a prefix: the relation between a sink and its
/// earlier states composes across consecutive writes.
pub proof fn lemma_prefix_chain(later: Seq<u8>, mid: Seq<u8>, early: Seq<u8>)
    requires
        mid.len() <= later.len(),
        early.len() <= mid.len(),
        later.take(mid.len() as int) == mid,
        mid.take(early.len() as int) == early,
    ensures
        later.take(early.len() as int) == early,
{
    assert forall|i: int| 0 <= i < early.len() implies later.take(early.len() as int)[i]
        == early[i] by {
        assert(later.take(mid.len() as int)[i] == later[i]);
        assert(mid.take(early.len() as int)[i] == mid[i]);
    }
    assert(later.take(early.len() as int) =~= early);
}

/// Two equal stream prefixes read the same both before and after dropping
/// an already-consumed front run.
pub proof fn lemma_skip_take_agree(s: Seq<u8>, t: Seq<u8>, k: int, m: int)
    requires
        0 <= k,
        0 <= m,
        k + m <= t.len(),
        k + m <= s.len(),
        s.take(k + m) == t.take(k + m),
    ensures
        s.take(k) == t.take(k),
        s.skip(k).take(m) == t.skip(k).take(m),
{
    assert forall|i: int| 0 <= i < k implies s.take(k)[i] == t.take(k)[i] by {
        assert(s.take(k + m)[i] == t.take(k + m)[i]);
    }
    assert(s.take(k) =~= t.take(k));
    assert forall|i: int| 0 <= i < m implies s.skip(k).take(m)[i] == t.skip(k).take(m)[i] by {
        assert(s.skip(k).take(m)[i] == s[k + i]);
        assert(t.skip(k).take(m)[i] == t[k + i]);
        assert(s.take(k + m)[k + i] == s[k + i]);
        assert(t.take(k + m)[k + i] == t[k + i]);
    }
    assert(s.skip(k).take(m) =~= t.skip(k).take(m));
}

/// A run of `w` bytes at the front of a stream is unchanged by whatever
/// follows it.
pub proof fn lemma_front_run(e: Seq<u8>, rest: Seq<u8>, w: int)
    requires
        e.len() == w,
    ensures
        (e + rest).len() >= w,
        (e + rest).take(w) == e,
{
    assert((e + rest).take(w) =~= e);
}

impl Transcode for u8 {
    open spec fn parse(s: Seq<u8>) -> Option<(u8, int)> {
        if s.len() >= 1 {
            Some((s[0], 1))
        } else {
            None
        }
    }

    open spec fn reliable() -> bool {
        true
    }

    open spec fn model_injective() -> bool {
        true
    }

    proof fn lemma_parse_consumes(s: Seq<u8>) {
    }

    proof fn lemma_model_injective(a: u8, b: u8) {
    }

    proof fn lemma_parse_prefix_stable(s: Seq<u8>, t: Seq<u8>) {
        if s.len() >= 1 && 1 <= t.len() && s.take(1) == t.take(1) {
            assert(s.take(1)[0] == s[0]);
            assert(t.take(1)[0] == t[0]);
        }
    }

    fn to_bytes(&self, sink: &mut Vec<u8>) -> (r: Result<usize, TranscodeError>) {
        sink.push(*self);
        proof {
            let e = sink@.skip(old(sink)@.len() as int);
            assert(sink@.take(old(sink)@.len() as int) =~= old(sink)@);
            assert(e =~= seq![*self]);
            assert forall|rest: Seq<u8>| #![trigger Self::parse(e + rest)]
                Self::parse(e + rest) == Some((self.deep_view(), 1int)) by {
                assert((e + rest)[0] == *self);
            }
        }
        Ok(1)
    }

    fn from_bytes(src: &mut ByteSource) -> (r: Result<u8, TranscodeError>) {
        if src.remaining_len() < 1 {
            return Err(TranscodeError::UnexpectedEnd);
        }
        let b = src.read_byte();
        Ok(b)
    }
}

impl Transcode for i8 {
    open spec fn parse(s: Seq<u8>) -> Option<(i8, int)> {
        if s.len() >= 1 {
            Some((s[0] as i8, 1))
        } else {
            None
        }
    }

    open spec fn reliable() -> bool {
        true
    }

    open spec fn model_injective() -> bool {
        true
    }

    proof fn lemma_parse_consumes(s: Seq<u8>) {
    }

    proof fn lemma_model_injective(a: i8, b: i8) {
    }

    proof fn lemma_parse_prefix_stable(s: Seq<u8>, t: Seq<u8>) {
        if s.len() >= 1 && 1 <= t.len() && s.take(1) == t.take(1) {
            assert(s.take(1)[0] == s[0]);
            assert(t.take(1)[0] == t[0]);
        }
    }

    fn to_bytes(&self, sink: &mut Vec<u8>) -> (r: Result<usize, TranscodeError>) {
        let b: u8 = *self as u8;
        sink.push(b);
        proof {
            let e = sink@.skip(old(sink)@.len() as int);
            assert(sink@.take(old(sink)@.len() as int) =~= old(sink)@);
            assert(e =~= seq![b]);
            assert(b as i8 == *self) by (bit_vector)
                requires
                    b == *self as u8,
            ;
            assert forall|rest: Seq<u8>| #![trigger Self::parse(e + rest)]
                Self::parse(e + rest) == Some((self.deep_view(), 1int)) by {
                assert((e + rest)[0] == b);
            }
        }
        Ok(1)
    }

    fn from_bytes(src: &mut ByteSource) -> (r: Result<i8, TranscodeError>) {
        if src.remaining_len() < 1 {
            return Err(TranscodeError::UnexpectedEnd);
        }
        let b = src.read_byte();
        Ok(b as i8)
    }
}

impl Transcode for u16 {
    open spec fn parse(s: Seq<u8>) -> Option<(u16, int)> {
        if s.len() >= 2 {
            Some((le_to_nat(s.take(2)) as u16, 2))
        } else {
            None
        }
    }

    open spec fn reliable() -> bool {
        true
    }

    open spec fn model_injective() -> bool {
        true
    }

    proof fn lemma_parse_consumes(s: Seq<u8>) {
    }

    proof fn lemma_model_injective(a: u16, b: u16) {
    }

    proof fn lemma_parse_prefix_stable(s: Seq<u8>, t: Seq<u8>) {
    }

    fn to_bytes(&self, sink: &mut Vec<u8>) -> (r: Result<usize, TranscodeError>) {
        proof {
            lemma_pow256_values();
        }
        let n = write_le_bytes(sink, *self as u128, 2);
        proof {
            let e = sink@.skip(old(sink)@.len() as int);
            assert forall|rest: Seq<u8>| #![trigger Self::parse(e + rest)]
                Self::parse(e + rest) == Some((self.deep_view(), 2int)) by {
                lemma_front_run(e, rest, 2);
                assert(le_to_nat((e + rest).take(2)) == *self as nat);
            }
        }
        Ok(n)
    }

    fn from_bytes(src: &mut ByteSource) -> (r: Result<u16, TranscodeError>) {
        match read_le_bytes(src, 2) {
            Ok(x) => {
                proof {
                    lemma_le_to_nat_bound(old(src).remaining().take(2));
                    lemma_pow256_values();
                }
                Ok(x as u16)
            },
            Err(e) => Err(e),
        }
    }
}

impl Transcode for u32 {
    open spec fn parse(s: Seq<u8>) -> Option<(u32, int)> {
        if s.len() >= 4 {
            Some((le_to_nat(s.take(4)) as u32, 4))
        } else {
            None
        }
    }

    open spec fn reliable() -> bool {
        true
    }

    open spec fn model_injective() -> bool {
        true
    }

    proof fn lemma_parse_consumes(s: Seq<u8>) {
    }

    proof fn lemma_model_injective(a: u32, b: u32) {
    }

    proof fn lemma_parse_prefix_stable(s: Seq<u8>, t: Seq<u8>) {
    }

    fn to_bytes(&self, sink: &mut Vec<u8>) -> (r: Result<usize, TranscodeError>) {
        proof {
            lemma_pow256_values();
        }
        let n = write_le_bytes(sink, *self as u128, 4);
        proof {
            let e = sink@.skip(old(sink)@.len() as int);
            assert forall|rest: Seq<u8>| #![trigger Self::parse(e + rest)]
                Self::parse(e + rest) == Some((self.deep_view(), 4int)) by {
                lemma_front_run(e, rest, 4);
                assert(le_to_nat((e + rest).take(4)) == *self as nat);
            }
        }
        Ok(n)
    }

    fn from_bytes(src: &mut ByteSource) -> (r: Result<u32, TranscodeError>) {
        match read_le_bytes(src, 4) {
            Ok(x) => {
                proof {
                    lemma_le_to_nat_bound(old(src).remaining().take(4));
                    lemma_pow256_values();
                }
                Ok(x as u32)
            },
            Err(e) => Err(e),
        }
    }
}

impl Transcode for u64 {
    open spec fn parse(s: Seq<u8>) -> Option<(u64, int)> {
        if s.len() >= 8 {
            Some((le_to_nat(s.take(8)) as u64, 8))
        } else {
            None
        }
    }

    open spec fn reliable() -> bool {
        true
    }

    open spec fn model_injective() -> bool {
        true
    }

    proof fn lemma_parse_consumes(s: Seq<u8>) {
    }

    proof fn lemma_model_injective(a: u64, b: u64) {
    }

    proof fn lemma_parse_prefix_stable(s: Seq<u8>, t: Seq<u8>) {
    }

    fn to_bytes(&self, sink: &mut Vec<u8>) -> (r: Result<usize, TranscodeError>) {
        proof {
            lemma_pow256_values();
        }
        let n = write_le_bytes(sink, *self as u128, 8);
        proof {
            let e = sink@.skip(old(sink)@.len() as int);
            assert forall|rest: Seq<u8>| #![trigger Self::parse(e + rest)]
                Self::parse(e + rest) == Some((self.deep_view(), 8int)) by {
                lemma_front_run(e, rest, 8);
                assert(le_to_nat((e + rest).take(8)) == *self as nat);
            }
        }
        Ok(n)
    }

    fn from_bytes(src: &mut ByteSource) -> (r: Result<u64, TranscodeError>) {
        match read_le_bytes(src, 8) {
            Ok(x) => {
                proof {
                    lemma_le_to_nat_bound(old(src).remaining().take(8));
                    lemma_pow256_values();
                }
                Ok(x as u64)
            },
            Err(e) => Err(e),
        }
    }
}

impl Transcode for u128 {
    open spec fn parse(s: Seq<u8>) -> Option<(u128, int)> {
        if s.len() >= 16 {
            Some((le_to_nat(s.take(16)) as u128, 16))
        } else {
            None
        }
    }

    open spec fn reliable() -> bool {
        true
    }

    open spec fn model_injective() -> bool {
        true
    }

    proof fn lemma_parse_consumes(s: Seq<u8>) {
    }

    proof fn lemma_model_injective(a: u128, b: u128) {
    }

    proof fn lemma_parse_prefix_stable(s: Seq<u8>, t: Seq<u8>) {
    }

    fn to_bytes(&self, sink: &mut Vec<u8>) -> (r: Result<usize, TranscodeError>) {
        proof {
            lemma_pow256_values();
        }
        let n = write_le_bytes(sink, *self, 16);
        proof {
            let e = sink@.skip(old(sink)@.len() as int);
            assert forall|rest: Seq<u8>| #![trigger Self::parse(e + rest)]
                Self::parse(e + rest) == Some((self.deep_view(), 16int)) by {
                lemma_front_run(e, rest, 16);
                assert(le_to_nat((e + rest).take(16)) == *self as nat);
            }
        }
        Ok(n)
    }

    fn from_bytes(src: &mut ByteSource) -> (r: Result<u128, TranscodeError>) {
        match read_le_bytes(src, 16) {
            Ok(x) => {
                proof {
                    lemma_le_to_nat_bound(old(src).remaining().take(16));
                    lemma_pow256_values();
                }
                Ok(x)
            },
            Err(e) => Err(e),
        }
    }
}

impl Transcode for i16 {
    open spec fn parse(s: Seq<u8>) -> Option<(i16, int)> {
        if s.len() >= 2 {
            Some(((le_to_nat(s.take(2)) as u16) as i16, 2))
        } else {
            None
        }
    }

    open spec fn reliable() -> bool {
        true
    }

    open spec fn model_injective() -> bool {
        true
    }

    proof fn lemma_parse_consumes(s: Seq<u8>) {
    }

    proof fn lemma_model_injective(a: i16, b: i16) {
    }

    proof fn lemma_parse_prefix_stable(s: Seq<u8>, t: Seq<u8>) {
    }

    fn to_bytes(&self, sink: &mut Vec<u8>) -> (r: Result<usize, TranscodeError>) {
        proof {
            lemma_pow256_values();
        }
        let b: u16 = *self as u16;
        let n = write_le_bytes(sink, b as u128, 2);
        proof {
            let e = sink@.skip(old(sink)@.len() as int);
            assert(b as i16 == *self) by (bit_vector)
                requires
                    b == *self as u16,
            ;
            assert forall|rest: Seq<u8>| #![trigger Self::parse(e + rest)]
                Self::parse(e + rest) == Some((self.deep_view(), 2int)) by {
                lemma_front_run(e, rest, 2);
                assert(le_to_nat((e + rest).take(2)) == b as nat);
            }
        }
        Ok(n)
    }

    fn from_bytes(src: &mut ByteSource) -> (r: Result<i16, TranscodeError>) {
        match read_le_bytes(src, 2) {
            Ok(x) => {
                proof {
                    lemma_le_to_nat_bound(old(src).remaining().take(2));
                    lemma_pow256_values();
                }
                Ok((x as u16) as i16)
            },
            Err(e) => Err(e),
        }
    }
}

impl Transcode for i32 {
    open spec fn parse(s: Seq<u8>) -> Option<(i32, int)> {
        if s.len() >= 4 {
            Some(((le_to_nat(s.take(4)) as u32) as i32, 4))
        } else {
            None
        }
    }

    open spec fn reliable() -> bool {
        true
    }

    open spec fn model_injective() -> bool {
        true
    }

    proof fn lemma_parse_consumes(s: Seq<u8>) {
    }

    proof fn lemma_model_injective(a: i32, b: i32) {
    }

    proof fn lemma_parse_prefix_stable(s: Seq<u8>, t: Seq<u8>) {
    }

    fn to_bytes(&self, sink: &mut Vec<u8>) -> (r: Result<usize, TranscodeError>) {
        proof {
            lemma_pow256_values();
        }
        let b: u32 = *self as u32;
        let n = write_le_bytes(sink, b as u128, 4);
        proof {
            let e = sink@.skip(old(sink)@.len() as int);
            assert(b as i32 == *self) by (bit_vector)
                requires
                    b == *self as u32,
            ;
            assert forall|rest: Seq<u8>| #![trigger Self::parse(e + rest)]
                Self::parse(e + rest) == Some((self.deep_view(), 4int)) by {
                lemma_front_run(e, rest, 4);
                assert(le_to_nat((e + rest).take(4)) == b as nat);
            }
        }
        Ok(n)
    }

    fn from_bytes(src: &mut ByteSource) -> (r: Result<i32, TranscodeError>) {
        match read_le_bytes(src, 4) {
            Ok(x) => {
                proof {
                    lemma_le_to_nat_bound(old(src).remaining().take(4));
                    lemma_pow256_values();
                }
                Ok((x as u32) as i32)
            },
            Err(e) => Err(e),
        }
    }
}

impl Transcode for i64 {
    open spec fn parse(s: Seq<u8>) -> Option<(i64, int)> {
        if s.len() >= 8 {
            Some(((le_to_nat(s.take(8)) as u64) as i64, 8))
        } else {
            None
        }
    }

    open spec fn reliable() -> bool {
        true
    }

    open spec fn model_injective() -> bool {
        true
    }

    proof fn lemma_parse_consumes(s: Seq<u8>) {
    }

    proof fn lemma_model_injective(a: i64, b: i64) {
    }

    proof fn lemma_parse_prefix_stable(s: Seq<u8>, t: Seq<u8>) {
    }

    fn to_bytes(&self, sink: &mut Vec<u8>) -> (r: Result<usize, TranscodeError>) {
        proof {
            lemma_pow256_values();
        }
        let b: u64 = *self as u64;
        let n = write_le_bytes(sink, b as u128, 8);
        proof {
            let e = sink@.skip(old(sink)@.len() as int);
            assert(b as i64 == *self) by (bit_vector)
                requires
                    b == *self as u64,
            ;
            assert forall|rest: Seq<u8>| #![trigger Self::parse(e + rest)]
                Self::parse(e + rest) == Some((self.deep_view(), 8int)) by {
                lemma_front_run(e, rest, 8);
                assert(le_to_nat((e + rest).take(8)) == b as nat);
            }
        }
        Ok(n)
    }

    fn from_bytes(src: &mut ByteSource) -> (r: Result<i64, TranscodeError>) {
        match read_le_bytes(src, 8) {
            Ok(x) => {
                proof {
                    lemma_le_to_nat_bound(old(src).remaining().take(8));
                    lemma_pow256_values();
                }
                Ok((x as u64) as i64)
            },
            Err(e) => Err(e),
        }
    }
}

impl Transcode for i128 {
    open spec fn parse(s: Seq<u8>) -> Option<(i128, int)> {
        if s.len() >= 16 {
            Some(((le_to_nat(s.take(16)) as u128) as i128, 16))
        } else {
            None
        }
    }

    open spec fn reliable() -> bool {
        true
    }

    open spec fn model_injective() -> bool {
        true
    }

    proof fn lemma_parse_consumes(s: Seq<u8>) {
    }

    proof fn lemma_model_injective(a: i128, b: i128) {
    }

    proof fn lemma_parse_prefix_stable(s: Seq<u8>, t: Seq<u8>) {
    }

    fn to_bytes(&self, sink: &mut Vec<u8>) -> (r: Result<usize, TranscodeError>) {
        proof {
            lemma_pow256_values();
        }
        let b: u128 = *self as u128;
        let n = write_le_bytes(sink, b, 16);
        proof {
            let e = sink@.skip(old(sink)@.len() as int);
            assert(b as i128 == *self) by (bit_vector)
                requires
                    b == *self as u128,
            ;
            assert forall|rest: Seq<u8>| #![trigger Self::parse(e + rest)]
                Self::parse(e + rest) == Some((self.deep_view(), 16int)) by {
                lemma_front_run(e, rest, 16);
                assert(le_to_nat((e + rest).take(16)) == b as nat);
            }
        }
        Ok(n)
    }

    fn from_bytes(src: &mut ByteSource) -> (r: Result<i128, TranscodeError>) {
        match read_le_bytes(src, 16) {
            Ok(x) => {
                proof {
                    lemma_le_to_nat_bound(old(src).remaining().take(16));
                    lemma_pow256_values();
                }
                Ok(x as i128)
            },
            Err(e) => Err(e),
        }
    }
}

impl Transcode for usize {
    /// A pointer-sized integer is always 8 bytes on the wire; a stored
    /// count above the platform's `usize::MAX` does not parse, so decoding
    /// fails cleanly instead of silently narrowing.
    open spec fn parse(s: Seq<u8>) -> Option<(usize, int)> {
        if s.len() >= 8 && le_to_nat(s.take(8)) <= usize::MAX as nat {
            Some((le_to_nat(s.take(8)) as usize, 8))
        } else {
            None
        }
    }

    open spec fn reliable() -> bool {
        true
    }

    open spec fn model_injective() -> bool {
        true
    }

    proof fn lemma_parse_consumes(s: Seq<u8>) {
    }

    proof fn lemma_model_injective(a: usize, b: usize) {
    }

    proof fn lemma_parse_prefix_stable(s: Seq<u8>, t: Seq<u8>) {
    }

    fn to_bytes(&self, sink: &mut Vec<u8>) -> (r: Result<usize, TranscodeError>) {
        proof {
            lemma_pow256_values();
        }
        let b: u64 = *self as u64;
        let n = write_le_bytes(sink, b as u128, 8);
        proof {
            let e = sink@.skip(old(sink)@.len() as int);
            assert forall|rest: Seq<u8>| #![trigger Self::parse(e + rest)]
                Self::parse(e + rest) == Some((self.deep_view(), 8int)) by {
                lemma_front_run(e, rest, 8);
                assert(le_to_nat((e + rest).take(8)) == b as nat);
            }
        }
        Ok(n)
    }

    fn from_bytes(src: &mut ByteSource) -> (r: Result<usize, TranscodeError>) {
        match read_le_bytes(src, 8) {
            Ok(x) => {
                proof {
                    lemma_le_to_nat_bound(old(src).remaining().take(8));
                    lemma_pow256_values();
                }
                if x <= usize::MAX as u128 {
                    Ok(x as usize)
                } else {
                    Err(TranscodeError::UnexpectedEnd)
                }
            },
            Err(e) => Err(e),
        }
    }
}

impl Transcode for isize {
    /// A pointer-sized signed integer is always 8 bytes on the wire; a
    /// stored value outside the platform's `isize` range does not parse.
    open spec fn parse(s: Seq<u8>) -> Option<(isize, int)> {
        if s.len() >= 8 {
            let v = (le_to_nat(s.take(8)) as u64) as i64;
            if isize::MIN as int <= v as int && v as int <= isize::MAX as int {
                Some((v as isize, 8))
            } else {
                None
            }
        } else {
            None
        }
    }

    open spec fn reliable() -> bool {
        true
    }

    open spec fn model_injective() -> bool {
        true
    }

    proof fn lemma_parse_consumes(s: Seq<u8>) {
    }

    proof fn lemma_model_injective(a: isize, b: isize) {
    }

    proof fn lemma_parse_prefix_stable(s: Seq<u8>, t: Seq<u8>) {
    }

    fn to_bytes(&self, sink: &mut Vec<u8>) -> (r: Result<usize, TranscodeError>) {
        proof {
            lemma_pow256_values();
        }
        let w: i64 = *self as i64;
        let b: u64 = w as u64;
        let n = write_le_bytes(sink, b as u128, 8);
        proof {
            let e = sink@.skip(old(sink)@.len() as int);
            assert(b as i64 == w) by (bit_vector)
                requires
                    b == w as u64,
            ;
            assert forall|rest: Seq<u8>| #![trigger Self::parse(e + rest)]
                Self::parse(e + rest) == Some((self.deep_view(), 8int)) by {
                lemma_front_run(e, rest, 8);
                assert(le_to_nat((e + rest).take(8)) == b as nat);
            }
        }
        Ok(n)
    }

    fn from_bytes(src: &mut ByteSource) -> (r: Result<isize, TranscodeError>) {
        match read_le_bytes(src, 8) {
            Ok(x) => {
                proof {
                    lemma_le_to_nat_bound(old(src).remaining().take(8));
                    lemma_pow256_values();
                }
                let v: i64 = (x as u64) as i64;
                if isize::MIN as i64 <= v && v <= isize::MAX as i64 {
                    Ok(v as isize)
                } else {
                    Err(TranscodeError::UnexpectedEnd)
                }
            },
            Err(e) => Err(e),
        }
    }
}

impl Transcode for () {
    /// The unit value occupies no bytes at all.
    open spec fn parse(s: Seq<u8>) -> Option<((), int)> {
        Some(((), 0))
    }

    open spec fn reliable() -> bool {
        true
    }

    open spec fn model_injective() -> bool {
        true
    }

    proof fn lemma_parse_consumes(s: Seq<u8>) {
    }

    proof fn lemma_model_injective(a: (), b: ()) {
    }

    proof fn lemma_parse_prefix_stable(s: Seq<u8>, t: Seq<u8>) {
    }

    fn to_bytes(&self, sink: &mut Vec<u8>) -> (r: Result<usize, TranscodeError>) {
        proof {
            assert(sink@.take(sink@.len() as int) =~= sink@);
        }
        Ok(0)
    }

    fn from_bytes(src: &mut ByteSource) -> (r: Result<(), TranscodeError>) {
        proof {
            assert(src.remaining().skip(0) =~= src.remaining());
        }
        Ok(())
    }
}

} // verus!
