//! The numeric heart of the wire format: every fixed-width integer is laid
//! down as its value in base 256, least significant byte first.  `le_to_nat`
//! is the mathematical reading of such a byte run, and the two executable
//! helpers below write and read one run of a given width.

use vstd::prelude::*;
use crate::stream::{ByteSource, TranscodeError};

verus! {

/// 256 raised to `n`: the number of values a run of `n` bytes can carry.
pub open spec fn pow256(n: nat) -> nat
    decreases n,
{
    if n == 0 {
        1
    } else {
        256 * pow256((n - 1) as nat)
    }
}

/// The unsigned integer that a little-endian byte run denotes.
pub open spec fn le_to_nat(s: Seq<u8>) -> nat
    decreases s.len(),
{
    if s.len() == 0 {
        0
    } else {
        (s[0] + 256 * le_to_nat(s.skip(1))) as nat
    }
}

pub proof fn lemma_pow256_pos(n: nat)
    ensures
        pow256(n) >= 1,
    decreases n,
{
    if n > 0 {
        lemma_pow256_pos((n - 1) as nat);
    }
}

pub proof fn lemma_pow256_mono(i: nat, j: nat)
    requires
        i <= j,
    ensures
        pow256(i) <= pow256(j),
    decreases j,
{
    if i < j {
        lemma_pow256_mono(i, (j - 1) as nat);
        lemma_pow256_pos((j - 1) as nat);
    }
}

/// The widths the transcoder uses, spelled out so that callers can reason
/// with literals.
pub proof fn lemma_pow256_values()
    ensures
        pow256(1) == 0x100,
        pow256(2) == 0x1_0000,
        pow256(4) == 0x1_0000_0000,
        pow256(8) == 0x1_0000_0000_0000_0000,
        pow256(16) == 0x1_0000_0000_0000_0000_0000_0000_0000_0000,
{
    assert(pow256(0) == 1);
    assert(pow256(1) == 0x100);
    assert(pow256(2) == 0x1_0000);
    assert(pow256(3) == 0x100_0000);
    assert(pow256(4) == 0x1_0000_0000);
    assert(pow256(5) == 0x100_0000_0000);
    assert(pow256(6) == 0x1_0000_0000_0000);
    assert(pow256(7) == 0x100_0000_0000_0000);
    assert(pow256(8) == 0x1_0000_0000_0000_0000);
    assert(pow256(9) == 0x100_0000_0000_0000_0000);
    assert(pow256(10) == 0x1_0000_0000_0000_0000_0000);
    assert(pow256(11) == 0x100_0000_0000_0000_0000_0000);
    assert(pow256(12) == 0x1_0000_0000_0000_0000_0000_0000);
    assert(pow256(13) == 0x100_0000_0000_0000_0000_0000_0000);
    assert(pow256(14) == 0x1_0000_0000_0000_0000_0000_0000_0000);
    assert(pow256(15) == 0x100_0000_0000_0000_0000_0000_0000_0000);
    assert(pow256(16) == 0x1_0000_0000_0000_0000_0000_0000_0000_0000);
}

/// A byte run of length `n` denotes a value below `pow256(n)`.
pub proof fn lemma_le_to_nat_bound(s: Seq<u8>)
    ensures
        le_to_nat(s) < pow256(s.len()),
    decreases s.len(),
{
    if s.len() > 0 {
        lemma_le_to_nat_bound(s.skip(1));
        assert(s.skip(1).len() == s.len() - 1);
        assert(s[0] + 256 * le_to_nat(s.skip(1)) < 256 * pow256((s.len() - 1) as nat)) by {
            assert(le_to_nat(s.skip(1)) + 1 <= pow256((s.len() - 1) as nat));
            assert(256 * (le_to_nat(s.skip(1)) + 1) <= 256 * pow256((s.len() - 1) as nat))
                by (nonlinear_arith)
                requires le_to_nat(s.skip(1)) + 1 <= pow256((s.len() - 1) as nat),
            ;
        }
    }
}

/// Two byte runs of one length that denote one value are the same run:
/// each width has exactly one representation of each value.
pub proof fn lemma_le_to_nat_injective(s1: Seq<u8>, s2: Seq<u8>)
    requires
        s1.len() == s2.len(),
        le_to_nat(s1) == le_to_nat(s2),
    ensures
        s1 == s2,
    decreases s1.len(),
{
    if s1.len() > 0 {
        let r1: nat = le_to_nat(s1.skip(1));
        let r2: nat = le_to_nat(s2.skip(1));
        assert(s1[0] + 256 * r1 == s2[0] + 256 * r2);
        if r1 == r2 {
            assert(s1[0] == s2[0]);
        } else if r1 < r2 {
            assert(256 * r1 + 256 <= 256 * r2) by (nonlinear_arith)
                requires
                    r1 < r2,
            ;
            assert(false);
        } else {
            assert(256 * r2 + 256 <= 256 * r1) by (nonlinear_arith)
                requires
                    r2 < r1,
            ;
            assert(false);
        }
        lemma_le_to_nat_injective(s1.skip(1), s2.skip(1));
        assert forall|i: int| 0 <= i < s1.len() implies s1[i] == s2[i] by {
            if i > 0 {
                assert(s1.skip(1)[i - 1] == s1[i]);
                assert(s2.skip(1)[i - 1] == s2[i]);
            }
        }
        assert(s1 =~= s2);
    } else {
        assert(s1 =~= s2);
    }
}

/// Appending one byte to a run raises the denoted value by that byte times
/// the weight of the new position.
pub proof fn lemma_le_to_nat_snoc(s: Seq<u8>, b: u8)
    ensures
        le_to_nat(s.push(b)) == le_to_nat(s) + b * pow256(s.len()),
    decreases s.len(),
{
    if s.len() == 0 {
        assert(s.push(b).skip(1) =~= Seq::<u8>::empty());
        assert(s.push(b)[0] == b);
        assert(le_to_nat(Seq::<u8>::empty()) == 0);
        assert(le_to_nat(s.push(b)) == b);
        assert(pow256(0) == 1);
        assert(le_to_nat(s) == 0);
    } else {
        assert(s.push(b).skip(1) =~= s.skip(1).push(b));
        lemma_le_to_nat_snoc(s.skip(1), b);
        assert(s.push(b)[0] == s[0]);
        let rest: nat = le_to_nat(s.skip(1));
        let p: nat = pow256((s.len() - 1) as nat);
        assert(le_to_nat(s.push(b)) == s[0] + 256 * (rest + b * p));
        assert(256 * (rest + b * p) == 256 * rest + b * (256 * p)) by (nonlinear_arith);
        assert(256 * p == pow256(s.len()));
        assert(le_to_nat(s) == s[0] + 256 * rest);
        assert(le_to_nat(s.push(b)) == s[0] + 256 * rest + b * (256 * p));
        assert(b * (256 * p) == b * pow256(s.len()));
    }
}

/// Write `x` to the sink as exactly `width` little-endian bytes.
///
/// The sink grows by the run and by nothing else; what was there before is
/// untouched.
pub fn write_le_bytes(sink: &mut Vec<u8>, x: u128, width: usize) -> (n: usize)
    requires
        width <= 16,
        (x as nat) < pow256(width as nat),
    ensures
        n == width,
        final(sink)@.len() == old(sink)@.len() + width,
        final(sink)@.take(old(sink)@.len() as int) == old(sink)@,
        le_to_nat(final(sink)@.skip(old(sink)@.len() as int)) == x as nat,
{
    let ghost start: int = old(sink)@.len() as int;
    let mut cur: u128 = x;
    let mut i: usize = 0;
    while i < width
        invariant
            i <= width,
            width <= 16,
            sink@.len() == start + i,
            start == old(sink)@.len(),
            sink@.take(start) == old(sink)@,
            (cur as nat) < pow256((width - i) as nat),
            le_to_nat(sink@.skip(start)) + (cur as nat) * pow256(i as nat) == x as nat,
        decreases width - i,
    {
        let ghost emitted: Seq<u8> = sink@.skip(start);
        let b: u8 = (cur % 256) as u8;
        sink.push(b);
        proof {
            assert(sink@.take(start) =~= old(sink)@);
            assert(sink@.skip(start) =~= emitted.push(b));
            lemma_le_to_nat_snoc(emitted, b);
            assert(emitted.len() == i);
            // cur splits into its low byte and the rest
            let q: nat = (cur as nat) / 256;
            assert(cur as nat == 256 * q + (cur as nat) % 256) by (nonlinear_arith)
                requires
                    q == (cur as nat) / 256,
            ;
            assert((256 * q + (cur as nat) % 256) * pow256(i as nat) == q * (256 * pow256(
                i as nat,
            )) + ((cur as nat) % 256) * pow256(i as nat)) by (nonlinear_arith);
            assert(256 * pow256(i as nat) == pow256((i + 1) as nat));
            // the new quotient stays under the shrunken bound
            assert(q < pow256((width - i - 1) as nat)) by (nonlinear_arith)
                requires
                    (cur as nat) < pow256((width - i) as nat),
                    pow256((width - i) as nat) == 256 * pow256((width - i - 1) as nat),
                    q == (cur as nat) / 256,
            ;
            assert(pow256((width - i) as nat) == 256 * pow256((width - i - 1) as nat));
        }
        cur = cur / 256;
        i = i + 1;
    }
    proof {
        assert(pow256(0) == 1);
        assert((cur as nat) == 0);
    }
    width
}

/// Read exactly `width` little-endian bytes from the source and return the
/// value they denote; fail, consuming nothing, if fewer bytes remain.
pub fn read_le_bytes(src: &mut ByteSource, width: usize) -> (r: Result<u128, TranscodeError>)
    requires
        old(src).wf(),
        width <= 16,
    ensures
        final(src).wf(),
        old(src).remaining().len() >= width ==> (r matches Ok(x)
            && x as nat == le_to_nat(old(src).remaining().take(width as int))
            && final(src).remaining() == old(src).remaining().skip(width as int)),
        old(src).remaining().len() < width ==> r == Err::<u128, TranscodeError>(
            TranscodeError::UnexpectedEnd,
        ) && *final(src) == *old(src),
{
    if src.remaining_len() < width {
        return Err(TranscodeError::UnexpectedEnd);
    }
    let mut buf: Vec<u8> = Vec::new();
    let mut i: usize = 0;
    while i < width
        invariant
            i <= width,
            width <= 16,
            src.wf(),
            old(src).remaining().len() >= width,
            buf@ =~= old(src).remaining().take(i as int),
            src.remaining() == old(src).remaining().skip(i as int),
        decreases width - i,
    {
        let b = src.read_byte();
        buf.push(b);
        proof {
            assert(buf@ =~= old(src).remaining().take((i + 1) as int));
            assert(src.remaining() =~= old(src).remaining().skip((i + 1) as int));
        }
        i = i + 1;
    }
    let ghost run: Seq<u8> = old(src).remaining().take(width as int);
    let mut acc: u128 = 0;
    let mut j: usize = width;
    proof {
        assert(buf@.skip(j as int) =~= Seq::<u8>::empty());
        lemma_pow256_values();
        lemma_pow256_mono((width - j) as nat, 16);
    }
    while j > 0
        invariant
            j <= width,
            width <= 16,
            buf@ == run,
            buf@.len() == width,
            acc as nat == le_to_nat(buf@.skip(j as int)),
            (acc as nat) < pow256((width - j) as nat),
        decreases j,
    {
        j = j - 1;
        let b = buf[j];
        proof {
            assert(buf@.skip(j as int)[0] == buf@[j as int]);
            assert(buf@.skip(j as int).skip(1) =~= buf@.skip(j as int + 1));
            assert(le_to_nat(buf@.skip(j as int)) == b + 256 * le_to_nat(buf@.skip(j as int + 1)));
            assert(256 * (acc as nat) + b < 256 * pow256((width - j - 1) as nat)) by (
            nonlinear_arith)
                requires
                    (acc as nat) < pow256((width - j - 1) as nat),
                    b < 256,
            ;
            assert(256 * pow256((width - j - 1) as nat) == pow256((width - j) as nat));
            lemma_pow256_values();
            lemma_pow256_mono((width - j) as nat, 16);
        }
        acc = acc * 256 + b as u128;
    }
    proof {
        assert(buf@.skip(0) =~= buf@);
    }
    Ok(acc)
}

} // verus!
