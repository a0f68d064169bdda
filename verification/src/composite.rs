//! Fixed-size composites: tuples of arity one to three, and fixed-length
//! arrays.  A composite is encoded as its components in positional order,
//! with no prefix and no separators — the shape is part of the static type
//! and known to both ends.

use vstd::prelude::*;

use crate::stream::ByteSource;
use crate::stream::TranscodeError;
use crate::transcode::Transcode;

verus! {

use crate::transcode::lemma_skip_take_agree;

impl<A: Transcode> Transcode for (A,) {
    open spec fn parse(s: Seq<u8>) -> Option<((A::V,), int)> {
        match A::parse(s) {
            Some(p) => Some(((p.0,), p.1)),
            None => None,
        }
    }

    open spec fn reliable() -> bool {
        A::reliable()
    }

    open spec fn model_injective() -> bool {
        A::model_injective()
    }

    proof fn lemma_parse_consumes(s: Seq<u8>) {
        A::lemma_parse_consumes(s);
    }

    proof fn lemma_model_injective(a: (A,), b: (A,)) {
        if Self::model_injective() && a.deep_view() == b.deep_view() {
            A::lemma_model_injective(a.0, b.0);
        }
    }

    proof fn lemma_parse_prefix_stable(s: Seq<u8>, t: Seq<u8>) {
        A::lemma_parse_prefix_stable(s, t);
    }

    fn to_bytes(&self, sink: &mut Vec<u8>) -> (r: Result<usize, TranscodeError>) {
        self.0.to_bytes(sink)
    }

    fn from_bytes(src: &mut ByteSource) -> (r: Result<(A,), TranscodeError>) {
        match A::from_bytes(src) {
            Ok(a) => Ok((a,)),
            Err(e) => Err(e),
        }
    }
}

impl<A: Transcode, B: Transcode> Transcode for (A, B) {
    open spec fn parse(s: Seq<u8>) -> Option<((A::V, B::V), int)> {
        match A::parse(s) {
            Some(p) => match B::parse(s.skip(p.1)) {
                Some(q) => Some(((p.0, q.0), p.1 + q.1)),
                None => None,
            },
            None => None,
        }
    }

    open spec fn reliable() -> bool {
        A::reliable() && B::reliable()
    }

    open spec fn model_injective() -> bool {
        A::model_injective() && B::model_injective()
    }

    proof fn lemma_parse_consumes(s: Seq<u8>) {
        A::lemma_parse_consumes(s);
        if A::parse(s) is Some {
            let p = A::parse(s)->Some_0;
            B::lemma_parse_consumes(s.skip(p.1));
        }
    }

    proof fn lemma_model_injective(a: (A, B), b: (A, B)) {
        if Self::model_injective() && a.deep_view() == b.deep_view() {
            A::lemma_model_injective(a.0, b.0);
            B::lemma_model_injective(a.1, b.1);
        }
    }

    proof fn lemma_parse_prefix_stable(s: Seq<u8>, t: Seq<u8>) {
        if Self::parse(s) matches Some(p) && p.1 <= t.len() && s.take(p.1) == t.take(p.1) {
            let pa = A::parse(s)->Some_0;
            let pb = B::parse(s.skip(pa.1))->Some_0;
            A::lemma_parse_consumes(s);
            B::lemma_parse_consumes(s.skip(pa.1));
            lemma_skip_take_agree(s, t, pa.1, pb.1);
            A::lemma_parse_prefix_stable(s, t);
            B::lemma_parse_prefix_stable(s.skip(pa.1), t.skip(pa.1));
        }
    }

    fn to_bytes(&self, sink: &mut Vec<u8>) -> (r: Result<usize, TranscodeError>) {
        let start = sink.len();
        match self.0.to_bytes(sink) {
            Ok(_) => (),
            Err(e) => {
                return Err(e);
            },
        }
        let ghost mid = sink@;
        match self.1.to_bytes(sink) {
            Ok(_) => (),
            Err(e) => {
                proof {
                    crate::transcode::lemma_prefix_chain(sink@, mid, old(sink)@);
                }
                return Err(e);
            },
        }
        let end = sink.len();
        proof {
            crate::transcode::lemma_prefix_chain(sink@, mid, old(sink)@);
            if Self::reliable() {
                let e0 = mid.skip(start as int);
                let e1 = sink@.skip(mid.len() as int);
                let e = sink@.skip(start as int);
                assert(e =~= e0 + e1);
                assert(sink@.take(start as int) =~= old(sink)@);
                assert forall|rest: Seq<u8>| #![trigger Self::parse(e + rest)]
                    Self::parse(e + rest) == Some((self.deep_view(), (end - start) as int)) by {
                    assert(e + rest =~= e0 + (e1 + rest));
                    assert(A::parse(e0 + (e1 + rest)) == Some(
                        (self.0.deep_view(), e0.len() as int),
                    ));
                    assert((e + rest).skip(e0.len() as int) =~= e1 + rest);
                    assert(B::parse(e1 + rest) == Some((self.1.deep_view(), e1.len() as int)));
                }
            }
        }
        Ok(end - start)
    }

    fn from_bytes(src: &mut ByteSource) -> (r: Result<(A, B), TranscodeError>) {
        let ghost rem0 = old(src).remaining();
        let a = match A::from_bytes(src) {
            Ok(a) => a,
            Err(e) => {
                return Err(e);
            },
        };
        let b = match B::from_bytes(src) {
            Ok(b) => b,
            Err(e) => {
                return Err(e);
            },
        };
        proof {
            if Self::reliable() && Self::parse(rem0) is Some {
                let pa = A::parse(rem0)->Some_0;
                let pb = B::parse(rem0.skip(pa.1))->Some_0;
                A::lemma_parse_consumes(rem0);
                B::lemma_parse_consumes(rem0.skip(pa.1));
                assert(src.remaining() =~= rem0.skip(pa.1 + pb.1));
            }
        }
        Ok((a, b))
    }
}

impl<A: Transcode, B: Transcode, C: Transcode> Transcode for (A, B, C) {
    open spec fn parse(s: Seq<u8>) -> Option<((A::V, B::V, C::V), int)> {
        match A::parse(s) {
            Some(p) => match B::parse(s.skip(p.1)) {
                Some(q) => match C::parse(s.skip(p.1 + q.1)) {
                    Some(w) => Some(((p.0, q.0, w.0), p.1 + q.1 + w.1)),
                    None => None,
                },
                None => None,
            },
            None => None,
        }
    }

    open spec fn reliable() -> bool {
        A::reliable() && B::reliable() && C::reliable()
    }

    open spec fn model_injective() -> bool {
        A::model_injective() && B::model_injective() && C::model_injective()
    }

    proof fn lemma_parse_consumes(s: Seq<u8>) {
        A::lemma_parse_consumes(s);
        if A::parse(s) is Some {
            let p = A::parse(s)->Some_0;
            B::lemma_parse_consumes(s.skip(p.1));
            if B::parse(s.skip(p.1)) is Some {
                let q = B::parse(s.skip(p.1))->Some_0;
                C::lemma_parse_consumes(s.skip(p.1 + q.1));
            }
        }
    }

    proof fn lemma_model_injective(a: (A, B, C), b: (A, B, C)) {
        if Self::model_injective() && a.deep_view() == b.deep_view() {
            A::lemma_model_injective(a.0, b.0);
            B::lemma_model_injective(a.1, b.1);
            C::lemma_model_injective(a.2, b.2);
        }
    }

    proof fn lemma_parse_prefix_stable(s: Seq<u8>, t: Seq<u8>) {
        if Self::parse(s) matches Some(p) && p.1 <= t.len() && s.take(p.1) == t.take(p.1) {
            let pa = A::parse(s)->Some_0;
            let pb = B::parse(s.skip(pa.1))->Some_0;
            let pc = C::parse(s.skip(pa.1 + pb.1))->Some_0;
            A::lemma_parse_consumes(s);
            B::lemma_parse_consumes(s.skip(pa.1));
            C::lemma_parse_consumes(s.skip(pa.1 + pb.1));
            lemma_skip_take_agree(s, t, pa.1 + pb.1, pc.1);
            lemma_skip_take_agree(s, t, pa.1, pb.1);
            A::lemma_parse_prefix_stable(s, t);
            B::lemma_parse_prefix_stable(s.skip(pa.1), t.skip(pa.1));
            assert(s.skip(pa.1 + pb.1) =~= s.skip(pa.1).skip(pb.1));
            assert(t.skip(pa.1 + pb.1) =~= t.skip(pa.1).skip(pb.1));
            C::lemma_parse_prefix_stable(s.skip(pa.1 + pb.1), t.skip(pa.1 + pb.1));
        }
    }

    fn to_bytes(&self, sink: &mut Vec<u8>) -> (r: Result<usize, TranscodeError>) {
        let start = sink.len();
        match self.0.to_bytes(sink) {
            Ok(_) => (),
            Err(e) => {
                return Err(e);
            },
        }
        let ghost mid1 = sink@;
        match self.1.to_bytes(sink) {
            Ok(_) => (),
            Err(e) => {
                proof {
                    crate::transcode::lemma_prefix_chain(sink@, mid1, old(sink)@);
                }
                return Err(e);
            },
        }
        let ghost mid2 = sink@;
        match self.2.to_bytes(sink) {
            Ok(_) => (),
            Err(e) => {
                proof {
                    crate::transcode::lemma_prefix_chain(mid2, mid1, old(sink)@);
                    crate::transcode::lemma_prefix_chain(sink@, mid2, old(sink)@);
                }
                return Err(e);
            },
        }
        let end = sink.len();
        proof {
            crate::transcode::lemma_prefix_chain(mid2, mid1, old(sink)@);
            crate::transcode::lemma_prefix_chain(sink@, mid2, old(sink)@);
            if Self::reliable() {
                let e0 = mid1.skip(start as int);
                let e1 = mid2.skip(mid1.len() as int);
                let e2 = sink@.skip(mid2.len() as int);
                let e = sink@.skip(start as int);
                assert(e =~= e0 + (e1 + e2));
                assert(sink@.take(start as int) =~= old(sink)@);
                assert forall|rest: Seq<u8>| #![trigger Self::parse(e + rest)]
                    Self::parse(e + rest) == Some((self.deep_view(), (end - start) as int)) by {
                    assert(e + rest =~= e0 + ((e1 + e2) + rest));
                    assert(e0 + ((e1 + e2) + rest) =~= e0 + (e1 + (e2 + rest)));
                    assert(A::parse(e + rest) == Some((self.0.deep_view(), e0.len() as int)));
                    assert((e + rest).skip(e0.len() as int) =~= e1 + (e2 + rest));
                    assert(B::parse(e1 + (e2 + rest)) == Some(
                        (self.1.deep_view(), e1.len() as int),
                    ));
                    assert((e + rest).skip(e0.len() + e1.len() as int) =~= e2 + rest);
                    assert(C::parse(e2 + rest) == Some((self.2.deep_view(), e2.len() as int)));
                }
            }
        }
        Ok(end - start)
    }

    fn from_bytes(src: &mut ByteSource) -> (r: Result<(A, B, C), TranscodeError>) {
        let ghost rem0 = old(src).remaining();
        let a = match A::from_bytes(src) {
            Ok(a) => a,
            Err(e) => {
                return Err(e);
            },
        };
        let b = match B::from_bytes(src) {
            Ok(b) => b,
            Err(e) => {
                return Err(e);
            },
        };
        let ghost rem2 = src.remaining();
        proof {
            if Self::reliable() && A::parse(rem0) is Some {
                let pa = A::parse(rem0)->Some_0;
                if B::parse(rem0.skip(pa.1)) is Some {
                    let pb = B::parse(rem0.skip(pa.1))->Some_0;
                    A::lemma_parse_consumes(rem0);
                    B::lemma_parse_consumes(rem0.skip(pa.1));
                    assert(rem2 =~= rem0.skip(pa.1 + pb.1));
                }
            }
        }
        let c = match C::from_bytes(src) {
            Ok(c) => c,
            Err(e) => {
                return Err(e);
            },
        };
        proof {
            if Self::reliable() && Self::parse(rem0) is Some {
                let pa = A::parse(rem0)->Some_0;
                let pb = B::parse(rem0.skip(pa.1))->Some_0;
                let pc = C::parse(rem0.skip(pa.1 + pb.1))->Some_0;
                A::lemma_parse_consumes(rem0);
                B::lemma_parse_consumes(rem0.skip(pa.1));
                C::lemma_parse_consumes(rem0.skip(pa.1 + pb.1));
                assert(src.remaining() =~= rem0.skip(pa.1 + pb.1 + pc.1));
            }
        }
        Ok((a, b, c))
    }
}

/// Relies on `<[T; N] as TryFrom<Vec<T>>>::try_from`: a vector of exactly
/// `N` elements converts into an array of the same elements in order; the
/// length precondition makes the conversion infallible.
#[verifier::external_body]
fn vec_into_array<T, const N: usize>(v: Vec<T>) -> (a: [T; N])
    requires
        v@.len() == N,
    ensures
        a@ == v@,
{
    let r: Result<[T; N], Vec<T>> = v.try_into();
    r.ok().unwrap()
}

impl<T: Transcode, const N: usize> Transcode for [T; N] {
    /// An array's length is part of its type, so its encoding is its
    /// elements in index order with no prefix; the zero-length array
    /// occupies no bytes at all.
    open spec fn parse(s: Seq<u8>) -> Option<(Seq<T::V>, int)> {
        crate::containers::parse_elems::<T>(s, N as nat)
    }

    open spec fn reliable() -> bool {
        T::reliable()
    }

    open spec fn model_injective() -> bool {
        false
    }

    proof fn lemma_parse_consumes(s: Seq<u8>) {
        crate::containers::lemma_parse_elems_consumes::<T>(s, N as nat);
    }

    proof fn lemma_model_injective(a: [T; N], b: [T; N]) {
    }

    proof fn lemma_parse_prefix_stable(s: Seq<u8>, t: Seq<u8>) {
        crate::containers::lemma_parse_elems_prefix_stable::<T>(s, t, N as nat);
    }

    fn to_bytes(&self, sink: &mut Vec<u8>) -> (r: Result<usize, TranscodeError>) {
        let start = sink.len();
        proof {
            assert(sink@.skip(start as int) =~= Seq::<u8>::empty());
            assert(self.deep_view().take(0) =~= Seq::<T::V>::empty());
            assert(sink@.take(start as int) =~= sink@);
        }
        let mut i: usize = 0;
        while i < N
            invariant
                i <= N,
                sink@.len() >= start >= 0,
                sink@.take(start as int) == old(sink)@,
                start == old(sink)@.len(),
                T::reliable() ==> crate::containers::parse_elems::<T>(
                    sink@.skip(start as int),
                    i as nat,
                ) == Some((self.deep_view().take(i as int), sink@.len() - start)),
            decreases N - i,
        {
            let ghost cur = sink@;
            let x = vstd::array::array_index_get(self, i);
            match x.to_bytes(sink) {
                Ok(_) => (),
                Err(e) => {
                    proof {
                        crate::transcode::lemma_prefix_chain(sink@, cur, old(sink)@);
                    }
                    return Err(e);
                },
            }
            proof {
                crate::transcode::lemma_prefix_chain(sink@, cur, old(sink)@);
                if T::reliable() {
                    let e_i = cur.skip(start as int);
                    let run = sink@.skip(cur.len() as int);
                    let e_next = sink@.skip(start as int);
                    let dv_i = self@[i as int].deep_view();
                    assert(e_next =~= e_i + run);
                    assert(run + Seq::<u8>::empty() =~= run);
                    assert(T::parse(run + Seq::<u8>::empty()) == Some((dv_i, run.len() as int)));
                    assert(T::parse(run) == Some((dv_i, run.len() as int)));
                    assert(crate::containers::parse_elems::<T>(run, 1nat) == Some(
                        (seq![dv_i], run.len() as int),
                    )) by {
                        assert(run.skip(run.len() as int) =~= Seq::<u8>::empty());
                        assert(crate::containers::parse_elems::<T>(
                            run.skip(run.len() as int),
                            0nat,
                        ) == Some((Seq::<T::V>::empty(), 0int)));
                        assert(seq![dv_i] + Seq::<T::V>::empty() =~= seq![dv_i]);
                    }
                    assert(e_next.take(e_i.len() as int) =~= e_i);
                    assert(e_i.take(e_i.len() as int) =~= e_i);
                    crate::containers::lemma_parse_elems_prefix_stable::<T>(e_i, e_next, i as nat);
                    assert(e_next.skip(e_i.len() as int) =~= run);
                    crate::containers::lemma_parse_elems_append::<T>(
                        e_next,
                        i as nat,
                        1nat,
                        self.deep_view().take(i as int),
                        e_i.len() as int,
                        seq![dv_i],
                        run.len() as int,
                    );
                    assert(self.deep_view().take(i as int) + seq![dv_i] =~= self.deep_view().take(
                        i + 1,
                    ));
                }
            }
            i = i + 1;
        }
        let end = sink.len();
        proof {
            if T::reliable() {
                let e = sink@.skip(start as int);
                assert(self.deep_view().take(N as int) =~= self.deep_view());
                assert forall|rest: Seq<u8>| #![trigger Self::parse(e + rest)]
                    Self::parse(e + rest) == Some((self.deep_view(), (end - start) as int)) by {
                    assert((e + rest).take(e.len() as int) =~= e);
                    assert(e.take(e.len() as int) =~= e);
                    crate::containers::lemma_parse_elems_prefix_stable::<T>(e, e + rest, N as nat);
                }
            }
        }
        Ok(end - start)
    }

    fn from_bytes(src: &mut ByteSource) -> (r: Result<[T; N], TranscodeError>) {
        let ghost rem0 = old(src).remaining();
        let mut out: Vec<T> = Vec::new();
        let ghost mut c: int = 0;
        proof {
            assert(rem0.skip(0) =~= rem0);
            assert(out.deep_view() =~= Seq::<T::V>::empty());
        }
        let mut i: usize = 0;
        while i < N
            invariant
                i <= N,
                src.wf(),
                out@.len() == i,
                rem0 == old(src).remaining(),
                T::reliable() ==> {
                    &&& 0 <= c <= rem0.len()
                    &&& src.remaining() == rem0.skip(c)
                    &&& match crate::containers::parse_elems::<T>(rem0.skip(c), (N - i) as nat) {
                        Some(q) => crate::containers::parse_elems::<T>(rem0, N as nat) == Some(
                            (out.deep_view() + q.0, c + q.1),
                        ),
                        None => crate::containers::parse_elems::<T>(rem0, N as nat) is None,
                    }
                },
            decreases N - i,
        {
            let ghost remi = src.remaining();
            let ghost out_old = out.deep_view();
            let v = match T::from_bytes(src) {
                Ok(v) => v,
                Err(e) => {
                    proof {
                        if T::reliable() {
                            assert(T::parse(remi) is None);
                            assert(crate::containers::parse_elems::<T>(
                                rem0.skip(c),
                                (N - i) as nat,
                            ) is None);
                            assert(Self::parse(rem0) is None);
                        }
                    }
                    return Err(e);
                },
            };
            proof {
                if T::reliable() {
                    let p = T::parse(remi)->Some_0;
                    T::lemma_parse_consumes(remi);
                    assert(remi.skip(p.1) =~= rem0.skip(c + p.1));
                    match crate::containers::parse_elems::<T>(rem0.skip(c + p.1), (N - i
                        - 1) as nat) {
                        Some(q2) => {
                            assert(out_old + (seq![p.0] + q2.0) =~= out_old.push(p.0) + q2.0);
                        },
                        None => {},
                    }
                    c = c + p.1;
                }
            }
            out.push(v);
            proof {
                if T::reliable() {
                    assert(out.deep_view() =~= out_old.push(v.deep_view()));
                }
            }
            i = i + 1;
        }
        proof {
            if T::reliable() {
                assert(rem0.skip(c).skip(0) =~= rem0.skip(c));
                assert(crate::containers::parse_elems::<T>(rem0.skip(c), 0nat) == Some(
                    (Seq::<T::V>::empty(), 0int),
                ));
                assert(out.deep_view() + Seq::<T::V>::empty() =~= out.deep_view());
                assert(crate::containers::parse_elems::<T>(rem0, N as nat) == Some(
                    (out.deep_view(), c),
                ));
                assert(src.remaining() =~= rem0.skip(c));
            }
        }
        let ghost odv = out.deep_view();
        let a: [T; N] = vec_into_array(out);
        proof {
            if T::reliable() {
                assert(a.deep_view() =~= odv);
            }
        }
        Ok(a)
    }
}

} // verus!
