//! Dynamic containers: a variable number of homogeneous elements behind an
//! 8-byte little-endian element count.  An ordered sequence keeps its
//! element order exactly; the hash-based containers (in their own module)
//! reuse the same element machinery and are compared as sets and maps.

use vstd::prelude::*;

use crate::stream::ByteSource;
use crate::stream::TranscodeError;
use crate::transcode::Transcode;
use crate::transcode::lemma_prefix_chain;
use crate::transcode::lemma_skip_take_agree;

verus! {

/// How many element slots a decoder pre-allocates at most, whatever the
/// stream's length prefix claims: an untrusted count must not drive an
/// unbounded reservation.
pub const PREALLOC_CAP: usize = 65536;

/// Read `count` consecutive elements from the front of `s`: the sequence
/// of their abstract values and the total number of bytes consumed.
pub open spec fn parse_elems<T: Transcode>(s: Seq<u8>, count: nat) -> Option<(Seq<T::V>, int)>
    decreases count,
{
    if count == 0 {
        Some((Seq::empty(), 0))
    } else {
        match T::parse(s) {
            Some(p) => match parse_elems::<T>(s.skip(p.1), (count - 1) as nat) {
                Some(q) => Some((seq![p.0] + q.0, p.1 + q.1)),
                None => None,
            },
            None => None,
        }
    }
}

/// A run of elements consumes between zero bytes and the whole stream, and
/// yields exactly `count` values.
pub proof fn lemma_parse_elems_consumes<T: Transcode>(s: Seq<u8>, count: nat)
    ensures
        parse_elems::<T>(s, count) matches Some(q) ==> 0 <= q.1 <= s.len() && q.0.len() == count,
    decreases count,
{
    if count > 0 {
        T::lemma_parse_consumes(s);
        if T::parse(s) is Some {
            let p = T::parse(s)->Some_0;
            lemma_parse_elems_consumes::<T>(s.skip(p.1), (count - 1) as nat);
        }
    }
}

/// Reading a run of elements looks only at the bytes it consumes.
pub proof fn lemma_parse_elems_prefix_stable<T: Transcode>(s: Seq<u8>, t: Seq<u8>, count: nat)
    ensures
        (parse_elems::<T>(s, count) matches Some(q) && q.1 <= t.len() && s.take(q.1) == t.take(
            q.1,
        )) ==> parse_elems::<T>(t, count) == parse_elems::<T>(s, count),
    decreases count,
{
    if count > 0 && parse_elems::<T>(s, count) is Some {
        let q = parse_elems::<T>(s, count)->Some_0;
        if q.1 <= t.len() && s.take(q.1) == t.take(q.1) {
            let p = T::parse(s)->Some_0;
            let q2 = parse_elems::<T>(s.skip(p.1), (count - 1) as nat)->Some_0;
            T::lemma_parse_consumes(s);
            lemma_parse_elems_consumes::<T>(s.skip(p.1), (count - 1) as nat);
            lemma_skip_take_agree(s, t, p.1, q2.1);
            T::lemma_parse_prefix_stable(s, t);
            lemma_parse_elems_prefix_stable::<T>(s.skip(p.1), t.skip(p.1), (count - 1) as nat);
        }
    }
}

/// Two adjacent runs of elements read as one run: the values concatenate
/// and the consumed widths add.
pub proof fn lemma_parse_elems_append<T: Transcode>(
    s: Seq<u8>,
    c1: nat,
    c2: nat,
    vs1: Seq<T::V>,
    m1: int,
    vs2: Seq<T::V>,
    m2: int,
)
    requires
        parse_elems::<T>(s, c1) == Some((vs1, m1)),
        parse_elems::<T>(s.skip(m1), c2) == Some((vs2, m2)),
    ensures
        parse_elems::<T>(s, c1 + c2) == Some((vs1 + vs2, m1 + m2)),
    decreases c1,
{
    if c1 == 0 {
        assert(m1 == 0);
        assert(vs1 =~= Seq::<T::V>::empty());
        assert(s.skip(0) =~= s);
        assert(vs1 + vs2 =~= vs2);
    } else {
        let p = T::parse(s)->Some_0;
        let q = parse_elems::<T>(s.skip(p.1), (c1 - 1) as nat)->Some_0;
        T::lemma_parse_consumes(s);
        lemma_parse_elems_consumes::<T>(s.skip(p.1), (c1 - 1) as nat);
        assert(s.skip(m1) =~= s.skip(p.1).skip(q.1));
        lemma_parse_elems_append::<T>(s.skip(p.1), (c1 - 1) as nat, c2, q.0, q.1, vs2, m2);
        assert(vs1 + vs2 =~= seq![p.0] + (q.0 + vs2));
    }
}

impl<T: Transcode> Transcode for Vec<T> {
    open spec fn parse(s: Seq<u8>) -> Option<(Seq<T::V>, int)> {
        match <usize as Transcode>::parse(s) {
            Some(p) => match parse_elems::<T>(s.skip(p.1), p.0 as nat) {
                Some(q) => Some((q.0, p.1 + q.1)),
                None => None,
            },
            None => None,
        }
    }

    open spec fn reliable() -> bool {
        T::reliable()
    }

    open spec fn model_injective() -> bool {
        false
    }

    proof fn lemma_parse_consumes(s: Seq<u8>) {
        <usize as Transcode>::lemma_parse_consumes(s);
        if <usize as Transcode>::parse(s) is Some {
            let p = <usize as Transcode>::parse(s)->Some_0;
            lemma_parse_elems_consumes::<T>(s.skip(p.1), p.0 as nat);
        }
    }

    proof fn lemma_model_injective(a: Vec<T>, b: Vec<T>) {
    }

    proof fn lemma_parse_prefix_stable(s: Seq<u8>, t: Seq<u8>) {
        if Self::parse(s) is Some {
            let w = Self::parse(s)->Some_0;
            if w.1 <= t.len() && s.take(w.1) == t.take(w.1) {
                let p = <usize as Transcode>::parse(s)->Some_0;
                let q = parse_elems::<T>(s.skip(p.1), p.0 as nat)->Some_0;
                <usize as Transcode>::lemma_parse_consumes(s);
                lemma_parse_elems_consumes::<T>(s.skip(p.1), p.0 as nat);
                lemma_skip_take_agree(s, t, p.1, q.1);
                <usize as Transcode>::lemma_parse_prefix_stable(s, t);
                lemma_parse_elems_prefix_stable::<T>(s.skip(p.1), t.skip(p.1), p.0 as nat);
            }
        }
    }

    fn to_bytes(&self, sink: &mut Vec<u8>) -> (r: Result<usize, TranscodeError>) {
        let start = sink.len();
        let len = self.len();
        match len.to_bytes(sink) {
            Ok(_) => (),
            Err(e) => {
                return Err(e);
            },
        }
        let ghost pre = sink@;
        let ghost estart = pre.len() as int;
        proof {
            assert(sink@.skip(estart) =~= Seq::<u8>::empty());
            assert(self.deep_view().take(0) =~= Seq::<T::V>::empty());
        }
        let mut i: usize = 0;
        while i < len
            invariant
                i <= len,
                len == self@.len(),
                sink@.len() >= estart >= start >= 0,
                sink@.take(estart) == pre,
                pre.len() == estart,
                pre.take(start as int) == old(sink)@,
                start == old(sink)@.len(),
                T::reliable() ==> parse_elems::<T>(sink@.skip(estart), i as nat) == Some(
                    (self.deep_view().take(i as int), sink@.len() - estart),
                ),
            decreases len - i,
        {
            let ghost cur = sink@;
            match self[i].to_bytes(sink) {
                Ok(_) => (),
                Err(e) => {
                    proof {
                        lemma_prefix_chain(sink@, cur, pre);
                        lemma_prefix_chain(sink@, pre, old(sink)@);
                    }
                    return Err(e);
                },
            }
            proof {
                lemma_prefix_chain(sink@, cur, pre);
                if T::reliable() {
                    let e_i = cur.skip(estart);
                    let run = sink@.skip(cur.len() as int);
                    let e_next = sink@.skip(estart);
                    let dv_i = self@[i as int].deep_view();
                    assert(e_next =~= e_i + run);
                    assert(run + Seq::<u8>::empty() =~= run);
                    assert(T::parse(run + Seq::<u8>::empty()) == Some((dv_i, run.len() as int)));
                    assert(T::parse(run) == Some((dv_i, run.len() as int)));
                    assert(run.skip(run.len() as int) =~= Seq::<u8>::empty());
                    assert(parse_elems::<T>(run, 1nat) == Some((seq![dv_i], run.len() as int)))
                        by {
                        assert(run.skip(run.len() as int) =~= Seq::<u8>::empty());
                        assert(parse_elems::<T>(run.skip(run.len() as int), 0nat) == Some(
                            (Seq::<T::V>::empty(), 0int),
                        ));
                        assert(seq![dv_i] + Seq::<T::V>::empty() =~= seq![dv_i]);
                    }
                    assert(e_next.take(e_i.len() as int) =~= e_i);
                    assert(e_i.take(e_i.len() as int) =~= e_i);
                    lemma_parse_elems_prefix_stable::<T>(e_i, e_next, i as nat);
                    assert(e_next.skip(e_i.len() as int) =~= run);
                    lemma_parse_elems_append::<T>(
                        e_next,
                        i as nat,
                        1nat,
                        self.deep_view().take(i as int),
                        e_i.len() as int,
                        seq![dv_i],
                        run.len() as int,
                    );
                    assert(self.deep_view().take(i as int) + seq![dv_i] =~= self.deep_view().take(
                        i + 1,
                    ));
                }
            }
            i = i + 1;
        }
        let end = sink.len();
        proof {
            lemma_prefix_chain(sink@, pre, old(sink)@);
            if Self::reliable() {
                let e = sink@.skip(start as int);
                let pe = pre.skip(start as int);
                let erun = sink@.skip(estart);
                assert(self.deep_view().take(self@.len() as int) =~= self.deep_view());
                assert forall|rest: Seq<u8>| #![trigger Self::parse(e + rest)]
                    Self::parse(e + rest) == Some((self.deep_view(), (end - start) as int)) by {
                    assert(e + rest =~= pe + (erun + rest));
                    assert(<usize as Transcode>::parse(pe + (erun + rest)) == Some(
                        (len, pe.len() as int),
                    ));
                    assert((e + rest).skip(pe.len() as int) =~= erun + rest);
                    assert((erun + rest).take(erun.len() as int) =~= erun);
                    assert(erun.take(erun.len() as int) =~= erun);
                    lemma_parse_elems_prefix_stable::<T>(erun, erun + rest, len as nat);
                    assert(parse_elems::<T>(erun + rest, len as nat) == Some(
                        (self.deep_view(), erun.len() as int),
                    ));
                }
            }
        }
        Ok(end - start)
    }

    fn from_bytes(src: &mut ByteSource) -> (r: Result<Vec<T>, TranscodeError>) {
        let ghost rem0 = old(src).remaining();
        let len = match <usize as Transcode>::from_bytes(src) {
            Ok(n) => n,
            Err(e) => {
                return Err(e);
            },
        };
        let ghost r0 = src.remaining();
        let ghost n0 = <usize as Transcode>::parse(rem0)->Some_0.1;
        let cap: usize = if len < PREALLOC_CAP {
            len
        } else {
            PREALLOC_CAP
        };
        let mut out: Vec<T> = Vec::with_capacity(cap);
        let ghost mut c: int = 0;
        proof {
            assert(r0.skip(0) =~= r0);
            assert(Seq::<T::V>::empty() + parse_elems::<T>(r0, len as nat)->Some_0.0
                =~= parse_elems::<T>(r0, len as nat)->Some_0.0);
            assert(out.deep_view() =~= Seq::<T::V>::empty());
        }
        let mut i: usize = 0;
        while i < len
            invariant
                i <= len,
                src.wf(),
                out@.len() == i,
                rem0 == old(src).remaining(),
                T::reliable() ==> {
                    &&& <usize as Transcode>::parse(rem0) == Some((len, n0))
                    &&& r0 == rem0.skip(n0)
                    &&& 0 <= c <= r0.len()
                    &&& src.remaining() == r0.skip(c)
                    &&& match parse_elems::<T>(r0.skip(c), (len - i) as nat) {
                        Some(q) => parse_elems::<T>(r0, len as nat) == Some(
                            (out.deep_view() + q.0, c + q.1),
                        ),
                        None => parse_elems::<T>(r0, len as nat) is None,
                    }
                },
            decreases len - i,
        {
            let ghost remi = src.remaining();
            let ghost out_old = out.deep_view();
            let v = match T::from_bytes(src) {
                Ok(v) => v,
                Err(e) => {
                    proof {
                        if T::reliable() {
                            assert(T::parse(remi) is None);
                            assert(parse_elems::<T>(r0.skip(c), (len - i) as nat) is None);
                            assert(parse_elems::<T>(r0, len as nat) is None);
                            assert(<usize as Transcode>::parse(rem0) is Some);
                            let pu = <usize as Transcode>::parse(rem0)->Some_0;
                            assert(pu.0 == len);
                            assert(r0 == rem0.skip(pu.1));
                            assert(parse_elems::<T>(rem0.skip(pu.1), pu.0 as nat) is None);
                            assert(Self::parse(rem0) is None);
                        }
                    }
                    return Err(e);
                },
            };
            proof {
                if T::reliable() {
                    let p = T::parse(remi)->Some_0;
                    T::lemma_parse_consumes(remi);
                    assert(remi.skip(p.1) =~= r0.skip(c + p.1));
                    match parse_elems::<T>(r0.skip(c + p.1), (len - i - 1) as nat) {
                        Some(q2) => {
                            assert(out_old + (seq![p.0] + q2.0) =~= out_old.push(p.0) + q2.0);
                        },
                        None => {},
                    }
                    c = c + p.1;
                }
            }
            out.push(v);
            proof {
                if T::reliable() {
                    assert(out.deep_view() =~= out_old.push(v.deep_view()));
                }
            }
            i = i + 1;
        }
        proof {
            if T::reliable() {
                assert(r0.skip(c).skip(0) =~= r0.skip(c));
                assert(parse_elems::<T>(r0.skip(c), 0nat) == Some((Seq::<T::V>::empty(), 0int)));
                assert(out.deep_view() + Seq::<T::V>::empty() =~= out.deep_view());
                assert(parse_elems::<T>(r0, len as nat) == Some((out.deep_view(), c)));
                assert(<usize as Transcode>::parse(rem0) is Some);
                let pu = <usize as Transcode>::parse(rem0)->Some_0;
                assert(pu.0 == len && pu.1 == n0);
                assert(r0 == rem0.skip(pu.1));
                assert(Self::parse(rem0) == Some((out.deep_view(), n0 + c)));
                <usize as Transcode>::lemma_parse_consumes(rem0);
                assert(src.remaining() =~= rem0.skip(n0 + c));
            }
        }
        Ok(out)
    }
}

/// Relies on `Vec::into_boxed_slice`: the boxed slice holds exactly the
/// vector's elements, in order.
#[verifier::external_body]
fn vec_into_boxed_slice<T>(v: Vec<T>) -> (b: Box<[T]>)
    ensures
        b@ == v@,
{
    v.into_boxed_slice()
}

impl<T: Transcode> Transcode for Box<[T]> {
    /// A boxed slice shares the ordered sequence's wire shape: the element
    /// count, then the elements in order.
    open spec fn parse(s: Seq<u8>) -> Option<(Seq<T::V>, int)> {
        <Vec<T> as Transcode>::parse(s)
    }

    open spec fn reliable() -> bool {
        T::reliable()
    }

    open spec fn model_injective() -> bool {
        false
    }

    proof fn lemma_parse_consumes(s: Seq<u8>) {
        <Vec<T> as Transcode>::lemma_parse_consumes(s);
    }

    proof fn lemma_model_injective(a: Box<[T]>, b: Box<[T]>) {
    }

    proof fn lemma_parse_prefix_stable(s: Seq<u8>, t: Seq<u8>) {
        <Vec<T> as Transcode>::lemma_parse_prefix_stable(s, t);
    }

    fn to_bytes(&self, sink: &mut Vec<u8>) -> (r: Result<usize, TranscodeError>) {
        let start = sink.len();
        let len = self.len();
        match len.to_bytes(sink) {
            Ok(_) => (),
            Err(e) => {
                return Err(e);
            },
        }
        let ghost pre = sink@;
        let ghost estart = pre.len() as int;
        proof {
            assert(sink@.skip(estart) =~= Seq::<u8>::empty());
            assert(self.deep_view().take(0) =~= Seq::<T::V>::empty());
        }
        let mut i: usize = 0;
        while i < len
            invariant
                i <= len,
                len == self@.len(),
                sink@.len() >= estart >= start >= 0,
                sink@.take(estart) == pre,
                pre.len() == estart,
                pre.take(start as int) == old(sink)@,
                start == old(sink)@.len(),
                T::reliable() ==> parse_elems::<T>(sink@.skip(estart), i as nat) == Some(
                    (self.deep_view().take(i as int), sink@.len() - estart),
                ),
            decreases len - i,
        {
            let ghost cur = sink@;
            let x = vstd::slice::slice_index_get(&**self, i);
            match x.to_bytes(sink) {
                Ok(_) => (),
                Err(e) => {
                    proof {
                        lemma_prefix_chain(sink@, cur, pre);
                        lemma_prefix_chain(sink@, pre, old(sink)@);
                    }
                    return Err(e);
                },
            }
            proof {
                lemma_prefix_chain(sink@, cur, pre);
                if T::reliable() {
                    let e_i = cur.skip(estart);
                    let run = sink@.skip(cur.len() as int);
                    let e_next = sink@.skip(estart);
                    let dv_i = self@[i as int].deep_view();
                    assert(e_next =~= e_i + run);
                    assert(run + Seq::<u8>::empty() =~= run);
                    assert(T::parse(run + Seq::<u8>::empty()) == Some((dv_i, run.len() as int)));
                    assert(T::parse(run) == Some((dv_i, run.len() as int)));
                    assert(parse_elems::<T>(run, 1nat) == Some((seq![dv_i], run.len() as int)))
                        by {
                        assert(run.skip(run.len() as int) =~= Seq::<u8>::empty());
                        assert(parse_elems::<T>(run.skip(run.len() as int), 0nat) == Some(
                            (Seq::<T::V>::empty(), 0int),
                        ));
                        assert(seq![dv_i] + Seq::<T::V>::empty() =~= seq![dv_i]);
                    }
                    assert(e_next.take(e_i.len() as int) =~= e_i);
                    assert(e_i.take(e_i.len() as int) =~= e_i);
                    lemma_parse_elems_prefix_stable::<T>(e_i, e_next, i as nat);
                    assert(e_next.skip(e_i.len() as int) =~= run);
                    lemma_parse_elems_append::<T>(
                        e_next,
                        i as nat,
                        1nat,
                        self.deep_view().take(i as int),
                        e_i.len() as int,
                        seq![dv_i],
                        run.len() as int,
                    );
                    assert(self.deep_view().take(i as int) + seq![dv_i] =~= self.deep_view().take(
                        i + 1,
                    ));
                }
            }
            i = i + 1;
        }
        let end = sink.len();
        proof {
            lemma_prefix_chain(sink@, pre, old(sink)@);
            if Self::reliable() {
                let e = sink@.skip(start as int);
                let pe = pre.skip(start as int);
                let erun = sink@.skip(estart);
                assert(self.deep_view().take(self@.len() as int) =~= self.deep_view());
                assert forall|rest: Seq<u8>| #![trigger Self::parse(e + rest)]
                    Self::parse(e + rest) == Some((self.deep_view(), (end - start) as int)) by {
                    assert(e + rest =~= pe + (erun + rest));
                    assert(<usize as Transcode>::parse(pe + (erun + rest)) == Some(
                        (len, pe.len() as int),
                    ));
                    assert((e + rest).skip(pe.len() as int) =~= erun + rest);
                    assert((erun + rest).take(erun.len() as int) =~= erun);
                    assert(erun.take(erun.len() as int) =~= erun);
                    lemma_parse_elems_prefix_stable::<T>(erun, erun + rest, len as nat);
                    assert(parse_elems::<T>(erun + rest, len as nat) == Some(
                        (self.deep_view(), erun.len() as int),
                    ));
                }
            }
        }
        Ok(end - start)
    }

    fn from_bytes(src: &mut ByteSource) -> (r: Result<Box<[T]>, TranscodeError>) {
        match <Vec<T> as Transcode>::from_bytes(src) {
            Ok(v) => {
                let ghost vdv = v.deep_view();
                let b = vec_into_boxed_slice(v);
                proof {
                    assert(b.deep_view() =~= vdv);
                }
                Ok(b)
            },
            Err(e) => Err(e),
        }
    }
}

} // verus!
