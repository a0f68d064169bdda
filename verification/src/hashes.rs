//! Hash-based containers.  Their iteration order is arbitrary, so the
//! abstract model of a set of elements is a `Set` and the model of a map is
//! a `Map`: two encodings of one container may differ byte for byte, yet
//! both parse back to the same model.

use core::hash::Hash;
use std::collections::HashMap;
use std::collections::HashSet;
use std::collections::hash_map::RandomState;

use vstd::prelude::*;
use vstd::std_specs::hash::obeys_key_model;
use vstd::std_specs::hash::builds_valid_hashers;

use crate::containers::PREALLOC_CAP;
use crate::containers::parse_elems;
use crate::containers::lemma_parse_elems_consumes;
use crate::containers::lemma_parse_elems_prefix_stable;
use crate::containers::lemma_parse_elems_append;
use crate::stream::ByteSource;
use crate::stream::TranscodeError;
use crate::transcode::Transcode;
use crate::transcode::lemma_prefix_chain;
use crate::transcode::lemma_skip_take_agree;

verus! {

broadcast use vstd::std_specs::hash::group_hash_axioms;

/// The models of a sequence of borrowed elements, in iteration order.
pub open spec fn ref_models<T: Transcode>(s: Seq<&T>) -> Seq<T::V> {
    Seq::new(s.len(), |j: int| s[j].deep_view())
}

/// Relies on `HashSet::iter` (with `collect`): iteration visits every
/// element of the set exactly once, in arbitrary order.  The contract is
/// stated under the same guard as vstd's own axioms about hash containers.
#[verifier::external_body]
fn hash_set_elems<'a, T: Eq + Hash>(m: &'a HashSet<T>) -> (r: Vec<&'a T>)
    ensures
        obeys_key_model::<T>() && builds_valid_hashers::<RandomState>() ==> {
            &&& r@.len() == m@.len()
            &&& forall|i: int, j: int| 0 <= i < j < r@.len() ==> *r@[i] != *r@[j]
            &&& forall|i: int| 0 <= i < r@.len() ==> m@.contains(*r@[i])
            &&& forall|x: T| m@.contains(x) ==> exists|i: int|
                0 <= i < r@.len() && *(#[trigger] r@[i]) == x
        },
{
    m.iter().collect()
}

impl<T: Transcode + Eq + Hash> Transcode for HashSet<T> {
    /// The element count, then that many elements; the model collapses
    /// duplicates exactly as insertion does.
    open spec fn parse(s: Seq<u8>) -> Option<(Set<T::V>, int)> {
        match <usize as Transcode>::parse(s) {
            Some(p) => match parse_elems::<T>(s.skip(p.1), p.0 as nat) {
                Some(q) => Some((q.0.to_set(), p.1 + q.1)),
                None => None,
            },
            None => None,
        }
    }

    open spec fn reliable() -> bool {
        T::reliable() && obeys_key_model::<T>() && builds_valid_hashers::<RandomState>()
    }

    open spec fn model_injective() -> bool {
        false
    }

    proof fn lemma_parse_consumes(s: Seq<u8>) {
        <usize as Transcode>::lemma_parse_consumes(s);
        if <usize as Transcode>::parse(s) is Some {
            let p = <usize as Transcode>::parse(s)->Some_0;
            lemma_parse_elems_consumes::<T>(s.skip(p.1), p.0 as nat);
        }
    }

    proof fn lemma_model_injective(a: HashSet<T>, b: HashSet<T>) {
    }

    proof fn lemma_parse_prefix_stable(s: Seq<u8>, t: Seq<u8>) {
        if Self::parse(s) is Some {
            let w = Self::parse(s)->Some_0;
            if w.1 <= t.len() && s.take(w.1) == t.take(w.1) {
                let p = <usize as Transcode>::parse(s)->Some_0;
                let q = parse_elems::<T>(s.skip(p.1), p.0 as nat)->Some_0;
                <usize as Transcode>::lemma_parse_consumes(s);
                lemma_parse_elems_consumes::<T>(s.skip(p.1), p.0 as nat);
                lemma_skip_take_agree(s, t, p.1, q.1);
                <usize as Transcode>::lemma_parse_prefix_stable(s, t);
                lemma_parse_elems_prefix_stable::<T>(s.skip(p.1), t.skip(p.1), p.0 as nat);
            }
        }
    }

    fn to_bytes(&self, sink: &mut Vec<u8>) -> (r: Result<usize, TranscodeError>) {
        let start = sink.len();
        let len = self.len();
        match len.to_bytes(sink) {
            Ok(_) => (),
            Err(e) => {
                return Err(e);
            },
        }
        let ghost pre = sink@;
        let ghost estart = pre.len() as int;
        proof {
            assert(sink@.skip(estart) =~= Seq::<u8>::empty());
        }
        let elems: Vec<&T> = hash_set_elems(self);
        let ghost es = elems@;
        proof {
            assert(ref_models::<T>(es).take(0) =~= Seq::<T::V>::empty());
        }
        let mut i: usize = 0;
        while i < elems.len()
            invariant
                i <= elems@.len(),
                elems@ == es,
                sink@.len() >= estart >= start >= 0,
                sink@.take(estart) == pre,
                pre.len() == estart,
                pre.take(start as int) == old(sink)@,
                start == old(sink)@.len(),
                Self::reliable() ==> parse_elems::<T>(sink@.skip(estart), i as nat) == Some(
                    (ref_models::<T>(es).take(i as int), sink@.len() - estart),
                ),
            decreases elems@.len() - i,
        {
            let ghost cur = sink@;
            let ghost idx = i as int;
            let x = elems[i];
            match x.to_bytes(sink) {
                Ok(_) => (),
                Err(e) => {
                    proof {
                        lemma_prefix_chain(sink@, cur, pre);
                        lemma_prefix_chain(sink@, pre, old(sink)@);
                    }
                    return Err(e);
                },
            }
            proof {
                lemma_prefix_chain(sink@, cur, pre);
                if Self::reliable() {
                    let e_i = cur.skip(estart);
                    let run = sink@.skip(cur.len() as int);
                    let e_next = sink@.skip(estart);
                    let dv_i = x.deep_view();
                    assert(e_next =~= e_i + run);
                    assert(run + Seq::<u8>::empty() =~= run);
                    assert(T::parse(run + Seq::<u8>::empty()) == Some((dv_i, run.len() as int)));
                    assert(T::parse(run) == Some((dv_i, run.len() as int)));
                    assert(parse_elems::<T>(run, 1nat) == Some((seq![dv_i], run.len() as int)))
                        by {
                        assert(run.skip(run.len() as int) =~= Seq::<u8>::empty());
                        assert(parse_elems::<T>(run.skip(run.len() as int), 0nat) == Some(
                            (Seq::<T::V>::empty(), 0int),
                        ));
                        assert(seq![dv_i] + Seq::<T::V>::empty() =~= seq![dv_i]);
                    }
                    assert(e_next.take(e_i.len() as int) =~= e_i);
                    assert(e_i.take(e_i.len() as int) =~= e_i);
                    lemma_parse_elems_prefix_stable::<T>(e_i, e_next, idx as nat);
                    assert(e_next.skip(e_i.len() as int) =~= run);
                    lemma_parse_elems_append::<T>(
                        e_next,
                        idx as nat,
                        1nat,
                        ref_models::<T>(es).take(idx),
                        e_i.len() as int,
                        seq![dv_i],
                        run.len() as int,
                    );
                    assert(dv_i == ref_models::<T>(es)[idx]);
                    assert(ref_models::<T>(es).take(idx) + seq![dv_i] =~= ref_models::<T>(
                        es,
                    ).take(idx + 1));
                }
            }
            i = i + 1;
        }
        let end = sink.len();
        proof {
            lemma_prefix_chain(sink@, pre, old(sink)@);
            if Self::reliable() {
                let e = sink@.skip(start as int);
                let pe = pre.skip(start as int);
                let erun = sink@.skip(estart);
                let dvs = ref_models::<T>(es);
                assert(len == self@.len() && es.len() == self@.len());
                assert(dvs.take(es.len() as int) =~= dvs);
                assert(dvs.to_set() =~= self.deep_view()) by {
                    assert forall|y: T::V| dvs.to_set().contains(y) implies self.deep_view()
                        .contains(y) by {
                        let j = choose|j: int| 0 <= j < dvs.len() && dvs[j] == y;
                        assert(self@.contains(*es[j]));
                        assert((*es[j]).deep_view() == y);
                    }
                    assert forall|y: T::V| self.deep_view().contains(y) implies dvs.to_set()
                        .contains(y) by {
                        let v = choose|v: T| self@.contains(v) && v.deep_view() == y;
                        let j = choose|j: int| 0 <= j < es.len() && *(es[j]) == v;
                        assert(dvs[j] == y);
                        assert(dvs.to_set().contains(dvs[j]));
                    }
                }
                assert forall|rest: Seq<u8>| #![trigger Self::parse(e + rest)]
                    Self::parse(e + rest) == Some((self.deep_view(), (end - start) as int)) by {
                    assert(e + rest =~= pe + (erun + rest));
                    assert(<usize as Transcode>::parse(pe + (erun + rest)) == Some(
                        (len, pe.len() as int),
                    ));
                    assert((e + rest).skip(pe.len() as int) =~= erun + rest);
                    assert((erun + rest).take(erun.len() as int) =~= erun);
                    assert(erun.take(erun.len() as int) =~= erun);
                    lemma_parse_elems_prefix_stable::<T>(erun, erun + rest, len as nat);
                    assert(parse_elems::<T>(erun + rest, len as nat) == Some(
                        (dvs, erun.len() as int),
                    ));
                }
            }
        }
        Ok(end - start)
    }

    fn from_bytes(src: &mut ByteSource) -> (r: Result<HashSet<T>, TranscodeError>) {
        let ghost rem0 = old(src).remaining();
        let len = match <usize as Transcode>::from_bytes(src) {
            Ok(n) => n,
            Err(e) => {
                return Err(e);
            },
        };
        let ghost r0 = src.remaining();
        let ghost n0 = <usize as Transcode>::parse(rem0)->Some_0.1;
        let cap: usize = if len < PREALLOC_CAP {
            len
        } else {
            PREALLOC_CAP
        };
        let mut out: HashSet<T> = HashSet::with_capacity(cap);
        let ghost mut c: int = 0;
        let ghost mut got: Seq<T::V> = Seq::empty();
        proof {
            assert(r0.skip(0) =~= r0);
            assert(got.to_set() =~= Set::<T::V>::empty());
            assert(Set::<T>::empty().map(|x: T| x.deep_view()) =~= Set::<T::V>::empty());
        }
        let mut i: usize = 0;
        while i < len
            invariant
                i <= len,
                src.wf(),
                rem0 == old(src).remaining(),
                Self::reliable() ==> {
                    &&& <usize as Transcode>::parse(rem0) == Some((len, n0))
                    &&& r0 == rem0.skip(n0)
                    &&& 0 <= c <= r0.len()
                    &&& src.remaining() == r0.skip(c)
                    &&& out.deep_view() == got.to_set()
                    &&& match parse_elems::<T>(r0.skip(c), (len - i) as nat) {
                        Some(q) => parse_elems::<T>(r0, len as nat) == Some((got + q.0, c + q.1)),
                        None => parse_elems::<T>(r0, len as nat) is None,
                    }
                },
            decreases len - i,
        {
            let ghost remi = src.remaining();
            let ghost got_old = got;
            let v = match T::from_bytes(src) {
                Ok(v) => v,
                Err(e) => {
                    proof {
                        if Self::reliable() {
                            assert(T::parse(remi) is None);
                            assert(parse_elems::<T>(r0.skip(c), (len - i) as nat) is None);
                            assert(parse_elems::<T>(r0, len as nat) is None);
                            let pu = <usize as Transcode>::parse(rem0)->Some_0;
                            assert(parse_elems::<T>(rem0.skip(pu.1), pu.0 as nat) is None);
                            assert(Self::parse(rem0) is None);
                        }
                    }
                    return Err(e);
                },
            };
            proof {
                if Self::reliable() {
                    let p = T::parse(remi)->Some_0;
                    T::lemma_parse_consumes(remi);
                    assert(remi.skip(p.1) =~= r0.skip(c + p.1));
                    match parse_elems::<T>(r0.skip(c + p.1), (len - i - 1) as nat) {
                        Some(q2) => {
                            assert(got_old + (seq![p.0] + q2.0) =~= got_old.push(p.0) + q2.0);
                        },
                        None => {},
                    }
                    c = c + p.1;
                    got = got.push(p.0);
                }
            }
            let ghost out_old = out@;
            out.insert(v);
            proof {
                if Self::reliable() {
                    assert(out@ == out_old.insert(v));
                    let f = |x: T| x.deep_view();
                    assert(out.deep_view() =~= got.to_set()) by {
                        assert forall|y: T::V| out@.map(f).contains(y) implies got.to_set()
                            .contains(y) by {
                            let w = choose|w: T| out@.contains(w) && f(w) == y;
                            if w == v {
                                assert(got.last() == v.deep_view());
                                assert(got.contains(got.last()));
                            } else {
                                assert(out_old.contains(w));
                                assert(out_old.map(f).contains(y));
                                assert(got_old.to_set().contains(y));
                                assert(got.contains(y)) by {
                                    let j = choose|j: int|
                                        0 <= j < got_old.len() && got_old[j] == y;
                                    assert(got[j] == y);
                                }
                            }
                        }
                        assert forall|y: T::V| got.to_set().contains(y) implies out@.map(f)
                            .contains(y) by {
                            let j = choose|j: int| 0 <= j < got.len() && got[j] == y;
                            if j < got.len() - 1 {
                                assert(got_old[j] == y);
                                assert(got_old.to_set().contains(y));
                                let w = choose|w: T| out_old.contains(w) && f(w) == y;
                                assert(out@.contains(w));
                            } else {
                                assert(y == v.deep_view());
                                assert(out@.contains(v));
                            }
                        }
                    }
                }
            }
            i = i + 1;
        }
        proof {
            if Self::reliable() {
                assert(r0.skip(c).skip(0) =~= r0.skip(c));
                assert(parse_elems::<T>(r0.skip(c), 0nat) == Some((Seq::<T::V>::empty(), 0int)));
                assert(got + Seq::<T::V>::empty() =~= got);
                assert(parse_elems::<T>(r0, len as nat) == Some((got, c)));
                let pu = <usize as Transcode>::parse(rem0)->Some_0;
                assert(r0 == rem0.skip(pu.1));
                assert(Self::parse(rem0) == Some((got.to_set(), n0 + c)));
                <usize as Transcode>::lemma_parse_consumes(rem0);
                assert(src.remaining() =~= rem0.skip(n0 + c));
            }
        }
        Ok(out)
    }
}

/// The models of a sequence of borrowed key/value pairs, in iteration
/// order.
pub open spec fn pair_models<K: Transcode, V: Transcode>(s: Seq<(&K, &V)>) -> Seq<(K::V, V::V)> {
    Seq::new(s.len(), |j: int| (s[j].0.deep_view(), s[j].1.deep_view()))
}

/// The map that a run of key/value pairs denotes: each pair is inserted in
/// order, so a later value for the same key wins, exactly as insertion
/// into a map does.
pub open spec fn pairs_to_map<KV, VV>(s: Seq<(KV, VV)>) -> Map<KV, VV>
    decreases s.len(),
{
    if s.len() == 0 {
        Map::empty()
    } else {
        pairs_to_map(s.drop_last()).insert(s.last().0, s.last().1)
    }
}

/// With pairwise-distinct keys, the denoted map holds exactly the listed
/// pairs.
pub proof fn lemma_pairs_to_map_membership<KV, VV>(ps: Seq<(KV, VV)>)
    requires
        forall|i: int, j: int| 0 <= i < j < ps.len() ==> (#[trigger] ps[i]).0 != (
        #[trigger] ps[j]).0,
    ensures
        forall|x: KV| #[trigger] pairs_to_map(ps).contains_key(x) ==> exists|i: int|
            0 <= i < ps.len() && (#[trigger] ps[i]).0 == x,
        forall|i: int| 0 <= i < ps.len() ==> pairs_to_map(ps).contains_key((#[trigger] ps[i]).0)
            && pairs_to_map(ps)[ps[i].0] == ps[i].1,
    decreases ps.len(),
{
    if ps.len() > 0 {
        lemma_pairs_to_map_membership(ps.drop_last());
        assert forall|i: int| 0 <= i < ps.len() implies pairs_to_map(ps).contains_key(
            (#[trigger] ps[i]).0,
        ) && pairs_to_map(ps)[ps[i].0] == ps[i].1 by {
            if i < ps.len() - 1 {
                assert(ps.drop_last()[i] == ps[i]);
                assert(ps[i].0 != ps.last().0);
            }
        }
        assert forall|x: KV| #[trigger] pairs_to_map(ps).contains_key(x) implies exists|i: int|
            0 <= i < ps.len() && (#[trigger] ps[i]).0 == x by {
            if x == ps.last().0 {
                assert(ps[ps.len() - 1].0 == x);
            } else {
                assert(pairs_to_map(ps.drop_last()).contains_key(x));
                let i = choose|i: int|
                    0 <= i < ps.drop_last().len() && (#[trigger] ps.drop_last()[i]).0 == x;
                assert(ps[i].0 == x);
            }
        }
    }
}

/// When a key's model determines the key, the deep view of a hash map
/// after an insertion is the deep view before it with the models inserted.
proof fn lemma_map_deepview_insert<K: Transcode + Eq + Hash, V: Transcode>(
    old_m: HashMap<K, V>,
    new_m: HashMap<K, V>,
    k: K,
    v: V,
)
    requires
        K::model_injective(),
        new_m@ == old_m@.insert(k, v),
    ensures
        new_m.deep_view() == old_m.deep_view().insert(k.deep_view(), v.deep_view()),
{
    let f = |x: K| x.deep_view();
    assert forall|k1: K, k2: K| #![trigger f(k1), f(k2)] f(k1) == f(k2) implies k1 == k2 by {
        K::lemma_model_injective(k1, k2);
    }
    assert(vstd::relations::injective(f));
    vstd::std_specs::hash::lemma_hashmap_deepview_properties(old_m);
    vstd::std_specs::hash::lemma_hashmap_deepview_properties(new_m);
    let lhs = new_m.deep_view();
    let rhs = old_m.deep_view().insert(k.deep_view(), v.deep_view());
    assert forall|dk: K::V| #[trigger] lhs.contains_key(dk) implies rhs.contains_key(dk) && lhs[dk]
        == rhs[dk] by {
        let k2 = choose|k2: K| k2.deep_view() == dk && #[trigger] new_m@.contains_key(k2);
        if k2 == k {
            assert(lhs[dk] == v.deep_view());
        } else {
            assert(old_m@.contains_key(k2));
            assert(f(k2) != f(k));
            assert(lhs[dk] == new_m@[k2].deep_view());
            assert(rhs[dk] == old_m.deep_view()[dk]);
        }
    }
    assert forall|dk: K::V| #[trigger] rhs.contains_key(dk) implies lhs.contains_key(dk) by {
        if dk == k.deep_view() {
            assert(new_m@.contains_key(k));
        } else {
            assert(old_m.deep_view().contains_key(dk));
            let k2 = choose|k2: K| k2.deep_view() == dk && #[trigger] old_m@.contains_key(k2);
            assert(f(k2) != f(k));
            assert(k2 != k);
            assert(new_m@.contains_key(k2));
        }
    }
    assert(lhs =~= rhs);
}

/// Relies on `HashMap::iter` (with `collect`): iteration visits every
/// entry of the map exactly once, keys pairwise distinct, in arbitrary
/// order.  The contract is stated under the same guard as vstd's own
/// axioms about hash containers.
#[verifier::external_body]
fn hash_map_entries<'a, K: Eq + Hash, V>(m: &'a HashMap<K, V>) -> (r: Vec<(&'a K, &'a V)>)
    ensures
        obeys_key_model::<K>() && builds_valid_hashers::<RandomState>() ==> {
            &&& r@.len() == m@.dom().len()
            &&& forall|i: int, j: int| 0 <= i < j < r@.len() ==> *(#[trigger] r@[i]).0 != *(
            #[trigger] r@[j]).0
            &&& forall|i: int| 0 <= i < r@.len() ==> m@.contains_key(*(#[trigger] r@[i]).0)
                && m@[*r@[i].0] == *r@[i].1
            &&& forall|k: K| m@.contains_key(k) ==> exists|i: int|
                0 <= i < r@.len() && *(#[trigger] r@[i]).0 == k
        },
{
    m.iter().collect()
}

impl<K: Transcode + Eq + Hash, V: Transcode> Transcode for HashMap<K, V> {
    /// The entry count, then that many keys each followed immediately by
    /// its value; a later pair for the same key wins, exactly as insertion
    /// does.
    open spec fn parse(s: Seq<u8>) -> Option<(Map<K::V, V::V>, int)> {
        match <usize as Transcode>::parse(s) {
            Some(p) => match parse_elems::<(K, V)>(s.skip(p.1), p.0 as nat) {
                Some(q) => Some((pairs_to_map(q.0), p.1 + q.1)),
                None => None,
            },
            None => None,
        }
    }

    open spec fn reliable() -> bool {
        K::reliable() && V::reliable() && K::model_injective() && obeys_key_model::<K>()
            && builds_valid_hashers::<RandomState>()
    }

    open spec fn model_injective() -> bool {
        false
    }

    proof fn lemma_parse_consumes(s: Seq<u8>) {
        <usize as Transcode>::lemma_parse_consumes(s);
        if <usize as Transcode>::parse(s) is Some {
            let p = <usize as Transcode>::parse(s)->Some_0;
            lemma_parse_elems_consumes::<(K, V)>(s.skip(p.1), p.0 as nat);
        }
    }

    proof fn lemma_model_injective(a: HashMap<K, V>, b: HashMap<K, V>) {
    }

    proof fn lemma_parse_prefix_stable(s: Seq<u8>, t: Seq<u8>) {
        if Self::parse(s) is Some {
            let w = Self::parse(s)->Some_0;
            if w.1 <= t.len() && s.take(w.1) == t.take(w.1) {
                let p = <usize as Transcode>::parse(s)->Some_0;
                let q = parse_elems::<(K, V)>(s.skip(p.1), p.0 as nat)->Some_0;
                <usize as Transcode>::lemma_parse_consumes(s);
                lemma_parse_elems_consumes::<(K, V)>(s.skip(p.1), p.0 as nat);
                lemma_skip_take_agree(s, t, p.1, q.1);
                <usize as Transcode>::lemma_parse_prefix_stable(s, t);
                lemma_parse_elems_prefix_stable::<(K, V)>(s.skip(p.1), t.skip(p.1), p.0 as nat);
            }
        }
    }

    fn to_bytes(&self, sink: &mut Vec<u8>) -> (r: Result<usize, TranscodeError>) {
        let start = sink.len();
        let len = self.len();
        match len.to_bytes(sink) {
            Ok(_) => (),
            Err(e) => {
                return Err(e);
            },
        }
        let ghost pre = sink@;
        let ghost estart = pre.len() as int;
        proof {
            assert(sink@.skip(estart) =~= Seq::<u8>::empty());
        }
        let entries: Vec<(&K, &V)> = hash_map_entries(self);
        let ghost es = entries@;
        proof {
            assert(pair_models::<K, V>(es).take(0) =~= Seq::<(K::V, V::V)>::empty());
        }
        let mut i: usize = 0;
        while i < entries.len()
            invariant
                i <= entries@.len(),
                entries@ == es,
                sink@.len() >= estart >= start >= 0,
                sink@.take(estart) == pre,
                pre.len() == estart,
                pre.take(start as int) == old(sink)@,
                start == old(sink)@.len(),
                Self::reliable() ==> parse_elems::<(K, V)>(sink@.skip(estart), i as nat) == Some(
                    (pair_models::<K, V>(es).take(i as int), sink@.len() - estart),
                ),
            decreases entries@.len() - i,
        {
            let ghost cur = sink@;
            let ghost idx = i as int;
            let kv = entries[i];
            match kv.0.to_bytes(sink) {
                Ok(_) => (),
                Err(e) => {
                    proof {
                        lemma_prefix_chain(sink@, cur, pre);
                        lemma_prefix_chain(sink@, pre, old(sink)@);
                    }
                    return Err(e);
                },
            }
            let ghost midk = sink@;
            match kv.1.to_bytes(sink) {
                Ok(_) => (),
                Err(e) => {
                    proof {
                        lemma_prefix_chain(sink@, midk, cur);
                        lemma_prefix_chain(sink@, cur, pre);
                        lemma_prefix_chain(sink@, pre, old(sink)@);
                    }
                    return Err(e);
                },
            }
            proof {
                lemma_prefix_chain(sink@, midk, cur);
                lemma_prefix_chain(sink@, cur, pre);
                if Self::reliable() {
                    let e_i = cur.skip(estart);
                    let krun = midk.skip(cur.len() as int);
                    let vrun = sink@.skip(midk.len() as int);
                    let run = sink@.skip(cur.len() as int);
                    let e_next = sink@.skip(estart);
                    let dv_i = (kv.0.deep_view(), kv.1.deep_view());
                    assert(e_next =~= e_i + run);
                    assert(run =~= krun + vrun);
                    assert(run + Seq::<u8>::empty() =~= run);
                    assert(<(K, V) as Transcode>::parse(run) == Some((dv_i, run.len() as int)))
                        by {
                        assert(krun + (vrun + Seq::<u8>::empty()) =~= run);
                        assert(K::parse(krun + (vrun + Seq::<u8>::empty())) == Some(
                            (kv.0.deep_view(), krun.len() as int),
                        ));
                        assert(K::parse(run) == Some((kv.0.deep_view(), krun.len() as int)));
                        assert(run.skip(krun.len() as int) =~= vrun + Seq::<u8>::empty());
                        assert(V::parse(vrun + Seq::<u8>::empty()) == Some(
                            (kv.1.deep_view(), vrun.len() as int),
                        ));
                    }
                    assert(parse_elems::<(K, V)>(run, 1nat) == Some((seq![dv_i], run.len() as int)))
                        by {
                        assert(run.skip(run.len() as int) =~= Seq::<u8>::empty());
                        assert(parse_elems::<(K, V)>(run.skip(run.len() as int), 0nat) == Some(
                            (Seq::<(K::V, V::V)>::empty(), 0int),
                        ));
                        assert(seq![dv_i] + Seq::<(K::V, V::V)>::empty() =~= seq![dv_i]);
                    }
                    assert(e_next.take(e_i.len() as int) =~= e_i);
                    assert(e_i.take(e_i.len() as int) =~= e_i);
                    lemma_parse_elems_prefix_stable::<(K, V)>(e_i, e_next, idx as nat);
                    assert(e_next.skip(e_i.len() as int) =~= run);
                    lemma_parse_elems_append::<(K, V)>(
                        e_next,
                        idx as nat,
                        1nat,
                        pair_models::<K, V>(es).take(idx),
                        e_i.len() as int,
                        seq![dv_i],
                        run.len() as int,
                    );
                    assert(dv_i == pair_models::<K, V>(es)[idx]);
                    assert(pair_models::<K, V>(es).take(idx) + seq![dv_i] =~= pair_models::<K, V>(
                        es,
                    ).take(idx + 1));
                }
            }
            i = i + 1;
        }
        let end = sink.len();
        proof {
            lemma_prefix_chain(sink@, pre, old(sink)@);
            if Self::reliable() {
                let e = sink@.skip(start as int);
                let pe = pre.skip(start as int);
                let erun = sink@.skip(estart);
                let dvps = pair_models::<K, V>(es);
                assert(len == self@.dom().len() && es.len() == self@.dom().len());
                assert(dvps.take(es.len() as int) =~= dvps);
                let f = |x: K| x.deep_view();
                assert forall|k1: K, k2: K| #![trigger f(k1), f(k2)] f(k1) == f(k2) implies k1
                    == k2 by {
                    K::lemma_model_injective(k1, k2);
                }
                assert(vstd::relations::injective(f));
                vstd::std_specs::hash::lemma_hashmap_deepview_properties(*self);
                assert forall|i2: int, j2: int| 0 <= i2 < j2 < dvps.len() implies (
                #[trigger] dvps[i2]).0 != (#[trigger] dvps[j2]).0 by {
                    assert(*es[i2].0 != *es[j2].0);
                    assert(f(*es[i2].0) == dvps[i2].0 && f(*es[j2].0) == dvps[j2].0);
                }
                lemma_pairs_to_map_membership(dvps);
                assert(pairs_to_map(dvps) =~= self.deep_view()) by {
                    assert forall|dk: K::V| #[trigger]
                        pairs_to_map(dvps).contains_key(dk) implies self.deep_view().contains_key(
                        dk,
                    ) && pairs_to_map(dvps)[dk] == self.deep_view()[dk] by {
                        let j = choose|j: int| 0 <= j < dvps.len() && (#[trigger] dvps[j]).0 == dk;
                        assert(self@.contains_key(*es[j].0));
                        assert(self.deep_view().contains_key((*es[j].0).deep_view()));
                        assert(self.deep_view()[dk] == self@[*es[j].0].deep_view());
                        assert(pairs_to_map(dvps)[dvps[j].0] == dvps[j].1);
                    }
                    assert forall|dk: K::V| #[trigger] self.deep_view().contains_key(
                        dk,
                    ) implies pairs_to_map(dvps).contains_key(dk) by {
                        let k2 = choose|k2: K|
                            k2.deep_view() == dk && #[trigger] self@.contains_key(k2);
                        let j = choose|j: int| 0 <= j < es.len() && *(#[trigger] es[j]).0 == k2;
                        assert(dvps[j].0 == dk);
                        assert(pairs_to_map(dvps).contains_key(dvps[j].0));
                    }
                }
                assert forall|rest: Seq<u8>| #![trigger Self::parse(e + rest)]
                    Self::parse(e + rest) == Some((self.deep_view(), (end - start) as int)) by {
                    assert(e + rest =~= pe + (erun + rest));
                    assert(<usize as Transcode>::parse(pe + (erun + rest)) == Some(
                        (len, pe.len() as int),
                    ));
                    assert((e + rest).skip(pe.len() as int) =~= erun + rest);
                    assert((erun + rest).take(erun.len() as int) =~= erun);
                    assert(erun.take(erun.len() as int) =~= erun);
                    lemma_parse_elems_prefix_stable::<(K, V)>(erun, erun + rest, len as nat);
                    assert(parse_elems::<(K, V)>(erun + rest, len as nat) == Some(
                        (dvps, erun.len() as int),
                    ));
                }
            }
        }
        Ok(end - start)
    }

    fn from_bytes(src: &mut ByteSource) -> (r: Result<HashMap<K, V>, TranscodeError>) {
        let ghost rem0 = old(src).remaining();
        let len = match <usize as Transcode>::from_bytes(src) {
            Ok(n) => n,
            Err(e) => {
                return Err(e);
            },
        };
        let ghost r0 = src.remaining();
        let ghost n0 = <usize as Transcode>::parse(rem0)->Some_0.1;
        let cap: usize = if len < PREALLOC_CAP {
            len
        } else {
            PREALLOC_CAP
        };
        let mut out: HashMap<K, V> = HashMap::with_capacity(cap);
        let ghost mut c: int = 0;
        let ghost mut got: Seq<(K::V, V::V)> = Seq::empty();
        proof {
            assert(r0.skip(0) =~= r0);
            assert(pairs_to_map(got) =~= Map::<K::V, V::V>::empty());
            assert(out.deep_view() =~= Map::<K::V, V::V>::empty()) by {
                vstd::std_specs::hash::lemma_hashmap_deepview_dom(out);
                assert(out@.dom().map(|k: K| k.deep_view()) =~= Set::<K::V>::empty());
            }
        }
        let mut i: usize = 0;
        while i < len
            invariant
                i <= len,
                src.wf(),
                rem0 == old(src).remaining(),
                Self::reliable() ==> {
                    &&& <usize as Transcode>::parse(rem0) == Some((len, n0))
                    &&& r0 == rem0.skip(n0)
                    &&& 0 <= c <= r0.len()
                    &&& src.remaining() == r0.skip(c)
                    &&& out.deep_view() == pairs_to_map(got)
                    &&& match parse_elems::<(K, V)>(r0.skip(c), (len - i) as nat) {
                        Some(q) => parse_elems::<(K, V)>(r0, len as nat) == Some(
                            (got + q.0, c + q.1),
                        ),
                        None => parse_elems::<(K, V)>(r0, len as nat) is None,
                    }
                },
            decreases len - i,
        {
            let ghost remi = src.remaining();
            let ghost got_old = got;
            let kv = match <(K, V) as Transcode>::from_bytes(src) {
                Ok(kv) => kv,
                Err(e) => {
                    proof {
                        if Self::reliable() {
                            assert(<(K, V) as Transcode>::parse(remi) is None);
                            assert(parse_elems::<(K, V)>(r0.skip(c), (len - i) as nat) is None);
                            assert(parse_elems::<(K, V)>(r0, len as nat) is None);
                            let pu = <usize as Transcode>::parse(rem0)->Some_0;
                            assert(parse_elems::<(K, V)>(rem0.skip(pu.1), pu.0 as nat) is None);
                            assert(Self::parse(rem0) is None);
                        }
                    }
                    return Err(e);
                },
            };
            proof {
                if Self::reliable() {
                    let p = <(K, V) as Transcode>::parse(remi)->Some_0;
                    <(K, V) as Transcode>::lemma_parse_consumes(remi);
                    assert(remi.skip(p.1) =~= r0.skip(c + p.1));
                    match parse_elems::<(K, V)>(r0.skip(c + p.1), (len - i - 1) as nat) {
                        Some(q2) => {
                            assert(got_old + (seq![p.0] + q2.0) =~= got_old.push(p.0) + q2.0);
                        },
                        None => {},
                    }
                    c = c + p.1;
                    got = got.push(p.0);
                }
            }
            let (k, v) = kv;
            let ghost out_old = out;
            out.insert(k, v);
            proof {
                if Self::reliable() {
                    lemma_map_deepview_insert(out_old, out, k, v);
                    assert(got.drop_last() =~= got_old);
                    assert(got.last() == (k.deep_view(), v.deep_view()));
                    assert(out.deep_view() == pairs_to_map(got));
                }
            }
            i = i + 1;
        }
        proof {
            if Self::reliable() {
                assert(r0.skip(c).skip(0) =~= r0.skip(c));
                assert(parse_elems::<(K, V)>(r0.skip(c), 0nat) == Some(
                    (Seq::<(K::V, V::V)>::empty(), 0int),
                ));
                assert(got + Seq::<(K::V, V::V)>::empty() =~= got);
                assert(parse_elems::<(K, V)>(r0, len as nat) == Some((got, c)));
                let pu = <usize as Transcode>::parse(rem0)->Some_0;
                assert(r0 == rem0.skip(pu.1));
                assert(Self::parse(rem0) == Some((pairs_to_map(got), n0 + c)));
                <usize as Transcode>::lemma_parse_consumes(rem0);
                assert(src.remaining() =~= rem0.skip(n0 + c));
            }
        }
        Ok(out)
    }
}

} // verus!
