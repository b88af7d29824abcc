//! Set operations over plain collections, backed by hash sets.
//!
//! The contracts hold under `obeys_key_model`, the standard hash-table model
//! of the element type; every primitive integer type obeys it.

use vstd::prelude::*;

use core::hash::Hash;
use std::collections::HashSet;

verus! {

broadcast use vstd::std_specs::hash::group_hash_axioms;

/// No two elements of the sequence agree.
pub open spec fn distinct<T>(s: Seq<T>) -> bool {
    forall|p: int, q: int| 0 <= p < q < s.len() ==> s[p] != s[q]
}


/// Concatenation unions the element sets.
proof fn lemma_concat_to_set<T>(a: Seq<T>, b: Seq<T>)
    ensures
        (a + b).to_set() == a.to_set().union(b.to_set()),
{
    assert forall|x: T| #[trigger] (a + b).to_set().contains(x) implies a.to_set().union(
        b.to_set(),
    ).contains(x) by {
        let j = choose|j: int| 0 <= j < (a + b).len() && (a + b)[j] == x;
        if j < a.len() {
            assert(a[j] == x);
        } else {
            assert(b[j - a.len()] == x);
        }
    }
    assert forall|x: T| #[trigger]
        a.to_set().union(b.to_set()).contains(x) implies (a + b).to_set().contains(x) by {
        if a.to_set().contains(x) {
            let j = choose|j: int| 0 <= j < a.len() && a[j] == x;
            assert((a + b)[j] == x);
        } else {
            let j = choose|j: int| 0 <= j < b.len() && b[j] == x;
            assert((a + b)[a.len() + j] == x);
        }
    }
    assert((a + b).to_set() =~= a.to_set().union(b.to_set()));
}

/// Every element of the sequence is in its set.
proof fn lemma_index_in_set<T>(s: Seq<T>, p: int)
    requires
        0 <= p < s.len(),
    ensures
        s.to_set().contains(s[p]),
{
    assert(s.contains(s[p]));
}

/// Collection of hash-set operations: the set of the elements, unions and
/// intersections, with vectors or hash sets on either side.
pub trait ToHashSet<T> {
    fn to_hashset(&self) -> HashSet<T>;

    fn union(&self, other: &[T]) -> Vec<T>;

    fn intersect(&self, other: &[T]) -> Vec<T>;

    fn intersect_with_hs(&self, other: &HashSet<T>) -> Vec<T>;

    fn to_intersection_with_hs(&self, other: &HashSet<T>) -> HashSet<T>;
}

/// The set the slice holds, as a hash set.
fn slice_to_hashset<T: Copy + Eq + Hash>(s: &[T]) -> (r: HashSet<T>)
    ensures
        vstd::std_specs::hash::obeys_key_model::<T>() ==> r@ == s@.to_set(),
{
    let mut hs: HashSet<T> = HashSet::new();
    let mut i: usize = 0;
    proof {
        assert(s@.take(0).to_set() =~= Set::<T>::empty());
    }
    while i < s.len()
        invariant
            i <= s@.len(),
            vstd::std_specs::hash::obeys_key_model::<T>() ==> hs@ == s@.take(i as int).to_set(),
        decreases s@.len() - i,
    {
        hs.insert(s[i]);
        proof {
            assert(s@.take(i + 1) =~= s@.take(i as int).push(s@[i as int]));
            s@.take(i as int).lemma_push_to_set_commute(s@[i as int]);
        }
        i += 1;
    }
    proof {
        assert(s@.take(s@.len() as int) =~= s@);
    }
    hs
}

/// The elements of `s` that are in the set `other` (kept) or not in it
/// (dropped), each element once, in first-appearance order.
fn slice_filter_by_set<T: Copy + Eq + Hash>(s: &[T], other: &HashSet<T>, keep_in: bool) -> (r: Vec<
    T,
>)
    ensures
        vstd::std_specs::hash::obeys_key_model::<T>() ==> (distinct(r@) && r@.to_set()
            == (if keep_in {
            s@.to_set().intersect(other@)
        } else {
            s@.to_set().difference(other@)
        })),
{
    let ghost okm = vstd::std_specs::hash::obeys_key_model::<T>();
    let mut seen: HashSet<T> = HashSet::new();
    let mut out: Vec<T> = Vec::new();
    let mut i: usize = 0;
    proof {
        assert(s@.take(0).to_set() =~= Set::<T>::empty());
        if okm {
            assert(out@.to_set() =~= (if keep_in {
                s@.take(0).to_set().intersect(other@)
            } else {
                s@.take(0).to_set().difference(other@)
            }));
        }
    }
    while i < s.len()
        invariant
            okm == vstd::std_specs::hash::obeys_key_model::<T>(),
            i <= s@.len(),
            okm ==> seen@ == s@.take(i as int).to_set(),
            okm ==> distinct(out@),
            okm ==> out@.to_set().subset_of(seen@),
            okm ==> out@.to_set() == (if keep_in {
                s@.take(i as int).to_set().intersect(other@)
            } else {
                s@.take(i as int).to_set().difference(other@)
            }),
        decreases s@.len() - i,
    {
        let x = s[i];
        let in_other = other.contains(&x);
        let new_elem = !seen.contains(&x);
        if new_elem && in_other == keep_in {
            let ghost old_out = out@;
            out.push(x);
            proof {
                old_out.lemma_push_to_set_commute(x);
                if okm {
                    assert(out@.to_set() =~= old_out.to_set().insert(x));
                    assert(forall|p: int| 0 <= p < old_out.len() ==> out@[p] == old_out[p]);
                    assert forall|p: int| 0 <= p < old_out.len() implies old_out[p] != x by {
                        lemma_index_in_set(old_out, p);
                    }
                }
            }
        }
        seen.insert(x);
        proof {
            assert(s@.take(i + 1) =~= s@.take(i as int).push(s@[i as int]));
            s@.take(i as int).lemma_push_to_set_commute(s@[i as int]);
            if okm {
                assert(out@.to_set() =~= (if keep_in {
                    s@.take(i + 1).to_set().intersect(other@)
                } else {
                    s@.take(i + 1).to_set().difference(other@)
                }));
            }
        }
        i += 1;
    }
    proof {
        assert(s@.take(s@.len() as int) =~= s@);
    }
    out
}

impl<T: Copy + Eq + Hash> ToHashSet<T> for Vec<T> {
    /// The set of the vector's elements.
    fn to_hashset(&self) -> (r: HashSet<T>)
        ensures
            vstd::std_specs::hash::obeys_key_model::<T>() ==> r@ == self@.to_set(),
    {
        slice_to_hashset(self.as_slice())
    }

    /// The union of the two element sets, each element once.
    fn union(&self, other: &[T]) -> (r: Vec<T>)
        ensures
            vstd::std_specs::hash::obeys_key_model::<T>() ==> (distinct(r@) && r@.to_set()
                == self@.to_set().union(other@.to_set())),
    {
        let hs = slice_to_hashset(self.as_slice());
        let mut out = slice_filter_by_set(self.as_slice(), &hs, true);
        let more = slice_filter_by_set(other, &hs, false);
        let ghost base = out@;
        let mut k: usize = 0;
        proof {
            assert(more@.take(0).to_set() =~= Set::<T>::empty());
            assert(out@ =~= base + more@.take(0));
        }
        while k < more.len()
            invariant
                k <= more@.len(),
                out@ == base + more@.take(k as int),
            decreases more@.len() - k,
        {
            out.push(more[k]);
            proof {
                assert(base + more@.take(k + 1) =~= (base + more@.take(k as int)).push(
                    more@[k as int],
                ));
            }
            k += 1;
        }
        proof {
            assert(more@.take(more@.len() as int) =~= more@);
            if vstd::std_specs::hash::obeys_key_model::<T>() {
                lemma_concat_to_set(base, more@);
                assert(out@ =~= base + more@);
                assert(out@.to_set() =~= self@.to_set().union(other@.to_set()));
                assert forall|p: int, q: int| 0 <= p < q < out@.len() implies out@[p] != out@[q] by {
                    if p < base.len() && q >= base.len() {
                        lemma_index_in_set(base, p);
                        lemma_index_in_set(more@, q - base.len());
                        assert(base[p] == out@[p] && more@[q - base.len()] == out@[q]);
                    } else if p >= base.len() {
                        assert(more@[p - base.len()] == out@[p] && more@[q - base.len()] == out@[q]);
                    } else {
                        assert(base[p] == out@[p] && base[q] == out@[q]);
                    }
                }
            }
        }
        out
    }

    /// The intersection of the two element sets, each element once.
    fn intersect(&self, other: &[T]) -> (r: Vec<T>)
        ensures
            vstd::std_specs::hash::obeys_key_model::<T>() ==> (distinct(r@) && r@.to_set()
                == self@.to_set().intersect(other@.to_set())),
    {
        let hs = slice_to_hashset(other);
        slice_filter_by_set(self.as_slice(), &hs, true)
    }

    /// The elements also in the given set, each element once.
    fn intersect_with_hs(&self, other: &HashSet<T>) -> (r: Vec<T>)
        ensures
            vstd::std_specs::hash::obeys_key_model::<T>() ==> (distinct(r@) && r@.to_set()
                == self@.to_set().intersect(other@)),
    {
        slice_filter_by_set(self.as_slice(), other, true)
    }

    /// The intersection with the given set, as a hash set.
    fn to_intersection_with_hs(&self, other: &HashSet<T>) -> (r: HashSet<T>)
        ensures
            vstd::std_specs::hash::obeys_key_model::<T>() ==> r@ == self@.to_set().intersect(
                other@,
            ),
    {
        let kept = slice_filter_by_set(self.as_slice(), other, true);
        let r = slice_to_hashset(kept.as_slice());
        proof {
            if vstd::std_specs::hash::obeys_key_model::<T>() {
                assert(r@ =~= self@.to_set().intersect(other@));
            }
        }
        r
    }
}

impl<T: Copy + Eq + Hash> ToHashSet<T> for [T] {
    /// The set of the slice's elements.
    fn to_hashset(&self) -> (r: HashSet<T>)
        ensures
            vstd::std_specs::hash::obeys_key_model::<T>() ==> r@ == self@.to_set(),
    {
        slice_to_hashset(self)
    }

    /// The union of the two element sets, each element once.
    fn union(&self, other: &[T]) -> (r: Vec<T>)
        ensures
            vstd::std_specs::hash::obeys_key_model::<T>() ==> r@.to_set() == self@.to_set().union(
                other@.to_set(),
            ),
    {
        let mut v: Vec<T> = Vec::new();
        let mut i: usize = 0;
        proof {
            assert(v@ =~= self@.take(0));
        }
        while i < self.len()
            invariant
                i <= self@.len(),
                v@ == self@.take(i as int),
            decreases self@.len() - i,
        {
            v.push(self[i]);
            proof {
                assert(self@.take(i as int).push(self@[i as int]) =~= self@.take(i + 1));
            }
            i += 1;
        }
        proof {
            assert(self@.take(self@.len() as int) =~= self@);
        }
        v.union(other)
    }

    /// The intersection of the two element sets, each element once.
    fn intersect(&self, other: &[T]) -> (r: Vec<T>)
        ensures
            vstd::std_specs::hash::obeys_key_model::<T>() ==> (distinct(r@) && r@.to_set()
                == self@.to_set().intersect(other@.to_set())),
    {
        let hs = slice_to_hashset(other);
        slice_filter_by_set(self, &hs, true)
    }

    /// The elements also in the given set, each element once.
    fn intersect_with_hs(&self, other: &HashSet<T>) -> (r: Vec<T>)
        ensures
            vstd::std_specs::hash::obeys_key_model::<T>() ==> (distinct(r@) && r@.to_set()
                == self@.to_set().intersect(other@)),
    {
        slice_filter_by_set(self, other, true)
    }

    /// The intersection with the given set, as a hash set.
    fn to_intersection_with_hs(&self, other: &HashSet<T>) -> (r: HashSet<T>)
        ensures
            vstd::std_specs::hash::obeys_key_model::<T>() ==> r@ == self@.to_set().intersect(
                other@,
            ),
    {
        let kept = slice_filter_by_set(self, other, true);
        let r = slice_to_hashset(kept.as_slice());
        proof {
            if vstd::std_specs::hash::obeys_key_model::<T>() {
                assert(r@ =~= self@.to_set().intersect(other@));
            }
        }
        r
    }
}

} // verus!
