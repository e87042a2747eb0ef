//! Helpers on slices and vectors: membership, duplicates, sorted insertion.

pub mod order;
pub mod sorted;

pub use order::get_item_order;
pub use sorted::is_subset;
pub use sorted::push_sorted;
pub use sorted::push_sorted_unique;

use crate::closures::computes2;
use crate::closures::total2;
use vstd::prelude::*;
use vstd::std_specs::cmp::PartialEqSpec;

verus! {

/// Some item of `v` equals `x`, as `==` on `T` has it.
pub open spec fn has_item<T: PartialEq>(v: Seq<T>, x: T) -> bool {
    exists|j: int| 0 <= j < v.len() && (#[trigger] v[j]).eq_spec(&x)
}

/// Every item of `v1` equals some item of `v2`.
pub open spec fn all_in<T: PartialEq>(v1: Seq<T>, v2: Seq<T>) -> bool {
    forall|i: int| 0 <= i < v1.len() ==> has_item(v2, #[trigger] v1[i])
}

/// Does some item of `v` equal `x`?
fn holds<T: PartialEq>(v: &[T], x: &T) -> (r: bool)
    ensures
        T::obeys_eq_spec() ==> r == has_item(v@, *x),
{
    let mut j: usize = 0;
    while j < v.len()
        invariant
            j <= v.len(),
            T::obeys_eq_spec() ==> forall|k: int| 0 <= k < j ==> !(#[trigger] v@[k]).eq_spec(x),
        decreases v.len() - j,
    {
        if v[j] == *x {
            return true;
        }
        j += 1;
    }
    false
}

/// Does every item of `v1` equal some item of `v2`?
fn prefix_in<T: PartialEq>(v1: &[T], v2: &[T]) -> (r: bool)
    ensures
        T::obeys_eq_spec() ==> r == all_in(v1@, v2@),
{
    let mut i: usize = 0;
    while i < v1.len()
        invariant
            i <= v1.len(),
            T::obeys_eq_spec() ==> forall|k: int| 0 <= k < i ==> has_item(v2@, #[trigger] v1@[k]),
        decreases v1.len() - i,
    {
        if !holds(v2, &v1[i]) {
            return false;
        }
        i += 1;
    }
    true
}

/// Do the two slices hold the same items, in whatever order? True where
/// they are of one length and every item of `v1` equals some item of `v2`.
pub fn same_elements<T>(v1: &[T], v2: &[T]) -> (r: bool) where T: PartialEq
    ensures
        r ==> v1@.len() == v2@.len(),
        T::obeys_eq_spec() ==> r == (v1@.len() == v2@.len() && all_in(v1@, v2@)),
{
    if v1.len() != v2.len() {
        return false;
    }
    prefix_in(v1, v2)
}

/// Is `v1` a part of `v2`? True where `v1` is not empty, is no longer than
/// `v2`, and every item of `v1` equals some item of `v2`.
pub fn part_of<T>(v1: &[T], v2: &[T]) -> (r: bool) where T: PartialEq
    ensures
        r ==> 0 < v1@.len() <= v2@.len(),
        T::obeys_eq_spec() ==> r == (0 < v1@.len() <= v2@.len() && all_in(v1@, v2@)),
{
    if v1.len() > v2.len() || v1.len() == 0 {
        return false;
    }
    prefix_in(v1, v2)
}

/// The items of `v1` that equal some item of `v2`, in the order of `v1`.
pub open spec fn shared<T: PartialEq>(v1: Seq<T>, v2: Seq<T>) -> Seq<T> {
    v1.filter(|x: T| has_item(v2, x))
}

/// The items of `v1` that equal some item of `v2`, in the order in which
/// they stand in `v1`.
pub fn union_elements<'a, T>(v1: &'a [T], v2: &'a [T]) -> (r: Vec<&'a T>) where T: PartialEq
    ensures
        r@.len() <= v1@.len(),
        T::obeys_eq_spec() ==> r@.map_values(|x: &T| *x) == shared(v1@, v2@),
{
    let mut out: Vec<&'a T> = Vec::new();
    let mut i: usize = 0;
    proof {
        assert(v1@.take(0) =~= Seq::<T>::empty());
    }
    while i < v1.len()
        invariant
            i <= v1.len(),
            out@.len() <= i,
            T::obeys_eq_spec() ==> out@.map_values(|x: &T| *x) == shared(v1@.take(i as int), v2@),
        decreases v1.len() - i,
    {
        let keep = holds(v2, &v1[i]);
        proof {
            let pred = |x: T| has_item(v2@, x);
            let before = v1@.take(i as int);
            assert(v1@.take(i + 1) =~= before.push(v1@[i as int]));
            assert(before.push(v1@[i as int]).drop_last() =~= before);
            reveal(Seq::filter);
            if T::obeys_eq_spec() {
                if keep {
                    assert(out@.push(&v1@[i as int]).map_values(|x: &T| *x) =~= out@.map_values(
                        |x: &T| *x,
                    ).push(v1@[i as int]));
                }
            }
        }
        if keep {
            out.push(&v1[i]);
        }
        i += 1;
    }
    proof {
        assert(v1@.take(v1@.len() as int) =~= v1@);
    }
    out
}

/// Some item of `acc` is related to `x`.
pub open spec fn seen<T>(acc: Seq<T>, x: T, rel: spec_fn(T, T) -> bool) -> bool {
    exists|j: int| 0 <= j < acc.len() && rel(#[trigger] acc[j], x)
}

/// `s` without its duplicates: an item stays unless an item that stayed
/// before it is related to it.
pub open spec fn dedup_by<T>(s: Seq<T>, rel: spec_fn(T, T) -> bool) -> Seq<T>
    decreases s.len(),
{
    if s.len() == 0 {
        Seq::empty()
    } else {
        let acc = dedup_by(s.drop_last(), rel);
        if seen(acc, s.last(), rel) {
            acc
        } else {
            acc.push(s.last())
        }
    }
}

/// What was kept is part of what was given, no two kept items are
/// related, and every item given is related to one that was kept before
/// it or is kept itself.
pub proof fn lemma_dedup_by<T>(s: Seq<T>, rel: spec_fn(T, T) -> bool)
    ensures
        dedup_by(s, rel).len() <= s.len(),
        forall|i: int|
            0 <= i < dedup_by(s, rel).len() ==> s.contains(#[trigger] dedup_by(s, rel)[i]),
        forall|i: int, j: int|
            0 <= i < j < dedup_by(s, rel).len() ==> !rel(
                #[trigger] dedup_by(s, rel)[i],
                #[trigger] dedup_by(s, rel)[j],
            ),
        forall|i: int|
            0 <= i < s.len() ==> seen(dedup_by(s, rel), #[trigger] s[i], rel) || dedup_by(
                s,
                rel,
            ).contains(s[i]),
    decreases s.len(),
{
    if s.len() > 0 {
        let front = s.drop_last();
        let acc = dedup_by(front, rel);
        let out = dedup_by(s, rel);
        lemma_dedup_by(front, rel);
        assert forall|i: int| 0 <= i < out.len() implies s.contains(#[trigger] out[i]) by {
            if i < acc.len() {
                assert(out[i] == acc[i]);
                let w = choose|w: int| 0 <= w < front.len() && front[w] == acc[i];
                assert(s[w] == acc[i]);
            } else {
                assert(out[i] == s[s.len() - 1]);
            }
        }
        assert forall|i: int, j: int| 0 <= i < j < out.len() implies !rel(
            #[trigger] out[i],
            #[trigger] out[j],
        ) by {
            if j < acc.len() {
                assert(out[i] == acc[i] && out[j] == acc[j]);
            } else {
                assert(out[i] == acc[i]);
            }
        }
        assert forall|i: int| 0 <= i < s.len() implies seen(out, #[trigger] s[i], rel)
            || out.contains(s[i]) by {
            if i < front.len() {
                assert(front[i] == s[i]);
                if seen(acc, s[i], rel) {
                    let w = choose|w: int| 0 <= w < acc.len() && rel(#[trigger] acc[w], s[i]);
                    assert(out[w] == acc[w]);
                } else {
                    let w = choose|w: int| 0 <= w < acc.len() && acc[w] == s[i];
                    assert(out[w] == s[i]);
                }
            } else {
                if seen(acc, s.last(), rel) {
                } else {
                    assert(out[out.len() - 1] == s[i]);
                }
            }
        }
    }
}

/// Is some item of `inp` equal to `item`, as `eq` has it? Each item of
/// `inp` is handed to `eq` together with `item`, the item of `inp` first,
/// until `eq` says yes.
pub fn contains<T, F>(inp: &[T], item: &T, eq: F) -> (r: bool) where F: Fn(&T, &T) -> bool
    requires
        total2(eq),
    ensures
        r ==> exists|j: int| 0 <= j < inp@.len() && call_ensures(eq, (&inp@[j], item), true),
        !r ==> forall|j: int| 0 <= j < inp@.len() ==> call_ensures(eq, (&inp@[j], item), false),
        forall|rel: spec_fn(T, T) -> bool| #[trigger]
            computes2(eq, rel) ==> r == seen(inp@, *item, rel),
{
    let mut j: usize = 0;
    while j < inp.len()
        invariant
            j <= inp.len(),
            total2(eq),
            forall|k: int| 0 <= k < j ==> call_ensures(eq, (&inp@[k], item), false),
        decreases inp.len() - j,
    {
        assert(call_requires(eq, (&inp@[j as int], item)));
        if eq(&inp[j], item) {
            proof {
                assert(call_ensures(eq, (&inp@[j as int], item), true));
                assert forall|rel: spec_fn(T, T) -> bool| #[trigger]
                    computes2(eq, rel) implies seen(inp@, *item, rel) by {
                    assert(rel(inp@[j as int], *item));
                }
            }
            return true;
        }
        j += 1;
    }
    false
}

/// `inp` without its duplicates, as `eq` has them: an item is kept unless
/// `eq` says of an item kept before it, and of it, that they are equal.
/// The order of the kept items is that of `inp`.
pub fn remove_dups_by<T, F>(inp: Vec<T>, eq: F) -> (r: Vec<T>) where
    T: PartialEq,
    F: Fn(&T, &T) -> bool,

    requires
        total2(eq),
    ensures
        r@.len() <= inp@.len(),
        forall|rel: spec_fn(T, T) -> bool| #[trigger]
            computes2(eq, rel) ==> r@ == dedup_by(inp@, rel),
{
    let mut new: Vec<T> = Vec::new();
    let ghost all = inp@;
    proof {
        assert(all.take(0) =~= Seq::<T>::empty());
    }
    for item in it: inp
        invariant
            total2(eq),
            it.seq() == all,
            new@.len() <= it.index(),
            forall|rel: spec_fn(T, T) -> bool| #[trigger]
                computes2(eq, rel) ==> new@ == dedup_by(all.take(it.index()), rel),
    {
        let ghost n = it.index();
        let ghost before = new@;
        let dup = contains(new.as_slice(), &item, &eq);
        proof {
            assert(item == all[n]);
            assert(all.take(n + 1).drop_last() =~= all.take(n));
            assert(all.take(n + 1).last() == all[n]);
            assert forall|rel: spec_fn(T, T) -> bool| #[trigger] computes2(eq, rel) implies dup
                == seen(before, item, rel) by {
                assert(computes2(&eq, rel));
            }
        }
        if !dup {
            new.push(item);
        }
    }
    proof {
        assert(all.take(all.len() as int) =~= all);
    }
    new
}

/// `inp` without its duplicates: an item is kept unless it equals an item
/// kept before it. The order of the kept items is that of `inp`.
pub fn remove_dups<T>(inp: Vec<T>) -> (r: Vec<T>) where T: PartialEq
    ensures
        r@.len() <= inp@.len(),
        T::obeys_eq_spec() ==> r@ == dedup_by(inp@, |x: T, y: T| x.eq_spec(&y)),
{
    let eq = |a: &T, b: &T| -> (e: bool)
        ensures
            T::obeys_eq_spec() ==> e == a.eq_spec(b),
        { a == b };
    proof {
        if T::obeys_eq_spec() {
            assert(computes2(eq, |x: T, y: T| x.eq_spec(&y)));
        }
    }
    remove_dups_by(inp, eq)
}

} // verus!
