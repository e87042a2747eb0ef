//! Sorted slices: walking two of them side by side, and inserting in order.

use std::cmp::Ordering;
use vstd::prelude::*;
use vstd::std_specs::cmp::OrdSpec;
use vstd::std_specs::cmp::PartialOrdIs;
use vstd::std_specs::cmp::PartialOrdSpec;

verus! {

/// `<` and `>` on `T` give what the ghost model of `T` says they give.
pub open spec fn lawful_order<T: PartialOrd>() -> bool {
    T::obeys_partial_cmp_spec()
}

/// Every item of `a` is met when `a` and `b` are walked side by side from
/// the front: items of `b` that are less than the item of `a` at hand are
/// passed over; an item of `b` that is greater ends the walk without
/// success; any other item of `b` meets the item of `a`, and both walks
/// move on.
pub open spec fn covers<T: PartialOrd>(a: Seq<T>, b: Seq<T>) -> bool
    decreases a.len() + b.len(),
{
    if a.len() == 0 {
        true
    } else if b.len() == 0 {
        false
    } else if b[0].is_lt(&a[0]) {
        covers(a, b.drop_first())
    } else if b[0].is_gt(&a[0]) {
        false
    } else {
        covers(a.drop_first(), b.drop_first())
    }
}

/// `x` is less than `y`.
pub open spec fn before<T: PartialOrd>(x: T, y: T) -> bool {
    x.is_lt(&y)
}

/// `x` is greater than `y`.
pub open spec fn after<T: PartialOrd>(x: T, y: T) -> bool {
    x.is_gt(&y)
}

/// `x` is neither less nor greater than `y`.
pub open spec fn meets<T: PartialOrd>(x: T, y: T) -> bool {
    !before(x, y) && !after(x, y)
}

/// Less and greater mirror each other, less is transitive, and an item
/// that is neither less nor greater than another is less than what the
/// other is less than, and greater than what the other is greater than.
pub open spec fn strict_weak_order<T: PartialOrd>() -> bool {
    &&& forall|x: T, y: T| #[trigger] after(x, y) <==> before(y, x)
    &&& forall|x: T, y: T, z: T| #[trigger] before(x, y) && #[trigger] before(y, z) ==> before(x, z)
    &&& forall|x: T, y: T, z: T| #[trigger] before(x, y) && #[trigger] meets(y, z) ==> before(x, z)
    &&& forall|x: T, y: T, z: T| #[trigger] meets(x, y) && #[trigger] before(y, z) ==> before(x, z)
}

/// Every item of `v` is less than each later one.
pub open spec fn ascending<T: PartialOrd>(v: Seq<T>) -> bool {
    forall|i: int, j: int| 0 <= i < j < v.len() ==> before(#[trigger] v[i], #[trigger] v[j])
}

/// Some item of `b` is neither less nor greater than `x`.
pub open spec fn met_in<T: PartialOrd>(b: Seq<T>, x: T) -> bool {
    exists|j: int| 0 <= j < b.len() && meets(#[trigger] b[j], x)
}

/// For two ascending sequences under a strict weak order, the walk along
/// both meets every item of `a` exactly if every item of `a` has its like
/// in `b`: `a`, as a set, is part of `b`.
pub proof fn lemma_covers_ascending<T: PartialOrd>(a: Seq<T>, b: Seq<T>)
    requires
        strict_weak_order::<T>(),
        ascending(a),
        ascending(b),
    ensures
        covers(a, b) <==> forall|i: int| 0 <= i < a.len() ==> met_in(b, #[trigger] a[i]),
    decreases a.len() + b.len(),
{
    let all_met = forall|i: int| 0 <= i < a.len() ==> met_in(b, #[trigger] a[i]);
    if a.len() == 0 {
    } else if b.len() == 0 {
        assert(!met_in(b, a[0]));
    } else {
        let a2 = a.drop_first();
        let b2 = b.drop_first();
        assert(ascending(a2)) by {
            assert forall|i: int, j: int| 0 <= i < j < a2.len() implies before(
                #[trigger] a2[i],
                #[trigger] a2[j],
            ) by {
                assert(a2[i] == a[i + 1] && a2[j] == a[j + 1]);
            }
        }
        assert(ascending(b2)) by {
            assert forall|i: int, j: int| 0 <= i < j < b2.len() implies before(
                #[trigger] b2[i],
                #[trigger] b2[j],
            ) by {
                assert(b2[i] == b[i + 1] && b2[j] == b[j + 1]);
            }
        }
        if before(b[0], a[0]) {
            lemma_covers_ascending(a, b2);
            assert forall|i: int| 0 <= i < a.len() implies (met_in(b, #[trigger] a[i]) <==> met_in(
                b2,
                a[i],
            )) by {
                if i > 0 {
                    assert(before(a[0], a[i]));
                }
                assert(before(b[0], a[i]));
                if met_in(b, a[i]) {
                    let j = choose|j: int| 0 <= j < b.len() && meets(#[trigger] b[j], a[i]);
                    assert(j > 0);
                    assert(b2[j - 1] == b[j]);
                }
                if met_in(b2, a[i]) {
                    let j = choose|j: int| 0 <= j < b2.len() && meets(#[trigger] b2[j], a[i]);
                    assert(b[j + 1] == b2[j]);
                }
            }
        } else if after(b[0], a[0]) {
            assert(!met_in(b, a[0])) by {
                assert forall|j: int| 0 <= j < b.len() implies !meets(#[trigger] b[j], a[0]) by {
                    assert(before(a[0], b[0]));
                    if j > 0 {
                        assert(before(b[0], b[j]));
                    }
                    assert(before(a[0], b[j]));
                    assert(after(b[j], a[0]));
                }
            }
        } else {
            lemma_covers_ascending(a2, b2);
            assert(meets(b[0], a[0]));
            if all_met {
                assert forall|i: int| 0 <= i < a2.len() implies met_in(b2, #[trigger] a2[i]) by {
                    assert(a2[i] == a[i + 1]);
                    assert(met_in(b, a[i + 1]));
                    let j = choose|j: int| 0 <= j < b.len() && meets(#[trigger] b[j], a[i + 1]);
                    assert(before(a[0], a[i + 1]));
                    assert(before(b[0], a[i + 1]));
                    assert(j > 0);
                    assert(b2[j - 1] == b[j]);
                }
            }
            if forall|i: int| 0 <= i < a2.len() ==> met_in(b2, #[trigger] a2[i]) {
                assert forall|i: int| 0 <= i < a.len() implies met_in(b, #[trigger] a[i]) by {
                    if i > 0 {
                        assert(a2[i - 1] == a[i]);
                        assert(met_in(b2, a2[i - 1]));
                        let j = choose|j: int| 0 <= j < b2.len() && meets(#[trigger] b2[j], a[i]);
                        assert(b[j + 1] == b2[j]);
                    }
                }
            }
        }
    }
}

/// Is `a` a subset of `b`, both being sorted? True where `a` is no longer
/// than `b` and every item of `a` is met on a walk along both.
pub fn is_subset<T: PartialOrd>(a: &[T], b: &[T]) -> (r: bool)
    ensures
        r ==> a@.len() <= b@.len(),
        lawful_order::<T>() ==> r == (a@.len() <= b@.len() && covers(a@, b@)),
{
    if a.len() > b.len() {
        return false;
    }
    let mut i: usize = 0;
    let mut j: usize = 0;
    proof {
        assert(a@.skip(0) =~= a@);
        assert(b@.skip(0) =~= b@);
    }
    while i < a.len()
        invariant
            i <= a.len(),
            j <= b.len(),
            a@.len() <= b@.len(),
            lawful_order::<T>() ==> covers(a@, b@) == covers(a@.skip(i as int), b@.skip(j as int)),
        decreases a.len() - i,
    {
        if j >= b.len() {
            return false;
        }
        while b[j] < a[i]
            invariant
                i < a.len(),
                j < b.len(),
                lawful_order::<T>() ==> covers(a@, b@) == covers(
                    a@.skip(i as int),
                    b@.skip(j as int),
                ),
            decreases b.len() - j,
        {
            proof {
                assert(b@.skip(j as int).drop_first() =~= b@.skip(j + 1));
                if lawful_order::<T>() {
                    assert(covers(a@.skip(i as int), b@.skip(j as int)) == covers(
                        a@.skip(i as int),
                        b@.skip(j + 1),
                    ));
                }
            }
            j += 1;
            if j >= b.len() {
                return false;
            }
        }
        if b[j] > a[i] {
            return false;
        }
        proof {
            assert(a@.skip(i as int).drop_first() =~= a@.skip(i + 1));
            assert(b@.skip(j as int).drop_first() =~= b@.skip(j + 1));
        }
        i += 1;
        j += 1;
    }
    true
}

/// `x` comes before `y`.
pub open spec fn comes_before<T: Ord>(x: T, y: T) -> bool {
    x.cmp_spec(&y) == Ordering::Less
}

/// `x` comes after `y`.
pub open spec fn comes_after<T: Ord>(x: T, y: T) -> bool {
    x.cmp_spec(&y) == Ordering::Greater
}

/// `x` and `y` compare equal.
pub open spec fn ties<T: Ord>(x: T, y: T) -> bool {
    x.cmp_spec(&y) == Ordering::Equal
}

/// `x` does not come after `y`.
pub open spec fn at_most<T: Ord>(x: T, y: T) -> bool {
    !comes_after(x, y)
}

/// Comparing items of `T` gives what the ghost model of `T` says, one
/// item comes after another exactly where the other comes before it, and
/// "does not come after" is transitive.
pub open spec fn total_preorder<T: Ord>() -> bool {
    &&& T::obeys_cmp_spec()
    &&& forall|x: T, y: T| #[trigger] comes_after(x, y) <==> comes_before(y, x)
    &&& forall|x: T, y: T, z: T|
        #[trigger] at_most(x, y) && #[trigger] at_most(y, z) ==> at_most(x, z)
}

/// No item of `v` comes after a later one.
pub open spec fn sorted<T: Ord>(v: Seq<T>) -> bool {
    forall|i: int, j: int| 0 <= i < j < v.len() ==> at_most(#[trigger] v[i], #[trigger] v[j])
}

/// Some item of `v` compares equal to `x`.
pub open spec fn has_equal<T: Ord>(v: Seq<T>, x: T) -> bool {
    exists|k: int| 0 <= k < v.len() && ties(#[trigger] v[k], x)
}

/// A position in a vector, as a position in its view.
pub open spec fn place(i: usize) -> int {
    i as int
}

/// Where a search for `item` in `v` ends: at an item that compares equal,
/// if it is a hit; else at the place before which every item comes before
/// `item`, and from which on every item comes after it.
pub open spec fn search_ends<T: Ord>(v: Seq<T>, item: T, hit: bool, idx: int) -> bool {
    if hit {
        0 <= idx < v.len() && ties(v[idx], item)
    } else {
        &&& 0 <= idx <= v.len()
        &&& forall|k: int| 0 <= k < idx ==> comes_before(#[trigger] v[k], item)
        &&& forall|k: int| idx <= k < v.len() ==> comes_after(#[trigger] v[k], item)
    }
}

/// Looks for `item` by halving. `Ok` holds the place of an item that
/// compares equal, `Err` the place where `item` would have to go.
fn search<T: Ord>(v: &Vec<T>, item: &T) -> (r: Result<usize, usize>)
    ensures
        match r {
            Ok(i) => i < v@.len(),
            Err(i) => i <= v@.len(),
        },
        total_preorder::<T>() && sorted(v@) ==> match r {
            Ok(i) => search_ends(v@, *item, true, place(i)),
            Err(i) => search_ends(v@, *item, false, place(i)),
        },
{
    let mut lo: usize = 0;
    let mut hi: usize = v.len();
    while lo < hi
        invariant
            lo <= hi <= v@.len(),
            total_preorder::<T>() && sorted(v@) ==> {
                &&& forall|k: int| 0 <= k < lo ==> comes_before(#[trigger] v@[k], *item)
                &&& forall|k: int| hi <= k < v@.len() ==> comes_after(#[trigger] v@[k], *item)
            },
        decreases hi - lo,
    {
        let mid = lo + (hi - lo) / 2;
        match v[mid].cmp(item) {
            Ordering::Less => {
                proof {
                    if total_preorder::<T>() && sorted(v@) {
                        let m = place(mid);
                        assert(comes_before(v@[m], *item));
                        assert forall|k: int| 0 <= k < m + 1 implies comes_before(
                            #[trigger] v@[k],
                            *item,
                        ) by {
                            if k < m {
                                assert(at_most(v@[k], v@[m]));
                                assert(!at_most(*item, v@[m]));
                                assert(at_most(*item, v@[k]) ==> at_most(*item, v@[m]));
                            }
                        }
                    }
                }
                lo = mid + 1;
            },
            Ordering::Greater => {
                proof {
                    if total_preorder::<T>() && sorted(v@) {
                        let m = place(mid);
                        assert(comes_after(v@[m], *item));
                        assert forall|k: int| m <= k < v@.len() implies comes_after(
                            #[trigger] v@[k],
                            *item,
                        ) by {
                            if k > m {
                                assert(at_most(v@[m], v@[k]));
                                assert(!at_most(v@[m], *item));
                                assert(at_most(v@[k], *item) ==> at_most(v@[m], *item));
                            }
                        }
                    }
                }
                hi = mid;
            },
            Ordering::Equal => {
                proof {
                    if total_preorder::<T>() && sorted(v@) {
                        assert(ties(v@[place(mid)], *item));
                    }
                }
                return Ok(mid);
            },
        }
    }
    Err(lo)
}

/// With `item` put where a search ends, a sorted sequence stays sorted;
/// and the search is a hit exactly if some item compares equal.
pub proof fn lemma_insert_sorted<T: Ord>(v: Seq<T>, item: T, hit: bool, idx: int)
    requires
        total_preorder::<T>(),
        sorted(v),
        search_ends(v, item, hit, idx),
    ensures
        sorted(v.insert(idx, item)),
        hit == has_equal(v, item),
{
    let w = v.insert(idx, item);
    assert forall|k: int| 0 <= k < idx implies at_most(#[trigger] v[k], item) by {
        if hit {
            assert(at_most(v[k], v[idx]));
            assert(at_most(v[idx], item));
        }
    }
    assert forall|k: int| idx <= k < v.len() implies at_most(item, #[trigger] v[k]) by {
        if hit {
            assert(at_most(item, v[idx]));
            if k > idx {
                assert(at_most(v[idx], v[k]));
            }
        } else {
            assert(comes_after(v[k], item));
        }
    }
    assert forall|i: int, j: int| 0 <= i < j < w.len() implies at_most(
        #[trigger] w[i],
        #[trigger] w[j],
    ) by {
        if j < idx {
            assert(w[i] == v[i] && w[j] == v[j]);
        } else if j == idx {
            assert(w[i] == v[i]);
        } else if i < idx {
            assert(w[i] == v[i] && w[j] == v[j - 1]);
            assert(at_most(v[i], item));
            assert(at_most(item, v[j - 1]));
        } else if i == idx {
            assert(w[j] == v[j - 1]);
        } else {
            assert(w[i] == v[i - 1] && w[j] == v[j - 1]);
        }
    }
    if !hit {
        assert forall|k: int| 0 <= k < v.len() implies !ties(#[trigger] v[k], item) by {
            if k < idx {
                assert(comes_before(v[k], item));
            } else {
                assert(comes_after(v[k], item));
            }
        }
    }
}

/// Puts `item` into `vec` at a place found by halving. Where `vec` was
/// sorted, it is sorted afterwards.
pub fn push_sorted<T: Ord>(vec: &mut Vec<T>, item: T)
    ensures
        exists|idx: int|
            0 <= idx <= old(vec)@.len() && final(vec)@ == #[trigger] old(vec)@.insert(idx, item),
        total_preorder::<T>() && sorted(old(vec)@) ==> sorted(final(vec)@),
{
    let found = search(vec, &item);
    let idx = match found {
        Ok(i) => i,
        Err(i) => i,
    };
    proof {
        if total_preorder::<T>() && sorted(vec@) {
            lemma_insert_sorted(vec@, item, found is Ok, idx as int);
        }
    }
    vec.insert(idx, item);
}

/// Puts `item` into `vec` at a place found by halving, unless the search
/// comes upon an item that compares equal. Returns whether `item` was put
/// in. Where `vec` was sorted, it is sorted afterwards, and `item` was
/// put in exactly if no item of `vec` compared equal to it.
pub fn push_sorted_unique<T: Ord>(vec: &mut Vec<T>, item: T) -> (r: bool)
    ensures
        r ==> exists|idx: int|
            0 <= idx <= old(vec)@.len() && final(vec)@ == #[trigger] old(vec)@.insert(idx, item),
        !r ==> final(vec)@ == old(vec)@,
        total_preorder::<T>() && sorted(old(vec)@) ==> sorted(final(vec)@) && r == !has_equal(
            old(vec)@,
            item,
        ),
{
    let found = search(vec, &item);
    match found {
        Err(idx) => {
            proof {
                if total_preorder::<T>() && sorted(vec@) {
                    lemma_insert_sorted(vec@, item, false, idx as int);
                }
            }
            vec.insert(idx, item);
            true
        },
        Ok(idx) => {
            proof {
                if total_preorder::<T>() && sorted(vec@) {
                    lemma_insert_sorted(vec@, item, true, idx as int);
                }
            }
            false
        },
    }
}

} // verus!
