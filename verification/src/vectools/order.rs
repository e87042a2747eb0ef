//! Which of two items comes first in a slice.

use std::cmp::Ordering;
use vstd::prelude::*;
use vstd::std_specs::cmp::PartialEqSpec;

verus! {

/// Position of the first item of `v` that equals `a` or `b`; the length
/// of `v` if no item does.
pub open spec fn first_of<T: PartialEq>(v: Seq<T>, a: T, b: T) -> int
    decreases v.len(),
{
    if v.len() == 0 || v[0].eq_spec(&a) || v[0].eq_spec(&b) {
        0
    } else {
        1 + first_of(v.drop_first(), a, b)
    }
}

/// The order in which `a` and `b` stand in `v`: equal if they are equal;
/// else less if, of the items of `v` that equal one of them, the first
/// equals `a`, and greater if it does not; nothing if no item equals
/// either.
pub open spec fn item_order<T: PartialEq>(v: Seq<T>, a: T, b: T) -> Option<Ordering> {
    let i = first_of(v, a, b);
    if a.eq_spec(&b) {
        Some(Ordering::Equal)
    } else if i >= v.len() {
        None
    } else if v[i].eq_spec(&a) {
        Some(Ordering::Less)
    } else {
        Some(Ordering::Greater)
    }
}

/// Where none of the first `n` items of `v` equals `a` or `b`, the first
/// that does lies at `n` or beyond: at `n`, where the item there equals
/// one of them or `v` ends there.
pub proof fn lemma_first_of_from<T: PartialEq>(v: Seq<T>, a: T, b: T, n: usize)
    requires
        n <= v.len(),
        forall|k: int| 0 <= k < n ==> !(#[trigger] v[k]).eq_spec(&a) && !v[k].eq_spec(&b),
    ensures
        n <= first_of(v, a, b) <= v.len(),
        n < v.len() && (v[n as int].eq_spec(&a) || v[n as int].eq_spec(&b)) ==> first_of(v, a, b)
            == n,
        n == v.len() ==> first_of(v, a, b) == n,
    decreases v.len(),
{
    if v.len() > 0 {
        let tail = v.drop_first();
        if n > 0 {
            assert(!v[0].eq_spec(&a) && !v[0].eq_spec(&b));
            assert forall|k: int| 0 <= k < n - 1 implies !(#[trigger] tail[k]).eq_spec(&a)
                && !tail[k].eq_spec(&b) by {
                assert(tail[k] == v[k + 1]);
            }
            lemma_first_of_from(tail, a, b, (n - 1) as usize);
            if n < v.len() {
                assert(tail[n - 1] == v[n as int]);
            }
        } else if !v[0].eq_spec(&a) && !v[0].eq_spec(&b) {
            lemma_first_of_from(tail, a, b, 0);
        }
    }
}

/// The order in which `a` and `b` stand in `vec`: `Equal` if they are
/// equal; `Less` if an item equal to `a` comes before any item equal to
/// `b`; `Greater` if an item equal to `b` comes first; `None` if `vec`
/// holds neither.
pub fn get_item_order<T>(vec: &[T], a: &T, b: &T) -> (r: Option<Ordering>) where T: PartialEq
    ensures
        T::obeys_eq_spec() ==> r == item_order(vec@, *a, *b),
{
    if a == b {
        return Some(Ordering::Equal);
    }
    let mut i: usize = 0;
    while i < vec.len()
        invariant
            i <= vec.len(),
            T::obeys_eq_spec() ==> !a.eq_spec(b),
            T::obeys_eq_spec() ==> forall|k: int|
                0 <= k < i ==> !(#[trigger] vec@[k]).eq_spec(a) && !vec@[k].eq_spec(b),
        decreases vec.len() - i,
    {
        if vec[i] == *a {
            proof {
                if T::obeys_eq_spec() {
                    lemma_first_of_from(vec@, *a, *b, i);
                }
            }
            return Some(Ordering::Less);
        }
        if vec[i] == *b {
            proof {
                if T::obeys_eq_spec() {
                    lemma_first_of_from(vec@, *a, *b, i);
                }
            }
            return Some(Ordering::Greater);
        }
        i += 1;
    }
    proof {
        if T::obeys_eq_spec() {
            lemma_first_of_from(vec@, *a, *b, i);
        }
    }
    None
}

} // verus!
