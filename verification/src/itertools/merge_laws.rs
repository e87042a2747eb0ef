//! What a merge returns when every key occurs once on each side.

use crate::itertools::merge::first_match;
use crate::itertools::merge::lemma_first_match;
use crate::itertools::merge::lemma_first_match_from;
use crate::itertools::merge::lemma_merged_step;
use crate::itertools::merge::merge_start;
use crate::itertools::merge::merge_step;
use crate::itertools::merge::merged;
use crate::itertools::merge::stash;
use crate::itertools::merge::MergeState;
use vstd::prelude::*;

verus! {

/// No two items of `s` have the same key.
pub open spec fn distinct_keys<A, K>(s: Seq<A>, key: spec_fn(A) -> K) -> bool {
    forall|i: int, j: int| 0 <= i < j < s.len() ==> key(#[trigger] s[i]) != key(#[trigger] s[j])
}

/// Some item of `right` has key `k`.
pub open spec fn has_key<R, K>(right: Seq<R>, rk: spec_fn(R) -> K, k: K) -> bool {
    first_match(right, rk, k) < right.len()
}

/// A right item with key `k` waits in the buffer or is still to come.
pub open spec fn has_partner<L, R, K>(st: MergeState<L, R, K>, rk: spec_fn(R) -> K, k: K) -> bool {
    st.buf.contains_key(k) || has_key(st.right, rk, k)
}

/// The right item that a left item with key `k` is paired with: the one
/// in the buffer, or else the first one still to come.
pub open spec fn partner<L, R, K>(st: MergeState<L, R, K>, rk: spec_fn(R) -> K, k: K) -> R {
    if st.buf.contains_key(k) {
        st.buf[k]
    } else {
        st.right[first_match(st.right, rk, k)]
    }
}

/// The merge has not ended, every buffered item sits under its own key,
/// and no key occurs twice among the buffered items and those to come.
pub open spec fn tidy<L, R, K>(st: MergeState<L, R, K>, rk: spec_fn(R) -> K) -> bool {
    &&& !st.done
    &&& forall|k: K| #[trigger] st.buf.contains_key(k) ==> rk(st.buf[k]) == k
    &&& distinct_keys(st.right, rk)
    &&& forall|j: int| 0 <= j < st.right.len() ==> !st.buf.contains_key(rk(#[trigger] st.right[j]))
}

/// An item that was stashed, and whose key no other stashed item has, is
/// found in the buffer under its key.
pub proof fn lemma_stash_hit<R, K>(buf: Map<K, R>, items: Seq<R>, rk: spec_fn(R) -> K, i: int)
    requires
        distinct_keys(items, rk),
        0 <= i < items.len(),
    ensures
        stash(buf, items, rk).contains_key(rk(items[i])),
        stash(buf, items, rk)[rk(items[i])] == items[i],
    decreases items.len(),
{
    let front = items.drop_last();
    if i < items.len() - 1 {
        assert forall|a: int, b: int| 0 <= a < b < front.len() implies rk(#[trigger] front[a])
            != rk(#[trigger] front[b]) by {
            assert(front[a] == items[a] && front[b] == items[b]);
        }
        lemma_stash_hit(buf, front, rk, i);
        assert(front[i] == items[i]);
        assert(rk(items[i]) != rk(items[items.len() - 1]));
    }
}

/// A key that no stashed item has is in the buffer as it was before.
pub proof fn lemma_stash_miss<R, K>(buf: Map<K, R>, items: Seq<R>, rk: spec_fn(R) -> K, k: K)
    requires
        forall|i: int| 0 <= i < items.len() ==> rk(#[trigger] items[i]) != k,
    ensures
        stash(buf, items, rk).contains_key(k) == buf.contains_key(k),
        buf.contains_key(k) ==> stash(buf, items, rk)[k] == buf[k],
    decreases items.len(),
{
    if items.len() > 0 {
        let front = items.drop_last();
        assert forall|i: int| 0 <= i < front.len() implies rk(#[trigger] front[i]) != k by {
            assert(front[i] == items[i]);
        }
        lemma_stash_miss(buf, front, rk, k);
        assert(rk(items[items.len() - 1]) != k);
    }
}

/// A pull that finds a partner for the key `k` keeps the state tidy, and
/// every other key keeps its partner.
pub proof fn lemma_step_keeps_partners<L, R, K>(
    st: MergeState<L, R, K>,
    lk: spec_fn(L) -> K,
    rk: spec_fn(R) -> K,
    k2: K,
)
    requires
        tidy(st, rk),
        st.left.len() > 0,
        has_partner(st, rk, lk(st.left[0])),
    ensures
        merge_step(st, lk, rk).1 == Some((st.left[0], partner(st, rk, lk(st.left[0])))),
        rk(partner(st, rk, lk(st.left[0]))) == lk(st.left[0]),
        merge_step(st, lk, rk).0.left == st.left.drop_first(),
        tidy(merge_step(st, lk, rk).0, rk),
        k2 != lk(st.left[0]) ==> has_partner(merge_step(st, lk, rk).0, rk, k2) == has_partner(
            st,
            rk,
            k2,
        ),
        k2 != lk(st.left[0]) && has_partner(st, rk, k2) ==> partner(
            merge_step(st, lk, rk).0,
            rk,
            k2,
        ) == partner(st, rk, k2),
{
    let k = lk(st.left[0]);
    let next = merge_step(st, lk, rk).0;
    let j = first_match(st.right, rk, k);
    let m = first_match(st.right, rk, k2);
    lemma_first_match(st.right, rk, k);
    lemma_first_match(st.right, rk, k2);
    if st.buf.contains_key(k) {
        assert(next.right == st.right);
        assert(next.buf == st.buf.remove(k));
    } else {
        let items = st.right.take(j);
        let rest = st.right.skip(j + 1);
        assert(next.buf == stash(st.buf, items, rk));
        assert(next.right == rest);
        assert(distinct_keys(items, rk)) by {
            assert forall|a: int, b: int| 0 <= a < b < items.len() implies rk(#[trigger] items[a])
                != rk(#[trigger] items[b]) by {
                assert(items[a] == st.right[a] && items[b] == st.right[b]);
            }
        }
        assert(distinct_keys(rest, rk)) by {
            assert forall|a: int, b: int| 0 <= a < b < rest.len() implies rk(#[trigger] rest[a])
                != rk(#[trigger] rest[b]) by {
                assert(rest[a] == st.right[j + 1 + a] && rest[b] == st.right[j + 1 + b]);
            }
        }
        assert forall|q: K| #[trigger] next.buf.contains_key(q) implies rk(next.buf[q]) == q by {
            let i = first_match(items, rk, q);
            lemma_first_match(items, rk, q);
            if i < items.len() {
                lemma_stash_hit(st.buf, items, rk, i);
            } else {
                lemma_stash_miss(st.buf, items, rk, q);
            }
        }
        assert forall|a: int| 0 <= a < rest.len() implies !next.buf.contains_key(
            rk(#[trigger] rest[a]),
        ) by {
            let q = rk(rest[a]);
            assert(rest[a] == st.right[j + 1 + a]);
            assert forall|i: int| 0 <= i < items.len() implies rk(#[trigger] items[i]) != q by {
                assert(items[i] == st.right[i]);
            }
            lemma_stash_miss(st.buf, items, rk, q);
        }
        if k2 == k {
        } else if st.buf.contains_key(k2) {
            assert forall|i: int| 0 <= i < items.len() implies rk(#[trigger] items[i]) != k2 by {
                assert(items[i] == st.right[i]);
            }
            lemma_stash_miss(st.buf, items, rk, k2);
        } else if m < st.right.len() {
            assert(m != j);
            if m < j {
                assert(items[m] == st.right[m]);
                lemma_stash_hit(st.buf, items, rk, m);
            } else {
                assert forall|i: int| 0 <= i < items.len() implies rk(#[trigger] items[i])
                    != k2 by {
                    assert(items[i] == st.right[i]);
                }
                lemma_stash_miss(st.buf, items, rk, k2);
                assert forall|i: int| 0 <= i < m - j - 1 implies rk(#[trigger] rest[i]) != k2 by {
                    assert(rest[i] == st.right[j + 1 + i]);
                }
                assert(rest[m - j - 1] == st.right[m]);
                lemma_first_match_from(rest, rk, k2, m - j - 1);
            }
        } else {
            assert forall|i: int| 0 <= i < items.len() implies rk(#[trigger] items[i]) != k2 by {
                assert(items[i] == st.right[i]);
            }
            lemma_stash_miss(st.buf, items, rk, k2);
            assert forall|i: int| 0 <= i < rest.len() implies rk(#[trigger] rest[i]) != k2 by {
                assert(rest[i] == st.right[j + 1 + i]);
            }
            lemma_first_match_from(rest, rk, k2, rest.len() as int);
        }
    }
}

/// From a tidy state, with no key twice on the left: where the first `n`
/// left items have a partner and the one after them, if there is one, has
/// none, exactly `n` pairs come out, the `i`-th being the `i`-th left item
/// with its partner.
pub proof fn lemma_merged_paired<L, R, K>(
    st: MergeState<L, R, K>,
    lk: spec_fn(L) -> K,
    rk: spec_fn(R) -> K,
    n: int,
)
    requires
        tidy(st, rk),
        distinct_keys(st.left, lk),
        0 <= n <= st.left.len(),
        forall|i: int| 0 <= i < n ==> has_partner(st, rk, lk(#[trigger] st.left[i])),
        n < st.left.len() ==> !has_partner(st, rk, lk(st.left[n])),
    ensures
        merged(st, lk, rk).len() == n,
        forall|i: int|
            0 <= i < n ==> #[trigger] merged(st, lk, rk)[i] == (
                st.left[i],
                partner(st, rk, lk(st.left[i])),
            ),
        forall|i: int|
            0 <= i < n ==> rk(partner(st, rk, lk(#[trigger] st.left[i]))) == lk(st.left[i]),
    decreases st.left.len(),
{
    lemma_merged_step(st, lk, rk);
    if n == 0 {
        if st.left.len() > 0 {
            lemma_first_match(st.right, rk, lk(st.left[0]));
        }
    } else {
        let k = lk(st.left[0]);
        let next = merge_step(st, lk, rk).0;
        let tail = st.left.drop_first();
        assert(has_partner(st, rk, lk(st.left[0])));
        lemma_step_keeps_partners(st, lk, rk, k);
        assert(distinct_keys(tail, lk)) by {
            assert forall|a: int, b: int| 0 <= a < b < tail.len() implies lk(#[trigger] tail[a])
                != lk(#[trigger] tail[b]) by {
                assert(tail[a] == st.left[a + 1] && tail[b] == st.left[b + 1]);
            }
        }
        assert forall|i: int| 0 <= i < tail.len() implies {
            &&& has_partner(next, rk, lk(#[trigger] tail[i])) == has_partner(
                st,
                rk,
                lk(st.left[i + 1]),
            )
            &&& has_partner(st, rk, lk(st.left[i + 1])) ==> partner(next, rk, lk(tail[i]))
                == partner(st, rk, lk(st.left[i + 1]))
        } by {
            assert(tail[i] == st.left[i + 1]);
            assert(lk(st.left[0]) != lk(st.left[i + 1]));
            lemma_step_keeps_partners(st, lk, rk, lk(tail[i]));
        }
        assert forall|i: int| 0 <= i < n - 1 implies has_partner(
            next,
            rk,
            lk(#[trigger] next.left[i]),
        ) by {
            assert(tail[i] == st.left[i + 1]);
        }
        lemma_merged_paired(next, lk, rk, n - 1);
        let out = merged(st, lk, rk);
        let rest = merged(next, lk, rk);
        assert(rest == out.drop_first());
        assert forall|i: int| 0 <= i < n implies #[trigger] out[i] == (
            st.left[i],
            partner(st, rk, lk(st.left[i])),
        ) by {
            if i > 0 {
                assert(out[i] == rest[i - 1]);
                assert(tail[i - 1] == st.left[i]);
            }
        }
        assert forall|i: int| 0 <= i < n implies rk(partner(st, rk, lk(#[trigger] st.left[i])))
            == lk(st.left[i]) by {
            if i > 0 {
                assert(tail[i - 1] == st.left[i]);
            }
        }
    }
}

/// A merge of two sequences in which no key occurs twice on either side.
///
/// Where the first `n` left items have their key somewhere on the right,
/// and the left item after them, if there is one, has not, the merge
/// returns exactly `n` pairs: the `i`-th holds the `i`-th left item and
/// the one right item with the same key. So when every left key occurs on
/// the right, each left item comes out, in the order of the left side,
/// with its partner; and at the first left item without one the output
/// stops, whatever was read from the right before.
pub proof fn lemma_merge_pairs<L, R, K>(
    left: Seq<L>,
    right: Seq<R>,
    lk: spec_fn(L) -> K,
    rk: spec_fn(R) -> K,
    n: int,
)
    requires
        distinct_keys(left, lk),
        distinct_keys(right, rk),
        0 <= n <= left.len(),
        forall|i: int| 0 <= i < n ==> has_key(right, rk, lk(#[trigger] left[i])),
        n < left.len() ==> !has_key(right, rk, lk(left[n])),
    ensures
        merged(merge_start(left, right), lk, rk).len() == n,
        forall|i: int|
            0 <= i < n ==> {
                let pair = #[trigger] merged(merge_start(left, right), lk, rk)[i];
                &&& pair.0 == left[i]
                &&& pair.1 == right[first_match(right, rk, lk(left[i]))]
                &&& rk(pair.1) == lk(left[i])
            },
{
    let st = merge_start::<L, R, K>(left, right);
    lemma_merged_paired(st, lk, rk, n);
}

/// A merge of two sequences in which no key occurs twice on either side
/// and every left key occurs on the right: every left item comes out, in
/// the order of the left side, paired with the one right item that has
/// its key, wherever that item stands on the right.
pub proof fn lemma_merge_pairs_all<L, R, K>(
    left: Seq<L>,
    right: Seq<R>,
    lk: spec_fn(L) -> K,
    rk: spec_fn(R) -> K,
)
    requires
        distinct_keys(left, lk),
        distinct_keys(right, rk),
        forall|i: int| 0 <= i < left.len() ==> has_key(right, rk, lk(#[trigger] left[i])),
    ensures
        merged(merge_start(left, right), lk, rk).len() == left.len(),
        forall|i: int|
            0 <= i < left.len() ==> {
                let pair = #[trigger] merged(merge_start(left, right), lk, rk)[i];
                &&& pair.0 == left[i]
                &&& right.contains(pair.1)
                &&& rk(pair.1) == lk(left[i])
            },
{
    lemma_merge_pairs(left, right, lk, rk, left.len() as int);
    let out = merged(merge_start::<L, R, K>(left, right), lk, rk);
    assert forall|i: int| 0 <= i < left.len() implies right.contains((#[trigger] out[i]).1) by {
        let j = first_match(right, rk, lk(left[i]));
        lemma_first_match(right, rk, lk(left[i]));
        assert(right[j] == out[i].1);
    }
}

} // verus!
