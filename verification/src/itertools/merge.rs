//! Pairing the items of two sources by a key.
//!
//! The left source leads. Each left item is paired with the right item
//! that has the same key; right items that come before their partner is
//! asked for wait in a side buffer. The buffer holds one item per key and
//! grows with every right item that is never asked for.

use crate::closures::computes;
use crate::closures::total;
use std::collections::HashMap;
use std::hash::Hash;
use std::marker::PhantomData;
use vstd::laws_eq::obeys_concrete_eq;
use vstd::prelude::*;
use vstd::std_specs::hash::obeys_key_model;
use vstd::std_specs::iter::IteratorSpec;

verus! {

/// Keys of type `K` can be looked up in a hash map and compared with `==`,
/// and both agree with equality of the values.
pub open spec fn exact_keys<K: Eq>() -> bool {
    obeys_key_model::<K>() && obeys_concrete_eq::<K>()
}

/// Position of the first item of `right` whose key is `k`; the length of
/// `right` if no item has that key.
pub open spec fn first_match<R, K>(right: Seq<R>, rk: spec_fn(R) -> K, k: K) -> int
    decreases right.len(),
{
    if right.len() == 0 || rk(right[0]) == k {
        0
    } else {
        1 + first_match(right.drop_first(), rk, k)
    }
}

/// The buffer after `items` were put into `buf` one by one, each under its
/// own key. A later item replaces an earlier one with the same key.
pub open spec fn stash<R, K>(buf: Map<K, R>, items: Seq<R>, rk: spec_fn(R) -> K) -> Map<K, R>
    decreases items.len(),
{
    if items.len() == 0 {
        buf
    } else {
        stash(buf, items.drop_last(), rk).insert(rk(items.last()), items.last())
    }
}

/// Where the first `n` items of `right` do not have key `k`, the first
/// match lies at `n` or beyond; it lies at `n` where the item there has
/// key `k`, or where `right` ends there.
pub proof fn lemma_first_match_from<R, K>(right: Seq<R>, rk: spec_fn(R) -> K, k: K, n: int)
    requires
        0 <= n <= right.len(),
        forall|i: int| 0 <= i < n ==> rk(#[trigger] right[i]) != k,
    ensures
        n <= first_match(right, rk, k) <= right.len(),
        n < right.len() && rk(right[n]) == k ==> first_match(right, rk, k) == n,
        n == right.len() ==> first_match(right, rk, k) == n,
    decreases right.len(),
{
    if right.len() > 0 && n > 0 {
        let tail = right.drop_first();
        assert(rk(right[0]) != k);
        assert forall|i: int| 0 <= i < n - 1 implies rk(#[trigger] tail[i]) != k by {
            assert(tail[i] == right[i + 1]);
        }
        lemma_first_match_from(tail, rk, k, n - 1);
        if n < right.len() {
            assert(tail[n - 1] == right[n]);
        }
    } else if right.len() > 0 {
        if rk(right[0]) != k {
            lemma_first_match_from(right.drop_first(), rk, k, 0);
        }
    }
}

/// No item before the first match has the key, and the item at the first
/// match has it.
pub proof fn lemma_first_match<R, K>(right: Seq<R>, rk: spec_fn(R) -> K, k: K)
    ensures
        0 <= first_match(right, rk, k) <= right.len(),
        forall|i: int| 0 <= i < first_match(right, rk, k) ==> rk(#[trigger] right[i]) != k,
        first_match(right, rk, k) < right.len() ==> rk(right[first_match(right, rk, k)]) == k,
    decreases right.len(),
{
    if right.len() > 0 && rk(right[0]) != k {
        let tail = right.drop_first();
        lemma_first_match(tail, rk, k);
        assert forall|i: int| 0 <= i < first_match(right, rk, k) implies rk(#[trigger] right[i])
            != k by {
            if i > 0 {
                assert(tail[i - 1] == right[i]);
            }
        }
        if first_match(right, rk, k) < right.len() {
            assert(tail[first_match(tail, rk, k)] == right[first_match(right, rk, k)]);
        }
    }
}

/// What a merge has in hand between two pulls: whether it has ended, what
/// waits in its buffer, and what its two sources are still going to yield.
#[verifier::reject_recursive_types(K)]
pub struct MergeState<L, R, K> {
    pub done: bool,
    pub buf: Map<K, R>,
    pub left: Seq<L>,
    pub right: Seq<R>,
}

/// One pull: the state it leaves and the pair it returns.
///
/// A merge that has ended stays as it is. Otherwise the next left item is
/// taken. If its partner waits in the buffer, the partner leaves the
/// buffer. If not, the right source is read up to and including the first
/// item with the same key, and what was read before it goes to the buffer.
/// Where the left source is dry, or the right source runs dry before a
/// partner shows up, the merge ends without a pair.
pub open spec fn merge_step<L, R, K>(
    st: MergeState<L, R, K>,
    lk: spec_fn(L) -> K,
    rk: spec_fn(R) -> K,
) -> (MergeState<L, R, K>, Option<(L, R)>) {
    if st.done {
        (st, None)
    } else if st.left.len() == 0 {
        (MergeState { done: true, ..st }, None)
    } else {
        let l = st.left[0];
        let k = lk(l);
        let j = first_match(st.right, rk, k);
        if st.buf.contains_key(k) {
            (
                MergeState { buf: st.buf.remove(k), left: st.left.drop_first(), ..st },
                Some((l, st.buf[k])),
            )
        } else if j < st.right.len() {
            (
                MergeState {
                    buf: stash(st.buf, st.right.take(j), rk),
                    left: st.left.drop_first(),
                    right: st.right.skip(j + 1),
                    ..st
                },
                Some((l, st.right[j])),
            )
        } else {
            (
                MergeState {
                    done: true,
                    buf: stash(st.buf, st.right, rk),
                    left: st.left.drop_first(),
                    right: Seq::empty(),
                },
                None,
            )
        }
    }
}

/// All pairs that a merge in state `st` is still going to return.
pub open spec fn merged<L, R, K>(
    st: MergeState<L, R, K>,
    lk: spec_fn(L) -> K,
    rk: spec_fn(R) -> K,
) -> Seq<(L, R)>
    decreases st.left.len(),
{
    let (next, pair) = merge_step(st, lk, rk);
    match pair {
        None => Seq::empty(),
        Some(p) => seq![p].add(merged(next, lk, rk)),
    }
}

/// The state of a merge that has not pulled anything yet.
pub open spec fn merge_start<L, R, K>(left: Seq<L>, right: Seq<R>) -> MergeState<L, R, K> {
    MergeState { done: false, buf: Map::empty(), left, right }
}

/// A pull returns the first of the pairs still to come and leaves the rest
/// to come; it returns nothing exactly when no pair is to come, and then
/// none ever will.
pub proof fn lemma_merged_step<L, R, K>(
    st: MergeState<L, R, K>,
    lk: spec_fn(L) -> K,
    rk: spec_fn(R) -> K,
)
    ensures
        match merge_step(st, lk, rk).1 {
            None => merged(st, lk, rk).len() == 0 && merged(merge_step(st, lk, rk).0, lk, rk).len()
                == 0,
            Some(p) => {
                &&& merged(st, lk, rk).len() > 0
                &&& merged(st, lk, rk)[0] == p
                &&& merged(st, lk, rk).drop_first() == merged(merge_step(st, lk, rk).0, lk, rk)
            },
        },
{
    let (next, pair) = merge_step(st, lk, rk);
    match pair {
        None => {
            assert(next.done);
            assert(merge_step(next, lk, rk).1 is None);
        },
        Some(p) => {
            let rest = merged(next, lk, rk);
            assert(seq![p].add(rest).drop_first() =~= rest);
        },
    }
}

/// `merge` as a method on every iterator: the receiver is the left side.
pub trait MergeExt<R, LI, RI, LF, RF, K>: Iterator<Item = LI> + Sized where
    R: Iterator<Item = RI>,
    K: Hash + Eq,
    LF: Fn(&LI) -> K,
    RF: Fn(&RI) -> K,
 {
    /// Sets up a merge of `self` with `other`, by the keys that `lf` and
    /// `rf` give; nothing is pulled yet.
    fn merge(self, other: R, lf: LF, rf: RF) -> (r: Merge<Self, R, K, LI, RI, LF, RF>)
        requires
            total(lf),
            total(rf),
            other.obeys_prophetic_iter_laws(),
            other.decrease() is Some,
        ensures
            r.wf(),
            r.left() == self,
            r.right() == other,
            r.left_key() == lf,
            r.right_key() == rf,
            r.buffer() == Map::<K, RI>::empty(),
            !r.done(),
    {
        Merge::new(self, other, lf, rf)
    }
}

impl<S, R, LI, RI, LF, RF, K> MergeExt<R, LI, RI, LF, RF, K> for S where
    S: Iterator<Item = LI>,
    R: Iterator<Item = RI>,
    K: Hash + Eq,
    LF: Fn(&LI) -> K,
    RF: Fn(&RI) -> K,
 {

}

/// An adapter that pairs each item of a left source with the item of a
/// right source that has the same key.
#[verifier::reject_recursive_types(L)]
#[verifier::reject_recursive_types(R)]
#[verifier::reject_recursive_types(K)]
#[verifier::reject_recursive_types(LT)]
#[verifier::reject_recursive_types(RT)]
#[verifier::reject_recursive_types(LF)]
#[verifier::reject_recursive_types(RF)]
pub struct Merge<L, R, K, LT, RT, LF, RF> {
    l_iter: L,
    r_iter: R,
    lf: LF,
    rf: RF,
    buf: HashMap<K, RT>,
    done: bool,
    k: PhantomData<K>,
    lt: PhantomData<LT>,
}

impl<L, R, K, LT, RT, LF, RF> Merge<L, R, K, LT, RT, LF, RF> where
    L: Iterator<Item = LT>,
    R: Iterator<Item = RT>,
    K: Hash + Eq,
    LF: Fn(&LT) -> K,
    RF: Fn(&RT) -> K,
 {
    /// Both key functions may be called on every item, and the right
    /// source keeps the iterator laws and is known to run dry: a pull may
    /// have to read it to its end.
    pub closed spec fn wf(&self) -> bool {
        &&& total(self.lf)
        &&& total(self.rf)
        &&& self.r_iter.obeys_prophetic_iter_laws()
        &&& self.r_iter.decrease() is Some
    }

    /// The left source, as it stands now.
    pub closed spec fn left(&self) -> L {
        self.l_iter
    }

    /// The right source, as it stands now.
    pub closed spec fn right(&self) -> R {
        self.r_iter
    }

    /// The function that gives a left item's key.
    pub closed spec fn left_key(&self) -> LF {
        self.lf
    }

    /// The function that gives a right item's key.
    pub closed spec fn right_key(&self) -> RF {
        self.rf
    }

    /// The right items that were read and not yet paired, by key.
    pub closed spec fn buffer(&self) -> Map<K, RT> {
        self.buf@
    }

    /// The merge has ended: it returns nothing any more.
    pub closed spec fn done(&self) -> bool {
        self.done
    }

    /// The state of the merge, given what its sources are going to yield.
    pub open spec fn state(&self, left: Seq<LT>, right: Seq<RT>) -> MergeState<LT, RT, K> {
        MergeState { done: self.done(), buf: self.buffer(), left, right }
    }

    /// The key functions compute `lk` and `rk`, and keys of type `K`
    /// compare and hash by their value.
    pub open spec fn keyed_by(&self, lk: spec_fn(LT) -> K, rk: spec_fn(RT) -> K) -> bool {
        &&& computes(self.left_key(), lk)
        &&& computes(self.right_key(), rk)
        &&& exact_keys::<K>()
    }

    /// Sets up a merge of `l_iter` and `r_iter`; nothing is pulled yet.
    pub fn new(l_iter: L, r_iter: R, lf: LF, rf: RF) -> (r: Self)
        requires
            total(lf),
            total(rf),
            r_iter.obeys_prophetic_iter_laws(),
            r_iter.decrease() is Some,
        ensures
            r.wf(),
            r.left() == l_iter,
            r.right() == r_iter,
            r.left_key() == lf,
            r.right_key() == rf,
            r.buffer() == Map::<K, RT>::empty(),
            !r.done(),
    {
        Merge {
            l_iter,
            r_iter,
            lf,
            rf,
            buf: HashMap::new(),
            done: false,
            k: PhantomData,
            lt: PhantomData,
        }
    }

    /// Do the two items have the same key?
    fn k_eq(&self, li: &LT, ri: &RT) -> (r: bool)
        requires
            total(self.lf),
            total(self.rf),
        ensures
            forall|lk: spec_fn(LT) -> K, rk: spec_fn(RT) -> K|
                #[trigger] computes(self.lf, lk) && #[trigger] computes(self.rf, rk)
                    && exact_keys::<K>() ==> r == (lk(*li) == rk(*ri)),
    {
        let a = (self.lf)(li);
        let b = (self.rf)(ri);
        proof {
            reveal(obeys_concrete_eq);
        }
        a == b
    }

    /// Takes the partner of `li` out of the buffer, if it waits there.
    fn get_buf_for(&mut self, li: &LT) -> (r: Option<RT>)
        requires
            total(old(self).lf),
        ensures
            final(self).l_iter == old(self).l_iter,
            final(self).r_iter == old(self).r_iter,
            final(self).lf == old(self).lf,
            final(self).rf == old(self).rf,
            final(self).done == old(self).done,
            forall|lk: spec_fn(LT) -> K| #[trigger]
                computes(old(self).lf, lk) && exact_keys::<K>() ==> {
                    &&& r == old(self).buf@.get(lk(*li))
                    &&& final(self).buf@ == old(self).buf@.remove(lk(*li))
                },
    {
        broadcast use vstd::std_specs::hash::group_hash_axioms;

        let k = (self.lf)(li);
        self.buf.remove(&k)
    }

    /// The next pair: the next left item with the right item that has its
    /// key. Returns `None` when the left source is dry or the right source
    /// runs dry before a partner shows up, and from then on always.
    ///
    /// Where the key functions compute `lk` and `rk`, keys of type `K`
    /// compare and hash by their value, and the left source keeps the
    /// iterator laws, the pull is `merge_step`.
    pub fn next(&mut self) -> (r: Option<(LT, RT)>)
        requires
            old(self).wf(),
        ensures
            final(self).wf(),
            final(self).left_key() == old(self).left_key(),
            final(self).right_key() == old(self).right_key(),
            final(self).left().obeys_prophetic_iter_laws() == old(
                self,
            ).left().obeys_prophetic_iter_laws(),
            old(self).done() ==> {
                &&& r is None
                &&& final(self).done()
                &&& final(self).buffer() == old(self).buffer()
                &&& final(self).left() == old(self).left()
                &&& final(self).right() == old(self).right()
            },
            forall|lk: spec_fn(LT) -> K, rk: spec_fn(RT) -> K| #[trigger]
                old(self).keyed_by(lk, rk) && old(self).left().obeys_prophetic_iter_laws() ==> (
                    final(self).state(
                        final(self).left().remaining(),
                        final(self).right().remaining(),
                    ),
                    r,
                ) == merge_step(
                    old(self).state(old(self).left().remaining(), old(self).right().remaining()),
                    lk,
                    rk,
                ),
    {
        let ghost lt = self.l_iter.remaining();
        let ghost rt = self.r_iter.remaining();
        let ghost st = self.state(lt, rt);
        if self.done {
            return None;
        }
        let li = match self.l_iter.next() {
            None => {
                self.done = true;
                proof {
                    assert forall|lk: spec_fn(LT) -> K, rk: spec_fn(RT) -> K| #[trigger]
                        old(self).keyed_by(lk, rk) && old(
                        self,
                    ).left().obeys_prophetic_iter_laws() implies (
                        self.state(self.left().remaining(), self.right().remaining()),
                        None::<(LT, RT)>,
                    ) == merge_step(st, lk, rk) by {
                        assert(self.state(self.left().remaining(), self.right().remaining())
                            == MergeState { done: true, ..st });
                    }
                }
                return None;
            },
            Some(x) => x,
        };
        let ghost buf0 = self.buf@;
        match self.get_buf_for(&li) {
            Some(ri) => {
                proof {
                    assert forall|lk: spec_fn(LT) -> K, rk: spec_fn(RT) -> K| #[trigger]
                        old(self).keyed_by(lk, rk) && old(
                        self,
                    ).left().obeys_prophetic_iter_laws() implies (
                        self.state(self.left().remaining(), self.right().remaining()),
                        Some((li, ri)),
                    ) == merge_step(st, lk, rk) by {
                        assert(lt.len() > 0 && li == lt[0]);
                        assert(self.state(self.left().remaining(), self.right().remaining())
                            == MergeState {
                            buf: st.buf.remove(lk(li)),
                            left: st.left.drop_first(),
                            ..st
                        });
                    }
                }
                return Some((li, ri));
            },
            None => {},
        }
        let ghost n: int = 0;
        proof {
            assert(rt.skip(0) =~= rt);
            assert forall|lk: spec_fn(LT) -> K, rk: spec_fn(RT) -> K|
                #[trigger] computes(self.lf, lk) && #[trigger] computes(self.rf, rk)
                    && exact_keys::<K>() && old(self).l_iter.obeys_prophetic_iter_laws() implies {
                &&& !buf0.contains_key(lk(li))
                &&& self.buf@ == stash(buf0, rt.take(0), rk)
            } by {
                assert(buf0.remove(lk(li)) =~= buf0);
            }
        }
        loop
            invariant
                total(self.lf),
                total(self.rf),
                self.r_iter.obeys_prophetic_iter_laws(),
                self.r_iter.decrease() is Some,
                self.lf == old(self).lf,
                self.rf == old(self).rf,
                !self.done,
                !old(self).done,
                st == old(self).state(lt, rt),
                lt == old(self).l_iter.remaining(),
                rt == old(self).r_iter.remaining(),
                buf0 == old(self).buf@,
                self.l_iter.obeys_prophetic_iter_laws() == old(
                    self,
                ).l_iter.obeys_prophetic_iter_laws(),
                self.l_iter.obeys_prophetic_iter_laws() ==> lt.len() > 0 && li == lt[0]
                    && self.l_iter.remaining() == lt.drop_first(),
                0 <= n <= rt.len(),
                self.r_iter.remaining() == rt.skip(n),
                forall|lk: spec_fn(LT) -> K, rk: spec_fn(RT) -> K|
                    #[trigger] computes(self.lf, lk) && #[trigger] computes(self.rf, rk)
                        && exact_keys::<K>() && old(self).l_iter.obeys_prophetic_iter_laws() ==> {
                        &&& !buf0.contains_key(lk(li))
                        &&& self.buf@ == stash(buf0, rt.take(n), rk)
                        &&& forall|i: int| 0 <= i < n ==> rk(#[trigger] rt[i]) != lk(li)
                    },
            decreases self.r_iter.decrease()->0,
        {
            let rn = match self.r_iter.next() {
                None => {
                    self.done = true;
                    proof {
                        assert(n == rt.len());
                        assert forall|lk: spec_fn(LT) -> K, rk: spec_fn(RT) -> K| #[trigger]
                        old(self).keyed_by(lk, rk) && old(
                        self,
                    ).left().obeys_prophetic_iter_laws() implies (
                            self.state(self.left().remaining(), self.right().remaining()),
                            None::<(LT, RT)>,
                        ) == merge_step(st, lk, rk) by {
                            lemma_first_match_from(rt, rk, lk(li), n);
                            assert(rt.take(n) =~= rt);
                            assert(self.right().remaining() =~= Seq::<RT>::empty());
                            assert(self.state(self.left().remaining(), self.right().remaining())
                                == MergeState {
                                done: true,
                                buf: stash(st.buf, st.right, rk),
                                left: st.left.drop_first(),
                                right: Seq::empty(),
                            });
                        }
                    }
                    return None;
                },
                Some(x) => x,
            };
            assert(rn == rt[n]);
            if self.k_eq(&li, &rn) {
                proof {
                    assert forall|lk: spec_fn(LT) -> K, rk: spec_fn(RT) -> K| #[trigger]
                        old(self).keyed_by(lk, rk) && old(
                        self,
                    ).left().obeys_prophetic_iter_laws() implies (
                        self.state(self.left().remaining(), self.right().remaining()),
                        Some((li, rn)),
                    ) == merge_step(st, lk, rk) by {
                        lemma_first_match_from(rt, rk, lk(li), n);
                        assert(self.right().remaining() =~= rt.skip(n + 1));
                        assert(self.state(self.left().remaining(), self.right().remaining())
                            == MergeState {
                            buf: stash(st.buf, st.right.take(n), rk),
                            left: st.left.drop_first(),
                            right: st.right.skip(n + 1),
                            ..st
                        });
                    }
                }
                return Some((li, rn));
            }
            self.add_buf(rn);
            proof {
                assert forall|lk: spec_fn(LT) -> K, rk: spec_fn(RT) -> K|
                    #[trigger] computes(self.lf, lk) && #[trigger] computes(self.rf, rk)
                        && exact_keys::<K>() && old(
                        self,
                    ).l_iter.obeys_prophetic_iter_laws() implies {
                    &&& !buf0.contains_key(lk(li))
                    &&& self.buf@ == stash(buf0, rt.take(n + 1), rk)
                    &&& forall|i: int| 0 <= i < n + 1 ==> rk(#[trigger] rt[i]) != lk(li)
                } by {
                    assert(rt.take(n + 1).drop_last() =~= rt.take(n));
                    assert(rt.take(n + 1).last() == rt[n]);
                }
                assert(rt.skip(n).drop_first() =~= rt.skip(n + 1));
                n = n + 1;
            }
        }
    }

    /// Puts `ri` into the buffer under its key.
    fn add_buf(&mut self, ri: RT)
        requires
            total(old(self).rf),
        ensures
            final(self).l_iter == old(self).l_iter,
            final(self).r_iter == old(self).r_iter,
            final(self).lf == old(self).lf,
            final(self).rf == old(self).rf,
            final(self).done == old(self).done,
            forall|rk: spec_fn(RT) -> K| #[trigger]
                computes(old(self).rf, rk) && exact_keys::<K>() ==> final(self).buf@ == old(
                    self,
                ).buf@.insert(rk(ri), ri),
    {
        broadcast use vstd::std_specs::hash::group_hash_axioms;

        let rk = (self.rf)(&ri);
        self.buf.insert(rk, ri);
    }
}

} // verus!
