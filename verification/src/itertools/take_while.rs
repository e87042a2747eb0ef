//! Taking items from a shared look-ahead source while a test holds.

use crate::closures::computes;
use crate::closures::total;
use std::iter::Peekable;
use vstd::prelude::*;
use vstd::std_specs::iter::IteratorSpec;

verus! {

/// `std::iter::Peekable`, the look-ahead adapter of the standard library.
/// Nothing inside it is visible here.
#[verifier::external_type_specification]
#[verifier::external_body]
#[verifier::reject_recursive_types(I)]
pub struct ExPeekable<I: Iterator>(Peekable<I>);

/// Trusted: `Peekable::peek` shows the item that `next` would return, and
/// does not advance. For a look-ahead source that keeps the iterator laws
/// that item is the first of those still to come, and all of them are
/// still to come afterwards.
pub assume_specification<'a, I: Iterator>[ Peekable::<I>::peek ](p: &'a mut Peekable<I>) -> (r:
    Option<&'a I::Item>)
    ensures
        (*final(p)).obeys_prophetic_iter_laws() == (*old(p)).obeys_prophetic_iter_laws(),
        (*old(p)).obeys_prophetic_iter_laws() ==> {
            &&& (*final(p)).remaining() == (*old(p)).remaining()
            &&& r == if (*old(p)).remaining().len() > 0 {
                Some(&(*old(p)).remaining()[0])
            } else {
                None
            }
        },
;

/// Trusted: `Peekable::next` is an iterator's `next`; nothing is claimed of
/// it beyond what holds of every iterator.
pub assume_specification<I: Iterator>[ <Peekable<I> as Iterator>::next ](
    p: &mut Peekable<I>,
) -> (r: Option<I::Item>)
;

/// How many items at the start of `s` pass the test `p`, one after another.
pub open spec fn gated_run<A>(s: Seq<A>, p: spec_fn(A) -> bool) -> nat
    decreases s.len(),
{
    if s.len() == 0 || !p(s[0]) {
        0
    } else {
        1 + gated_run(s.drop_first(), p)
    }
}

/// The longest stretch at the start of `s` in which every item passes `p`.
pub open spec fn gated_prefix<A>(s: Seq<A>, p: spec_fn(A) -> bool) -> Seq<A> {
    s.take(gated_run(s, p) as int)
}

/// The run at the start of `s` is the longest there is: every item in it
/// passes, the item after it, if there is one, does not; and once `k`
/// items of the run are taken, the rest of the run is the run of what is
/// left, so that after the whole run what is left starts with the first
/// item that does not pass.
pub proof fn lemma_gated_run<A>(s: Seq<A>, p: spec_fn(A) -> bool)
    ensures
        gated_run(s, p) <= s.len(),
        s == gated_prefix(s, p) + s.skip(gated_run(s, p) as int),
        forall|i: int| 0 <= i < gated_run(s, p) ==> p(#[trigger] s[i]),
        gated_run(s, p) < s.len() ==> !p(s[gated_run(s, p) as int]),
        forall|k: int|
            0 <= k <= gated_run(s, p) ==> #[trigger] gated_run(s.skip(k), p) == gated_run(s, p)
                - k,
        forall|k: int|
            0 <= k <= gated_run(s, p) ==> #[trigger] gated_prefix(s.skip(k), p) == gated_prefix(
                s,
                p,
            ).skip(k),
    decreases s.len(),
{
    let n = gated_run(s, p);
    if s.len() == 0 || !p(s[0]) {
        assert(s =~= gated_prefix(s, p) + s.skip(0));
        assert(s.skip(0) =~= s);
        assert(gated_prefix(s, p).skip(0) =~= gated_prefix(s, p));
    } else {
        let t = s.drop_first();
        lemma_gated_run(t, p);
        assert(s =~= gated_prefix(s, p) + s.skip(n as int));
        assert forall|i: int| 0 <= i < n implies p(#[trigger] s[i]) by {
            if i > 0 {
                assert(t[i - 1] == s[i]);
            }
        }
        if n < s.len() {
            assert(t[n - 1] == s[n as int]);
        }
        assert forall|k: int| 0 <= k <= n implies #[trigger] gated_run(s.skip(k), p) == n - k by {
            if k == 0 {
                assert(s.skip(0) =~= s);
            } else {
                assert(s.skip(k) =~= t.skip(k - 1));
            }
        }
        assert forall|k: int| 0 <= k <= n implies #[trigger] gated_prefix(s.skip(k), p)
            == gated_prefix(s, p).skip(k) by {
            assert(gated_run(s.skip(k), p) == n - k);
            assert(s.skip(k).take(n - k) =~= s.take(n as int).skip(k));
        }
    }
}

/// An adapter that takes items from a look-ahead source for as long as
/// they pass a test. It looks before it takes: the first item that does
/// not pass stays in the source, for whoever reads the source next.
#[verifier::reject_recursive_types(U)]
#[verifier::reject_recursive_types(P)]
pub struct TakeWhile<'a, U: Iterator, P> {
    iter: &'a mut Peekable<U>,
    pred: P,
}

impl<'a, U: Iterator, P: Fn(&U::Item) -> bool> TakeWhile<'a, U, P> {
    /// The borrowed source: its value now, and the value that its owner
    /// finds when the adapter is gone.
    pub closed spec fn handle(&self) -> &'a mut Peekable<U> {
        self.iter
    }

    /// The source, as it stands now.
    pub open spec fn source(&self) -> Peekable<U> {
        *self.handle()
    }

    /// The test.
    pub closed spec fn predicate(&self) -> P {
        self.pred
    }

    /// When the adapter is gone, the owner of the source finds it as the
    /// adapter left it.
    pub proof fn lemma_released(self)
        requires
            has_resolved(self),
        ensures
            *final(self.handle()) == self.source(),
    {
    }

    /// Looks at the next item of the source; takes and returns it if it
    /// passes the test. Returns `None`, and takes nothing, if it does not
    /// pass or the source is dry.
    pub fn next(&mut self) -> (r: Option<U::Item>)
        requires
            total(old(self).predicate()),
        ensures
            final(self).predicate() == old(self).predicate(),
            *final(final(self).handle()) == *final(old(self).handle()),
            final(self).source().obeys_prophetic_iter_laws() == old(
                self,
            ).source().obeys_prophetic_iter_laws(),
            old(self).source().obeys_prophetic_iter_laws() ==> {
                let s = old(self).source().remaining();
                let rest = final(self).source().remaining();
                &&& match r {
                    None => rest == s && (s.len() > 0 ==> call_ensures(
                        old(self).predicate(),
                        (&s[0],),
                        false,
                    )),
                    Some(x) => s.len() > 0 && x == s[0] && rest == s.drop_first() && call_ensures(
                        old(self).predicate(),
                        (&s[0],),
                        true,
                    ),
                }
                &&& forall|p: spec_fn(U::Item) -> bool| #[trigger]
                    computes(old(self).predicate(), p) ==> match r {
                        None => gated_run(s, p) == 0,
                        Some(x) => gated_run(s, p) > 0 && x == gated_prefix(s, p)[0]
                            && gated_prefix(rest, p) == gated_prefix(s, p).drop_first(),
                    }
            },
    {
        let ghost s = (*self.iter).remaining();
        let pass = match self.iter.peek() {
            None => false,
            Some(x) => {
                assert(call_requires(self.pred, (x,)));
                (self.pred)(x)
            },
        };
        let r = if pass {
            self.iter.next()
        } else {
            None
        };
        proof {
            if old(self).source().obeys_prophetic_iter_laws() {
                let rest = (*self.iter).remaining();
                assert forall|p: spec_fn(U::Item) -> bool| #[trigger]
                    computes(old(self).predicate(), p) implies match r {
                    None => gated_run(s, p) == 0,
                    Some(x) => gated_run(s, p) > 0 && x == gated_prefix(s, p)[0] && gated_prefix(
                        rest,
                        p,
                    ) == gated_prefix(s, p).drop_first(),
                } by {
                    if pass {
                        assert(p(s[0]));
                        lemma_gated_run(s.drop_first(), p);
                        assert(gated_run(s, p) == 1 + gated_run(s.drop_first(), p));
                        assert(s.drop_first().take(gated_run(s.drop_first(), p) as int)
                            =~= s.take(gated_run(s, p) as int).drop_first());
                    } else if s.len() > 0 {
                        assert(!p(s[0]));
                    }
                }
            }
        }
        r
    }
}

/// Takes items from `iter` while they pass `pred`, and leaves `iter` at
/// the first item that does not: nothing is pulled that is not returned.
pub fn take_while<'a, U, P>(iter: &'a mut Peekable<U>, pred: P) -> (r: TakeWhile<'a, U, P>) where
    U: Iterator,
    P: Fn(&U::Item) -> bool,

    ensures
        r.source() == *old(iter),
        *final(r.handle()) == *final(iter),
        r.predicate() == pred,
{
    TakeWhile { iter, pred }
}

} // verus!
