//! Chainable combinators on any iterator.

pub mod char_subs;
pub mod chunked;
pub mod merge;
pub mod merge_laws;
pub mod take_while;
pub mod windows;

pub use take_while::take_while;

use self::chunked::Chunked;
use self::windows::blank;
use self::windows::windows_of;
use self::windows::Windows;
use vstd::prelude::*;
use vstd::std_specs::iter::IteratorSpec;

verus! {

/// How many items `advance` takes when asked for `n` of a source that is
/// still going to yield `len`.
pub open spec fn advance_len(len: nat, n: nat) -> nat {
    if len < n {
        len
    } else {
        n
    }
}

/// The combinators, as methods on every iterator.
pub trait IterExt<U: Clone>: Iterator<Item = U> + Sized {
    /// Groups the items into batches of `size`; the last batch may be shorter.
    fn chunked(self, size: usize) -> (r: Chunked<Self, U>)
        requires
            size > 0,
        ensures
            r.wf(),
            r.source() == self,
            r.size() == size,
    {
        Chunked::new(self, size)
    }

    /// Slides a frame of `N` slots over the items.
    fn windows<const N: usize>(self) -> (r: Windows<N, Self, U>)
        requires
            N > 0,
        ensures
            r.wf(),
            r.source() == self,
            r.frame() == blank::<U>(N as nat),
            r.pads() == 0,
            forall|rem: Seq<U>| #[trigger] r.upcoming(rem) == windows_of(rem, N as nat),
    {
        Windows::new(self)
    }

    /// Pulls up to `n` items and drops them. Returns how many were pulled:
    /// `n`, or fewer if `None` came first.
    ///
    /// For an iterator that keeps the iterator laws, that is `n` or all
    /// that was left, whichever is less, and the iterator then stands
    /// behind the last item pulled.
    fn advance(&mut self, n: usize) -> (c: usize)
        ensures
            c <= n,
            (*final(self)).obeys_prophetic_iter_laws() == (*old(self)).obeys_prophetic_iter_laws(),
            (*old(self)).obeys_prophetic_iter_laws() ==> {
                &&& c == advance_len((*old(self)).remaining().len(), n as nat)
                &&& (*final(self)).remaining() == (*old(self)).remaining().skip(c as int)
            },
    {
        let mut c: usize = 0;
        while c < n
            invariant_except_break
                c <= n,
                (*self).obeys_prophetic_iter_laws() == (*old(self)).obeys_prophetic_iter_laws(),
                (*old(self)).obeys_prophetic_iter_laws() ==> {
                    &&& c <= (*old(self)).remaining().len()
                    &&& (*self).remaining() == (*old(self)).remaining().skip(c as int)
                },
            ensures
                c <= n,
                (*self).obeys_prophetic_iter_laws() == (*old(self)).obeys_prophetic_iter_laws(),
                (*old(self)).obeys_prophetic_iter_laws() ==> {
                    &&& c == advance_len((*old(self)).remaining().len(), n as nat)
                    &&& (*self).remaining() == (*old(self)).remaining().skip(c as int)
                },
            decreases n - c,
        {
            if self.next().is_none() {
                break ;
            }
            c += 1;
        }
        c
    }
}

impl<T, U> IterExt<U> for T where T: Iterator<Item = U> + Sized, U: Clone {

}

} // verus!
