//! Grouping a source into batches of a fixed size.

use vstd::prelude::*;
use vstd::std_specs::iter::IteratorSpec;

verus! {

/// Length of the first batch cut from `s`: `size`, or all of `s` if it is shorter.
pub open spec fn chunk_len<U>(s: Seq<U>, size: nat) -> nat {
    if s.len() < size {
        s.len()
    } else {
        size
    }
}

/// The batches that `s` falls into when it is cut every `size` items.
pub open spec fn chunks_of<U>(s: Seq<U>, size: nat) -> Seq<Seq<U>>
    decreases s.len(),
{
    if s.len() == 0 || size == 0 {
        Seq::empty()
    } else {
        let n = chunk_len(s, size) as int;
        seq![s.take(n)].add(chunks_of(s.skip(n), size))
    }
}

/// Number of batches of `size` that `len` items fall into.
pub open spec fn chunk_count(len: nat, size: nat) -> nat {
    if size == 0 {
        0
    } else {
        ((len + size - 1) / (size as int)) as nat
    }
}

/// Cutting off the first batch leaves the batches of the rest.
pub proof fn lemma_chunks_step<U>(s: Seq<U>, size: nat)
    requires
        size > 0,
    ensures
        s.len() == 0 ==> chunks_of(s, size).len() == 0,
        s.len() > 0 ==> {
            let n = chunk_len(s, size) as int;
            &&& chunks_of(s, size).len() > 0
            &&& chunks_of(s, size)[0] == s.take(n)
            &&& chunks_of(s, size).drop_first() == chunks_of(s.skip(n), size)
        },
{
    if s.len() > 0 {
        let n = chunk_len(s, size) as int;
        let rest = chunks_of(s.skip(n), size);
        assert(seq![s.take(n)].add(rest).drop_first() =~= rest);
    }
}

/// The batches, put end to end in order, give back the sequence they were cut from.
pub proof fn lemma_chunks_concat<U>(s: Seq<U>, size: nat)
    requires
        size > 0,
    ensures
        chunks_of(s, size).flatten() == s,
    decreases s.len(),
{
    if s.len() == 0 {
        assert(chunks_of(s, size).flatten() =~= s);
    } else {
        let n = chunk_len(s, size) as int;
        let cs = chunks_of(s, size);
        lemma_chunks_step(s, size);
        lemma_chunks_concat(s.skip(n), size);
        assert(cs.flatten() == cs.first().add(cs.drop_first().flatten()));
        assert(s.take(n).add(s.skip(n)) =~= s);
    }
}

/// How many batches there are, and how long each one is: every batch but
/// the last holds `size` items, the last holds between one and `size`.
pub proof fn lemma_chunks_lengths<U>(s: Seq<U>, size: nat)
    requires
        size > 0,
    ensures
        chunks_of(s, size).len() == chunk_count(s.len(), size),
        s.len() == 0 <==> chunks_of(s, size).len() == 0,
        forall|i: int|
            0 <= i < chunks_of(s, size).len() ==> 1 <= (#[trigger] chunks_of(s, size)[i]).len()
                <= size,
        forall|i: int|
            0 <= i < chunks_of(s, size).len() - 1 ==> (#[trigger] chunks_of(s, size)[i]).len()
                == size,
    decreases s.len(),
{
    if s.len() == 0 {
        assert((size - 1) / (size as int) == 0) by (nonlinear_arith)
            requires
                size > 0,
        ;
    } else {
        let n = chunk_len(s, size) as int;
        let cs = chunks_of(s, size);
        let rest = chunks_of(s.skip(n), size);
        lemma_chunks_step(s, size);
        lemma_chunks_lengths(s.skip(n), size);
        assert(cs.len() == rest.len() + 1);
        assert forall|i: int| 0 <= i < cs.len() implies 1 <= (#[trigger] cs[i]).len() <= size by {
            if i > 0 {
                assert(cs[i] == rest[i - 1]);
            }
        }
        assert forall|i: int| 0 <= i < cs.len() - 1 implies (#[trigger] cs[i]).len() == size by {
            if i > 0 {
                assert(cs[i] == rest[i - 1]);
            } else {
                assert(rest.len() > 0);
                assert(s.skip(n).len() > 0);
            }
        }
        let len = s.len() as int;
        let sz = size as int;
        if len <= sz {
            assert(s.skip(n).len() == 0);
            assert((len + sz - 1) / sz == 1) by (nonlinear_arith)
                requires
                    0 < len <= sz,
            ;
        } else {
            assert(s.skip(n).len() == len - sz);
            assert((len + sz - 1) / sz == (len - sz + sz - 1) / sz + 1) by (nonlinear_arith)
                requires
                    0 < sz < len,
            ;
        }
    }
}

/// The `i`-th batch is the stretch of `s` that starts at `i * size`.
pub proof fn lemma_chunk_at<U>(s: Seq<U>, size: nat, i: int)
    requires
        size > 0,
        0 <= i < chunks_of(s, size).len(),
    ensures
        i * size < s.len(),
        chunks_of(s, size)[i] == s.subrange(
            i * size,
            if (i + 1) * size < s.len() {
                (i + 1) * size
            } else {
                s.len() as int
            },
        ),
    decreases i,
{
    let n = chunk_len(s, size) as int;
    lemma_chunks_step(s, size);
    lemma_chunks_lengths(s, size);
    if i == 0 {
        assert(s.take(n) =~= s.subrange(0, n));
    } else {
        let t = s.skip(n);
        let rest = chunks_of(t, size);
        assert(chunks_of(s, size)[i] == rest[i - 1]);
        assert(n == size);
        lemma_chunk_at(t, size, i - 1);
        assert((i - 1) * size + size == i * size) by (nonlinear_arith);
        assert(i * size + size == (i + 1) * size) by (nonlinear_arith);
        let hi = if i * size < t.len() {
            i * size
        } else {
            t.len() as int
        };
        assert(t.subrange((i - 1) * size, hi) =~= s.subrange(
            i * size,
            if (i + 1) * size < s.len() {
                (i + 1) * size
            } else {
                s.len() as int
            },
        ));
    }
}

/// An adapter that hands out the items of a source in batches of `size`.
#[verifier::reject_recursive_types(T)]
#[verifier::reject_recursive_types(U)]
pub struct Chunked<T, U> where T: Iterator<Item = U> {
    iter: T,
    size: usize,
}

impl<T, U> Chunked<T, U> where T: Iterator<Item = U> {
    /// The batch size is positive.
    pub closed spec fn wf(&self) -> bool {
        self.size > 0
    }

    /// The wrapped source, as it stands now.
    pub closed spec fn source(&self) -> T {
        self.iter
    }

    /// The batch size.
    pub closed spec fn size(&self) -> nat {
        self.size as nat
    }

    /// Wraps `iter`; nothing is pulled yet.
    pub fn new(iter: T, size: usize) -> (r: Self)
        requires
            size > 0,
        ensures
            r.wf(),
            r.source() == iter,
            r.size() == size,
    {
        Chunked { iter, size }
    }

    /// Pulls from the source until a batch is full or the source has run
    /// dry, and returns the batch. Returns `None` once nothing is left.
    ///
    /// For a source that keeps the iterator laws, the result is the first
    /// of the batches of what the source still had to yield, and the
    /// source is left at the start of the next batch.
    pub fn next(&mut self) -> (r: Option<Vec<U>>)
        requires
            old(self).wf(),
        ensures
            final(self).wf(),
            final(self).size() == old(self).size(),
            final(self).source().obeys_prophetic_iter_laws() == old(
                self,
            ).source().obeys_prophetic_iter_laws(),
            r matches Some(c) ==> 1 <= c@.len() <= old(self).size(),
            old(self).source().obeys_prophetic_iter_laws() ==> {
                let s = old(self).source().remaining();
                let n = chunk_len(s, old(self).size()) as int;
                let rest = final(self).source().remaining();
                let cs = chunks_of(s, old(self).size());
                &&& rest == s.skip(n)
                &&& match r {
                    None => s.len() == 0 && cs.len() == 0,
                    Some(c) => {
                        &&& s.len() > 0
                        &&& c@ == s.take(n)
                        &&& cs.len() > 0
                        &&& c@ == cs[0]
                        &&& chunks_of(rest, old(self).size()) == cs.drop_first()
                    },
                }
            },
    {
        let mut buf: Vec<U> = Vec::new();
        let ghost s = self.iter.remaining();
        proof {
            lemma_chunks_step(s, self.size as nat);
        }
        loop
            invariant
                self.size == old(self).size,
                self.size > 0,
                buf@.len() < self.size,
                self.iter.obeys_prophetic_iter_laws() == old(self).iter.obeys_prophetic_iter_laws(),
                s == old(self).iter.remaining(),
                self.iter.obeys_prophetic_iter_laws() ==> {
                    &&& buf@.len() <= s.len()
                    &&& buf@ == s.take(buf@.len() as int)
                    &&& self.iter.remaining() == s.skip(buf@.len() as int)
                },
            decreases self.size - buf@.len(),
        {
            match self.iter.next() {
                None => {
                    if buf.len() == 0 {
                        proof {
                            if self.iter.obeys_prophetic_iter_laws() {
                                assert(s.skip(0) =~= s);
                            }
                        }
                        return None;
                    }
                    return Some(buf);
                },
                Some(x) => {
                    buf.push(x);
                    if buf.len() >= self.size {
                        return Some(buf);
                    }
                },
            }
        }
    }
}

} // verus!
