//! A rolling frame of the last `N` items of a source, padded at both ends.

use vstd::prelude::*;
use vstd::std_specs::iter::IteratorSpec;

verus! {

/// The frame after one step: the oldest slot leaves, `x` enters at the end.
pub open spec fn slide<U>(frame: Seq<Option<U>>, x: Option<U>) -> Seq<Option<U>> {
    frame.drop_first().push(x)
}

/// A frame of `n` missing slots.
pub open spec fn blank<U>(n: nat) -> Seq<Option<U>> {
    Seq::new(n, |i: int| None)
}

/// The frames that are still to come from a window that holds `frame`, has
/// padded `pads` times since its source ran dry, and whose source is still
/// going to yield `rem`.
pub open spec fn windows_from<U>(frame: Seq<Option<U>>, pads: nat, rem: Seq<U>) -> Seq<
    Seq<Option<U>>,
>
    decreases rem.len(), frame.len() - pads,
{
    if rem.len() > 0 {
        let f = slide(frame, Some(rem[0]));
        seq![f].add(windows_from(f, pads, rem.drop_first()))
    } else if pads + 1 < frame.len() {
        let f = slide(frame, None);
        seq![f].add(windows_from(f, pads + 1, rem))
    } else {
        Seq::empty()
    }
}

/// All frames of width `n` over `s`, from the first, which holds `s[0]` in
/// its last slot, to the last, which holds the last item of `s` in its first.
pub open spec fn windows_of<U>(s: Seq<U>, n: nat) -> Seq<Seq<Option<U>>> {
    windows_from(blank(n), 0, s)
}

/// The item of `s` at `k`, or missing where `k` lies outside `s`.
pub open spec fn slot_at<U>(s: Seq<U>, k: int) -> Option<U> {
    if 0 <= k < s.len() {
        Some(s[k])
    } else {
        None
    }
}

/// The `i`-th frame of width `n` over `s`: it ends at `s[i]`.
pub open spec fn window_at<U>(s: Seq<U>, n: nat, i: int) -> Seq<Option<U>> {
    Seq::new(n, |j: int| slot_at(s, i + j - (n - 1)))
}

/// What a frame-and-source pair holds at position `m`, counted from the
/// oldest slot of the frame and running on into the source and the padding.
pub open spec fn stream_at<U>(frame: Seq<Option<U>>, rem: Seq<U>, m: int) -> Option<U> {
    if m < frame.len() {
        frame[m]
    } else {
        slot_at(rem, m - frame.len())
    }
}

/// Taking the first frame off leaves the frames of the state after one step.
pub proof fn lemma_windows_step<U>(frame: Seq<Option<U>>, pads: nat, rem: Seq<U>)
    ensures
        rem.len() > 0 ==> {
            let f = slide(frame, Some(rem[0]));
            &&& windows_from(frame, pads, rem).len() > 0
            &&& windows_from(frame, pads, rem)[0] == f
            &&& windows_from(frame, pads, rem).drop_first() == windows_from(
                f,
                pads,
                rem.drop_first(),
            )
        },
        rem.len() == 0 && pads + 1 < frame.len() ==> {
            let f = slide(frame, None);
            &&& windows_from(frame, pads, rem).len() > 0
            &&& windows_from(frame, pads, rem)[0] == f
            &&& windows_from(frame, pads, rem).drop_first() == windows_from(f, pads + 1, rem)
        },
        rem.len() == 0 && pads + 1 >= frame.len() ==> windows_from(frame, pads, rem).len() == 0,
{
    if rem.len() > 0 {
        let f = slide(frame, Some(rem[0]));
        let rest = windows_from(f, pads, rem.drop_first());
        assert(seq![f].add(rest).drop_first() =~= rest);
    } else if pads + 1 < frame.len() {
        let f = slide(frame, None);
        let rest = windows_from(f, pads + 1, rem);
        assert(seq![f].add(rest).drop_first() =~= rest);
    }
}

/// The frames still to come, one by one: the `k`-th is the stretch of
/// frame, source and padding that starts `k + 1` slots in.
pub proof fn lemma_windows_from_closed<U>(frame: Seq<Option<U>>, pads: nat, rem: Seq<U>)
    requires
        frame.len() > 0,
        pads < frame.len(),
    ensures
        windows_from(frame, pads, rem) == Seq::new(
            (rem.len() + frame.len() - 1 - pads) as nat,
            |k: int| Seq::new(frame.len(), |j: int| stream_at(frame, rem, k + 1 + j)),
        ),
    decreases rem.len(), frame.len() - pads,
{
    let n = frame.len();
    let ws = windows_from(frame, pads, rem);
    let want = Seq::new(
        (rem.len() + n - 1 - pads) as nat,
        |k: int| Seq::new(n, |j: int| stream_at(frame, rem, k + 1 + j)),
    );
    lemma_windows_step(frame, pads, rem);
    if rem.len() > 0 || pads + 1 < n {
        let (f, p, r) = if rem.len() > 0 {
            (slide(frame, Some(rem[0])), pads, rem.drop_first())
        } else {
            (slide(frame, None), (pads + 1) as nat, rem)
        };
        lemma_windows_from_closed(f, p, r);
        let rest = windows_from(f, p, r);
        assert(ws == seq![f].add(rest));
        assert(ws.len() == want.len());
        assert forall|m: int| 0 <= m implies stream_at(f, r, m) == stream_at(frame, rem, m + 1) by {
            if m + 1 < n {
                assert(f[m] == frame[m + 1]);
            } else if m + 1 == n {
            } else {
            }
        }
        assert forall|k: int| 0 <= k < ws.len() implies ws[k] == want[k] by {
            if k == 0 {
                assert(f =~= want[0]);
            } else {
                assert(ws[k] == rest[k - 1]);
                assert(rest[k - 1] =~= want[k]);
            }
        }
        assert(ws =~= want);
    } else {
        assert(ws =~= want);
    }
}

/// The frames of width `n` over `s`: there are `len(s) + n - 1` of them,
/// each `n` slots wide; the `i`-th ends at `s[i]`, or at a missing slot
/// once `s` is used up; and each is the one before it moved left by one
/// slot, with one new slot at the end. Over an empty `s` that leaves
/// `n - 1` frames of missing slots: none for a frame of one slot.
pub proof fn lemma_windows_of<U>(s: Seq<U>, n: nat)
    requires
        n > 0,
    ensures
        windows_of(s, n).len() == s.len() + n - 1,
        forall|i: int|
            0 <= i < windows_of(s, n).len() ==> #[trigger] windows_of(s, n)[i] == window_at(
                s,
                n,
                i,
            ),
        forall|i: int|
            0 <= i < windows_of(s, n).len() ==> (#[trigger] windows_of(s, n)[i]).len() == n
                && windows_of(s, n)[i][n - 1] == slot_at(s, i),
        forall|i: int|
            0 < i < windows_of(s, n).len() ==> #[trigger] windows_of(s, n)[i] == slide(
                windows_of(s, n)[i - 1],
                slot_at(s, i),
            ),
        windows_of(s, n).len() > 0 ==> windows_of(s, n)[0] == slide(blank(n), slot_at(s, 0)),
        s.len() == 0 ==> forall|i: int|
            0 <= i < windows_of(s, n).len() ==> #[trigger] windows_of(s, n)[i] == blank::<U>(n),
{
    let ws = windows_of(s, n);
    lemma_windows_from_closed(blank::<U>(n), 0, s);
    assert forall|i: int| 0 <= i < ws.len() implies #[trigger] ws[i] == window_at(s, n, i) by {
        assert(ws[i] =~= window_at(s, n, i));
    }
    assert forall|i: int| 0 < i < ws.len() implies #[trigger] ws[i] == slide(
        ws[i - 1],
        slot_at(s, i),
    ) by {
        assert(ws[i] =~= slide(ws[i - 1], slot_at(s, i)));
    }
    if ws.len() > 0 {
        assert(ws[0] =~= slide(blank(n), slot_at(s, 0)));
    }
    if s.len() == 0 {
        assert forall|i: int| 0 <= i < ws.len() implies #[trigger] ws[i] == blank::<U>(n) by {
            assert(ws[i] =~= blank::<U>(n));
        }
    }
}

/// `dst` holds a copy of `src`: the same slots are missing, and each
/// present item is a clone of the item in its place.
pub open spec fn copy_of<U: Clone>(src: Seq<Option<U>>, dst: Seq<Option<U>>) -> bool {
    &&& dst.len() == src.len()
    &&& forall|i: int|
        0 <= i < src.len() ==> match (#[trigger] src[i], dst[i]) {
            (None, None) => true,
            (Some(x), Some(y)) => cloned::<U>(x, y),
            _ => false,
        }
}

/// A missing slot, whatever the position asked for.
pub fn none_slot<T>(_i: usize) -> (r: Option<T>)
    ensures
        r is None,
{
    None
}

/// An array of `N` missing slots.
///
/// Trusted: the array is built by `core::array::from_fn`, which fills
/// position `i` with what the function it is given returns for `i`. The
/// function given is `none_slot`, so every slot is missing.
#[verifier::external_body]
pub fn init_empty_array<T, const N: usize>() -> (r: [Option<T>; N])
    ensures
        r@ == blank::<T>(N as nat),
{
    core::array::from_fn(none_slot)
}

/// An adapter that yields, for each item of its source, the frame of the
/// last `N` items, and then `N - 1` more frames as the last items leave.
#[verifier::reject_recursive_types(T)]
#[verifier::reject_recursive_types(U)]
pub struct Windows<const N: usize, T, U> {
    iter: T,
    buf: [Option<U>; N],
    end_steps: usize,
}

impl<const N: usize, T, U> Windows<N, T, U> where T: Iterator<Item = U>, U: Clone {
    /// The frame has at least one slot, and padding has not gone past `N - 1`.
    pub closed spec fn wf(&self) -> bool {
        &&& N > 0
        &&& self.end_steps < N
    }

    /// The wrapped source, as it stands now.
    pub closed spec fn source(&self) -> T {
        self.iter
    }

    /// The frame, oldest slot first.
    pub closed spec fn frame(&self) -> Seq<Option<U>> {
        self.buf@
    }

    /// How many missing slots were pushed in since the source ran dry.
    pub closed spec fn pads(&self) -> nat {
        self.end_steps as nat
    }

    /// The frames still to come, given that the source is going to yield `rem`.
    pub open spec fn upcoming(&self, rem: Seq<U>) -> Seq<Seq<Option<U>>> {
        windows_from(self.frame(), self.pads(), rem)
    }

    /// Wraps `iter` with an all-missing frame; nothing is pulled yet.
    pub fn new(iter: T) -> (r: Self)
        requires
            N > 0,
        ensures
            r.wf(),
            r.source() == iter,
            r.frame() == blank::<U>(N as nat),
            r.pads() == 0,
            forall|rem: Seq<U>| #[trigger] r.upcoming(rem) == windows_of(rem, N as nat),
    {
        Windows { iter, buf: init_empty_array(), end_steps: 0 }
    }

    /// Moves every slot one place to the left; the oldest slot goes to the end.
    fn rotate(&mut self)
        requires
            N > 0,
        ensures
            final(self).iter == old(self).iter,
            final(self).end_steps == old(self).end_steps,
            final(self).buf@ == slide(old(self).buf@, old(self).buf@[0]),
    {
        let first = self.buf[0].take();
        let mut i: usize = 1;
        while i < N
            invariant
                1 <= i <= N,
                self.iter == old(self).iter,
                self.end_steps == old(self).end_steps,
                first == old(self).buf@[0],
                forall|j: int| 0 <= j < i - 1 ==> self.buf@[j] == old(self).buf@[j + 1],
                forall|j: int| i <= j < N ==> self.buf@[j] == old(self).buf@[j],
            decreases N - i,
        {
            let x = self.buf[i].take();
            self.buf[i - 1] = x;
            i += 1;
        }
        self.buf[N - 1] = first;
        assert(self.buf@ =~= slide(old(self).buf@, old(self).buf@[0]));
    }

    /// Takes one step: pulls from the source, moves the frame on, and
    /// writes what was pulled into the last slot. Returns `None`, and
    /// writes nothing, once the source is dry and `N - 1` missing slots
    /// have been pushed in after it.
    fn advance(&mut self) -> (r: Option<()>)
        requires
            old(self).wf(),
        ensures
            final(self).wf(),
            final(self).source().obeys_prophetic_iter_laws() == old(
                self,
            ).source().obeys_prophetic_iter_laws(),
            old(self).source().obeys_prophetic_iter_laws() ==> {
                let s = old(self).source().remaining();
                let rest = final(self).source().remaining();
                let ws = old(self).upcoming(s);
                match r {
                    None => {
                        &&& ws.len() == 0
                        &&& s.len() == 0
                        &&& rest == s
                        &&& final(self).pads() == old(self).pads()
                        &&& final(self).frame() == slide(old(self).frame(), old(self).frame()[0])
                        &&& final(self).upcoming(rest).len() == 0
                    },
                    Some(_) => {
                        &&& ws.len() > 0
                        &&& final(self).frame() == ws[0]
                        &&& final(self).frame() == slide(old(self).frame(), slot_at(s, 0))
                        &&& rest == if s.len() > 0 {
                            s.drop_first()
                        } else {
                            s
                        }
                        &&& final(self).pads() == if s.len() > 0 {
                            old(self).pads()
                        } else {
                            old(self).pads() + 1
                        }
                        &&& final(self).upcoming(rest) == ws.drop_first()
                    },
                }
            },
    {
        let ghost s = self.iter.remaining();
        let ghost frame = self.buf@;
        proof {
            lemma_windows_step(frame, self.end_steps as nat, s);
        }
        let next = self.iter.next();
        self.rotate();
        if next.is_none() {
            if self.end_steps >= N - 1 {
                proof {
                    if old(self).iter.obeys_prophetic_iter_laws() {
                        lemma_windows_step(self.buf@, self.end_steps as nat, s);
                    }
                }
                return None;
            }
            self.end_steps += 1;
        }
        self.buf[N - 1] = next;
        assert(self.buf@ =~= slide(frame, next));
        Some(())
    }

    /// The next frame: a copy of the frame after one step, or `None` once
    /// the last item of the source has left the frame.
    ///
    /// For a source that keeps the iterator laws, the result is a copy of
    /// the first of the frames that were still to come.
    pub fn next(&mut self) -> (r: Option<[Option<U>; N]>)
        requires
            old(self).wf(),
        ensures
            final(self).wf(),
            final(self).source().obeys_prophetic_iter_laws() == old(
                self,
            ).source().obeys_prophetic_iter_laws(),
            old(self).source().obeys_prophetic_iter_laws() ==> {
                let s = old(self).source().remaining();
                let rest = final(self).source().remaining();
                let ws = old(self).upcoming(s);
                match r {
                    None => {
                        &&& ws.len() == 0
                        &&& s.len() == 0
                        &&& rest == s
                        &&& final(self).pads() == old(self).pads()
                        &&& final(self).frame() == slide(old(self).frame(), old(self).frame()[0])
                        &&& final(self).upcoming(rest).len() == 0
                    },
                    Some(w) => {
                        &&& ws.len() > 0
                        &&& copy_of(ws[0], w@)
                        &&& final(self).frame() == ws[0]
                        &&& final(self).frame() == slide(old(self).frame(), slot_at(s, 0))
                        &&& rest == if s.len() > 0 {
                            s.drop_first()
                        } else {
                            s
                        }
                        &&& final(self).pads() == if s.len() > 0 {
                            old(self).pads()
                        } else {
                            old(self).pads() + 1
                        }
                        &&& final(self).upcoming(rest) == ws.drop_first()
                    },
                }
            },
    {
        match self.advance() {
            None => None,
            Some(_) => {
                let w = self.buf.clone();
                assert(copy_of(self.buf@, w@));
                Some(w)
            },
        }
    }
}

} // verus!
