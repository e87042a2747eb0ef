//! All pairs of items of a slice, one after another.

use vstd::prelude::*;

verus! {

/// The pairs of positions `(i, j)` below `len` with `i + gap <= j`, from
/// `(i, j)` on: first by `i`, then by `j`.
pub open spec fn non_sym_from(len: int, gap: int, i: int, j: int) -> Seq<(int, int)>
    decreases len - i, len - j,
{
    if 0 <= gap && 0 <= i && i + gap <= j < len {
        if j + 1 < len {
            seq![(i, j)].add(non_sym_from(len, gap, i, j + 1))
        } else {
            seq![(i, j)].add(non_sym_from(len, gap, i + 1, i + 1 + gap))
        }
    } else {
        Seq::empty()
    }
}

/// The pairs of positions `(i, j)` below `len` with `i < j`, or with
/// `i <= j` if `reflexive`: first by `i`, then by `j`.
pub open spec fn non_sym_pairs(len: nat, reflexive: bool) -> Seq<(int, int)> {
    let gap: int = if reflexive {
        0
    } else {
        1
    };
    non_sym_from(len as int, gap, 0, gap)
}

/// The pairs of positions `(i, j)` below `len`, without those with
/// `i == j` unless `reflexive`, from `(i, j)` on: first by `i`, then by `j`.
pub open spec fn sym_from(len: int, reflexive: bool, i: int, j: int) -> Seq<(int, int)>
    decreases len - i, len - j,
{
    if 0 <= i < len && 0 <= j < len && (reflexive || i != j) {
        let k = if !reflexive && j + 1 == i {
            j + 2
        } else {
            j + 1
        };
        if k < len {
            seq![(i, j)].add(sym_from(len, reflexive, i, k))
        } else {
            seq![(i, j)].add(sym_from(len, reflexive, i + 1, 0))
        }
    } else {
        Seq::empty()
    }
}

/// The pairs of positions `(i, j)` below `len` with `i != j`, or all of
/// them if `reflexive`: first by `i`, then by `j`.
pub open spec fn sym_pairs(len: nat, reflexive: bool) -> Seq<(int, int)> {
    sym_from(
        len as int,
        reflexive,
        0,
        if reflexive {
            0
        } else {
            1
        },
    )
}

/// Taking the first pair off leaves the pairs from the next position on.
pub proof fn lemma_non_sym_step(len: int, gap: int, i: int, j: int)
    requires
        0 <= gap,
        0 <= i,
        i + gap <= j < len,
    ensures
        non_sym_from(len, gap, i, j).len() > 0,
        non_sym_from(len, gap, i, j)[0] == (i, j),
        non_sym_from(len, gap, i, j).drop_first() == if j + 1 < len {
            non_sym_from(len, gap, i, j + 1)
        } else {
            non_sym_from(len, gap, i + 1, i + 1 + gap)
        },
{
    let rest = if j + 1 < len {
        non_sym_from(len, gap, i, j + 1)
    } else {
        non_sym_from(len, gap, i + 1, i + 1 + gap)
    };
    assert(seq![(i, j)].add(rest).drop_first() =~= rest);
}

/// Taking the first pair off leaves the pairs from the next position on.
pub proof fn lemma_sym_step(len: int, reflexive: bool, i: int, j: int)
    requires
        0 <= i < len,
        0 <= j < len,
        reflexive || i != j,
    ensures
        sym_from(len, reflexive, i, j).len() > 0,
        sym_from(len, reflexive, i, j)[0] == (i, j),
        sym_from(len, reflexive, i, j).drop_first() == {
            let k = if !reflexive && j + 1 == i {
                j + 2
            } else {
                j + 1
            };
            if k < len {
                sym_from(len, reflexive, i, k)
            } else {
                sym_from(len, reflexive, i + 1, 0)
            }
        },
{
    let k = if !reflexive && j + 1 == i {
        j + 2
    } else {
        j + 1
    };
    let rest = if k < len {
        sym_from(len, reflexive, i, k)
    } else {
        sym_from(len, reflexive, i + 1, 0)
    };
    assert(seq![(i, j)].add(rest).drop_first() =~= rest);
}

/// `p` stands before `q` when pairs are ordered by their first position,
/// and by their second where the first is the same.
pub open spec fn pair_before(p: (int, int), q: (int, int)) -> bool {
    p.0 < q.0 || (p.0 == q.0 && p.1 < q.1)
}

/// A pair of positions below `len` whose second lies at least `gap`
/// behind its first.
pub open spec fn non_sym_pair(len: int, gap: int, p: (int, int)) -> bool {
    0 <= p.0 && p.0 + gap <= p.1 < len
}

/// A pair of positions below `len`, of two different positions unless
/// `reflexive`.
pub open spec fn sym_pair(len: int, reflexive: bool, p: (int, int)) -> bool {
    0 <= p.0 < len && 0 <= p.1 < len && (reflexive || p.0 != p.1)
}

/// The pairs from `(i, j)` on are pairs with the gap asked for, none
/// before `(i, j)`; they come in order, so none comes twice; and every
/// such pair from `(i, j)` on is among them.
pub proof fn lemma_non_sym_from(len: int, gap: int, i: int, j: int)
    requires
        0 <= gap,
        0 <= i,
        i + gap <= j,
        j < len || j == i + gap,
    ensures
        forall|k: int|
            0 <= k < non_sym_from(len, gap, i, j).len() ==> {
                let p = #[trigger] non_sym_from(len, gap, i, j)[k];
                non_sym_pair(len, gap, p) && !pair_before(p, (i, j))
            },
        forall|k: int, m: int|
            0 <= k < m < non_sym_from(len, gap, i, j).len() ==> pair_before(
                #[trigger] non_sym_from(len, gap, i, j)[k],
                #[trigger] non_sym_from(len, gap, i, j)[m],
            ),
        forall|p: (int, int)|
            non_sym_pair(len, gap, p) && !pair_before(p, (i, j)) ==> #[trigger] non_sym_from(
                len,
                gap,
                i,
                j,
            ).contains(p),
    decreases len - i, len - j,
{
    let s = non_sym_from(len, gap, i, j);
    if j < len {
        lemma_non_sym_step(len, gap, i, j);
        let (i2, j2) = if j + 1 < len {
            (i, j + 1)
        } else {
            (i + 1, i + 1 + gap)
        };
        let rest = non_sym_from(len, gap, i2, j2);
        lemma_non_sym_from(len, gap, i2, j2);
        assert(rest == s.drop_first());
        assert forall|k: int| 0 <= k < s.len() implies {
            let p = #[trigger] s[k];
            non_sym_pair(len, gap, p) && !pair_before(p, (i, j))
        } by {
            if k > 0 {
                assert(s[k] == rest[k - 1]);
            }
        }
        assert forall|k: int, m: int| 0 <= k < m < s.len() implies pair_before(
            #[trigger] s[k],
            #[trigger] s[m],
        ) by {
            assert(s[m] == rest[m - 1]);
            if k > 0 {
                assert(s[k] == rest[k - 1]);
            }
        }
        assert forall|p: (int, int)|
            non_sym_pair(len, gap, p) && !pair_before(p, (i, j)) implies #[trigger] s.contains(
            p,
        ) by {
            if p == (i, j) {
                assert(s[0] == p);
            } else {
                assert(!pair_before(p, (i2, j2)));
                assert(rest.contains(p));
                let k = choose|k: int| 0 <= k < rest.len() && rest[k] == p;
                assert(s[k + 1] == p);
            }
        }
    }
}

/// The pairs in which the first item stands before the second, or at the
/// same place if `reflexive`: each such pair of positions comes once, and
/// they come ordered by the first position, then by the second.
pub proof fn lemma_non_sym_pairs(len: nat, reflexive: bool)
    ensures
        forall|k: int|
            0 <= k < non_sym_pairs(len, reflexive).len() ==> {
                let p = #[trigger] non_sym_pairs(len, reflexive)[k];
                0 <= p.0 <= p.1 < len && (reflexive || p.0 < p.1)
            },
        forall|k: int, m: int|
            0 <= k < m < non_sym_pairs(len, reflexive).len() ==> pair_before(
                #[trigger] non_sym_pairs(len, reflexive)[k],
                #[trigger] non_sym_pairs(len, reflexive)[m],
            ),
        forall|p: (int, int)|
            0 <= p.0 <= p.1 < len && (reflexive || p.0 < p.1) ==> #[trigger] non_sym_pairs(
                len,
                reflexive,
            ).contains(p),
{
    let gap: int = if reflexive {
        0
    } else {
        1
    };
    lemma_non_sym_from(len as int, gap, 0, gap);
    let s = non_sym_pairs(len, reflexive);
    assert forall|p: (int, int)|
        0 <= p.0 <= p.1 < len && (reflexive || p.0 < p.1) implies #[trigger] s.contains(p) by {
        assert(non_sym_pair(len as int, gap, p));
        assert(!pair_before(p, (0, gap)));
    }
}

/// The pairs from `(i, j)` on are pairs of positions below `len`, none
/// before `(i, j)`; they come in order, so none comes twice; and every
/// such pair from `(i, j)` on is among them.
pub proof fn lemma_sym_from(len: int, reflexive: bool, i: int, j: int)
    requires
        0 <= i,
        0 <= j,
        i < len ==> sym_pair(len, reflexive, (i, j)),
    ensures
        forall|k: int|
            0 <= k < sym_from(len, reflexive, i, j).len() ==> {
                let p = #[trigger] sym_from(len, reflexive, i, j)[k];
                sym_pair(len, reflexive, p) && !pair_before(p, (i, j))
            },
        forall|k: int, m: int|
            0 <= k < m < sym_from(len, reflexive, i, j).len() ==> pair_before(
                #[trigger] sym_from(len, reflexive, i, j)[k],
                #[trigger] sym_from(len, reflexive, i, j)[m],
            ),
        forall|p: (int, int)|
            sym_pair(len, reflexive, p) && !pair_before(p, (i, j)) ==> #[trigger] sym_from(
                len,
                reflexive,
                i,
                j,
            ).contains(p),
    decreases len - i, len - j,
{
    let s = sym_from(len, reflexive, i, j);
    if i < len {
        lemma_sym_step(len, reflexive, i, j);
        let k2 = if !reflexive && j + 1 == i {
            j + 2
        } else {
            j + 1
        };
        let (i2, j2) = if k2 < len {
            (i, k2)
        } else {
            (i + 1, 0int)
        };
        let rest = sym_from(len, reflexive, i2, j2);
        if i2 < len && !(reflexive || i2 != j2) {
            // Without pairing an item with itself, a list of one item
            // never gets here: the first position was within the list.
            assert(i2 == 0 && j2 == 0);
            assert(false);
        }
        lemma_sym_from(len, reflexive, i2, j2);
        assert(rest == s.drop_first());
        assert forall|k: int| 0 <= k < s.len() implies {
            let p = #[trigger] s[k];
            sym_pair(len, reflexive, p) && !pair_before(p, (i, j))
        } by {
            if k > 0 {
                assert(s[k] == rest[k - 1]);
            }
        }
        assert forall|k: int, m: int| 0 <= k < m < s.len() implies pair_before(
            #[trigger] s[k],
            #[trigger] s[m],
        ) by {
            assert(s[m] == rest[m - 1]);
            if k > 0 {
                assert(s[k] == rest[k - 1]);
            }
        }
        assert forall|p: (int, int)|
            sym_pair(len, reflexive, p) && !pair_before(p, (i, j)) implies #[trigger] s.contains(
            p,
        ) by {
            if p == (i, j) {
                assert(s[0] == p);
            } else {
                assert(!pair_before(p, (i2, j2)));
                assert(rest.contains(p));
                let k = choose|k: int| 0 <= k < rest.len() && rest[k] == p;
                assert(s[k + 1] == p);
            }
        }
    }
}

/// The pairs in both orders: each pair of two different positions, and of
/// a position with itself if `reflexive`, comes once, and they come
/// ordered by the first position, then by the second.
pub proof fn lemma_sym_pairs(len: nat, reflexive: bool)
    requires
        reflexive || len != 1,
    ensures
        forall|k: int|
            0 <= k < sym_pairs(len, reflexive).len() ==> sym_pair(
                len as int,
                reflexive,
                #[trigger] sym_pairs(len, reflexive)[k],
            ),
        forall|k: int, m: int|
            0 <= k < m < sym_pairs(len, reflexive).len() ==> pair_before(
                #[trigger] sym_pairs(len, reflexive)[k],
                #[trigger] sym_pairs(len, reflexive)[m],
            ),
        forall|p: (int, int)|
            sym_pair(len as int, reflexive, p) ==> #[trigger] sym_pairs(len, reflexive).contains(p),
{
    let start: int = if reflexive {
        0
    } else {
        1
    };
    lemma_sym_from(len as int, reflexive, 0, start);
    let s = sym_pairs(len, reflexive);
    assert forall|p: (int, int)| sym_pair(len as int, reflexive, p) implies #[trigger] s.contains(
        p,
    ) by {
        assert(!pair_before(p, (0, start)));
    }
}

/// A walk over the pairs of items of a slice in which the first item
/// stands before the second, or at the same place.
pub struct NonSymPairs<'a, T> {
    list: &'a [T],
    pos_init: usize,
    fp: usize,
    sp: usize,
}

impl<'a, T> NonSymPairs<'a, T> {
    /// The second position lies `sp` places behind the first, and within
    /// the slice as long as the first has somewhere to go.
    pub closed spec fn wf(&self) -> bool {
        &&& self.pos_init <= 1
        &&& self.pos_init <= self.sp
        &&& self.fp + self.pos_init < self.list@.len() ==> self.fp + self.sp < self.list@.len()
    }

    /// The slice.
    pub closed spec fn items(&self) -> Seq<T> {
        self.list@
    }

    /// The positions of the pairs still to come.
    pub closed spec fn upcoming(&self) -> Seq<(int, int)> {
        non_sym_from(
            self.list@.len() as int,
            self.pos_init as int,
            self.fp as int,
            self.fp + self.sp,
        )
    }

    /// The next pair, or `None` when all pairs have been given.
    pub fn next(&mut self) -> (r: Option<(&'a T, &'a T)>)
        requires
            old(self).wf(),
        ensures
            final(self).wf(),
            final(self).items() == old(self).items(),
            match r {
                None => old(self).upcoming().len() == 0 && final(self).upcoming().len() == 0,
                Some((x, y)) => {
                    let (i, j) = old(self).upcoming()[0];
                    &&& old(self).upcoming().len() > 0
                    &&& 0 <= i <= j < old(self).items().len()
                    &&& *x == old(self).items()[i]
                    &&& *y == old(self).items()[j]
                    &&& final(self).upcoming() == old(self).upcoming().drop_first()
                },
            },
    {
        let len = self.list.len();
        if len < self.pos_init || len - self.pos_init <= self.fp {
            return None;
        }
        proof {
            lemma_non_sym_step(len as int, self.pos_init as int, self.fp as int, self.fp + self.sp);
        }
        let list: &'a [T] = self.list;
        let res = (&list[self.fp], &list[self.fp + self.sp]);
        self.sp += 1;
        if self.sp + self.fp >= len {
            self.fp += 1;
            self.sp = self.pos_init;
        }
        Some(res)
    }
}

/// All pairs of items of `list` in which the first stands before the
/// second: the first item with each that follows it, then the second with
/// each that follows it, and so on. If `reflexive`, each item is also
/// paired with itself, before it is paired with those that follow it.
pub fn twos_perm_non_sym<T>(list: &[T], reflexive: bool) -> (r: NonSymPairs<'_, T>)
    ensures
        r.wf(),
        r.items() == list@,
        r.upcoming() == non_sym_pairs(list@.len(), reflexive),
{
    let pos_init: usize = if reflexive {
        0
    } else {
        1
    };
    NonSymPairs { list, pos_init, fp: 0, sp: pos_init }
}

/// A walk over the pairs of items of a slice, in both orders.
pub struct SymPairs<'a, T> {
    list: &'a [T],
    reflexive: bool,
    fp: usize,
    sp: usize,
}

impl<'a, T> SymPairs<'a, T> {
    /// As long as the first position lies within the slice, the second
    /// does too, and differs from it unless items are paired with
    /// themselves.
    pub closed spec fn wf(&self) -> bool {
        self.fp < self.list@.len() ==> self.sp < self.list@.len() && (self.reflexive || self.sp
            != self.fp)
    }

    /// The slice.
    pub closed spec fn items(&self) -> Seq<T> {
        self.list@
    }

    /// The positions of the pairs still to come.
    pub closed spec fn upcoming(&self) -> Seq<(int, int)> {
        sym_from(self.list@.len() as int, self.reflexive, self.fp as int, self.sp as int)
    }

    /// The next pair, or `None` when all pairs have been given.
    pub fn next(&mut self) -> (r: Option<(&'a T, &'a T)>)
        requires
            old(self).wf(),
        ensures
            final(self).wf(),
            final(self).items() == old(self).items(),
            match r {
                None => old(self).upcoming().len() == 0 && final(self).upcoming().len() == 0,
                Some((x, y)) => {
                    let (i, j) = old(self).upcoming()[0];
                    &&& old(self).upcoming().len() > 0
                    &&& 0 <= i < old(self).items().len()
                    &&& 0 <= j < old(self).items().len()
                    &&& *x == old(self).items()[i]
                    &&& *y == old(self).items()[j]
                    &&& final(self).upcoming() == old(self).upcoming().drop_first()
                },
            },
    {
        let len = self.list.len();
        if self.fp >= len {
            return None;
        }
        proof {
            lemma_sym_step(len as int, self.reflexive, self.fp as int, self.sp as int);
        }
        let list: &'a [T] = self.list;
        let res = (&list[self.fp], &list[self.sp]);
        self.sp += 1;
        if !self.reflexive && self.sp == self.fp {
            self.sp += 1;
        }
        if self.sp >= len {
            self.fp += 1;
            self.sp = 0;
        }
        Some(res)
    }
}

/// All pairs of items of `list`, in both orders: the first item with each
/// of the others, then the second with each of the others, and so on. If
/// `reflexive`, each item is also paired with itself.
///
/// A slice of one item has no pair of different items to start from: it
/// is left out unless `reflexive`.
pub fn twos_perm_sym<T>(list: &[T], reflexive: bool) -> (r: SymPairs<'_, T>)
    requires
        reflexive || list@.len() != 1,
    ensures
        r.wf(),
        r.items() == list@,
        r.upcoming() == sym_pairs(list@.len(), reflexive),
{
    let sp: usize = if reflexive {
        0
    } else {
        1
    };
    SymPairs { list, reflexive, fp: 0, sp }
}

} // verus!
