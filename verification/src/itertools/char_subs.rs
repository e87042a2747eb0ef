//! The characters of a string, each as a string slice of its own.

use vstd::prelude::*;
use vstd::string::StrSliceExecFns;

verus! {

/// A walk over the characters of a string, from either end, that hands
/// out each character as the piece of the string that holds it.
pub struct CharSubs<'a> {
    s: &'a str,
    front: usize,
    back: usize,
}

impl<'a> CharSubs<'a> {
    /// The two ends lie within the string, the front end not behind the
    /// back end.
    pub closed spec fn wf(&self) -> bool {
        self.front <= self.back <= self.s@.len()
    }

    /// The string that is walked over.
    pub closed spec fn text(&self) -> Seq<char> {
        self.s@
    }

    /// The characters that have not been handed out yet.
    pub closed spec fn remaining(&self) -> Seq<char> {
        self.s@.subrange(self.front as int, self.back as int)
    }

    /// A walk over all of `s`.
    pub fn new(s: &'a str) -> (r: Self)
        ensures
            r.wf(),
            r.text() == s@,
            r.remaining() == s@,
    {
        let back = s.unicode_len();
        proof {
            assert(s@.subrange(0, back as int) =~= s@);
        }
        CharSubs { s, front: 0, back }
    }

    /// The first character not handed out yet, or `None` if there is none.
    pub fn next(&mut self) -> (r: Option<&'a str>)
        requires
            old(self).wf(),
        ensures
            final(self).wf(),
            final(self).text() == old(self).text(),
            match r {
                None => old(self).remaining().len() == 0 && final(self).remaining() == old(
                    self,
                ).remaining(),
                Some(x) => {
                    &&& old(self).remaining().len() > 0
                    &&& x@ == seq![old(self).remaining().first()]
                    &&& final(self).remaining() == old(self).remaining().drop_first()
                },
            },
    {
        if self.front >= self.back {
            return None;
        }
        let s: &'a str = self.s;
        let x = s.substring_char(self.front, self.front + 1);
        proof {
            assert(x@ =~= seq![self.remaining().first()]);
            assert(s@.subrange(self.front + 1, self.back as int)
                =~= self.remaining().drop_first());
        }
        self.front += 1;
        Some(x)
    }

    /// The last character not handed out yet, or `None` if there is none.
    pub fn next_back(&mut self) -> (r: Option<&'a str>)
        requires
            old(self).wf(),
        ensures
            final(self).wf(),
            final(self).text() == old(self).text(),
            match r {
                None => old(self).remaining().len() == 0 && final(self).remaining() == old(
                    self,
                ).remaining(),
                Some(x) => {
                    &&& old(self).remaining().len() > 0
                    &&& x@ == seq![old(self).remaining().last()]
                    &&& final(self).remaining() == old(self).remaining().drop_last()
                },
            },
    {
        if self.front >= self.back {
            return None;
        }
        let s: &'a str = self.s;
        let x = s.substring_char(self.back - 1, self.back);
        proof {
            assert(x@ =~= seq![self.remaining().last()]);
            assert(s@.subrange(self.front as int, self.back - 1)
                =~= self.remaining().drop_last());
        }
        self.back -= 1;
        Some(x)
    }

    /// How many characters are still to come: the lower and the upper
    /// bound are both exact.
    pub fn size_hint(&self) -> (r: (usize, Option<usize>))
        requires
            self.wf(),
        ensures
            r.0 == self.remaining().len(),
            r.1 == Some(r.0),
    {
        let n = self.back - self.front;
        (n, Some(n))
    }
}

/// Strings that can be walked over character by character.
pub trait CharSubsExt<'a> {
    /// A walk over the characters of this string.
    fn char_substrings(&'a self) -> CharSubs<'a>;
}

impl<'a> CharSubsExt<'a> for str {
    /// A walk over the characters of this string, none handed out yet.
    fn char_substrings(&'a self) -> (r: CharSubs<'a>)
        ensures
            r.wf(),
            r.text() == self@,
            r.remaining() == self@,
    {
        CharSubs::new(self)
    }
}

} // verus!
