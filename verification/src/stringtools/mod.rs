//! Helpers on strings.

use vstd::prelude::*;
use vstd::string::StrSliceExecFns;
use vstd::string::StringExecFns;

verus! {

/// The upper-case form of `c`: one character or several.
pub uninterp spec fn upper_of(c: char) -> Seq<char>;

/// The upper-case form of `c`, as a string.
///
/// Trusted: the characters are those that `char::to_uppercase` yields for
/// `c`, in the order in which it yields them. Which characters these are
/// is fixed by the character alone; it is not stated here.
#[verifier::external_body]
fn to_upper(c: char) -> (r: String)
    ensures
        r@ == upper_of(c),
{
    c.to_uppercase().collect()
}

/// `s` with `head` in place of its first character; `head` alone if `s`
/// is empty.
pub fn replace_first(s: &str, head: &str) -> (r: String)
    ensures
        r@ == head@ + if s@.len() > 0 {
            s@.skip(1)
        } else {
            Seq::<char>::empty()
        },
{
    let n = s.unicode_len();
    let mut out = String::from_str(head);
    if n > 0 {
        out.append(s.substring_char(1, n));
    }
    proof {
        if n == 0 {
            assert(head@ + Seq::<char>::empty() =~= head@);
        } else {
            assert(s@.subrange(1, n as int) =~= s@.skip(1));
        }
    }
    out
}

/// Strings that can give themselves back with an upper-case start.
pub trait StrExt {
    /// A new string: this one with its first character in upper case.
    fn first_letter_upper(&self) -> String;
}

impl StrExt for str {
    /// A new string: this one with the upper-case form of its first
    /// character in place of that character. An empty string gives an
    /// empty string.
    fn first_letter_upper(&self) -> (r: String)
        ensures
            r@ == if self@.len() == 0 {
                Seq::<char>::empty()
            } else {
                upper_of(self@[0]) + self@.skip(1)
            },
    {
        if self.unicode_len() == 0 {
            String::new()
        } else {
            let head = to_upper(self.get_char(0));
            replace_first(self, head.as_str())
        }
    }
}

} // verus!
