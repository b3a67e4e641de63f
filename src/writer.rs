//! Text of the fact base: quoting of the strings it holds.

use crate::text::{chars_of, push_char};
use vstd::prelude::*;

verus! {

/// Writes an index as a fact base.
pub struct Writer;

/// `s` with a backslash before each single quote.
pub open spec fn escaped(s: Seq<char>) -> Seq<char>
    decreases s.len(),
{
    if s.len() == 0 {
        s
    } else if s.last() == '\'' {
        escaped(s.drop_last()) + seq!['\\', '\'']
    } else {
        escaped(s.drop_last()).push(s.last())
    }
}

impl Writer {
    /// `s` as it stands between single quotes in a fact.
    pub fn escape(s: &str) -> (r: String)
        ensures
            r@ == escaped(s@),
    {
        let cs = chars_of(s);
        let mut r = String::new();
        let mut i: usize = 0;
        while i < cs.len()
            invariant
                cs@ == s@,
                i <= cs@.len(),
                r@ == escaped(cs@.take(i as int)),
            decreases cs@.len() - i,
        {
            assert(cs@.take(i + 1).drop_last() =~= cs@.take(i as int));
            if cs[i] == '\'' {
                push_char(&mut r, '\\');
                push_char(&mut r, '\'');
                assert(r@ =~= escaped(cs@.take(i + 1)));
            } else {
                push_char(&mut r, cs[i]);
            }
            i = i + 1;
        }
        assert(cs@.take(cs@.len() as int) =~= cs@);
        r
    }
}

} // verus!
