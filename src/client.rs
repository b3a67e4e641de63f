//! The query side: a client that names a Prolog interpreter and a fact base,
//! and the goal text it hands the interpreter.

use crate::text::{chars_of, push_char};
use vstd::prelude::*;
use vstd::string::StringExecFns;

verus! {

/// Runs queries against a fact base with a Prolog interpreter.
pub struct Client {
    pub swi_path: String,
    pub facts: String,
}

/// `s` with each `//` read left to right written as two backslashes.
pub open spec fn doubled_slashes(s: Seq<char>) -> Seq<char>
    decreases s.len(),
{
    if s.len() == 0 {
        s
    } else if s.len() >= 2 && s[0] == '/' && s[1] == '/' {
        seq!['\\', '\\'] + doubled_slashes(s.subrange(2, s.len() as int))
    } else {
        seq![s[0]] + doubled_slashes(s.drop_first())
    }
}

/// The goal that loads the fact base, prints each answer of `query` on its
/// own line, and stops.
pub open spec fn goal_text(facts: Seq<char>, query: Seq<char>) -> Seq<char> {
    "consult('"@ + doubled_slashes(facts) + "'), forall("@ + query + ", writeln(_)), halt."@
}

/// `s` with each `//` written as two backslashes.
pub fn replace_double_slashes(s: &str) -> (r: String)
    ensures
        r@ == doubled_slashes(s@),
{
    let cs = chars_of(s);
    let n = cs.len();
    let mut r = String::new();
    let mut i: usize = 0;
    assert(cs@.skip(0) =~= cs@);
    assert(r@ + doubled_slashes(cs@) =~= doubled_slashes(cs@));
    while i < n
        invariant
            n == cs@.len(),
            cs@ == s@,
            i <= n,
            r@ + doubled_slashes(cs@.skip(i as int)) == doubled_slashes(cs@),
        decreases n - i,
    {
        let ghost rest = cs@.skip(i as int);
        if i + 1 < n && cs[i] == '/' && cs[i + 1] == '/' {
            push_char(&mut r, '\\');
            push_char(&mut r, '\\');
            proof {
                assert(rest.subrange(2, rest.len() as int) =~= cs@.skip(i + 2));
            }
            i = i + 2;
        } else {
            push_char(&mut r, cs[i]);
            proof {
                assert(rest.drop_first() =~= cs@.skip(i + 1));
            }
            i = i + 1;
        }
        assert(r@ + doubled_slashes(cs@.skip(i as int)) =~= doubled_slashes(cs@));
    }
    assert(cs@.skip(0) =~= cs@);
    assert(r@ + doubled_slashes(cs@.skip(n as int)) =~= r@);
    r
}

impl Client {
    /// A client for the interpreter at `swi` and the fact base at `facts`.
    pub fn new(swi: &str, facts: &str) -> (r: Client)
        ensures
            r.swi_path@ == swi@,
            r.facts@ == facts@,
    {
        Client { swi_path: String::from_str(swi), facts: String::from_str(facts) }
    }

    /// The goal handed to the interpreter for `query`.
    pub fn goal(&self, query: &str) -> (r: String)
        ensures
            r@ == goal_text(self.facts@, query@),
    {
        let mut r = String::from_str("consult('");
        let facts = replace_double_slashes(self.facts.as_str());
        r.append(facts.as_str());
        r.append("'), forall(");
        r.append(query);
        r.append(", writeln(_)), halt.");
        r
    }
}

} // verus!
