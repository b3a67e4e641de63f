//! Splitting text into tokens and counting them.

use crate::counts::{bump, counts_of, new_counts};
use rayon::iter::{IntoParallelRefIterator, ParallelIterator};
use crate::index::Indexer;
use crate::text::{
    chars_of, char_len_utf8, is_numeric, is_separator, is_trimmer, is_whitespace, numeric,
    separator, string_of, trimmer, utf8_len, whitespace,
};
use dashmap::DashMap;
use vstd::prelude::*;

verus! {

/// A character that ends a fragment: whitespace or a separator.
pub open spec fn breaks(c: char) -> bool {
    whitespace(c) || separator(c)
}

/// The fragments of a text: the runs between break characters, in order,
/// empty runs included.
pub open spec fn fragments(s: Seq<char>) -> Seq<Seq<char>>
    decreases s.len(),
{
    if s.len() == 0 {
        seq![Seq::empty()]
    } else {
        let p = fragments(s.drop_last());
        if breaks(s.last()) {
            p.push(Seq::empty())
        } else {
            p.update(p.len() - 1, p.last().push(s.last()))
        }
    }
}

/// `s` without its leading trim characters.
pub open spec fn trim_start(s: Seq<char>) -> Seq<char>
    decreases s.len(),
{
    if s.len() > 0 && trimmer(s[0]) {
        trim_start(s.drop_first())
    } else {
        s
    }
}

/// `s` without its trailing trim characters.
pub open spec fn trim_end(s: Seq<char>) -> Seq<char>
    decreases s.len(),
{
    if s.len() > 0 && trimmer(s.last()) {
        trim_end(s.drop_last())
    } else {
        s
    }
}

/// `s` without trim characters at either end.
pub open spec fn trimmed(s: Seq<char>) -> Seq<char> {
    trim_end(trim_start(s))
}

/// Every character of `s` is numeric (true of the empty sequence).
pub open spec fn all_numeric(s: Seq<char>) -> bool {
    forall|i: int| 0 <= i < s.len() ==> numeric(#[trigger] s[i])
}

/// A trimmed fragment is kept as a token when it has at least `min` bytes
/// and is not made of numeric characters alone.
pub open spec fn is_token(t: Seq<char>, min: nat) -> bool {
    utf8_len(t) >= min && !all_numeric(t)
}

/// The tokens of a sequence of fragments, in order.
pub open spec fn tokens_from(frags: Seq<Seq<char>>, min: nat) -> Seq<Seq<char>>
    decreases frags.len(),
{
    if frags.len() == 0 {
        Seq::empty()
    } else {
        let r = tokens_from(frags.drop_last(), min);
        let t = trimmed(frags.last());
        if is_token(t, min) {
            r.push(t)
        } else {
            r
        }
    }
}

/// The tokens of a text, in order of occurrence.
pub open spec fn tokens_of(s: Seq<char>, min: nat) -> Seq<Seq<char>> {
    tokens_from(fragments(s), min)
}

/// Each distinct token of a sequence with its number of occurrences.
pub open spec fn count_map(toks: Seq<Seq<char>>) -> Map<Seq<char>, nat>
    decreases toks.len(),
{
    if toks.len() == 0 {
        Map::empty()
    } else {
        let m = count_map(toks.drop_last());
        let t = toks.last();
        m.insert(
            t,
            if m.contains_key(t) {
                m[t] + 1
            } else {
                1
            },
        )
    }
}

pub proof fn lemma_fragments_nonempty(s: Seq<char>)
    ensures
        fragments(s).len() >= 1,
    decreases s.len(),
{
    if s.len() > 0 {
        lemma_fragments_nonempty(s.drop_last());
    }
}

/// An empty fragment holds no token.
pub proof fn lemma_empty_fragment(min: nat)
    ensures
        !is_token(trimmed(Seq::<char>::empty()), min),
{
    assert(trimmed(Seq::<char>::empty()) == Seq::<char>::empty());
}

/// Text cut just after a break character: its fragments are those of the
/// first part, whose last is empty, followed by those of the second.
pub proof fn lemma_fragments_split(a: Seq<char>, b: Seq<char>)
    requires
        a.len() > 0,
        breaks(a.last()),
    ensures
        fragments(a + b) == fragments(a).drop_last() + fragments(b),
    decreases b.len(),
{
    let f = fragments(a).drop_last();
    assert(a.drop_last() + seq![a.last()] =~= a);
    assert(fragments(a) == fragments(a.drop_last()).push(Seq::empty()));
    if b.len() == 0 {
        assert(a + b =~= a);
        assert(fragments(a) =~= f + fragments(b));
    } else {
        let b2 = b.drop_last();
        let c = b.last();
        lemma_fragments_split(a, b2);
        lemma_fragments_nonempty(b2);
        assert((a + b).drop_last() =~= a + b2);
        assert((a + b).last() == c);
        let fb2 = fragments(b2);
        if breaks(c) {
            assert((f + fb2).push(Seq::empty()) =~= f + fb2.push(Seq::empty()));
        } else {
            assert((f + fb2).update((f + fb2).len() - 1, (f + fb2).last().push(c)) =~= f
                + fb2.update(fb2.len() - 1, fb2.last().push(c)));
        }
    }
}

pub proof fn lemma_tokens_from_append(x: Seq<Seq<char>>, y: Seq<Seq<char>>, min: nat)
    ensures
        tokens_from(x + y, min) == tokens_from(x, min) + tokens_from(y, min),
    decreases y.len(),
{
    if y.len() == 0 {
        assert(x + y =~= x);
        assert(tokens_from(x, min) + tokens_from(y, min) =~= tokens_from(x, min));
    } else {
        lemma_tokens_from_append(x, y.drop_last(), min);
        assert((x + y).drop_last() =~= x + y.drop_last());
        assert((x + y).last() == y.last());
        let t = trimmed(y.last());
        assert((tokens_from(x, min) + tokens_from(y.drop_last(), min)).push(t) =~= tokens_from(
            x,
            min,
        ) + tokens_from(y.drop_last(), min).push(t));
    }
}

/// The tokens of a text cut just after a break character are those of its
/// two parts, one after the other.
pub proof fn lemma_tokens_of_append(a: Seq<char>, b: Seq<char>, min: nat)
    requires
        a.len() == 0 || breaks(a.last()),
    ensures
        tokens_of(a + b, min) == tokens_of(a, min) + tokens_of(b, min),
{
    lemma_empty_fragment(min);
    if a.len() == 0 {
        assert(a + b =~= b);
        let fa = fragments(a);
        assert(fa == seq![Seq::<char>::empty()]);
        assert(fa.drop_last() =~= Seq::<Seq<char>>::empty());
        assert(fa.last() == Seq::<char>::empty());
        assert(tokens_from(fa.drop_last(), min) == Seq::<Seq<char>>::empty());
        assert(tokens_of(a, min) =~= Seq::<Seq<char>>::empty());
        assert(tokens_of(a, min) + tokens_of(b, min) =~= tokens_of(b, min));
    } else {
        lemma_fragments_split(a, b);
        let f = fragments(a).drop_last();
        lemma_tokens_from_append(f, fragments(b), min);
        assert(a.drop_last() + seq![a.last()] =~= a);
        assert(fragments(a) == fragments(a.drop_last()).push(Seq::empty()));
        assert(fragments(a).drop_last() =~= fragments(a.drop_last()));
    }
}

/// A text holds no more tokens than characters.
pub proof fn lemma_tokens_bound(s: Seq<char>, min: nat)
    ensures
        tokens_from(fragments(s).drop_last(), min).len() + (if fragments(s).last().len() > 0 {
            1int
        } else {
            0
        }) <= s.len(),
        tokens_of(s, min).len() <= s.len(),
    decreases s.len(),
{
    lemma_fragments_nonempty(s);
    lemma_empty_fragment(min);
    let f = fragments(s);
    assert(f =~= f.drop_last().push(f.last()));
    if s.len() > 0 {
        let s2 = s.drop_last();
        lemma_tokens_bound(s2, min);
        lemma_fragments_nonempty(s2);
        let f2 = fragments(s2);
        assert(f2 =~= f2.drop_last().push(f2.last()));
        if breaks(s.last()) {
            assert(f.drop_last() =~= f2);
        } else {
            assert(f.drop_last() =~= f2.drop_last());
        }
    }
}

/// No count exceeds the number of tokens counted.
pub proof fn lemma_count_bound(toks: Seq<Seq<char>>)
    ensures
        forall|k: Seq<char>| #[trigger]
            count_map(toks).contains_key(k) ==> count_map(toks)[k] <= toks.len(),
    decreases toks.len(),
{
    if toks.len() > 0 {
        let prev = toks.drop_last();
        lemma_count_bound(prev);
        assert forall|k: Seq<char>| #[trigger]
            count_map(toks).contains_key(k) implies count_map(toks)[k] <= toks.len() by {
            if count_map(prev).contains_key(k) {
                assert(count_map(prev)[k] <= prev.len());
            }
            if k != toks.last() {
                assert(count_map(prev).contains_key(k));
            }
        }
    }
}

/// The keys of a count map are the tokens counted.
pub proof fn lemma_count_keys(toks: Seq<Seq<char>>)
    ensures
        forall|k: Seq<char>| #[trigger]
            count_map(toks).contains_key(k) ==> exists|i: int| 0 <= i < toks.len() && toks[i] == k,
    decreases toks.len(),
{
    if toks.len() > 0 {
        lemma_count_keys(toks.drop_last());
        assert forall|k: Seq<char>| #[trigger] count_map(toks).contains_key(k) implies exists|
            i: int,
        | 0 <= i < toks.len() && toks[i] == k by {
            let prev = toks.drop_last();
            if k != toks.last() {
                assert(count_map(prev).contains_key(k));
                let i = choose|i: int| 0 <= i < prev.len() && prev[i] == k;
                assert(prev[i] == toks[i]);
            } else {
                assert(toks[toks.len() - 1] == k);
            }
        }
    }
}

/// Every element of a token sequence is a token.
pub proof fn lemma_tokens_from_are_tokens(frags: Seq<Seq<char>>, min: nat)
    ensures
        forall|i: int|
            0 <= i < tokens_from(frags, min).len() ==> is_token(
                #[trigger] tokens_from(frags, min)[i],
                min,
            ),
    decreases frags.len(),
{
    if frags.len() > 0 {
        let prev = tokens_from(frags.drop_last(), min);
        lemma_tokens_from_are_tokens(frags.drop_last(), min);
        assert forall|i: int| 0 <= i < tokens_from(frags, min).len() implies is_token(
            #[trigger] tokens_from(frags, min)[i],
            min,
        ) by {
            if i < prev.len() {
                assert(tokens_from(frags, min)[i] == prev[i]);
            }
        }
    }
}

/// Every counted token has at least `min` bytes and holds a character that
/// is not numeric.
pub proof fn tokens_are_filtered(content: Seq<char>, min: nat, t: Seq<char>)
    requires
        count_map(tokens_of(content, min)).contains_key(t),
    ensures
        utf8_len(t) >= min,
        !all_numeric(t),
{
    let toks = tokens_of(content, min);
    lemma_count_keys(toks);
    lemma_tokens_from_are_tokens(fragments(content), min);
    let i = choose|i: int| 0 <= i < toks.len() && toks[i] == t;
    assert(is_token(toks[i], min));
}

/// `s` without its trim characters, and no longer than `s`.
fn trim_fragment(s: &Vec<char>) -> (r: Vec<char>)
    ensures
        r@ == trimmed(s@),
        r@.len() <= s@.len(),
{
    let n = s.len();
    let mut lo: usize = 0;
    assert(s@.subrange(0, n as int) =~= s@);
    while lo < n && is_trimmer(s[lo])
        invariant
            lo <= n == s@.len(),
            trim_start(s@) == trim_start(s@.subrange(lo as int, n as int)),
        decreases n - lo,
    {
        let ghost t = s@.subrange(lo as int, n as int);
        assert(t.drop_first() =~= s@.subrange(lo + 1, n as int));
        lo = lo + 1;
    }
    assert(trim_start(s@) == s@.subrange(lo as int, n as int));
    let mut hi: usize = n;
    while hi > lo && is_trimmer(s[hi - 1])
        invariant
            lo <= hi <= n == s@.len(),
            trimmed(s@) == trim_end(s@.subrange(lo as int, hi as int)),
        decreases hi - lo,
    {
        let ghost t = s@.subrange(lo as int, hi as int);
        assert(t.drop_last() =~= s@.subrange(lo as int, hi - 1));
        hi = hi - 1;
    }
    let mut r: Vec<char> = Vec::new();
    let mut k: usize = lo;
    while k < hi
        invariant
            lo <= k <= hi <= n == s@.len(),
            r@ == s@.subrange(lo as int, k as int),
        decreases hi - k,
    {
        r.push(s[k]);
        k = k + 1;
        assert(r@ =~= s@.subrange(lo as int, k as int));
    }
    r
}

/// Whether a trimmed fragment is a token.
fn keeps(t: &Vec<char>, min: usize) -> (r: bool)
    ensures
        r == is_token(t@, min as nat),
{
    let mut bytes: u128 = 0;
    let mut i: usize = 0;
    while i < t.len()
        invariant
            i <= t@.len(),
            bytes == utf8_len(t@.take(i as int)),
            bytes <= 4 * i,
        decreases t@.len() - i,
    {
        assert(t@.take(i + 1).drop_last() =~= t@.take(i as int));
        bytes = bytes + char_len_utf8(t[i]) as u128;
        i = i + 1;
    }
    assert(t@.take(t@.len() as int) =~= t@);
    if bytes < min as u128 {
        return false;
    }
    let mut j: usize = 0;
    while j < t.len()
        invariant
            j <= t@.len(),
            utf8_len(t@) >= min,
            forall|k: int| 0 <= k < j ==> numeric(#[trigger] t@[k]),
        decreases t@.len() - j,
    {
        if !is_numeric(t[j]) {
            assert(!numeric(t@[j as int]));
            assert(!all_numeric(t@));
            return true;
        }
        j = j + 1;
    }
    false
}

/// The characters of each string.
pub open spec fn views(v: Seq<String>) -> Seq<Seq<char>> {
    v.map_values(|s: String| s@)
}

/// `b` cuts `cs` into consecutive non-empty chunks, each but the first
/// starting just after a break character.
pub open spec fn splits(cs: Seq<char>, b: Seq<(usize, usize)>) -> bool {
    &&& (b.len() == 0) == (cs.len() == 0)
    &&& b.len() > 0 ==> b[0].0 == 0 && b.last().1 == cs.len()
    &&& forall|j: int| 0 <= j < b.len() ==> #[trigger] b[j].0 < b[j].1 <= cs.len()
    &&& forall|j: int|
        0 < j < b.len() ==> #[trigger] b[j].0 == b[j - 1].1 && breaks(cs[b[j].0 - 1])
}

/// Least number of characters of a chunk tokenized on its own.
pub const MIN_CHUNK_LENGTH: usize = 1024;

/// Relies on rayon's `current_num_threads`: the number of worker threads;
/// nothing is promised of it.
pub assume_specification[ rayon::current_num_threads ]() -> usize;

/// Appends a fragment's token, if it has one.
fn emit_fragment(frag: &Vec<char>, min: usize, r: &mut Vec<String>)
    ensures
        views(final(r)@) == (if is_token(trimmed(frag@), min as nat) {
            views(old(r)@).push(trimmed(frag@))
        } else {
            views(old(r)@)
        }),
{
    let t = trim_fragment(frag);
    if keeps(&t, min) {
        let ghost before = r@;
        r.push(string_of(&t));
        assert(views(r@) =~= views(before).push(t@));
    }
}

/// Cuts `cs` into chunks of at least `chunk` characters, each ending at a
/// break character or at the end of the text.
fn chunk_bounds(cs: &Vec<char>, chunk: usize) -> (b: Vec<(usize, usize)>)
    requires
        chunk >= 1,
    ensures
        splits(cs@, b@),
{
    let n = cs.len();
    let mut b: Vec<(usize, usize)> = Vec::new();
    let mut start: usize = 0;
    while start < n
        invariant
            n == cs@.len(),
            start <= n,
            chunk >= 1,
            b@.len() == 0 ==> start == 0,
            b@.len() > 0 ==> b@[0].0 == 0 && b@.last().1 == start,
            0 < start < n ==> breaks(cs@[start - 1]),
            forall|j: int| 0 <= j < b@.len() ==> #[trigger] b@[j].0 < b@[j].1 <= start,
            forall|j: int|
                0 < j < b@.len() ==> #[trigger] b@[j].0 == b@[j - 1].1 && breaks(cs@[b@[j].0 - 1]),
        decreases n - start,
    {
        let mut end: usize = if n - start > chunk {
            start + chunk
        } else {
            n
        };
        while end < n && !(is_whitespace(cs[end - 1]) || is_separator(cs[end - 1]))
            invariant
                start < end <= n == cs@.len(),
            decreases n - end,
        {
            end = end + 1;
        }
        let ghost before = b@;
        b.push((start, end));
        proof {
            assert forall|j: int| 0 < j < b@.len() implies #[trigger] b@[j].0 == b@[j - 1].1
                && breaks(cs@[b@[j].0 - 1]) by {
                if j < before.len() {
                    assert(b@[j] == before[j] && b@[j - 1] == before[j - 1]);
                }
            }
        }
        start = end;
    }
    b
}

/// Relies on rayon's `par_iter` over a slice, `map`, and `collect` into a
/// `Vec`, which keeps the order of the items. Each item is made by
/// `Indexer::chunk_tokens`.
#[verifier::external_body]
fn tokens_by_chunk(indexer: &Indexer, cs: &Vec<char>, bounds: &Vec<(usize, usize)>) -> (r: Vec<
    Vec<String>,
>)
    requires
        forall|j: int| 0 <= j < bounds@.len() ==> #[trigger] bounds@[j].0 <= bounds@[j].1 <= cs@.len(),
    ensures
        r@.len() == bounds@.len(),
        forall|j: int|
            0 <= j < r@.len() ==> #[trigger] views(r@[j]@) == tokens_of(
                cs@.subrange(bounds@[j].0 as int, bounds@[j].1 as int),
                indexer.min_token_length as nat,
            ),
{
    bounds.par_iter().map(|b| indexer.chunk_tokens(cs, b.0, b.1)).collect()
}

impl Indexer {
    /// The tokens of the characters `cs[lo..hi]`, in order.
    pub fn chunk_tokens(&self, cs: &Vec<char>, lo: usize, hi: usize) -> (r: Vec<String>)
        requires
            lo <= hi <= cs@.len(),
        ensures
            views(r@) == tokens_of(cs@.subrange(lo as int, hi as int), self.min_token_length as nat),
    {
        let min = self.min_token_length;
        let ghost s = cs@.subrange(lo as int, hi as int);
        let mut r: Vec<String> = Vec::new();
        let mut cur: Vec<char> = Vec::new();
        let mut i: usize = lo;
        proof {
            lemma_fragments_nonempty(s.take(0));
            assert(s.take(0) =~= Seq::<char>::empty());
            assert(views(r@) =~= Seq::<Seq<char>>::empty());
        }
        while i < hi
            invariant
                lo <= i <= hi <= cs@.len(),
                s == cs@.subrange(lo as int, hi as int),
                fragments(s.take(i - lo)).len() >= 1,
                cur@ == fragments(s.take(i - lo)).last(),
                views(r@) == tokens_from(fragments(s.take(i - lo)).drop_last(), min as nat),
            decreases hi - i,
        {
            let c = cs[i];
            let ghost f = fragments(s.take(i - lo));
            proof {
                assert(s.take(i - lo + 1).drop_last() =~= s.take(i - lo));
                assert(s.take(i - lo + 1).last() == c);
            }
            if is_whitespace(c) || is_separator(c) {
                proof {
                    assert(f.push(Seq::empty()).drop_last() =~= f);
                    assert(f =~= f.drop_last().push(f.last()));
                }
                emit_fragment(&cur, min, &mut r);
                cur = Vec::new();
            } else {
                cur.push(c);
                proof {
                    assert(f.update(f.len() - 1, f.last().push(c)).drop_last() =~= f.drop_last());
                }
            }
            i = i + 1;
        }
        proof {
            assert(s.take(hi - lo) =~= s);
            let f = fragments(s);
            assert(f =~= f.drop_last().push(f.last()));
        }
        emit_fragment(&cur, min, &mut r);
        r
    }

    /// Counts the tokens of `content`: the fragments between whitespace and
    /// separators, trimmed, that have at least `min_token_length` bytes and
    /// are not numeric alone. Large texts are cut into chunks whose tokens
    /// are found in parallel.
    pub fn tokenize(&self, content: &str) -> (r: DashMap<String, usize>)
        ensures
            counts_of(r) == count_map(tokens_of(content@, self.min_token_length as nat)),
    {
        let min = self.min_token_length;
        let cs = chars_of(content);
        let n = cs.len();
        let threads = rayon::current_num_threads();
        let share = if threads > 0 {
            n / threads
        } else {
            n
        };
        let chunk = if share > MIN_CHUNK_LENGTH {
            share
        } else {
            MIN_CHUNK_LENGTH
        };
        let bounds = chunk_bounds(&cs, chunk);
        let parts = tokens_by_chunk(self, &cs, &bounds);
        let mut m = new_counts();
        let mut j: usize = 0;
        let ghost pos: int = 0;
        proof {
            assert(cs@.subrange(0, 0) =~= Seq::<char>::empty());
            lemma_empty_fragment(min as nat);
            lemma_tokens_bound(Seq::<char>::empty(), min as nat);
            assert(tokens_of(Seq::<char>::empty(), min as nat) =~= Seq::<Seq<char>>::empty());
            assert(count_map(Seq::<Seq<char>>::empty()) =~= Map::empty());
        }
        while j < parts.len()
            invariant
                n == cs@.len(),
                cs@ == content@,
                splits(cs@, bounds@),
                parts@.len() == bounds@.len(),
                forall|q: int|
                    0 <= q < parts@.len() ==> #[trigger] views(parts@[q]@) == tokens_of(
                        cs@.subrange(bounds@[q].0 as int, bounds@[q].1 as int),
                        min as nat,
                    ),
                j <= parts@.len(),
                pos == (if j == 0 {
                    0
                } else {
                    bounds@[j - 1].1 as int
                }),
                0 <= pos <= n,
                counts_of(m) == count_map(tokens_of(cs@.subrange(0, pos), min as nat)),
            decreases parts@.len() - j,
        {
            let part = &parts[j];
            let ghost lo = bounds@[j as int].0 as int;
            let ghost hi = bounds@[j as int].1 as int;
            let ghost prefix = cs@.subrange(0, pos);
            let ghost piece = cs@.subrange(lo, hi);
            let ghost done = tokens_of(prefix, min as nat);
            proof {
                assert(lo == pos);
                lemma_tokens_bound(prefix, min as nat);
                lemma_tokens_bound(piece, min as nat);
                assert(views(part@) == tokens_of(piece, min as nat));
                assert(done + views(part@).take(0) =~= done);
            }
            let mut k: usize = 0;
            while k < part.len()
                invariant
                    k <= part@.len(),
                    views(part@) == tokens_of(piece, min as nat),
                    done.len() <= lo,
                    part@.len() <= hi - lo,
                    hi <= n,
                    counts_of(m) == count_map(done + views(part@).take(k as int)),
                decreases part@.len() - k,
            {
                let ghost toks = done + views(part@).take(k as int);
                proof {
                    lemma_count_bound(toks);
                    assert(toks + seq![part@[k as int]@] =~= done + views(part@).take(k + 1));
                    assert((done + views(part@).take(k + 1)).drop_last() =~= toks);
                }
                bump(&mut m, part[k].clone());
                k = k + 1;
            }
            proof {
                assert(views(part@).take(part@.len() as int) =~= views(part@));
                if pos > 0 {
                    assert(prefix.last() == cs@[bounds@[j as int].0 - 1]);
                }
                lemma_tokens_of_append(prefix, piece, min as nat);
                assert(prefix + piece =~= cs@.subrange(0, hi));
                pos = hi;
            }
            j = j + 1;
        }
        proof {
            if bounds@.len() > 0 {
                assert(pos == n);
            }
            assert(cs@.subrange(0, n as int) =~= cs@);
        }
        m
    }
}

} // verus!
