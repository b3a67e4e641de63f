//! Document frequencies and TF-IDF scores over a set of documents.
//!
//! A score is kept as the exact quantities it is made of: `tf = count / total`
//! and `idf = ln(n / df)`, so `tf_idf = count / total * ln(n / df)`.

use crate::counts::{bump, count_of, counts_of, covers, entries, entries_in, lists, new_counts};
use crate::index::{Document, Indexer};
use dashmap::DashMap;
use vstd::prelude::*;
use vstd::set::fold::{is_fun_commutative, lemma_fold_empty, lemma_fold_insert};

verus! {

/// The exact quantities of one TF-IDF score.
pub struct TfIdf {
    /// Occurrences of the token in the document.
    pub count: usize,
    /// Occurrences of all tokens in the document.
    pub total: u128,
    /// Number of documents that hold the token.
    pub df: usize,
    /// Number of documents.
    pub n: usize,
}

impl TfIdf {
    /// Whether the score is zero: the token is in every document.
    pub fn is_zero(&self) -> (r: bool)
        ensures
            r == (self.count == 0 || self.df == self.n),
    {
        self.count == 0 || self.df == self.n
    }
}

/// The score of one token in one document.
pub struct Score {
    pub doc_id: usize,
    pub token: String,
    pub tf_idf: TfIdf,
}

/// A vocabulary entry: the token's weight is `ln(n / df)`.
pub struct Weight {
    pub token: String,
    pub df: usize,
    pub n: usize,
}

/// The token counts of each document.
pub open spec fn token_maps(docs: Seq<Document>) -> Seq<Map<Seq<char>, nat>> {
    docs.map_values(|d: Document| counts_of(d.tokens))
}

/// Number of documents whose counts hold `t`.
pub open spec fn doc_freq(ms: Seq<Map<Seq<char>, nat>>, t: Seq<char>) -> nat
    decreases ms.len(),
{
    if ms.len() == 0 {
        0
    } else {
        doc_freq(ms.drop_last(), t) + if ms.last().contains_key(t) {
            1nat
        } else {
            0
        }
    }
}

pub open spec fn add_count(m: Map<Seq<char>, nat>) -> spec_fn(nat, Seq<char>) -> nat {
    |acc: nat, k: Seq<char>| acc + m[k]
}

/// Occurrences of all tokens: the sum of the counts.
pub open spec fn total(m: Map<Seq<char>, nat>) -> nat {
    m.dom().fold(0nat, add_count(m))
}

/// Sum of the counts of a list of entries.
pub open spec fn entries_total(e: Seq<(String, usize)>) -> nat
    decreases e.len(),
{
    if e.len() == 0 {
        0
    } else {
        entries_total(e.drop_last()) + e.last().1 as nat
    }
}

/// The tokens of a list of entries.
pub open spec fn entry_keys(e: Seq<(String, usize)>) -> Set<Seq<char>> {
    Set::new(|k: Seq<char>| exists|i: int| 0 <= i < e.len() && e[i].0@ == k)
}

/// `t` is among the first `j` entries.
pub open spec fn in_prefix(e: Seq<(String, usize)>, j: int, t: Seq<char>) -> bool {
    exists|k: int| 0 <= k < j && e[k].0@ == t
}

/// `s` is the score of its token in document `d`.
pub open spec fn scores_doc(docs: Seq<Document>, d: int, s: Score) -> bool {
    let m = token_maps(docs)[d];
    let t = s.token@;
    &&& s.doc_id == docs[d].id
    &&& m.contains_key(t)
    &&& s.tf_idf.count as nat == m[t]
    &&& s.tf_idf.total as nat == total(m)
    &&& s.tf_idf.df as nat == doc_freq(token_maps(docs), t)
    &&& s.tf_idf.n == docs.len()
}

/// Document ids are pairwise distinct.
pub open spec fn distinct_ids(docs: Seq<Document>) -> bool {
    forall|a: int, b: int| 0 <= a < b < docs.len() ==> docs[a].id != docs[b].id
}

pub proof fn lemma_doc_freq_bound(ms: Seq<Map<Seq<char>, nat>>, t: Seq<char>)
    ensures
        doc_freq(ms, t) <= ms.len(),
    decreases ms.len(),
{
    if ms.len() > 0 {
        lemma_doc_freq_bound(ms.drop_last(), t);
    }
}

/// A sum over entries with distinct tokens is the sum over their token set.
pub proof fn lemma_entries_fold(e: Seq<(String, usize)>, m: Map<Seq<char>, nat>)
    requires
        entries_in(e, m),
    ensures
        entry_keys(e).finite(),
        entry_keys(e).fold(0nat, add_count(m)) == entries_total(e),
    decreases e.len(),
{
    let f = add_count(m);
    assert(is_fun_commutative(f)) by {
        assert forall|a1: Seq<char>, a2: Seq<char>, b: nat| #[trigger] f(f(b, a2), a1) == f(
            f(b, a1),
            a2,
        ) by {}
    }
    if e.len() == 0 {
        assert(entry_keys(e) =~= Set::empty());
        lemma_fold_empty(0nat, f);
    } else {
        let p = e.drop_last();
        let k = e.last().0@;
        assert forall|i: int, j: int| 0 <= i < j < p.len() implies #[trigger] p[i].0@
            != #[trigger] p[j].0@ by {
            assert(p[i] == e[i] && p[j] == e[j]);
        }
        assert forall|i: int| 0 <= i < p.len() implies #[trigger] m.contains_key(p[i].0@) && m[p[i].0@]
            == p[i].1 as nat by {
            assert(p[i] == e[i]);
        }
        lemma_entries_fold(p, m);
        assert(entry_keys(e) =~= entry_keys(p).insert(k)) by {
            assert forall|x: Seq<char>| entry_keys(p).insert(k).contains(x) implies entry_keys(
                e,
            ).contains(x) by {
                if x != k {
                    let i = choose|i: int| 0 <= i < p.len() && p[i].0@ == x;
                    assert(e[i] == p[i]);
                } else {
                    assert(e[e.len() - 1].0@ == x);
                }
            }
            assert forall|x: Seq<char>| entry_keys(e).contains(x) implies entry_keys(
                p,
            ).insert(k).contains(x) by {
                let i = choose|i: int| 0 <= i < e.len() && e[i].0@ == x;
                if i < e.len() - 1 {
                    assert(p[i] == e[i]);
                }
            }
        }
        assert(!entry_keys(p).contains(k)) by {
            if entry_keys(p).contains(k) {
                let i = choose|i: int| 0 <= i < p.len() && p[i].0@ == k;
                assert(e[i] == p[i]);
                assert(e[i].0@ != e[e.len() - 1].0@);
            }
        }
        lemma_fold_insert(entry_keys(p), 0nat, f, k);
        assert(m.contains_key(e[e.len() - 1].0@));
        assert(m[k] == e[e.len() - 1].1 as nat);
    }
}

/// Summing the counts of any listing of a document's tokens, each once, gives
/// its total: the term frequencies `count / total` of its tokens add up to one.
pub proof fn lemma_counts_sum_to_total(e: Seq<(String, usize)>, m: Map<Seq<char>, nat>)
    requires
        lists(e, m),
    ensures
        entries_total(e) == total(m),
{
    lemma_entries_fold(e, m);
    assert(entry_keys(e) =~= m.dom());
}

/// Every score comes from one of the first `i` documents.
pub open spec fn scored_upto(docs: Seq<Document>, sc: Seq<Score>, i: int) -> bool {
    forall|p: int| 0 <= p < sc.len() ==> #[trigger] from_doc_before(docs, sc[p], i)
}

/// `s` is the score of its token in one of the first `i` documents.
pub open spec fn from_doc_before(docs: Seq<Document>, s: Score, i: int) -> bool {
    exists|d: int| 0 <= d < i && #[trigger] scores_doc(docs, d, s)
}

/// `s` is the score of its token in one of the first `i` documents, or in
/// document `i` with one of the first `k` tokens listed in `e`.
pub open spec fn from_doc_partly(
    docs: Seq<Document>,
    s: Score,
    i: int,
    e: Seq<(String, usize)>,
    k: int,
) -> bool {
    exists|d: int|
        0 <= d <= i && #[trigger] scores_doc(docs, d, s) && (d == i ==> in_prefix(e, k, s.token@))
}

/// Every token of the first `i` documents has a score.
pub open spec fn covered_upto(docs: Seq<Document>, sc: Seq<Score>, i: int) -> bool {
    forall|d: int, t: Seq<char>|
        0 <= d < i && #[trigger] token_maps(docs)[d].contains_key(t) ==> exists|p: int|
            0 <= p < sc.len() && sc[p].doc_id == docs[d].id && #[trigger] sc[p].token@ == t
}

/// No two scores are for the same document and token.
pub open spec fn unique_scores(sc: Seq<Score>) -> bool {
    forall|p: int, q: int|
        0 <= p < q < sc.len() ==> !(#[trigger] sc[p].doc_id == #[trigger] sc[q].doc_id
            && sc[p].token@ == sc[q].token@)
}

/// `w` is the vocabulary entry of its token.
pub open spec fn weighs(docs: Seq<Document>, w: Weight) -> bool {
    let df = doc_freq(token_maps(docs), w.token@);
    &&& df > 0
    &&& w.df as nat == df
    &&& w.n == docs.len()
}

/// The document frequencies held in a counter map.
pub open spec fn holds_doc_freqs(c: Map<Seq<char>, nat>, ms: Seq<Map<Seq<char>, nat>>) -> bool {
    &&& forall|t: Seq<char>| #[trigger] c.contains_key(t) == (doc_freq(ms, t) > 0)
    &&& forall|t: Seq<char>| #[trigger] c.contains_key(t) ==> c[t] == doc_freq(ms, t)
}

pub proof fn lemma_doc_freq_positive(ms: Seq<Map<Seq<char>, nat>>, d: int, t: Seq<char>)
    requires
        0 <= d < ms.len(),
        ms[d].contains_key(t),
    ensures
        doc_freq(ms, t) > 0,
    decreases ms.len(),
{
    if d < ms.len() - 1 {
        lemma_doc_freq_positive(ms.drop_last(), d, t);
    }
}

/// Adds one document's distinct tokens to the document frequencies.
fn count_document(
    freq: &mut DashMap<String, usize>,
    doc: &Document,
    Ghost(prev): Ghost<Seq<Map<Seq<char>, nat>>>,
)
    requires
        prev.len() < usize::MAX,
        holds_doc_freqs(counts_of(*old(freq)), prev),
    ensures
        holds_doc_freqs(counts_of(*final(freq)), prev.push(counts_of(doc.tokens))),
{
    let e = entries(&doc.tokens);
    let ghost m = counts_of(doc.tokens);
    let mut j: usize = 0;
    while j < e.len()
        invariant
            j <= e@.len(),
            prev.len() < usize::MAX,
            forall|i: int| 0 <= i < e@.len() ==> #[trigger] m.contains_key(e@[i].0@) && m[e@[i].0@]
                == e@[i].1 as nat,
            forall|a: int, b: int|
                0 <= a < b < e@.len() ==> #[trigger] e@[a].0@ != #[trigger] e@[b].0@,
            forall|t: Seq<char>| #[trigger]
                counts_of(*freq).contains_key(t) == (doc_freq(prev, t) > 0 || in_prefix(e@, j as int, t)),
            forall|t: Seq<char>| #[trigger]
                counts_of(*freq).contains_key(t) ==> counts_of(*freq)[t] == doc_freq(prev, t) + (if in_prefix(
                    e@,
                    j as int,
                    t,
                ) {
                    1nat
                } else {
                    0
                }),
        decreases e@.len() - j,
    {
        let key = e[j].0.clone();
        proof {
            lemma_doc_freq_bound(prev, key@);
            if in_prefix(e@, j as int, key@) {
                let k = choose|k: int| 0 <= k < j && e@[k].0@ == key@;
                assert(e@[k].0@ != e@[j as int].0@);
            }
        }
        let ghost before = counts_of(*freq);
        bump(freq, key);
        proof {
            assert forall|t: Seq<char>| in_prefix(e@, j + 1, t) == (in_prefix(e@, j as int, t) || t
                == e@[j as int].0@) by {
                if in_prefix(e@, j + 1, t) && t != e@[j as int].0@ {
                    let k = choose|k: int| 0 <= k < j + 1 && e@[k].0@ == t;
                    assert(in_prefix(e@, j as int, t));
                }
                if t == e@[j as int].0@ {
                    assert(in_prefix(e@, j + 1, t));
                }
                if in_prefix(e@, j as int, t) {
                    let k = choose|k: int| 0 <= k < j && e@[k].0@ == t;
                    assert(in_prefix(e@, j + 1, t));
                }
            }
            assert forall|t: Seq<char>| #[trigger]
                counts_of(*freq).contains_key(t) == (doc_freq(prev, t) > 0 || in_prefix(e@, j + 1, t)) by {
                if t != key@ {
                    assert(counts_of(*freq).contains_key(t) == before.contains_key(t));
                }
            }
        }
        j = j + 1;
    }
    proof {
        let ms = prev.push(m);
        assert(ms.drop_last() =~= prev);
        assert forall|t: Seq<char>| in_prefix(e@, e@.len() as int, t) == m.contains_key(t) by {
            if in_prefix(e@, e@.len() as int, t) {
                let k = choose|k: int| 0 <= k < e@.len() && e@[k].0@ == t;
                assert(m.contains_key(e@[k].0@));
            }
        }
    }
}

/// Counts, for each token, the documents that hold it.
fn document_frequencies(documents: &Vec<Document>) -> (freq: DashMap<String, usize>)
    ensures
        holds_doc_freqs(counts_of(freq), token_maps(documents@)),
{
    let ghost ms = token_maps(documents@);
    let mut freq = new_counts();
    let mut i: usize = 0;
    assert(ms.take(0) =~= Seq::empty());
    while i < documents.len()
        invariant
            i <= documents@.len(),
            ms == token_maps(documents@),
            holds_doc_freqs(counts_of(freq), ms.take(i as int)),
        decreases documents@.len() - i,
    {
        count_document(&mut freq, &documents[i], Ghost(ms.take(i as int)));
        assert(ms.take(i + 1) =~= ms.take(i as int).push(counts_of(documents@[i as int].tokens)));
        i = i + 1;
    }
    assert(ms.take(documents@.len() as int) =~= ms);
    freq
}

/// Every score comes from one of the first `i` documents, or from document
/// `i` with one of the first `k` tokens listed in `e`.
pub open spec fn scored_partly(
    docs: Seq<Document>,
    sc: Seq<Score>,
    i: int,
    e: Seq<(String, usize)>,
    k: int,
) -> bool {
    forall|p: int| 0 <= p < sc.len() ==> #[trigger] from_doc_partly(docs, sc[p], i, e, k)
}

/// The first `k` tokens listed in `e` have a score in document `id`.
pub open spec fn listed_scored(sc: Seq<Score>, id: usize, e: Seq<(String, usize)>, k: int) -> bool {
    forall|a: int|
        0 <= a < k ==> exists|p: int|
            0 <= p < sc.len() && sc[p].doc_id == id && #[trigger] sc[p].token@ == #[trigger] e[a].0@
}

proof fn lemma_start_document(docs: Seq<Document>, sc: Seq<Score>, i: int, e: Seq<(String, usize)>)
    requires
        scored_upto(docs, sc, i),
    ensures
        scored_partly(docs, sc, i, e, 0),
        listed_scored(sc, docs[i].id, e, 0),
{
    assert forall|p: int| 0 <= p < sc.len() implies #[trigger] from_doc_partly(docs, sc[p], i, e, 0) by {
        assert(from_doc_before(docs, sc[p], i));
        let d = choose|d: int| 0 <= d < i && #[trigger] scores_doc(docs, d, sc[p]);
        assert(scores_doc(docs, d, sc[p]));
    }
}

proof fn lemma_push_score(
    docs: Seq<Document>,
    sc: Seq<Score>,
    s: Score,
    i: int,
    e: Seq<(String, usize)>,
    k: int,
)
    requires
        0 <= i < docs.len(),
        0 <= k < e.len(),
        distinct_ids(docs),
        entries_in(e, token_maps(docs)[i]),
        s.token@ == e[k].0@,
        scores_doc(docs, i, s),
        scored_partly(docs, sc, i, e, k),
        covered_upto(docs, sc, i),
        listed_scored(sc, docs[i].id, e, k),
        unique_scores(sc),
    ensures
        scored_partly(docs, sc.push(s), i, e, k + 1),
        covered_upto(docs, sc.push(s), i),
        listed_scored(sc.push(s), docs[i].id, e, k + 1),
        unique_scores(sc.push(s)),
{
    let nsc = sc.push(s);
    assert forall|p: int| 0 <= p < sc.len() implies !(sc[p].doc_id == s.doc_id && sc[p].token@
        == s.token@) by {
        assert(from_doc_partly(docs, sc[p], i, e, k));
        let d = choose|d: int|
            0 <= d <= i && #[trigger] scores_doc(docs, d, sc[p]) && (d == i ==> in_prefix(
                e,
                k,
                sc[p].token@,
            ));
        if d < i {
            assert(docs[d].id != docs[i].id);
        } else {
            let b = choose|b: int| 0 <= b < k && e[b].0@ == sc[p].token@;
            assert(e[b].0@ != e[k].0@);
        }
    }
    assert forall|p: int| 0 <= p < nsc.len() implies #[trigger] from_doc_partly(
        docs,
        nsc[p],
        i,
        e,
        k + 1,
    ) by {
        if p < sc.len() {
            assert(nsc[p] == sc[p]);
            assert(from_doc_partly(docs, sc[p], i, e, k));
            let d = choose|d: int|
                0 <= d <= i && #[trigger] scores_doc(docs, d, sc[p]) && (d == i ==> in_prefix(
                    e,
                    k,
                    sc[p].token@,
                ));
            assert(scores_doc(docs, d, nsc[p]));
            if d == i {
                let b = choose|b: int| 0 <= b < k && e[b].0@ == sc[p].token@;
                assert(in_prefix(e, k + 1, nsc[p].token@));
            }
        } else {
            assert(nsc[p] == s);
            assert(e[k].0@ == nsc[p].token@);
            assert(in_prefix(e, k + 1, nsc[p].token@));
            assert(scores_doc(docs, i, nsc[p]));
        }
    }
    assert forall|d: int, u: Seq<char>|
        0 <= d < i && #[trigger] token_maps(docs)[d].contains_key(u) implies exists|p: int|
        0 <= p < nsc.len() && nsc[p].doc_id == docs[d].id && #[trigger] nsc[p].token@ == u by {
        let p = choose|p: int|
            0 <= p < sc.len() && sc[p].doc_id == docs[d].id && #[trigger] sc[p].token@ == u;
        assert(nsc[p] == sc[p]);
    }
    assert forall|a: int| 0 <= a < k + 1 implies exists|p: int|
        0 <= p < nsc.len() && nsc[p].doc_id == docs[i].id && #[trigger] nsc[p].token@
            == #[trigger] e[a].0@ by {
        if a < k {
            let p = choose|p: int|
                0 <= p < sc.len() && sc[p].doc_id == docs[i].id && #[trigger] sc[p].token@
                    == #[trigger] e[a].0@;
            assert(nsc[p] == sc[p]);
        } else {
            assert(nsc[sc.len() as int] == s);
        }
    }
    assert forall|p: int, q: int| 0 <= p < q < nsc.len() implies !(#[trigger] nsc[p].doc_id
        == #[trigger] nsc[q].doc_id && nsc[p].token@ == nsc[q].token@) by {
        assert(nsc[p] == sc[p]);
        if q < sc.len() {
            assert(nsc[q] == sc[q]);
        }
    }
}

proof fn lemma_end_document(docs: Seq<Document>, sc: Seq<Score>, i: int, e: Seq<(String, usize)>)
    requires
        0 <= i < docs.len(),
        covers(e, token_maps(docs)[i]),
        scored_partly(docs, sc, i, e, e.len() as int),
        covered_upto(docs, sc, i),
        listed_scored(sc, docs[i].id, e, e.len() as int),
    ensures
        scored_upto(docs, sc, i + 1),
        covered_upto(docs, sc, i + 1),
{
    assert forall|p: int| 0 <= p < sc.len() implies #[trigger] from_doc_before(docs, sc[p], i + 1) by {
        assert(from_doc_partly(docs, sc[p], i, e, e.len() as int));
        let d = choose|d: int|
            0 <= d <= i && #[trigger] scores_doc(docs, d, sc[p]) && (d == i ==> in_prefix(
                e,
                e.len() as int,
                sc[p].token@,
            ));
        assert(scores_doc(docs, d, sc[p]));
    }
    assert forall|d: int, u: Seq<char>|
        0 <= d < i + 1 && #[trigger] token_maps(docs)[d].contains_key(u) implies exists|p: int|
        0 <= p < sc.len() && sc[p].doc_id == docs[d].id && #[trigger] sc[p].token@ == u by {
        if d == i {
            let a = choose|a: int| 0 <= a < e.len() && e[a].0@ == u;
            assert(e[a].0@ == u);
        }
    }
}

/// The tokens of a document with their counts, each once.
fn listing(doc: &Document) -> (e: Vec<(String, usize)>)
    ensures
        lists(e@, counts_of(doc.tokens)),
{
    entries(&doc.tokens)
}

/// The sum of the counts of a listing.
fn sum_counts(e: &Vec<(String, usize)>) -> (r: u128)
    ensures
        r == entries_total(e@),
{
    let mut tot: u128 = 0;
    let mut j: usize = 0;
    while j < e.len()
        invariant
            j <= e@.len(),
            tot == entries_total(e@.take(j as int)),
            tot <= j * (usize::MAX as int),
        decreases e@.len() - j,
    {
        assert(e@.take(j + 1).drop_last() =~= e@.take(j as int));
        proof {
            assert((j + 1) * (usize::MAX as int) == j * (usize::MAX as int) + usize::MAX) by (nonlinear_arith);
            assert(j * (usize::MAX as int) <= usize::MAX as int * usize::MAX as int) by (nonlinear_arith)
                requires
                    j <= usize::MAX,
            ;
        }
        tot = tot + e[j].1 as u128;
        j = j + 1;
    }
    assert(e@.take(e@.len() as int) =~= e@);
    tot
}

/// Adds the scores of document `i`.
fn score_document(
    sc: &mut Vec<Score>,
    freq: &DashMap<String, usize>,
    doc: &Document,
    n: usize,
    Ghost(docs): Ghost<Seq<Document>>,
    Ghost(i): Ghost<int>,
)
    requires
        0 <= i < docs.len() == n,
        docs[i] == *doc,
        distinct_ids(docs),
        holds_doc_freqs(counts_of(*freq), token_maps(docs)),
        scored_upto(docs, old(sc)@, i),
        covered_upto(docs, old(sc)@, i),
        unique_scores(old(sc)@),
    ensures
        scored_upto(docs, final(sc)@, i + 1),
        covered_upto(docs, final(sc)@, i + 1),
        unique_scores(final(sc)@),
{
    let ghost ms = token_maps(docs);
    let ghost m = counts_of(doc.tokens);
    assert(ms[i] == m);
    let e = listing(doc);
    let tot = sum_counts(&e);
    proof {
        lemma_counts_sum_to_total(e@, m);
        lemma_start_document(docs, sc@, i, e@);
    }
    let mut k: usize = 0;
    while k < e.len()
        invariant
            k <= e@.len(),
            0 <= i < docs.len() == n,
            docs[i] == *doc,
            ms == token_maps(docs),
            ms[i] == m,
            m == counts_of(doc.tokens),
            tot == total(m),
            distinct_ids(docs),
            holds_doc_freqs(counts_of(*freq), ms),
            lists(e@, m),
            scored_partly(docs, sc@, i, e@, k as int),
            covered_upto(docs, sc@, i),
            listed_scored(sc@, doc.id, e@, k as int),
            unique_scores(sc@),
        decreases e@.len() - k,
    {
        let t = &e[k].0;
        let ghost tv = e@[k as int].0@;
        proof {
            lemma_doc_freq_positive(ms, i, tv);
            lemma_doc_freq_bound(ms, tv);
            assert(m.contains_key(e@[k as int].0@));
            assert(counts_of(*freq).contains_key(tv));
            assert(counts_of(*freq)[tv] == doc_freq(ms, tv));
        }
        let dfv = count_of(freq, t);
        if let Some(v) = dfv {
            let s = Score {
                doc_id: doc.id,
                token: t.clone(),
                tf_idf: TfIdf { count: e[k].1, total: tot, df: v, n },
            };
            assert(s.token@ == tv);
            assert(scores_doc(docs, i, s));
            proof {
                lemma_push_score(docs, sc@, s, i, e@, k as int);
            }
            sc.push(s);
        }
        k = k + 1;
    }
    proof {
        lemma_end_document(docs, sc@, i, e@);
    }
}

/// `vo` is the vocabulary of `docs`: one entry for each token of some
/// document, with its document frequency.
pub open spec fn is_vocabulary(docs: Seq<Document>, vo: Seq<Weight>) -> bool {
    &&& forall|p: int| 0 <= p < vo.len() ==> #[trigger] weighs(docs, vo[p])
    &&& forall|t: Seq<char>|
        #[trigger] doc_freq(token_maps(docs), t) > 0 ==> exists|p: int|
            0 <= p < vo.len() && vo[p].token@ == t
    &&& forall|p: int, q: int|
        0 <= p < q < vo.len() ==> #[trigger] vo[p].token@ != #[trigger] vo[q].token@
}

/// `sc` holds exactly one score for each document and each of its tokens.
pub open spec fn is_scoring(docs: Seq<Document>, sc: Seq<Score>) -> bool {
    &&& scored_upto(docs, sc, docs.len() as int)
    &&& covered_upto(docs, sc, docs.len() as int)
    &&& unique_scores(sc)
}

/// One vocabulary entry for each counted token.
fn vocabulary_of(freq: &DashMap<String, usize>, n: usize, Ghost(docs): Ghost<Seq<Document>>) -> (vo:
    Vec<Weight>)
    requires
        n == docs.len(),
        holds_doc_freqs(counts_of(*freq), token_maps(docs)),
    ensures
        is_vocabulary(docs, vo@),
{
    let fe = entries(freq);
    let ghost c = counts_of(*freq);
    let mut vo: Vec<Weight> = Vec::new();
    let mut k: usize = 0;
    while k < fe.len()
        invariant
            k <= fe@.len(),
            n == docs.len(),
            holds_doc_freqs(c, token_maps(docs)),
            lists(fe@, c),
            vo@.len() == k,
            forall|p: int|
                0 <= p < k ==> #[trigger] vo@[p].token@ == fe@[p].0@ && vo@[p].df == fe@[p].1
                    && vo@[p].n == n,
        decreases fe@.len() - k,
    {
        vo.push(Weight { token: fe[k].0.clone(), df: fe[k].1, n });
        k = k + 1;
    }
    proof {
        assert forall|p: int| 0 <= p < vo@.len() implies #[trigger] weighs(docs, vo@[p]) by {
            assert(vo@[p].token@ == fe@[p].0@);
            assert(c.contains_key(fe@[p].0@));
        }
        assert forall|t: Seq<char>| #[trigger] doc_freq(token_maps(docs), t) > 0 implies exists|
            p: int,
        | 0 <= p < vo@.len() && vo@[p].token@ == t by {
            assert(c.contains_key(t));
            let a = choose|a: int| 0 <= a < fe@.len() && fe@[a].0@ == t;
            assert(vo@[a].token@ == fe@[a].0@);
        }
        assert forall|p: int, q: int| 0 <= p < q < vo@.len() implies #[trigger] vo@[p].token@
            != #[trigger] vo@[q].token@ by {
            assert(vo@[p].token@ == fe@[p].0@);
            assert(vo@[q].token@ == fe@[q].0@);
        }
    }
    vo
}

impl Indexer {
    /// The TF-IDF score of each token of each document, and the vocabulary:
    /// each token of some document with its document frequency.
    pub fn calculate_tf_idf(&self, documents: &Vec<Document>) -> (r: (Vec<Score>, Vec<Weight>))
        requires
            distinct_ids(documents@),
        ensures
            is_scoring(documents@, r.0@),
            is_vocabulary(documents@, r.1@),
    {
        let n = documents.len();
        let freq = document_frequencies(documents);
        let mut scores: Vec<Score> = Vec::new();
        let mut i: usize = 0;
        while i < n
            invariant
                i <= n == documents@.len(),
                distinct_ids(documents@),
                holds_doc_freqs(counts_of(freq), token_maps(documents@)),
                scored_upto(documents@, scores@, i as int),
                covered_upto(documents@, scores@, i as int),
                unique_scores(scores@),
            decreases n - i,
        {
            score_document(&mut scores, &freq, &documents[i], n, Ghost(documents@), Ghost(i as int));
            i = i + 1;
        }
        let vocabulary = vocabulary_of(&freq, n, Ghost(documents@));
        (scores, vocabulary)
    }
}

proof fn lemma_doc_freq_full(ms: Seq<Map<Seq<char>, nat>>, t: Seq<char>)
    ensures
        (doc_freq(ms, t) == ms.len()) == (forall|d: int|
            0 <= d < ms.len() ==> #[trigger] ms[d].contains_key(t)),
    decreases ms.len(),
{
    if ms.len() > 0 {
        let p = ms.drop_last();
        lemma_doc_freq_full(p, t);
        lemma_doc_freq_bound(p, t);
        if doc_freq(ms, t) == ms.len() {
            assert forall|d: int| 0 <= d < ms.len() implies #[trigger] ms[d].contains_key(t) by {
                if d < ms.len() - 1 {
                    assert(p[d] == ms[d]);
                }
            }
        }
        if forall|d: int| 0 <= d < ms.len() ==> #[trigger] ms[d].contains_key(t) {
            assert forall|d: int| 0 <= d < p.len() implies #[trigger] p[d].contains_key(t) by {
                assert(p[d] == ms[d]);
            }
            assert(ms[ms.len() - 1].contains_key(t));
        }
    }
}

/// The weight `ln(n / df)` of a vocabulary token lies between `0` and
/// `ln(n)`: its document frequency is at least one and at most the number of
/// documents. The weight is zero, `df == n`, exactly when every document
/// holds the token.
pub proof fn idf_bounds(docs: Seq<Document>, w: Weight)
    requires
        weighs(docs, w),
    ensures
        1 <= w.df <= w.n,
        (w.df == w.n) == (forall|d: int|
            0 <= d < docs.len() ==> #[trigger] token_maps(docs)[d].contains_key(w.token@)),
{
    lemma_doc_freq_bound(token_maps(docs), w.token@);
    lemma_doc_freq_full(token_maps(docs), w.token@);
}

/// Scoring is deterministic: any two scorings of the same documents give
/// each document and token the same score, made of the token's count, the
/// document's total, the token's document frequency and the number of
/// documents.
pub proof fn scoring_is_deterministic(docs: Seq<Document>, sc1: Seq<Score>, sc2: Seq<Score>, p: int)
    requires
        distinct_ids(docs),
        is_scoring(docs, sc1),
        is_scoring(docs, sc2),
        0 <= p < sc1.len(),
    ensures
        exists|q: int|
            0 <= q < sc2.len() && sc2[q].doc_id == sc1[p].doc_id && sc2[q].token@ == sc1[p].token@
                && #[trigger] sc2[q].tf_idf == sc1[p].tf_idf,
{
    let n = docs.len() as int;
    assert(from_doc_before(docs, sc1[p], n));
    let d = choose|d: int| 0 <= d < n && #[trigger] scores_doc(docs, d, sc1[p]);
    let t = sc1[p].token@;
    assert(token_maps(docs)[d].contains_key(t));
    let q = choose|q: int|
        0 <= q < sc2.len() && sc2[q].doc_id == docs[d].id && #[trigger] sc2[q].token@ == t;
    assert(from_doc_before(docs, sc2[q], n));
    let d2 = choose|d2: int| 0 <= d2 < n && #[trigger] scores_doc(docs, d2, sc2[q]);
    if d2 != d {
        if d < d2 {
            assert(docs[d].id != docs[d2].id);
        } else {
            assert(docs[d2].id != docs[d].id);
        }
    }
    assert(sc2[q].tf_idf == sc1[p].tf_idf);
}

/// With no documents there are no scores and no vocabulary.
pub proof fn empty_corpus(docs: Seq<Document>, sc: Seq<Score>, vo: Seq<Weight>)
    requires
        docs.len() == 0,
        is_scoring(docs, sc),
        is_vocabulary(docs, vo),
    ensures
        sc.len() == 0,
        vo.len() == 0,
{
    if sc.len() > 0 {
        assert(from_doc_before(docs, sc[0], 0));
    }
    if vo.len() > 0 {
        assert(weighs(docs, vo[0]));
    }
}

} // verus!
