//! The indexer's configuration and the index it builds.

use crate::counts::counts_of;
use crate::paths::{file_name, file_name_of};
use crate::tfidf::{distinct_ids, is_scoring, is_vocabulary, Score, Weight};
use crate::tokenizer::{count_map, tokens_of};
use dashmap::DashMap;
use rayon::iter::{IndexedParallelIterator, IntoParallelRefIterator, ParallelIterator};
use vstd::prelude::*;
use vstd::string::StringExecFns;

verus! {

/// Default least number of bytes of a token.
pub const MIN_TOKEN_LENGTH: usize = 2;

/// Default largest size of an indexed file, in MiB.
pub const MAX_FILE_SIZE: usize = 10;

/// One indexed file.
pub struct Document {
    pub id: usize,
    /// The file's name, or `unknown`.
    pub name: String,
    pub path: String,
    /// Each token of the file with its number of occurrences.
    pub tokens: DashMap<String, usize>,
}

/// The index of a set of files: its documents, the score of each token in
/// each document, and the vocabulary.
pub struct Index {
    pub documents: Vec<Document>,
    pub scores: Vec<Score>,
    pub vocabulary: Vec<Weight>,
}

/// The name shown for a file: its file name, or `unknown` where the path has
/// none.
pub open spec fn display_name(path: Seq<char>) -> Seq<char> {
    match file_name_of(path) {
        Some(n) => n,
        None => "unknown"@,
    }
}

/// `doc` is the document of the file at `path` with `content`, under `id`.
pub open spec fn builds(doc: Document, id: int, path: Seq<char>, content: Seq<char>, min: nat) -> bool {
    &&& doc.id == id
    &&& doc.path@ == path
    &&& doc.name@ == display_name(path)
    &&& counts_of(doc.tokens) == count_map(tokens_of(content, min))
}

/// Number of files given: the shorter of the two lists.
pub open spec fn pairs(paths: Seq<String>, contents: Seq<String>) -> int {
    if paths.len() <= contents.len() {
        paths.len() as int
    } else {
        contents.len() as int
    }
}

/// `docs` are the documents of the files given, the `i`-th under id `i`.
pub open spec fn documents_of(
    docs: Seq<Document>,
    paths: Seq<String>,
    contents: Seq<String>,
    min: nat,
) -> bool {
    &&& docs.len() == pairs(paths, contents)
    &&& forall|i: int|
        0 <= i < docs.len() ==> #[trigger] builds(docs[i], i, paths[i]@, contents[i]@, min)
}

/// Relies on rayon's indexed parallel iterators: `zip` pairs items of equal
/// index and stops at the shorter input, `enumerate` gives each item its
/// index, and `collect` into a `Vec` keeps the order of the items. Each item
/// is made by `Indexer::document`.
#[verifier::external_body]
fn build_documents(indexer: &Indexer, paths: &Vec<String>, contents: &Vec<String>) -> (r: Vec<
    Document,
>)
    ensures
        documents_of(r@, paths@, contents@, indexer.min_token_length as nat),
{
    paths.par_iter().zip(contents.par_iter()).enumerate().map(
        |(i, (p, c))| indexer.document(i, p, c),
    ).collect()
}

/// How files are chosen and split into tokens.
pub struct Indexer {
    pub min_token_length: usize,
    /// Largest size of an indexed file, in MiB.
    pub max_file_size: usize,
}

impl Default for Indexer {
    fn default() -> (r: Self)
        ensures
            r.min_token_length == MIN_TOKEN_LENGTH,
            r.max_file_size == MAX_FILE_SIZE,
    {
        Indexer { min_token_length: MIN_TOKEN_LENGTH, max_file_size: MAX_FILE_SIZE }
    }
}

impl Indexer {
    /// The document of the file at `path` with `content`, under `id`.
    pub fn document(&self, id: usize, path: &String, content: &String) -> (d: Document)
        ensures
            builds(d, id as int, path@, content@, self.min_token_length as nat),
    {
        let name = match file_name(path.as_str()) {
            Some(n) => n,
            None => String::from_str("unknown"),
        };
        Document { id, name, path: path.clone(), tokens: self.tokenize(content.as_str()) }
    }

    /// The documents of the files given, the `i`-th under id `i`, tokenized
    /// in parallel.
    pub fn document_files(&self, paths: &Vec<String>, contents: &Vec<String>) -> (r: Vec<Document>)
        ensures
            documents_of(r@, paths@, contents@, self.min_token_length as nat),
            distinct_ids(r@),
    {
        let r = build_documents(self, paths, contents);
        assert forall|a: int, b: int| 0 <= a < b < r@.len() implies r@[a].id != r@[b].id by {
            assert(builds(r@[a], a, paths@[a]@, contents@[a]@, self.min_token_length as nat));
            assert(builds(r@[b], b, paths@[b]@, contents@[b]@, self.min_token_length as nat));
        }
        r
    }

    /// Indexes the files given by their paths and contents.
    pub fn index_directories(&self, paths: &Vec<String>, contents: &Vec<String>) -> (r: Index)
        ensures
            documents_of(r.documents@, paths@, contents@, self.min_token_length as nat),
            distinct_ids(r.documents@),
            is_scoring(r.documents@, r.scores@),
            is_vocabulary(r.documents@, r.vocabulary@),
    {
        let documents = self.document_files(paths, contents);
        let (scores, vocabulary) = self.calculate_tf_idf(&documents);
        Index { documents, scores, vocabulary }
    }
}

} // verus!
