use ferret::client::Client;
use ferret::index::{Index, Indexer, MAX_FILE_SIZE, MIN_TOKEN_LENGTH};
use ferret::tfidf::{Score, TfIdf, Weight};
use ferret::writer::Writer;

fn indexer(min: usize) -> Indexer {
    Indexer { min_token_length: min, max_file_size: 10 }
}

fn count(indexer: &Indexer, content: &str, token: &str) -> Option<usize> {
    indexer.tokenize(content).get(token).map(|v| *v.value())
}

fn score<'a>(index: &'a Index, doc: usize, token: &str) -> &'a Score {
    let id = index.documents[doc].id;
    let found: Vec<&Score> =
        index.scores.iter().filter(|s| s.doc_id == id && s.token == token).collect();
    assert_eq!(found.len(), 1);
    found[0]
}

fn weight<'a>(index: &'a Index, token: &str) -> &'a Weight {
    let found: Vec<&Weight> = index.vocabulary.iter().filter(|w| w.token == token).collect();
    assert_eq!(found.len(), 1);
    found[0]
}

fn value(t: &TfIdf) -> f64 {
    (t.count as f64 / t.total as f64) * (t.n as f64 / t.df as f64).ln()
}

fn idf(w: &Weight) -> f64 {
    (w.n as f64 / w.df as f64).ln()
}

#[test]
fn two_document_scenario() {
    let ix = indexer(2);
    let paths = vec!["a.txt".to_string(), "b.txt".to_string()];
    let contents = vec!["cat dog cat".to_string(), "dog bird".to_string()];
    let index = ix.index_directories(&paths, &contents);
    assert_eq!(index.documents.len(), 2);
    assert_eq!(index.scores.len(), 4);
    assert_eq!(index.vocabulary.len(), 3);

    assert_eq!(weight(&index, "cat").df, 1);
    assert_eq!(weight(&index, "dog").df, 2);
    assert_eq!(weight(&index, "bird").df, 1);
    assert!((idf(weight(&index, "cat")) - 0.693147).abs() < 1e-6);
    assert_eq!(idf(weight(&index, "dog")), 0.0);
    assert!((idf(weight(&index, "bird")) - 0.693147).abs() < 1e-6);

    let a_cat = &score(&index, 0, "cat").tf_idf;
    assert_eq!((a_cat.count, a_cat.total, a_cat.df, a_cat.n), (2, 3, 1, 2));
    assert!((value(a_cat) - 0.462098).abs() < 1e-6);
    let a_dog = &score(&index, 0, "dog").tf_idf;
    assert_eq!((a_dog.count, a_dog.total, a_dog.df, a_dog.n), (1, 3, 2, 2));
    assert_eq!(value(a_dog), 0.0);
    assert!(a_dog.is_zero());
    let b_dog = &score(&index, 1, "dog").tf_idf;
    assert_eq!((b_dog.count, b_dog.total), (1, 2));
    assert_eq!(value(b_dog), 0.0);
    let b_bird = &score(&index, 1, "bird").tf_idf;
    assert_eq!((b_bird.count, b_bird.total, b_bird.df, b_bird.n), (1, 2, 1, 2));
    assert!((value(b_bird) - 0.346574).abs() < 1e-6);
    assert!(!b_bird.is_zero());
}

#[test]
fn documents_get_ids_names_and_paths() {
    let ix = indexer(2);
    let paths = vec!["src/lib.rs".to_string(), "/".to_string()];
    let contents = vec!["fn main".to_string(), String::new()];
    let docs = ix.document_files(&paths, &contents);
    assert_eq!(docs.len(), 2);
    assert_eq!(docs[0].id, 0);
    assert_eq!(docs[1].id, 1);
    assert_eq!(docs[0].name, "lib.rs");
    assert_eq!(docs[0].path, "src/lib.rs");
    assert_eq!(docs[1].name, "unknown");
    assert_eq!(docs[1].tokens.len(), 0);
}

#[test]
fn tf_sums_to_one_per_document() {
    let ix = indexer(2);
    let paths = vec!["a.md".to_string()];
    let contents = vec!["alpha beta alpha gamma alpha".to_string()];
    let index = ix.index_directories(&paths, &contents);
    let total: usize = index.scores.iter().map(|s| s.tf_idf.count).sum();
    for s in &index.scores {
        assert_eq!(s.tf_idf.total, 5);
    }
    assert_eq!(total, 5);
}

#[test]
fn idf_of_token_in_every_document_is_zero() {
    let ix = indexer(2);
    let paths = vec!["a".to_string(), "b".to_string(), "c".to_string()];
    let contents = vec!["common rare".to_string(), "common".to_string(), "common".to_string()];
    let index = ix.index_directories(&paths, &contents);
    let common = weight(&index, "common");
    assert_eq!((common.df, common.n), (3, 3));
    assert_eq!(idf(common), 0.0);
    let rare = weight(&index, "rare");
    assert_eq!((rare.df, rare.n), (1, 3));
    assert!(idf(rare) > 0.0 && idf(rare) <= (3.0f64).ln());
}

#[test]
fn empty_corpus_gives_empty_index() {
    let ix = Indexer::default();
    let index = ix.index_directories(&Vec::new(), &Vec::new());
    assert!(index.documents.is_empty());
    assert!(index.scores.is_empty());
    assert!(index.vocabulary.is_empty());
}

#[test]
fn shorter_list_bounds_documents() {
    let ix = indexer(2);
    let paths = vec!["a".to_string(), "b".to_string()];
    let contents = vec!["word".to_string()];
    let index = ix.index_directories(&paths, &contents);
    assert_eq!(index.documents.len(), 1);
}

#[test]
fn rerun_gives_same_scores() {
    let ix = indexer(2);
    let paths = vec!["x".to_string(), "y".to_string()];
    let contents = vec!["aa bb aa cc".to_string(), "bb dd".to_string()];
    let first = ix.index_directories(&paths, &contents);
    let second = ix.index_directories(&paths, &contents);
    for s in &first.scores {
        let t = &second.scores.iter().find(|o| o.doc_id == s.doc_id && o.token == s.token).unwrap().tf_idf;
        assert_eq!((t.count, t.total, t.df, t.n), (s.tf_idf.count, s.tf_idf.total, s.tf_idf.df, s.tf_idf.n));
    }
    assert_eq!(first.scores.len(), second.scores.len());
}

#[test]
fn default_configuration() {
    let ix = Indexer::default();
    assert_eq!(ix.min_token_length, MIN_TOKEN_LENGTH);
    assert_eq!(ix.max_file_size, MAX_FILE_SIZE);
    assert_eq!(MIN_TOKEN_LENGTH, 2);
    assert_eq!(MAX_FILE_SIZE, 10);
}

#[test]
fn tokenize_counts_repeated_words() {
    let ix = indexer(2);
    assert_eq!(count(&ix, "cat dog cat", "cat"), Some(2));
    assert_eq!(count(&ix, "cat dog cat", "dog"), Some(1));
    assert_eq!(ix.tokenize("cat dog cat").len(), 2);
}

#[test]
fn tokenize_splits_on_separators() {
    let ix = indexer(2);
    let m = ix.tokenize("foo(bar)[baz]{qux}<a1>,x;y:zz.ww!vv?\"uu\"'tt'`ss`");
    for t in ["foo", "bar", "baz", "qux", "a1", "zz", "ww", "vv", "uu", "tt", "ss"] {
        assert_eq!(m.get(t).map(|v| *v.value()), Some(1), "{}", t);
    }
    assert!(m.get("x").is_none());
    assert!(m.get("y").is_none());
}

#[test]
fn tokenize_trims_symbols() {
    let ix = indexer(2);
    assert_eq!(count(&ix, "__init__ --flag== *ptr* $var# @user^ ~home|", "init"), Some(1));
    assert_eq!(count(&ix, "--flag==", "flag"), Some(1));
    assert_eq!(count(&ix, "*ptr*", "ptr"), Some(1));
    assert_eq!(count(&ix, "snake_case", "snake_case"), Some(1));
    assert!(ix.tokenize("--- === ___").is_empty());
}

#[test]
fn tokenize_drops_numbers_and_short_fragments() {
    let ix = indexer(3);
    let m = ix.tokenize("12345 ab abc v2x 2024 x1y2");
    assert!(m.get("12345").is_none());
    assert!(m.get("2024").is_none());
    assert!(m.get("ab").is_none());
    assert_eq!(m.get("abc").map(|v| *v.value()), Some(1));
    assert_eq!(m.get("v2x").map(|v| *v.value()), Some(1));
    assert_eq!(m.get("x1y2").map(|v| *v.value()), Some(1));
    let two = indexer(2);
    assert!(two.tokenize("½¾ ٣٤").is_empty());
}

#[test]
fn tokenize_length_counts_bytes() {
    let ix = indexer(2);
    assert_eq!(count(&ix, "é", "é"), Some(1));
    assert!(ix.tokenize("e").is_empty());
}

#[test]
fn tokenize_splits_on_all_whitespace() {
    let ix = indexer(2);
    let m = ix.tokenize("cat\rdog\u{a0}emu\tfox\nowl");
    for t in ["cat", "dog", "emu", "fox", "owl"] {
        assert_eq!(m.get(t).map(|v| *v.value()), Some(1), "{}", t);
    }
    assert_eq!(m.len(), 5);
}

#[test]
fn tokenize_keeps_case() {
    let ix = indexer(2);
    let m = ix.tokenize("Foo foo FOO");
    assert_eq!(m.len(), 3);
}

#[test]
fn tokenize_with_zero_minimum() {
    let ix = indexer(0);
    let m = ix.tokenize("a , b");
    assert_eq!(m.len(), 2);
    assert!(ix.tokenize("").is_empty());
}

#[test]
fn parsable_by_extension() {
    assert!(Indexer::is_parsable("src/main.rs"));
    assert!(Indexer::is_parsable("notes.TXT"));
    assert!(Indexer::is_parsable("a/b/c.Json"));
    assert!(Indexer::is_parsable("style.scss"));
    assert!(!Indexer::is_parsable("photo.png"));
    assert!(!Indexer::is_parsable("archive.tar.gz"));
}

#[test]
fn parsable_by_basename() {
    assert!(Indexer::is_parsable("README"));
    assert!(Indexer::is_parsable("project/Makefile"));
    assert!(Indexer::is_parsable("LICENSE.unknownext"));
    assert!(Indexer::is_parsable("Dockerfile"));
    assert!(Indexer::is_parsable("gitignore"));
    assert!(!Indexer::is_parsable(".gitignore"));
    assert!(!Indexer::is_parsable("random"));
    assert!(!Indexer::is_parsable(""));
}

#[test]
fn eligibility_checks_size() {
    let ix = indexer(2);
    let limit = 10 * 1024 * 1024u64;
    assert!(ix.is_eligible(limit, "a.rs"));
    assert!(ix.is_eligible(0, "a.rs"));
    assert!(!ix.is_eligible(limit + 1, "a.rs"));
    assert!(!ix.is_eligible(1, "a.bin"));
    let none = Indexer { min_token_length: 2, max_file_size: 0 };
    assert!(none.is_eligible(0, "a.rs"));
    assert!(!none.is_eligible(1, "a.rs"));
    let huge = Indexer { min_token_length: 2, max_file_size: usize::MAX };
    assert!(huge.is_eligible(u64::MAX, "a.rs"));
}

#[test]
fn eligibility_is_stable() {
    let ix = indexer(2);
    for p in ["x.py", "y.bin", "CHANGELOG", "deep/dir/z.Md"] {
        assert_eq!(ix.is_eligible(100, p), ix.is_eligible(100, p));
        assert_eq!(Indexer::is_parsable(p), Indexer::is_parsable(p));
    }
}

#[test]
fn escape_quotes() {
    assert_eq!(Writer::escape("it's"), "it\\'s");
    assert_eq!(Writer::escape("plain"), "plain");
    assert_eq!(Writer::escape("''"), "\\'\\'");
    assert_eq!(Writer::escape(""), "");
}

#[test]
fn client_goal() {
    let c = Client::new("swipl", "dir//facts.pl");
    assert_eq!(c.swi_path, "swipl");
    assert_eq!(c.facts, "dir//facts.pl");
    assert_eq!(
        c.goal("token(D, 'cat', S)"),
        "consult('dir\\\\facts.pl'), forall(token(D, 'cat', S), writeln(_)), halt."
    );
    let d = Client::new("swipl", "a///b");
    assert_eq!(d.goal("q"), "consult('a\\\\/b'), forall(q, writeln(_)), halt.");
}

#[test]
fn tokenize_large_text_in_chunks() {
    let ix = indexer(2);
    let text = "alpha, beta\tgamma_ 42 ".repeat(5000);
    let m = ix.tokenize(&text);
    assert_eq!(m.get("alpha").map(|v| *v.value()), Some(5000));
    assert_eq!(m.get("beta").map(|v| *v.value()), Some(5000));
    assert_eq!(m.get("gamma").map(|v| *v.value()), Some(5000));
    assert!(m.get("42").is_none());
    assert_eq!(m.len(), 3);
}

#[test]
fn tokenize_keeps_long_runs_whole() {
    let ix = indexer(2);
    let long = "x".repeat(3000);
    let text = format!("{} yy {}", long, long);
    let m = ix.tokenize(&text);
    assert_eq!(m.get(long.as_str()).map(|v| *v.value()), Some(2));
    assert_eq!(m.get("yy").map(|v| *v.value()), Some(1));
    assert_eq!(m.len(), 2);
}

#[test]
fn chunk_tokens_reads_a_range() {
    let ix = indexer(2);
    let cs: Vec<char> = "one two three".chars().collect();
    assert_eq!(ix.chunk_tokens(&cs, 0, cs.len()), vec!["one", "two", "three"]);
    assert_eq!(ix.chunk_tokens(&cs, 4, 7), vec!["two"]);
    assert!(ix.chunk_tokens(&cs, 3, 3).is_empty());
}
