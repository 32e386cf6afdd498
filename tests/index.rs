use docsearch::indexer::{rank, Indexer};
use docsearch::similarity::Score;
use docsearch::terms::{split_fields, term_frequency, TermVector};

fn value(s: &Score) -> f64 {
    s.dot as f64 / ((s.query_norm as f64).sqrt() * (s.doc_norm as f64).sqrt())
}

fn count(v: &TermVector, t: &str) -> u64 {
    let want: Vec<char> = t.chars().collect();
    v.entries.iter().filter(|e| e.term == want).map(|e| e.count).sum()
}

fn total(v: &TermVector) -> u64 {
    v.entries.iter().map(|e| e.count).sum()
}

#[test]
fn counts_sum_to_fields() {
    let v = term_frequency(&"a b a c".to_string());
    assert_eq!(total(&v), 4);
    assert_eq!(count(&v, "a"), 2);
    assert_eq!(count(&v, "b"), 1);
    assert_eq!(count(&v, "c"), 1);
    assert_eq!(v.entries.len(), 3);
}

#[test]
fn empty_text_has_one_empty_field() {
    let v = term_frequency(&String::new());
    assert_eq!(v.entries.len(), 1);
    assert_eq!(count(&v, ""), 1);
    assert_eq!(total(&v), 1);
}

#[test]
fn double_space_gives_empty_field() {
    let v = term_frequency(&"a  b ".to_string());
    assert_eq!(total(&v), 4);
    assert_eq!(count(&v, ""), 2);
    let f = split_fields(&"a  b ".to_string());
    assert_eq!(f.len(), 4);
}

#[test]
fn tokens_are_case_sensitive() {
    let v = term_frequency(&"Cat cat".to_string());
    assert_eq!(count(&v, "Cat"), 1);
    assert_eq!(count(&v, "cat"), 1);
}

#[test]
fn empty_index_has_no_results() {
    let ix = Indexer::new();
    assert!(ix.search("hello".to_string()).is_none());
    assert!(ix.search(String::new()).is_none());
}

#[test]
fn single_document_score() {
    let mut ix = Indexer::new();
    ix.add("hello world".to_string());
    let r = ix.search("hello".to_string()).unwrap();
    assert_eq!(r.len(), 1);
    assert_eq!(r[0].1, "hello world");
    assert_eq!(r[0].0, Score { dot: 1, query_norm: 1, doc_norm: 2 });
    assert!((value(&r[0].0) - 1.0 / 2f64.sqrt()).abs() < 1e-12);
}

#[test]
fn higher_score_ranks_first() {
    let mut ix = Indexer::new();
    ix.add("cat dog".to_string());
    ix.add("cat cat".to_string());
    let r = ix.search("cat".to_string()).unwrap();
    assert_eq!(r.len(), 2);
    assert_eq!(r[0].1, "cat dog");
    assert_eq!(r[1].1, "cat cat");
    assert!((value(&r[0].0) - 1.0 / 2f64.sqrt()).abs() < 1e-12);
    assert!((value(&r[1].0) - 1.0).abs() < 1e-12);
    let ranked = rank(r);
    assert_eq!(ranked[0].1, "cat cat");
    assert_eq!(ranked[1].1, "cat dog");
}

#[test]
fn unrelated_query_has_no_results() {
    let mut ix = Indexer::new();
    ix.add("alpha beta".to_string());
    assert!(ix.search("gamma".to_string()).is_none());
    assert!(ix.search("alpha".to_string()).is_some());
}

#[test]
fn repeated_search_is_stable() {
    let mut ix = Indexer::new();
    ix.add("a b c".to_string());
    ix.add("b b".to_string());
    ix.add("x".to_string());
    let first: Vec<(Score, String)> = ix.search("b a".to_string()).unwrap().into_iter().map(|(s, d)| (s, d.clone())).collect();
    let second: Vec<(Score, String)> = ix.search("b a".to_string()).unwrap().into_iter().map(|(s, d)| (s, d.clone())).collect();
    assert_eq!(first, second);
    assert_eq!(first.len(), 2);
}

#[test]
fn cosine_is_symmetric() {
    let mut one = Indexer::new();
    one.add("b c c".to_string());
    let mut two = Indexer::new();
    two.add("a b".to_string());
    let x = one.search("a b".to_string()).unwrap()[0].0;
    let y = two.search("b c c".to_string()).unwrap()[0].0;
    assert_eq!(x.dot, 1);
    assert_eq!(y.dot, 1);
    assert_eq!(x.query_norm * x.doc_norm, y.query_norm * y.doc_norm);
    assert_eq!(x.query_norm * x.doc_norm, 10);
    assert!(!x.less_than(&y) && !y.less_than(&x));
}

#[test]
fn empty_document_matches_empty_query() {
    let mut ix = Indexer::new();
    ix.add(String::new());
    ix.add("a".to_string());
    let r = ix.search(String::new()).unwrap();
    assert_eq!(r.len(), 1);
    assert_eq!(r[0].1, "");
    assert_eq!(r[0].0, Score { dot: 1, query_norm: 1, doc_norm: 1 });
}

#[test]
fn dot_product_multiplies_counts() {
    let mut ix = Indexer::new();
    ix.add("x x y y y z".to_string());
    let r = ix.search("x y y w".to_string()).unwrap();
    // x: 1 * 2, y: 2 * 3
    assert_eq!(r[0].0, Score { dot: 8, query_norm: 6, doc_norm: 14 });
}

#[test]
fn ties_keep_insertion_order() {
    let mut ix = Indexer::new();
    ix.add("k one".to_string());
    ix.add("k k".to_string());
    ix.add("k two".to_string());
    let r = rank(ix.search("k".to_string()).unwrap());
    let docs: Vec<&str> = r.iter().map(|(_, d)| d.as_str()).collect();
    assert_eq!(docs, vec!["k k", "k one", "k two"]);
}

#[test]
fn score_comparison_is_exact() {
    let half = Score { dot: 1, query_norm: 2, doc_norm: 2 };
    let also_half = Score { dot: 2, query_norm: 4, doc_norm: 4 };
    let more = Score { dot: 3, query_norm: 3, doc_norm: 5 };
    let zero = Score { dot: 5, query_norm: 0, doc_norm: 7 };
    assert!(!half.less_than(&also_half));
    assert!(!also_half.less_than(&half));
    assert!(half.less_than(&more));
    assert!(!more.less_than(&half));
    assert!(zero.less_than(&half));
    assert!(!zero.less_than(&zero));
    let big = Score { dot: u64::MAX, query_norm: u64::MAX, doc_norm: u64::MAX - 1 };
    let bigger = Score { dot: u64::MAX, query_norm: u64::MAX - 1, doc_norm: u64::MAX - 1 };
    assert!(big.less_than(&bigger));
    assert!(!bigger.less_than(&big));
}

#[test]
fn rank_of_nothing_is_empty() {
    let r = rank(Vec::new());
    assert!(r.is_empty());
}

#[test]
fn only_space_separates_terms() {
    let v = term_frequency(&"a\tb\nc".to_string());
    assert_eq!(v.entries.len(), 1);
    assert_eq!(count(&v, "a\tb\nc"), 1);
}

#[test]
fn every_count_is_positive() {
    let v = term_frequency(&"a b a".to_string());
    assert!(v.entries.iter().all(|e| e.count >= 1));
    assert_eq!(v.entries.len(), 2);
}

#[test]
fn field_order_does_not_matter() {
    let v = term_frequency(&"a b a".to_string());
    let w = term_frequency(&"a a b".to_string());
    let mut x: Vec<(Vec<char>, u64)> = v.entries.iter().map(|e| (e.term.clone(), e.count)).collect();
    let mut y: Vec<(Vec<char>, u64)> = w.entries.iter().map(|e| (e.term.clone(), e.count)).collect();
    x.sort();
    y.sort();
    assert_eq!(x, y);
}
