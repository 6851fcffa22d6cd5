use inverted_index::rpc::{IndexServer, InvertedIndexService};
use inverted_index::simple_inverted_index::{
    make_batches, process_file, process_file_multithreaded, process_multi_file_multithreaded,
    MultiFileThreadedSimpleInvertedIndex, SimpleInvertedIndex, ThreadedSimpleInvertedIndex,
};
use inverted_index::tokenizer::tokenize_lines;
use inverted_index::{Document, InvertedIndex, TermIndex};

fn doc(path: &str, text: &str) -> Document {
    Document {
        path: path.to_string(),
        lines: vec![text.to_string()],
    }
}

fn scenario_a_corpus() -> Vec<Document> {
    vec![doc("doc0", "cat dog cat"), doc("doc1", "dog bird")]
}

fn sorted(mut v: Vec<String>) -> Vec<String> {
    v.sort();
    v
}

#[test]
fn scenario_a_sequential() {
    let index = SimpleInvertedIndex::build(scenario_a_corpus(), 1);
    assert_eq!(index.get("cat"), vec!["doc0".to_string(), "doc0".to_string()]);
    assert_eq!(index.get("dog"), vec!["doc0".to_string(), "doc1".to_string()]);
    assert_eq!(index.get("bird"), vec!["doc1".to_string()]);
    assert_eq!(index.get("zzz"), Vec::<String>::new());
}

#[test]
fn scenario_a_per_entity() {
    let index = ThreadedSimpleInvertedIndex::build(scenario_a_corpus(), 2);
    assert_eq!(
        sorted(index.get("cat")),
        vec!["doc0".to_string(), "doc0".to_string()]
    );
    assert_eq!(
        sorted(index.get("dog")),
        vec!["doc0".to_string(), "doc1".to_string()]
    );
    assert_eq!(index.get("zzz"), Vec::<String>::new());
}

#[test]
fn scenario_a_batched() {
    let index = MultiFileThreadedSimpleInvertedIndex::build(scenario_a_corpus(), 2);
    assert_eq!(
        sorted(index.get("cat")),
        vec!["doc0".to_string(), "doc0".to_string()]
    );
    assert_eq!(
        sorted(index.get("dog")),
        vec!["doc0".to_string(), "doc1".to_string()]
    );
    assert_eq!(index.get("zzz"), Vec::<String>::new());
}

#[test]
fn set_equivalence_across_strategies() {
    let corpus = vec![
        doc("a", "red green red blue"),
        doc("b", "green green"),
        doc("c", "blue red"),
    ];
    let mut reversed = corpus.clone();
    reversed.reverse();
    let sequential = SimpleInvertedIndex::build(corpus.clone(), 1);
    let per_entity = ThreadedSimpleInvertedIndex::build(reversed, 3);
    let batched = MultiFileThreadedSimpleInvertedIndex::build(corpus, 3);
    for term in ["red", "green", "blue", "absent"] {
        let expect = sorted(sequential.get(term));
        assert_eq!(sorted(per_entity.get(term)), expect);
        assert_eq!(sorted(batched.get(term)), expect);
    }
}

fn scenario_b_corpus() -> Vec<Document> {
    let mut corpus = Vec::new();
    for i in 0..3001 {
        corpus.push(doc(&format!("x{}", i), "x"));
    }
    corpus
}

#[test]
fn scenario_b_two_batches() {
    let batches = make_batches(scenario_b_corpus(), 3000);
    assert_eq!(batches.len(), 2);
    assert_eq!(batches[0].start, 0);
    assert_eq!(batches[0].files.len(), 3000);
    assert_eq!(batches[1].start, 3000);
    assert_eq!(batches[1].files.len(), 1);
}

#[test]
fn scenario_b_deterministic_ids() {
    let first = MultiFileThreadedSimpleInvertedIndex::build(scenario_b_corpus(), 1);
    let hits = first.get("x");
    assert_eq!(hits.len(), 3001);
    assert_eq!(hits[0], "x0");
    assert_eq!(hits[2999], "x2999");
    assert_eq!(hits[3000], "x3000");
    let second = MultiFileThreadedSimpleInvertedIndex::build(scenario_b_corpus(), 4);
    assert_eq!(second.get("x"), hits);
}

#[test]
fn scenario_c_failed_build_keeps_index() {
    let mut server = IndexServer::new();
    // Before any successful build the service answers with the empty
    // sequence, by its documented convention.
    assert_eq!(server.get(&"cat".to_string()), Vec::<String>::new());
    server.build(Some(scenario_a_corpus()));
    assert_eq!(
        server.get(&"cat".to_string()),
        vec!["doc0".to_string(), "doc0".to_string()]
    );
    // A failed corpus read must not disturb the index being served.
    server.build(None);
    assert_eq!(
        server.get(&"cat".to_string()),
        vec!["doc0".to_string(), "doc0".to_string()]
    );
}

#[test]
fn empty_lookup_is_not_an_error() {
    let empty = InvertedIndex::new();
    assert_eq!(empty.get("anything"), Vec::<String>::new());
    let index = InvertedIndex::build(scenario_a_corpus(), 1);
    assert_eq!(index.get("absent"), Vec::<String>::new());
    assert_eq!(index.get(""), Vec::<String>::new());
}

#[test]
fn occurrence_counts_are_kept() {
    let corpus = vec![doc("d", "Cat cat CAT dog"), doc("e", "cat")];
    let index = InvertedIndex::build(corpus, 1);
    assert_eq!(
        index.get("cat"),
        vec!["d".to_string(), "d".to_string(), "d".to_string(), "e".to_string()]
    );
    // The query is normalized by lowercasing, like the corpus.
    assert_eq!(index.get("CAT"), index.get("cat"));
    assert_eq!(index.get("dog"), vec!["d".to_string()]);
}

#[test]
fn ids_are_contiguous_table_indices() {
    let corpus = vec![doc("p", "one"), doc("q", "two"), doc("r", "three")];
    let index = InvertedIndex::build(corpus, 1);
    assert_eq!(index.get("one"), vec!["p".to_string()]);
    assert_eq!(index.get("two"), vec!["q".to_string()]);
    assert_eq!(index.get("three"), vec!["r".to_string()]);
}

#[test]
fn process_file_appends_documents() {
    let mut index = InvertedIndex::new();
    process_file(&mut index, &doc("doc0", "cat dog cat"));
    process_file(&mut index, &doc("doc1", "dog bird"));
    assert_eq!(index.get("cat"), vec!["doc0".to_string(), "doc0".to_string()]);
    assert_eq!(index.get("dog"), vec!["doc0".to_string(), "doc1".to_string()]);
}

#[test]
fn process_file_multithreaded_posts_under_next_id() {
    let mut index = InvertedIndex::new();
    let first = doc("doc1", "dog bird");
    let words = tokenize_lines(&first.lines);
    process_file_multithreaded(&mut index, &first.path, &words);
    let second = doc("doc0", "cat dog cat");
    let words = tokenize_lines(&second.lines);
    process_file_multithreaded(&mut index, &second.path, &words);
    // Arrival order decided the ids, so doc1 came first.
    assert_eq!(index.get("dog"), vec!["doc1".to_string(), "doc0".to_string()]);
    assert_eq!(index.get("cat"), vec!["doc0".to_string(), "doc0".to_string()]);
}

#[test]
fn process_multi_file_multithreaded_splices_batches() {
    let mut shared = TermIndex::new();
    let batch0 = vec![doc("doc0", "cat dog cat")];
    let batch1 = vec![doc("doc1", "dog bird")];
    // Merge in reverse completion order: counts must not change.
    process_multi_file_multithreaded(&mut shared, &batch1, 1);
    process_multi_file_multithreaded(&mut shared, &batch0, 0);
    let docs = vec!["doc0".to_string(), "doc1".to_string()];
    let index = InvertedIndex::from_parts(docs, shared);
    assert_eq!(sorted(index.get("dog")), vec!["doc0".to_string(), "doc1".to_string()]);
    assert_eq!(index.get("cat"), vec!["doc0".to_string(), "doc0".to_string()]);
    assert_eq!(index.get("bird"), vec!["doc1".to_string()]);
}

#[test]
fn batched_build_equals_sequential_exactly() {
    let corpus = vec![
        doc("a", "red green red blue"),
        doc("b", "green green"),
        doc("c", "blue red"),
    ];
    let sequential = SimpleInvertedIndex::build(corpus.clone(), 1);
    let batched = MultiFileThreadedSimpleInvertedIndex::build(corpus, 2);
    // Merged in batch order, the batched strategy reproduces the
    // sequential oracle entry for entry, posting order included.
    for term in ["red", "green", "blue", "absent"] {
        assert_eq!(batched.get(term), sequential.get(term));
    }
}

#[test]
fn empty_corpus_builds_empty_index() {
    let sequential = SimpleInvertedIndex::build(Vec::new(), 1);
    assert_eq!(sequential.get("cat"), Vec::<String>::new());
    let batched = MultiFileThreadedSimpleInvertedIndex::build(Vec::new(), 2);
    assert_eq!(batched.get("cat"), Vec::<String>::new());
    assert_eq!(make_batches(Vec::new(), 3000).len(), 0);
}

#[test]
fn multi_line_documents_read_in_order() {
    let corpus = vec![Document {
        path: "m".to_string(),
        lines: vec!["alpha beta".to_string(), "beta gamma".to_string()],
    }];
    let index = InvertedIndex::build(corpus, 1);
    assert_eq!(index.get("beta"), vec!["m".to_string(), "m".to_string()]);
    assert_eq!(index.get("alpha"), vec!["m".to_string()]);
    assert_eq!(index.get("gamma"), vec!["m".to_string()]);
}
