use tfidf_search::{build_index, extract_document, tokenize, Document};

fn cv(s: &str) -> Vec<char> {
    s.chars().collect()
}

fn doc(id: &str, text: &str) -> Document {
    Document {
        id: cv(id),
        text: cv(text),
    }
}

#[test]
fn term_counts_are_occurrence_counts() {
    let docs = vec![doc("a", "the cat sat on the mat")];
    let idx = build_index(&docs);
    assert_eq!(idx.term_freq_per_doc.len(), 1);
    let tf = &idx.term_freq_per_doc[0].tf;
    assert_eq!(tf.get(&cv("the")), 2);
    assert_eq!(tf.get(&cv("cat")), 1);
    assert_eq!(tf.get(&cv("dog")), 0);
}

#[test]
fn total_terms_matches_retokenizing() {
    let text = "the cat sat on the mat";
    let docs = vec![doc("a", text)];
    let idx = build_index(&docs);
    let total = idx.term_freq_per_doc[0].tf.total();
    let retokenized = tokenize(&cv(text));
    assert_eq!(total, retokenized.len() as u64);
    assert_eq!(total, 6);
}

#[test]
fn doc_freq_counts_distinct_documents_not_occurrences() {
    let docs = vec![
        doc("a", "the cat sat on the mat"),
        doc("b", "the dog sat on the log"),
    ];
    let idx = build_index(&docs);
    // "the" occurs four times in all but only in two documents.
    assert_eq!(idx.doc_freq.get(&cv("the")), 2);
    assert_eq!(idx.doc_freq.get(&cv("sat")), 2);
    assert_eq!(idx.doc_freq.get(&cv("cat")), 1);
    assert_eq!(idx.doc_freq.get(&cv("dog")), 1);
    assert_eq!(idx.doc_freq.get(&cv("zebra")), 0);
    let n = idx.term_freq_per_doc.len() as u64;
    for term in ["the", "sat", "cat", "dog", "zebra"] {
        let df = idx.doc_freq.get(&cv(term));
        assert!(df <= n);
    }
}

#[test]
fn markup_extraction_strips_tags() {
    let d = extract_document(cv("vid1"), "<transcript><line>hello world</line></transcript>");
    let text: String = d.text.iter().collect();
    assert_eq!(text, "hello world ");
    let toks = tokenize(&d.text);
    let words: Vec<String> = toks.iter().map(|t| t.iter().collect()).collect();
    assert_eq!(words, vec!["hello".to_string(), "world".to_string()]);
}

#[test]
fn extraction_concatenates_text_runs() {
    let d = extract_document(cv("vid2"), "<a><b>one</b><b>two</b></a>");
    let text: String = d.text.iter().collect();
    assert_eq!(text, "one two ");
}
