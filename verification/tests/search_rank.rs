use tfidf_search::{build_index, idf_milli, search, Document};

fn cv(s: &str) -> Vec<char> {
    s.chars().collect()
}

fn doc(id: &str, text: &str) -> Document {
    Document {
        id: cv(id),
        text: cv(text),
    }
}

#[test]
fn idf_exact_values() {
    // One decade apart: exactly 1000 thousandths.
    assert_eq!(idf_milli(10, 1), 1000);
    assert_eq!(idf_milli(100, 1), 2000);
    // A term in every document weighs nothing.
    assert_eq!(idf_milli(10, 10), 0);
    assert_eq!(idf_milli(1, 1), 0);
    // Within a decade: linear interpolation, floor((n - d) * 1000 / (9 d)).
    assert_eq!(idf_milli(4, 2), 111);
    assert_eq!(idf_milli(2, 1), 111);
    // Rarity is never rounded away entirely.
    assert!(idf_milli(1000, 999) >= 1);
}

#[test]
fn query_ranks_matching_document_first_and_filters_zero() {
    let docs = vec![
        doc("a", "the cat sat on the mat"),
        doc("b", "the dog sat on the log"),
    ];
    let idx = build_index(&docs);
    let hits = search(&idx, &cv("cat"));
    // Only document a scores above zero; b is filtered out.
    assert_eq!(hits.len(), 1);
    let id: String = hits[0].doc_id.iter().collect();
    assert_eq!(id, "a");
    // Exact score: one occurrence of a term with df 1 of 2 documents,
    // over six terms in the document.
    assert_eq!(hits[0].num, 1 * idf_milli(2, 1));
    assert_eq!(hits[0].num, 111);
    assert_eq!(hits[0].den, 6);
}

#[test]
fn absent_query_term_scores_every_document_zero() {
    let docs = vec![
        doc("a", "the cat sat on the mat"),
        doc("b", "the dog sat on the log"),
    ];
    let idx = build_index(&docs);
    let hits = search(&idx, &cv("zebra"));
    assert_eq!(hits.len(), 0);
}

#[test]
fn single_document_degenerate_case_scores_zero() {
    // With one document, idf of its only term is log10(1/1) = 0, so the
    // whole score is zero and the positive filter leaves nothing.
    let docs = vec![doc("only", "cat")];
    let idx = build_index(&docs);
    let hits = search(&idx, &cv("cat"));
    assert_eq!(hits.len(), 0);
}

#[test]
fn term_in_every_document_contributes_nothing() {
    let docs = vec![doc("a", "cat dog"), doc("b", "cat fish")];
    let idx = build_index(&docs);
    let hits = search(&idx, &cv("cat"));
    assert_eq!(hits.len(), 0);
}

#[test]
fn more_occurrences_never_lower_the_score() {
    // The same document once with one and once with two occurrences of
    // the query term; the other document is fixed.
    let before = build_index(&vec![doc("a", "cat mat"), doc("b", "dog")]);
    let after = build_index(&vec![doc("a", "cat cat mat"), doc("b", "dog")]);
    let h1 = search(&before, &cv("cat"));
    let h2 = search(&after, &cv("cat"));
    assert_eq!(h1.len(), 1);
    assert_eq!(h2.len(), 1);
    // Compare the exact fractions by cross-multiplication.
    let lhs = (h2[0].num as u128) * (h1[0].den as u128);
    let rhs = (h1[0].num as u128) * (h2[0].den as u128);
    assert!(lhs >= rhs);
}

#[test]
fn results_are_ordered_by_score_with_stable_ties() {
    let docs = vec![
        doc("low", "cat and a lot of other words here today"),
        doc("high", "cat cat"),
        doc("tie1", "cat mouse"),
        doc("tie2", "cat mouse"),
        doc("none", "dog"),
    ];
    let idx = build_index(&docs);
    let hits = search(&idx, &cv("cat"));
    assert_eq!(hits.len(), 4);
    let ids: Vec<String> = hits.iter().map(|h| h.doc_id.iter().collect()).collect();
    assert_eq!(ids[0], "high");
    // The two equal documents keep their index order.
    assert_eq!(ids[1], "tie1");
    assert_eq!(ids[2], "tie2");
    assert_eq!(ids[3], "low");
    for w in hits.windows(2) {
        let a = (w[0].num as u128) * (w[1].den as u128);
        let b = (w[1].num as u128) * (w[0].den as u128);
        assert!(a >= b);
    }
}

#[test]
fn at_most_ten_results_are_returned() {
    let mut docs = Vec::new();
    for i in 0..12 {
        let id = format!("d{}", i);
        let mut text = String::from("cat");
        for _ in 0..i {
            text.push_str(" pad");
        }
        docs.push(doc(&id, &text));
    }
    docs.push(doc("sink", "dog"));
    let idx = build_index(&docs);
    let hits = search(&idx, &cv("cat"));
    assert_eq!(hits.len(), 10);
}
