use tfidf_search::{build_index, search_with_names, unnamed_docs, Document, Manifest};

fn cv(s: &str) -> Vec<char> {
    s.chars().collect()
}

fn doc(id: &str, text: &str) -> Document {
    Document {
        id: cv(id),
        text: cv(text),
    }
}

#[test]
fn display_name_falls_back_to_sentinel() {
    let mut m = Manifest::new();
    m.add(cv("vid1"), cv("A Nice Title"));
    let named: String = m.display_name(&cv("vid1")).iter().collect();
    assert_eq!(named, "A Nice Title");
    let missing: String = m.display_name(&cv("vid2")).iter().collect();
    assert_eq!(missing, "N/a");
}

#[test]
fn contains_reports_known_identifiers() {
    let mut m = Manifest::new();
    assert!(!m.contains(&cv("vid1")));
    m.add(cv("vid1"), cv("A Nice Title"));
    assert!(m.contains(&cv("vid1")));
    assert!(!m.contains(&cv("vid")));
}

#[test]
fn unnamed_docs_skips_named_and_reserved_identifiers() {
    let docs = vec![
        doc("abc", "cat"),
        doc("manifest", "dog"),
        doc("xyz", "fish"),
    ];
    let idx = build_index(&docs);
    let mut m = Manifest::new();
    m.add(cv("abc"), cv("Named Already"));
    let unnamed = unnamed_docs(&idx, &m);
    let ids: Vec<String> = unnamed.iter().map(|v| v.iter().collect()).collect();
    assert_eq!(ids, vec!["xyz".to_string()]);
}

#[test]
fn named_search_carries_titles_and_sentinels() {
    let docs = vec![
        doc("a", "the cat sat on the mat"),
        doc("b", "the dog sat on the log"),
    ];
    let idx = build_index(&docs);
    let mut m = Manifest::new();
    m.add(cv("a"), cv("About Cats"));
    let hits = search_with_names(&idx, &m, &cv("cat dog"));
    assert_eq!(hits.len(), 2);
    let names: Vec<String> = hits.iter().map(|h| h.name.iter().collect()).collect();
    let ids: Vec<String> = hits.iter().map(|h| h.doc_id.iter().collect()).collect();
    assert_eq!(ids, vec!["a".to_string(), "b".to_string()]);
    assert_eq!(names, vec!["About Cats".to_string(), "N/a".to_string()]);
}
