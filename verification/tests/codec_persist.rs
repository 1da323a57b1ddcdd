use tfidf_search::{build_index, decode_index, encode_index, Document};

fn cv(s: &str) -> Vec<char> {
    s.chars().collect()
}

fn doc(id: &str, text: &str) -> Document {
    Document {
        id: cv(id),
        text: cv(text),
    }
}

fn push_u64(out: &mut Vec<u8>, x: u64) {
    out.extend_from_slice(&x.to_le_bytes());
}

fn push_u32(out: &mut Vec<u8>, x: u32) {
    out.extend_from_slice(&x.to_le_bytes());
}

#[test]
fn empty_index_encodes_to_sixteen_zero_bytes() {
    let idx = build_index(&Vec::new());
    let bytes = encode_index(&idx);
    assert_eq!(bytes, vec![0u8; 16]);
}

#[test]
fn round_trip_reproduces_the_whole_structure() {
    let docs = vec![
        doc("a", "the cat sat on the mat"),
        doc("b", "the dog sat on the log"),
    ];
    let idx = build_index(&docs);
    let bytes = encode_index(&idx);
    let back = decode_index(&bytes).expect("round trip must decode");
    assert_eq!(back.term_freq_per_doc.len(), idx.term_freq_per_doc.len());
    for (orig, dec) in idx.term_freq_per_doc.iter().zip(back.term_freq_per_doc.iter()) {
        assert_eq!(orig.id, dec.id);
        assert_eq!(orig.tf.len(), dec.tf.len());
        assert_eq!(orig.tf.total(), dec.tf.total());
        for term in ["the", "cat", "sat", "on", "mat", "dog", "log", "zebra"] {
            assert_eq!(orig.tf.get(&cv(term)), dec.tf.get(&cv(term)));
        }
    }
    assert_eq!(idx.doc_freq.len(), back.doc_freq.len());
    for term in ["the", "cat", "sat", "on", "mat", "dog", "log", "zebra"] {
        assert_eq!(idx.doc_freq.get(&cv(term)), back.doc_freq.get(&cv(term)));
    }
    // Encoding is a function of the structure: re-encoding the decoded
    // index gives the same bytes.
    assert_eq!(encode_index(&back), bytes);
}

#[test]
fn truncated_stream_is_rejected() {
    assert!(decode_index(&vec![1, 2, 3]).is_none());
    let idx = build_index(&vec![doc("a", "cat")]);
    let mut bytes = encode_index(&idx);
    bytes.pop();
    assert!(decode_index(&bytes).is_none());
}

#[test]
fn trailing_bytes_are_rejected() {
    let idx = build_index(&vec![doc("a", "cat")]);
    let mut bytes = encode_index(&idx);
    bytes.push(0);
    assert!(decode_index(&bytes).is_none());
}

#[test]
fn invalid_character_value_is_rejected() {
    // Zero documents, then a document-frequency table with one row whose
    // term holds a surrogate code point.
    let mut bytes = Vec::new();
    push_u64(&mut bytes, 0); // document count
    push_u64(&mut bytes, 1); // doc-freq rows
    push_u64(&mut bytes, 1); // term length
    push_u32(&mut bytes, 0xD800); // not a Unicode scalar value
    push_u64(&mut bytes, 1); // count
    assert!(decode_index(&bytes).is_none());
}

#[test]
fn valid_hand_built_stream_decodes() {
    let mut bytes = Vec::new();
    push_u64(&mut bytes, 0); // document count
    push_u64(&mut bytes, 1); // doc-freq rows
    push_u64(&mut bytes, 1); // term length
    push_u32(&mut bytes, 'x' as u32);
    push_u64(&mut bytes, 7); // count
    let idx = decode_index(&bytes).expect("well-formed stream");
    assert_eq!(idx.term_freq_per_doc.len(), 0);
    assert_eq!(idx.doc_freq.get(&cv("x")), 7);
}
