//! A small text-retrieval library: it tokenizes documents, builds a term
//! index with per-document term frequencies and global document frequencies,
//! persists that index as a byte string, and answers ranked keyword queries
//! with an exact fixed-point TF-IDF score.

mod codec;
mod freq;
mod index;
mod lexer;
mod manifest;
mod rank;
mod text;

pub use codec::decode_index;
pub use codec::encode_index;
pub use codec::lemma_index_round_trip;
pub use freq::TermFreq;
pub use index::build_index;
pub use index::extract_document;
pub use index::DocEntry;
pub use index::Document;
pub use index::Index;
pub use lexer::tokenize;
pub use lexer::Lexer;
pub use manifest::search_with_names;
pub use manifest::unnamed_docs;
pub use manifest::Manifest;
pub use manifest::NamedHit;
pub use rank::idf_milli;
pub use rank::search;
pub use rank::Hit;
pub use text::term_eq;
pub use text::to_lower_char;
