//! Character classification and case folding for the tokenizer.
//!
//! The Unicode character classes that `char`'s methods decide are far too
//! large to restate, so each method's result is given a name below and the
//! method is pinned to that name by an `assume_specification`.

use vstd::prelude::*;

verus! {

/// The characters that `char::is_whitespace` accepts.
pub uninterp spec fn whitespace_char(c: char) -> bool;

/// The characters that `char::is_numeric` accepts.
pub uninterp spec fn numeric_char(c: char) -> bool;

/// The characters that `char::is_alphabetic` accepts.
pub uninterp spec fn alphabetic_char(c: char) -> bool;

/// Relies on char::is_whitespace: whether a character has the Unicode
/// whitespace property depends on tables that are not restated here.
pub assume_specification[ char::is_whitespace ](c: char) -> (r: bool)
    ensures
        r == whitespace_char(c),
;

/// Relies on char::is_numeric: whether a character is in a Unicode numeric
/// category depends on tables that are not restated here.
pub assume_specification[ char::is_numeric ](c: char) -> (r: bool)
    ensures
        r == numeric_char(c),
;

/// Relies on char::is_alphabetic: whether a character has the Unicode
/// alphabetic property depends on tables that are not restated here.
pub assume_specification[ char::is_alphabetic ](c: char) -> (r: bool)
    ensures
        r == alphabetic_char(c),
;

/// Relies on char::is_alphanumeric, which std documents as accepting exactly
/// the alphabetic and the numeric characters.
pub assume_specification[ char::is_alphanumeric ](c: char) -> (r: bool)
    ensures
        r == (alphabetic_char(c) || numeric_char(c)),
;

/// ASCII case folding of one character: `A`..`Z` map to `a`..`z`, every
/// other character stays as it is.
pub open spec fn lower_char(c: char) -> char {
    if 'A' <= c && c <= 'Z' {
        ((c as u8) + 32) as char
    } else {
        c
    }
}

/// A whole sequence folded to lower case, character by character.
pub open spec fn lower_seq(s: Seq<char>) -> Seq<char> {
    s.map_values(|c: char| lower_char(c))
}

/// Executable ASCII case folding, the same mapping that std's
/// `char::to_ascii_lowercase` performs.
pub fn to_lower_char(c: char) -> (r: char)
    ensures
        r == lower_char(c),
{
    if 'A' <= c && c <= 'Z' {
        (c as u8 + 32) as char
    } else {
        c
    }
}

/// An exact copy of a character vector.
pub fn copy_chars(v: &Vec<char>) -> (r: Vec<char>)
    ensures
        r@ == v@,
{
    let mut r: Vec<char> = Vec::new();
    let mut i: usize = 0;
    while i < v.len()
        invariant
            i <= v@.len(),
            r@ =~= v@.take(i as int),
        decreases v@.len() - i,
    {
        r.push(v[i]);
        i += 1;
    }
    proof {
        assert(r@ =~= v@);
    }
    r
}

/// Whether two character vectors hold the same characters.
pub fn term_eq(a: &Vec<char>, b: &Vec<char>) -> (r: bool)
    ensures
        r == (a@ == b@),
{
    if a.len() != b.len() {
        return false;
    }
    let mut i: usize = 0;
    while i < a.len()
        invariant
            a@.len() == b@.len(),
            i <= a@.len(),
            forall|j: int| 0 <= j < i ==> a@[j] == b@[j],
        decreases a@.len() - i,
    {
        if a[i] != b[i] {
            return false;
        }
        i += 1;
    }
    proof {
        assert(a@ =~= b@);
    }
    true
}

} // verus!
