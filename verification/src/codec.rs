//! The persistence encoding: an index as a byte string, and back.
//!
//! Everything is little-endian and length-prefixed: counts and lengths as
//! eight bytes, characters as four.  Decoding accepts exactly what
//! encoding produces; a truncated stream, an invalid character value or
//! trailing bytes are data errors and yield no index at all.

use vstd::prelude::*;

use vstd::arithmetic::div_mod::lemma_fundamental_div_mod;

use crate::freq::TermFreq;
use crate::index::{DocEntry, Index};

verus! {

/// 256 to the `k`.
pub open spec fn pow256(k: int) -> int
    decreases k,
{
    if k <= 0 {
        1
    } else {
        256 * pow256(k - 1)
    }
}

/// `x` written as `n` little-endian bytes.
pub open spec fn le_bytes(x: int, n: nat) -> Seq<u8>
    decreases n,
{
    if n == 0 {
        Seq::empty()
    } else {
        seq![(x % 256) as u8] + le_bytes(x / 256, (n - 1) as nat)
    }
}

/// The value of a little-endian byte string.
pub open spec fn le_val(b: Seq<u8>) -> int
    decreases b.len(),
{
    if b.len() == 0 {
        0
    } else {
        b[0] + 256 * le_val(b.skip(1))
    }
}

pub proof fn lemma_le_bytes_len(x: int, n: nat)
    ensures
        le_bytes(x, n).len() == n,
    decreases n,
{
    if n > 0 {
        lemma_le_bytes_len(x / 256, (n - 1) as nat);
    }
}

pub proof fn lemma_le_round_trip(x: int, n: nat)
    requires
        0 <= x < pow256(n as int),
    ensures
        le_val(le_bytes(x, n)) == x,
    decreases n,
{
    if n == 0 {
    } else {
        lemma_fundamental_div_mod(x, 256);
        assert(x / 256 < pow256(n - 1)) by (nonlinear_arith)
            requires
                x < 256 * pow256(n - 1),
                x == 256 * (x / 256) + x % 256,
                0 <= x % 256 < 256,
        ;
        assert(x / 256 >= 0) by (nonlinear_arith)
            requires x >= 0 && x == 256 * (x / 256) + x % 256 && 0 <= x % 256 < 256,
        ;
        lemma_le_round_trip(x / 256, (n - 1) as nat);
        let b = le_bytes(x, n);
        assert(b[0] == (x % 256) as u8);
        assert(b.skip(1) =~= le_bytes(x / 256, (n - 1) as nat));
    }
}

pub proof fn lemma_le_val_bound(b: Seq<u8>)
    ensures
        0 <= le_val(b) < pow256(b.len() as int),
    decreases b.len(),
{
    if b.len() > 0 {
        lemma_le_val_bound(b.skip(1));
        assert(256 * le_val(b.skip(1)) <= 256 * (pow256(b.len() - 1) - 1)) by (nonlinear_arith)
            requires le_val(b.skip(1)) <= pow256(b.len() - 1) - 1,
        ;
        assert(256 * le_val(b.skip(1)) >= 0) by (nonlinear_arith)
            requires le_val(b.skip(1)) >= 0,
        ;
    }
}

/// A valid Unicode scalar value.
pub open spec fn valid_char(v: int) -> bool {
    (0 <= v < 0xD800) || (0xE000 <= v <= 0x10FFFF)
}

// ---- specification-level encoders (structure to bytes) ----

pub open spec fn enc_u64(x: int) -> Seq<u8> {
    le_bytes(x, 8)
}

pub open spec fn enc_char_payload(s: Seq<char>) -> Seq<u8>
    decreases s.len(),
{
    if s.len() == 0 {
        Seq::empty()
    } else {
        enc_char_payload(s.drop_last()) + le_bytes((s.last() as u32) as int, 4)
    }
}

pub open spec fn enc_chars(s: Seq<char>) -> Seq<u8> {
    enc_u64(s.len() as int) + enc_char_payload(s)
}

pub open spec fn enc_entry_payload(s: Seq<(Seq<char>, u64)>) -> Seq<u8>
    decreases s.len(),
{
    if s.len() == 0 {
        Seq::empty()
    } else {
        enc_entry_payload(s.drop_last()) + enc_chars(s.last().0) + enc_u64(s.last().1 as int)
    }
}

pub open spec fn enc_entries(s: Seq<(Seq<char>, u64)>) -> Seq<u8> {
    enc_u64(s.len() as int) + enc_entry_payload(s)
}

pub open spec fn enc_doc_payload(s: Seq<(Seq<char>, Seq<(Seq<char>, u64)>)>) -> Seq<u8>
    decreases s.len(),
{
    if s.len() == 0 {
        Seq::empty()
    } else {
        enc_doc_payload(s.drop_last()) + enc_chars(s.last().0) + enc_entries(s.last().1)
    }
}

/// The whole artifact: document count, the documents, then the global
/// document-frequency table.
pub open spec fn enc_index(
    docs: Seq<(Seq<char>, Seq<(Seq<char>, u64)>)>,
    df: Seq<(Seq<char>, u64)>,
) -> Seq<u8> {
    enc_u64(docs.len() as int) + enc_doc_payload(docs) + enc_entries(df)
}

// ---- specification-level decoders (bytes to structure and rest) ----

pub open spec fn dec_u64(b: Seq<u8>) -> Option<(int, Seq<u8>)> {
    if b.len() >= 8 {
        Some((le_val(b.take(8)), b.skip(8)))
    } else {
        None
    }
}

pub open spec fn dec_char_payload(b: Seq<u8>, n: int) -> Option<(Seq<char>, Seq<u8>)>
    decreases n,
{
    if n <= 0 {
        Some((Seq::empty(), b))
    } else if b.len() >= 4 {
        let v = le_val(b.take(4));
        if valid_char(v) {
            match dec_char_payload(b.skip(4), n - 1) {
                Some(pair) => Some((seq![(v as u32) as char] + pair.0, pair.1)),
                None => None,
            }
        } else {
            None
        }
    } else {
        None
    }
}

pub open spec fn dec_chars(b: Seq<u8>) -> Option<(Seq<char>, Seq<u8>)> {
    match dec_u64(b) {
        Some(pair) => dec_char_payload(pair.1, pair.0),
        None => None,
    }
}

pub open spec fn dec_entry_payload(b: Seq<u8>, n: int) -> Option<
    (Seq<(Seq<char>, u64)>, Seq<u8>),
>
    decreases n,
{
    if n <= 0 {
        Some((Seq::empty(), b))
    } else {
        match dec_chars(b) {
            Some(t) => match dec_u64(t.1) {
                Some(c) => if 0 <= c.0 <= u64::MAX {
                    match dec_entry_payload(c.1, n - 1) {
                        Some(rest) => Some((seq![(t.0, c.0 as u64)] + rest.0, rest.1)),
                        None => None,
                    }
                } else {
                    None
                },
                None => None,
            },
            None => None,
        }
    }
}

pub open spec fn dec_entries(b: Seq<u8>) -> Option<(Seq<(Seq<char>, u64)>, Seq<u8>)> {
    match dec_u64(b) {
        Some(pair) => dec_entry_payload(pair.1, pair.0),
        None => None,
    }
}

pub open spec fn dec_doc_payload(b: Seq<u8>, n: int) -> Option<
    (Seq<(Seq<char>, Seq<(Seq<char>, u64)>)>, Seq<u8>),
>
    decreases n,
{
    if n <= 0 {
        Some((Seq::empty(), b))
    } else {
        match dec_chars(b) {
            Some(t) => match dec_entries(t.1) {
                Some(e) => match dec_doc_payload(e.1, n - 1) {
                    Some(rest) => Some((seq![(t.0, e.0)] + rest.0, rest.1)),
                    None => None,
                },
                None => None,
            },
            None => None,
        }
    }
}

pub open spec fn dec_index(b: Seq<u8>) -> Option<
    ((Seq<(Seq<char>, Seq<(Seq<char>, u64)>)>, Seq<(Seq<char>, u64)>), Seq<u8>),
> {
    match dec_u64(b) {
        Some(pair) => match dec_doc_payload(pair.1, pair.0) {
            Some(d) => match dec_entries(d.1) {
                Some(e) => Some(((d.0, e.0), e.1)),
                None => None,
            },
            None => None,
        },
        None => None,
    }
}

// ---- what the encoders can represent ----

pub open spec fn chars_encodable(s: Seq<char>) -> bool {
    s.len() < pow256(8)
}

pub open spec fn entries_encodable(s: Seq<(Seq<char>, u64)>) -> bool {
    &&& s.len() < pow256(8)
    &&& forall|i: int| 0 <= i < s.len() ==> chars_encodable((#[trigger] s[i]).0)
}

pub open spec fn index_encodable(
    docs: Seq<(Seq<char>, Seq<(Seq<char>, u64)>)>,
    df: Seq<(Seq<char>, u64)>,
) -> bool {
    &&& docs.len() < pow256(8)
    &&& forall|i: int| 0 <= i < docs.len() ==> chars_encodable((#[trigger] docs[i]).0)
        && entries_encodable(docs[i].1)
    &&& entries_encodable(df)
}

// ---- front decompositions of the encoders ----

proof fn lemma_enc_char_payload_front(s: Seq<char>)
    requires
        s.len() > 0,
    ensures
        enc_char_payload(s) == le_bytes((s[0] as u32) as int, 4) + enc_char_payload(s.skip(1)),
    decreases s.len(),
{
    if s.len() == 1 {
        assert(s.drop_last() =~= Seq::<char>::empty());
        assert(s.skip(1) =~= Seq::<char>::empty());
        assert(enc_char_payload(s) =~= le_bytes((s[0] as u32) as int, 4) + enc_char_payload(s.skip(1)));
    } else {
        lemma_enc_char_payload_front(s.drop_last());
        assert(s.drop_last()[0] == s[0]);
        assert(s.skip(1).drop_last() =~= s.drop_last().skip(1));
        assert(s.skip(1).last() == s.last());
        assert(enc_char_payload(s) =~= le_bytes((s[0] as u32) as int, 4) + enc_char_payload(s.skip(1)));
    }
}

proof fn lemma_enc_entry_payload_front(s: Seq<(Seq<char>, u64)>)
    requires
        s.len() > 0,
    ensures
        enc_entry_payload(s) == enc_chars(s[0].0) + enc_u64(s[0].1 as int) + enc_entry_payload(
            s.skip(1),
        ),
    decreases s.len(),
{
    if s.len() == 1 {
        assert(s.drop_last() =~= Seq::<(Seq<char>, u64)>::empty());
        assert(s.skip(1) =~= Seq::<(Seq<char>, u64)>::empty());
        assert(enc_entry_payload(s) =~= enc_chars(s[0].0) + enc_u64(s[0].1 as int)
            + enc_entry_payload(s.skip(1)));
    } else {
        lemma_enc_entry_payload_front(s.drop_last());
        assert(s.drop_last()[0] == s[0]);
        assert(s.skip(1).drop_last() =~= s.drop_last().skip(1));
        assert(s.skip(1).last() == s.last());
        assert(enc_entry_payload(s) =~= enc_chars(s[0].0) + enc_u64(s[0].1 as int)
            + enc_entry_payload(s.skip(1)));
    }
}

proof fn lemma_enc_doc_payload_front(s: Seq<(Seq<char>, Seq<(Seq<char>, u64)>)>)
    requires
        s.len() > 0,
    ensures
        enc_doc_payload(s) == enc_chars(s[0].0) + enc_entries(s[0].1) + enc_doc_payload(
            s.skip(1),
        ),
    decreases s.len(),
{
    if s.len() == 1 {
        assert(s.drop_last() =~= Seq::<(Seq<char>, Seq<(Seq<char>, u64)>)>::empty());
        assert(s.skip(1) =~= Seq::<(Seq<char>, Seq<(Seq<char>, u64)>)>::empty());
        assert(enc_doc_payload(s) =~= enc_chars(s[0].0) + enc_entries(s[0].1)
            + enc_doc_payload(s.skip(1)));
    } else {
        lemma_enc_doc_payload_front(s.drop_last());
        assert(s.drop_last()[0] == s[0]);
        assert(s.skip(1).drop_last() =~= s.drop_last().skip(1));
        assert(s.skip(1).last() == s.last());
        assert(enc_doc_payload(s) =~= enc_chars(s[0].0) + enc_entries(s[0].1)
            + enc_doc_payload(s.skip(1)));
    }
}

// ---- round trips, one layer at a time ----

pub proof fn lemma_rt_u64(x: int, rest: Seq<u8>)
    requires
        0 <= x < pow256(8),
    ensures
        dec_u64(enc_u64(x) + rest) == Some((x, rest)),
{
    lemma_le_bytes_len(x, 8);
    let b = enc_u64(x) + rest;
    assert(b.take(8) =~= le_bytes(x, 8));
    assert(b.skip(8) =~= rest);
    lemma_le_round_trip(x, 8);
}

proof fn lemma_rt_char_payload(s: Seq<char>, rest: Seq<u8>)
    ensures
        dec_char_payload(enc_char_payload(s) + rest, s.len() as int) == Some((s, rest)),
    decreases s.len(),
{
    if s.len() == 0 {
        assert(enc_char_payload(s) + rest =~= rest);
    } else {
        lemma_enc_char_payload_front(s);
        let c0 = (s[0] as u32) as int;
        let b = enc_char_payload(s) + rest;
        lemma_le_bytes_len(c0, 4);
        assert(b =~= le_bytes(c0, 4) + (enc_char_payload(s.skip(1)) + rest));
        assert(b.take(4) =~= le_bytes(c0, 4));
        assert(b.skip(4) =~= enc_char_payload(s.skip(1)) + rest);
        vstd::utf8::char_is_scalar(s[0]);
        assert(pow256(4) == 0x100000000) by {
            reveal_with_fuel(pow256, 5);
        }
        assert(0 <= c0 < pow256(4));
        lemma_le_round_trip(c0, 4);
        assert(valid_char(c0));
        vstd::utf8::char_u32_cast(s[0], s[0] as u32);
        lemma_rt_char_payload(s.skip(1), rest);
        assert(c0 as u32 == s[0] as u32);
        vstd::utf8::char_u32_cast(s[0], s[0] as u32);
        assert((c0 as u32) as char == s[0]);
        assert(seq![s[0]] + s.skip(1) =~= s);
    }
}

pub proof fn lemma_rt_chars(s: Seq<char>, rest: Seq<u8>)
    requires
        chars_encodable(s),
    ensures
        dec_chars(enc_chars(s) + rest) == Some((s, rest)),
{
    let payload = enc_char_payload(s) + rest;
    assert(enc_chars(s) + rest =~= enc_u64(s.len() as int) + payload);
    lemma_rt_u64(s.len() as int, payload);
    lemma_rt_char_payload(s, rest);
}

proof fn lemma_rt_entry_payload(s: Seq<(Seq<char>, u64)>, rest: Seq<u8>)
    requires
        forall|i: int| 0 <= i < s.len() ==> chars_encodable((#[trigger] s[i]).0),
    ensures
        dec_entry_payload(enc_entry_payload(s) + rest, s.len() as int) == Some((s, rest)),
    decreases s.len(),
{
    if s.len() == 0 {
        assert(enc_entry_payload(s) + rest =~= rest);
    } else {
        lemma_enc_entry_payload_front(s);
        let b = enc_entry_payload(s) + rest;
        let tail1 = enc_u64(s[0].1 as int) + (enc_entry_payload(s.skip(1)) + rest);
        assert(b =~= enc_chars(s[0].0) + tail1);
        lemma_rt_chars(s[0].0, tail1);
        assert(0 <= s[0].1 < pow256(8)) by {
            reveal_with_fuel(pow256, 9);
        }
        lemma_rt_u64(s[0].1 as int, enc_entry_payload(s.skip(1)) + rest);
        assert forall|i: int| 0 <= i < s.skip(1).len() implies chars_encodable(
            (#[trigger] s.skip(1)[i]).0,
        ) by {
            assert(s.skip(1)[i] == s[i + 1]);
        }
        lemma_rt_entry_payload(s.skip(1), rest);
        assert((s[0].1 as int) as u64 == s[0].1);
        assert(seq![(s[0].0, s[0].1)] + s.skip(1) =~= s);
    }
}

pub proof fn lemma_rt_entries(s: Seq<(Seq<char>, u64)>, rest: Seq<u8>)
    requires
        entries_encodable(s),
    ensures
        dec_entries(enc_entries(s) + rest) == Some((s, rest)),
{
    let payload = enc_entry_payload(s) + rest;
    assert(enc_entries(s) + rest =~= enc_u64(s.len() as int) + payload);
    lemma_rt_u64(s.len() as int, payload);
    lemma_rt_entry_payload(s, rest);
}

proof fn lemma_rt_doc_payload(s: Seq<(Seq<char>, Seq<(Seq<char>, u64)>)>, rest: Seq<u8>)
    requires
        forall|i: int| 0 <= i < s.len() ==> chars_encodable((#[trigger] s[i]).0)
            && entries_encodable(s[i].1),
    ensures
        dec_doc_payload(enc_doc_payload(s) + rest, s.len() as int) == Some((s, rest)),
    decreases s.len(),
{
    if s.len() == 0 {
        assert(enc_doc_payload(s) + rest =~= rest);
    } else {
        lemma_enc_doc_payload_front(s);
        let b = enc_doc_payload(s) + rest;
        let tail1 = enc_entries(s[0].1) + (enc_doc_payload(s.skip(1)) + rest);
        assert(b =~= enc_chars(s[0].0) + tail1);
        lemma_rt_chars(s[0].0, tail1);
        lemma_rt_entries(s[0].1, enc_doc_payload(s.skip(1)) + rest);
        assert forall|i: int| 0 <= i < s.skip(1).len() implies chars_encodable(
            (#[trigger] s.skip(1)[i]).0,
        ) && entries_encodable(s.skip(1)[i].1) by {
            assert(s.skip(1)[i] == s[i + 1]);
        }
        lemma_rt_doc_payload(s.skip(1), rest);
        assert(seq![(s[0].0, s[0].1)] + s.skip(1) =~= s);
    }
}

/// Persisting an index and reading it back yields the identical structure:
/// the same documents in the same order with the same tables, and the same
/// global table, with nothing left over.
pub proof fn lemma_index_round_trip(
    docs: Seq<(Seq<char>, Seq<(Seq<char>, u64)>)>,
    df: Seq<(Seq<char>, u64)>,
)
    requires
        index_encodable(docs, df),
    ensures
        dec_index(enc_index(docs, df)) == Some(((docs, df), Seq::<u8>::empty())),
{
    let tail = enc_doc_payload(docs) + enc_entries(df);
    assert(enc_index(docs, df) =~= enc_u64(docs.len() as int) + tail);
    lemma_rt_u64(docs.len() as int, tail);
    assert(enc_entries(df) =~= enc_entries(df) + Seq::<u8>::empty());
    lemma_rt_doc_payload(docs, enc_entries(df));
    lemma_rt_entries(df, Seq::<u8>::empty());
}

/// The views of the indexed documents, as the codec sees them.
pub open spec fn doc_views(s: Seq<DocEntry>) -> Seq<(Seq<char>, Seq<(Seq<char>, u64)>)> {
    s.map_values(|e: DocEntry| (e.id@, e.tf@))
}

// ---- executable encoding ----

proof fn lemma_pow256_mono(a: int, b: int)
    requires
        a <= b,
    ensures
        pow256(a) <= pow256(b),
    decreases b - a,
{
    if a < b {
        lemma_pow256_mono(a, b - 1);
        lemma_pow256_pos(b - 1);
    }
}

proof fn lemma_pow256_pos(k: int)
    ensures
        pow256(k) >= 1,
    decreases k,
{
    if k > 0 {
        lemma_pow256_pos(k - 1);
    }
}

/// Append `width` little-endian bytes of `x`.
#[verifier::loop_isolation(false)]
fn push_le(out: &mut Vec<u8>, x: u64, width: usize)
    ensures
        final(out)@ == old(out)@ + le_bytes(x as int, width as nat),
{
    let ghost base = old(out)@;
    let mut y = x;
    let mut i: usize = 0;
    while i < width
        invariant
            i <= width,
            base + le_bytes(x as int, width as nat) == out@ + le_bytes(
                y as int,
                (width - i) as nat,
            ),
        decreases width - i,
    {
        proof {
            assert(le_bytes(y as int, (width - i) as nat) == seq![((y as int) % 256) as u8]
                + le_bytes((y as int) / 256, (width - i - 1) as nat));
            assert(((y % 256) as int) == (y as int) % 256);
            assert(((y / 256) as int) == (y as int) / 256);
        }
        let ghost out_pre = out@;
        out.push((y % 256) as u8);
        proof {
            assert(out@ + le_bytes((y as int) / 256, (width - i - 1) as nat) =~= out_pre
                + le_bytes(y as int, (width - i) as nat));
        }
        y = y / 256;
        i += 1;
    }
    proof {
        assert(le_bytes(y as int, 0) =~= Seq::<u8>::empty());
        assert(out@ =~= out@ + le_bytes(y as int, 0));
    }
}

/// Append a character vector: its length, then each character.
#[verifier::loop_isolation(false)]
fn push_chars(out: &mut Vec<u8>, s: &Vec<char>)
    ensures
        final(out)@ == old(out)@ + enc_chars(s@),
{
    let ghost base = old(out)@;
    push_le(out, s.len() as u64, 8);
    let mut i: usize = 0;
    proof {
        assert(enc_char_payload(s@.take(0)) =~= Seq::<u8>::empty());
        assert(out@ =~= base + enc_u64(s@.len() as int) + enc_char_payload(s@.take(0)));
    }
    while i < s.len()
        invariant
            i <= s@.len(),
            out@ == base + enc_u64(s@.len() as int) + enc_char_payload(s@.take(i as int)),
        decreases s@.len() - i,
    {
        let c = s[i];
        proof {
            assert(s@.take(i + 1).drop_last() =~= s@.take(i as int));
            assert(s@.take(i + 1).last() == s@[i as int]);
        }
        let ghost out_pre = out@;
        push_le(out, (c as u32) as u64, 4);
        proof {
            assert(((c as u32) as u64) as int == (c as u32) as int);
            assert(out@ =~= base + enc_u64(s@.len() as int) + enc_char_payload(
                s@.take(i + 1),
            ));
        }
        i += 1;
    }
    proof {
        assert(s@.take(s@.len() as int) =~= s@);
        assert(out@ =~= base + enc_chars(s@));
    }
}

/// Append a frequency table: its length, then each term and count.
#[verifier::loop_isolation(false)]
fn push_entries(out: &mut Vec<u8>, t: &TermFreq)
    ensures
        final(out)@ == old(out)@ + enc_entries(t@),
{
    let ghost base = old(out)@;
    push_le(out, t.len() as u64, 8);
    let n = t.len();
    let mut j: usize = 0;
    proof {
        assert(enc_entry_payload(t@.take(0)) =~= Seq::<u8>::empty());
        assert(out@ =~= base + enc_u64(t@.len() as int) + enc_entry_payload(t@.take(0)));
    }
    while j < n
        invariant
            j <= n,
            n == t@.len(),
            out@ == base + enc_u64(t@.len() as int) + enc_entry_payload(t@.take(j as int)),
        decreases n - j,
    {
        proof {
            assert(t@.take(j + 1).drop_last() =~= t@.take(j as int));
            assert(t@.take(j + 1).last() == t@[j as int]);
        }
        push_chars(out, t.term_at(j));
        push_le(out, t.count_at(j), 8);
        proof {
            assert(out@ =~= base + enc_u64(t@.len() as int) + enc_entry_payload(
                t@.take(j + 1),
            ));
        }
        j += 1;
    }
    proof {
        assert(t@.take(t@.len() as int) =~= t@);
        assert(out@ =~= base + enc_entries(t@));
    }
}

/// Encode the whole index as one byte string.
#[verifier::loop_isolation(false)]
pub fn encode_index(idx: &Index) -> (r: Vec<u8>)
    ensures
        r@ == enc_index(doc_views(idx.term_freq_per_doc@), idx.doc_freq@),
{
    let ghost dv = doc_views(idx.term_freq_per_doc@);
    let mut out: Vec<u8> = Vec::new();
    push_le(&mut out, idx.term_freq_per_doc.len() as u64, 8);
    let mut i: usize = 0;
    proof {
        assert(enc_doc_payload(dv.take(0)) =~= Seq::<u8>::empty());
        assert(out@ =~= Seq::<u8>::empty() + enc_u64(dv.len() as int) + enc_doc_payload(
            dv.take(0),
        ));
    }
    while i < idx.term_freq_per_doc.len()
        invariant
            i <= dv.len(),
            dv == doc_views(idx.term_freq_per_doc@),
            dv.len() == idx.term_freq_per_doc@.len(),
            out@ == Seq::<u8>::empty() + enc_u64(dv.len() as int) + enc_doc_payload(
                dv.take(i as int),
            ),
        decreases dv.len() - i,
    {
        let e = &idx.term_freq_per_doc[i];
        proof {
            assert(dv[i as int] == (e.id@, e.tf@));
            assert(dv.take(i + 1).drop_last() =~= dv.take(i as int));
            assert(dv.take(i + 1).last() == dv[i as int]);
        }
        push_chars(&mut out, &e.id);
        push_entries(&mut out, &e.tf);
        proof {
            assert(out@ =~= Seq::<u8>::empty() + enc_u64(dv.len() as int) + enc_doc_payload(
                dv.take(i + 1),
            ));
        }
        i += 1;
    }
    proof {
        assert(dv.take(dv.len() as int) =~= dv);
    }
    push_entries(&mut out, &idx.doc_freq);
    proof {
        assert(out@ =~= enc_index(dv, idx.doc_freq@));
    }
    out
}

// ---- executable decoding ----

/// Relies on char::from_u32, which std documents as returning the
/// character for every value except surrogates and values past the last
/// code point, and nothing for those.
pub assume_specification[ char::from_u32 ](i: u32) -> (r: Option<char>)
    ensures
        (r is Some) == valid_char(i as int),
        r matches Some(c) ==> c as u32 == i,
;

/// Read `width` little-endian bytes at `pos`.
#[verifier::loop_isolation(false)]
fn read_le(b: &Vec<u8>, pos: usize, width: usize) -> (r: Option<(u64, usize)>)
    requires
        pos <= b@.len(),
        1 <= width <= 8,
    ensures
        match r {
            Some(p) => p.1 == pos + width && pos + width <= b@.len() && p.0 as int == le_val(
                b@.skip(pos as int).take(width as int),
            ),
            None => b@.len() - pos < width,
        },
{
    if b.len() - pos < width {
        return None;
    }
    let ghost t = b@.skip(pos as int).take(width as int);
    let mut v: u64 = 0;
    let mut j: usize = width;
    proof {
        assert(t.skip(width as int) =~= Seq::<u8>::empty());
    }
    while j > 0
        invariant
            j <= width,
            pos + width <= b@.len(),
            t == b@.skip(pos as int).take(width as int),
            v as int == le_val(t.skip(j as int)),
        decreases j,
    {
        j -= 1;
        proof {
            lemma_le_val_bound(t.skip(j + 1));
            lemma_pow256_mono(t.skip(j + 1).len() as int, 7);
            assert(pow256(7) == 0x100000000000000) by {
                reveal_with_fuel(pow256, 8);
            }
            assert(v <= 0xFFFFFFFFFFFFFF);
            assert(t.skip(j as int)[0] == t[j as int]);
            assert(t.skip(j as int).skip(1) =~= t.skip(j + 1));
            assert(t[j as int] == b@[pos + j]);
        }
        v = v * 256 + (b[pos + j] as u64);
    }
    proof {
        assert(t.skip(0) =~= t);
    }
    Some((v, pos + width))
}

/// Read a length-prefixed count.
fn read_u64(b: &Vec<u8>, pos: usize) -> (r: Option<(u64, usize)>)
    requires
        pos <= b@.len(),
    ensures
        match r {
            Some(p) => pos + 8 == p.1 && p.1 <= b@.len() && dec_u64(b@.skip(pos as int))
                == Some((p.0 as int, b@.skip(p.1 as int))),
            None => dec_u64(b@.skip(pos as int)) is None,
        },
{
    let r = read_le(b, pos, 8);
    proof {
        match r {
            Some(p) => {
                assert(b@.skip(pos as int).skip(8) =~= b@.skip(pos + 8));
            },
            None => {
                assert(b@.skip(pos as int).len() < 8);
            },
        }
    }
    r
}

/// Read one character.
fn read_char(b: &Vec<u8>, pos: usize) -> (r: Option<(char, usize)>)
    requires
        pos <= b@.len(),
    ensures
        match r {
            Some(p) => {
                let v = le_val(b@.skip(pos as int).take(4));
                &&& p.1 == pos + 4
                &&& pos + 4 <= b@.len()
                &&& valid_char(v)
                &&& p.0 == (v as u32) as char
            },
            None => b@.len() - pos < 4 || !valid_char(le_val(b@.skip(pos as int).take(4))),
        },
{
    let (v, p2) = match read_le(b, pos, 4) {
        Some(p) => p,
        None => {
            return None;
        },
    };
    proof {
        lemma_le_val_bound(b@.skip(pos as int).take(4));
        assert(pow256(4) == 0x100000000) by {
            reveal_with_fuel(pow256, 5);
        }
    }
    let v32 = v as u32;
    match char::from_u32(v32) {
        Some(c) => {
            proof {
                vstd::utf8::char_u32_cast(c, c as u32);
            }
            Some((c, p2))
        },
        None => None,
    }
}

/// Read a length-prefixed character vector.
#[verifier::loop_isolation(false)]
fn read_chars(b: &Vec<u8>, pos: usize) -> (r: Option<(Vec<char>, usize)>)
    requires
        pos <= b@.len(),
    ensures
        match r {
            Some(p) => p.1 <= b@.len() && dec_chars(b@.skip(pos as int)) == Some((
                p.0@,
                b@.skip(p.1 as int),
            )),
            None => dec_chars(b@.skip(pos as int)) is None,
        },
{
    let (n, start) = match read_u64(b, pos) {
        Some(p) => p,
        None => {
            return None;
        },
    };
    let ghost rest0 = b@.skip(start as int);
    let mut acc: Vec<char> = Vec::new();
    let mut cur = start;
    let mut i: u64 = 0;
    while i < n
        invariant
            i <= n,
            cur <= b@.len(),
            acc@.len() == i,
            rest0 == b@.skip(start as int),
            match dec_char_payload(b@.skip(cur as int), n - i) {
                Some(pair) => dec_char_payload(rest0, n as int) == Some((
                    acc@ + pair.0,
                    pair.1,
                )),
                None => dec_char_payload(rest0, n as int) is None,
            },
        decreases n - i,
    {
        match read_char(b, cur) {
            Some((c, p2)) => {
                proof {
                    assert(b@.skip(cur as int).skip(4) =~= b@.skip(cur + 4));
                    let tail = dec_char_payload(b@.skip(cur + 4), n - i - 1);
                    match tail {
                        Some(pair) => {
                            assert(dec_char_payload(b@.skip(cur as int), n - i) == Some((
                                seq![c] + pair.0,
                                pair.1,
                            )));
                            assert(acc@ + (seq![c] + pair.0) =~= acc@.push(c) + pair.0);
                        },
                        None => {},
                    }
                }
                acc.push(c);
                cur = p2;
                i += 1;
            },
            None => {
                proof {
                    assert(dec_char_payload(b@.skip(cur as int), n - i) is None);
                }
                return None;
            },
        }
    }
    proof {
        assert(dec_char_payload(b@.skip(cur as int), 0) == Some((
            Seq::<char>::empty(),
            b@.skip(cur as int),
        )));
        assert(acc@ + Seq::<char>::empty() =~= acc@);
    }
    Some((acc, cur))
}

/// Read a length-prefixed frequency table.
#[verifier::loop_isolation(false)]
fn read_entries(b: &Vec<u8>, pos: usize) -> (r: Option<(TermFreq, usize)>)
    requires
        pos <= b@.len(),
    ensures
        match r {
            Some(p) => p.1 <= b@.len() && dec_entries(b@.skip(pos as int)) == Some((
                p.0@,
                b@.skip(p.1 as int),
            )),
            None => dec_entries(b@.skip(pos as int)) is None,
        },
{
    let (n, start) = match read_u64(b, pos) {
        Some(p) => p,
        None => {
            return None;
        },
    };
    let ghost rest0 = b@.skip(start as int);
    let mut acc = TermFreq::new();
    let mut cur = start;
    let mut i: u64 = 0;
    while i < n
        invariant
            i <= n,
            cur <= b@.len(),
            acc@.len() == i,
            rest0 == b@.skip(start as int),
            match dec_entry_payload(b@.skip(cur as int), n - i) {
                Some(pair) => dec_entry_payload(rest0, n as int) == Some((
                    acc@ + pair.0,
                    pair.1,
                )),
                None => dec_entry_payload(rest0, n as int) is None,
            },
        decreases n - i,
    {
        let (term, p2) = match read_chars(b, cur) {
            Some(p) => p,
            None => {
                proof {
                    assert(dec_entry_payload(b@.skip(cur as int), n - i) is None);
                }
                return None;
            },
        };
        let (count, p3) = match read_u64(b, p2) {
            Some(p) => p,
            None => {
                proof {
                    assert(dec_entry_payload(b@.skip(cur as int), n - i) is None);
                }
                return None;
            },
        };
        proof {
            let tail = dec_entry_payload(b@.skip(p3 as int), n - i - 1);
            match tail {
                Some(pair) => {
                    assert(dec_entry_payload(b@.skip(cur as int), n - i) == Some((
                        seq![(term@, count)] + pair.0,
                        pair.1,
                    )));
                    assert(acc@ + (seq![(term@, count)] + pair.0) =~= acc@.push((
                        term@,
                        count,
                    )) + pair.0);
                },
                None => {},
            }
        }
        acc.push_entry(term, count);
        cur = p3;
        i += 1;
    }
    proof {
        assert(dec_entry_payload(b@.skip(cur as int), 0) == Some((
            Seq::<(Seq<char>, u64)>::empty(),
            b@.skip(cur as int),
        )));
        assert(acc@ + Seq::<(Seq<char>, u64)>::empty() =~= acc@);
    }
    Some((acc, cur))
}

/// Decode a persisted index.  The whole byte string must be consumed: a
/// truncated stream, an invalid character or trailing bytes yield nothing.
#[verifier::loop_isolation(false)]
pub fn decode_index(b: &Vec<u8>) -> (r: Option<Index>)
    ensures
        match r {
            Some(idx) => dec_index(b@) == Some((
                (doc_views(idx.term_freq_per_doc@), idx.doc_freq@),
                Seq::<u8>::empty(),
            )),
            None => dec_index(b@) is None || (dec_index(b@) matches Some(p) && p.1.len()
                > 0),
        },
{
    proof {
        assert(b@.skip(0) =~= b@);
    }
    let (n, start) = match read_u64(b, 0) {
        Some(p) => p,
        None => {
            return None;
        },
    };
    let ghost rest0 = b@.skip(start as int);
    let mut docs: Vec<DocEntry> = Vec::new();
    let mut cur = start;
    let mut i: u64 = 0;
    while i < n
        invariant
            i <= n,
            cur <= b@.len(),
            doc_views(docs@).len() == i,
            rest0 == b@.skip(start as int),
            match dec_doc_payload(b@.skip(cur as int), n - i) {
                Some(pair) => dec_doc_payload(rest0, n as int) == Some((
                    doc_views(docs@) + pair.0,
                    pair.1,
                )),
                None => dec_doc_payload(rest0, n as int) is None,
            },
        decreases n - i,
    {
        let (id, p2) = match read_chars(b, cur) {
            Some(p) => p,
            None => {
                proof {
                    assert(dec_doc_payload(b@.skip(cur as int), n - i) is None);
                }
                return None;
            },
        };
        let (tf, p3) = match read_entries(b, p2) {
            Some(p) => p,
            None => {
                proof {
                    assert(dec_doc_payload(b@.skip(cur as int), n - i) is None);
                }
                return None;
            },
        };
        proof {
            let tail = dec_doc_payload(b@.skip(p3 as int), n - i - 1);
            match tail {
                Some(pair) => {
                    assert(dec_doc_payload(b@.skip(cur as int), n - i) == Some((
                        seq![(id@, tf@)] + pair.0,
                        pair.1,
                    )));
                },
                None => {},
            }
        }
        let ghost docs_pre = docs@;
        docs.push(DocEntry { id, tf });
        proof {
            assert(doc_views(docs@) =~= doc_views(docs_pre).push((
                docs@[docs_pre.len() as int].id@,
                docs@[docs_pre.len() as int].tf@,
            )));
            assert forall|pair: (Seq<(Seq<char>, Seq<(Seq<char>, u64)>)>, Seq<u8>)| true
                implies doc_views(docs_pre) + (seq![(doc_views(docs@).last().0, doc_views(
                docs@,
            ).last().1)] + pair.0) =~= doc_views(docs@) + pair.0 by {}
        }
        cur = p3;
        i += 1;
    }
    proof {
        assert(dec_doc_payload(b@.skip(cur as int), 0) == Some((
            Seq::<(Seq<char>, Seq<(Seq<char>, u64)>)>::empty(),
            b@.skip(cur as int),
        )));
        assert(doc_views(docs@) + Seq::<(Seq<char>, Seq<(Seq<char>, u64)>)>::empty()
            =~= doc_views(docs@));
    }
    let (df, p_end) = match read_entries(b, cur) {
        Some(p) => p,
        None => {
            return None;
        },
    };
    if p_end != b.len() {
        proof {
            assert(b@.skip(p_end as int).len() > 0);
        }
        return None;
    }
    proof {
        assert(b@.skip(p_end as int) =~= Seq::<u8>::empty());
    }
    Some(Index::new(docs, df))
}


} // verus!
