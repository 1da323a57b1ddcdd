//! The tokenizer: turns a character sequence into normalized terms.
//!
//! Scanning is longest-match-first: leading whitespace is skipped, a digit
//! starts a maximal numeric run (emitted as is), a letter starts a maximal
//! alphanumeric run (case-folded and then stemmed), and any other character
//! is a one-character token.  Every input tokenizes; there is no error case.

use vstd::prelude::*;

use crate::text::{alphabetic_char, lower_char, lower_seq, numeric_char, whitespace_char,
    to_lower_char};

verus! {

/// What the English Snowball stemmer returns for a word; the result depends
/// on the characters of the word alone.
pub uninterp spec fn stem_of(s: Seq<char>) -> Seq<char>;

/// Relies on rust_stemmers: `Stemmer::stem` with the English algorithm maps
/// a word to its linguistic stem, a pure function of the input characters.
#[verifier::external_body]
fn stem_word(w: &Vec<char>) -> (r: Vec<char>)
    ensures
        r@ == stem_of(w@),
{
    let s: String = w.iter().collect();
    let stemmer = rust_stemmers::Stemmer::create(rust_stemmers::Algorithm::English);
    stemmer.stem(&s).chars().collect()
}

/// Length of the maximal prefix of `s` whose characters all satisfy `p`.
pub open spec fn run_len(s: Seq<char>, p: spec_fn(char) -> bool) -> nat
    decreases s.len(),
{
    if s.len() > 0 && p(s[0]) {
        (1 + run_len(s.skip(1), p)) as nat
    } else {
        0
    }
}

proof fn lemma_run_len_le(s: Seq<char>, p: spec_fn(char) -> bool)
    ensures
        run_len(s, p) <= s.len(),
    decreases s.len(),
{
    if s.len() > 0 && p(s[0]) {
        lemma_run_len_le(s.skip(1), p);
    }
}

proof fn lemma_run_len_is(s: Seq<char>, p: spec_fn(char) -> bool, n: int)
    requires
        0 <= n <= s.len(),
        forall|i: int| 0 <= i < n ==> p(s[i]),
        n < s.len() ==> !p(s[n]),
    ensures
        run_len(s, p) == n,
    decreases n,
{
    if n == 0 {
    } else {
        assert(p(s[0]));
        assert forall|i: int| 0 <= i < n - 1 implies p(s.skip(1)[i]) by {
            assert(s.skip(1)[i] == s[i + 1]);
        }
        assert(n - 1 < s.skip(1).len() ==> !p(s.skip(1)[n - 1]));
        lemma_run_len_is(s.skip(1), p, n - 1);
    }
}

/// `s` without its maximal whitespace prefix.
pub open spec fn skip_ws(s: Seq<char>) -> Seq<char>
    decreases s.len(),
{
    if s.len() > 0 && whitespace_char(s[0]) {
        skip_ws(s.skip(1))
    } else {
        s
    }
}

proof fn lemma_skip_ws_le(s: Seq<char>)
    ensures
        skip_ws(s).len() <= s.len(),
    decreases s.len(),
{
    if s.len() > 0 && whitespace_char(s[0]) {
        lemma_skip_ws_le(s.skip(1));
    }
}

/// The next token of `s` and the rest of the input after it, or `None` when
/// only whitespace is left.  Alphabetic runs are folded to lower case and
/// stemmed; numeric runs and single symbols are emitted verbatim.
pub open spec fn token_split(s: Seq<char>) -> Option<(Seq<char>, Seq<char>)> {
    let t = skip_ws(s);
    if t.len() == 0 {
        None
    } else if numeric_char(t[0]) {
        let n = run_len(t, |c: char| numeric_char(c)) as int;
        Some((t.take(n), t.skip(n)))
    } else if alphabetic_char(t[0]) {
        let n = run_len(t, |c: char| alphabetic_char(c) || numeric_char(c)) as int;
        Some((stem_of(lower_seq(t.take(n))), t.skip(n)))
    } else {
        Some((t.take(1), t.skip(1)))
    }
}

pub proof fn lemma_token_split_shrinks(s: Seq<char>)
    ensures
        match token_split(s) {
            Some(pair) => pair.1.len() < s.len(),
            None => true,
        },
{
    lemma_skip_ws_le(s);
    let t = skip_ws(s);
    if t.len() > 0 {
        if numeric_char(t[0]) {
            lemma_run_len_le(t, |c: char| numeric_char(c));
        } else if alphabetic_char(t[0]) {
            lemma_run_len_le(t, |c: char| alphabetic_char(c) || numeric_char(c));
        }
    }
}

/// The full token sequence of `s`.
pub open spec fn tokens_of(s: Seq<char>) -> Seq<Seq<char>>
    decreases s.len(),
    via tokens_of_decreases
{
    match token_split(s) {
        None => Seq::empty(),
        Some(pair) => seq![pair.0] + tokens_of(pair.1),
    }
}

#[via_fn]
proof fn tokens_of_decreases(s: Seq<char>) {
    lemma_token_split_shrinks(s);
}

/// The views of a sequence of character vectors.
pub open spec fn views(r: Seq<Vec<char>>) -> Seq<Seq<char>> {
    r.map_values(|v: Vec<char>| v@)
}

/// A cursor over an owned character buffer; tokens are produced by
/// repeated calls to `next_token`.
pub struct Lexer {
    content: Vec<char>,
    pos: usize,
}

impl Lexer {
    /// The characters not yet consumed.
    pub closed spec fn remaining(&self) -> Seq<char> {
        self.content@.skip(self.pos as int)
    }

    pub closed spec fn wf(&self) -> bool {
        self.pos <= self.content@.len()
    }

    pub fn new(content: Vec<char>) -> (l: Lexer)
        ensures
            l.wf(),
            l.remaining() == content@,
    {
        let l = Lexer { content, pos: 0 };
        proof {
            assert(l.remaining() =~= l.content@);
        }
        l
    }

    /// Advance past the maximal whitespace prefix.
    pub fn trim_left(&mut self)
        requires
            old(self).wf(),
        ensures
            final(self).wf(),
            final(self).remaining() == skip_ws(old(self).remaining()),
    {
        while self.pos < self.content.len() && self.content[self.pos].is_whitespace()
            invariant
                self.wf(),
                self.content@ == old(self).content@,
                skip_ws(self.remaining()) == skip_ws(old(self).remaining()),
            decreases self.content@.len() - self.pos,
        {
            proof {
                let rem = self.remaining();
                assert(rem[0] == self.content@[self.pos as int]);
                assert(self.content@.skip(self.pos + 1 as int) =~= rem.skip(1));
            }
            self.pos = self.pos + 1;
        }
        proof {
            if self.pos < self.content@.len() {
                assert(self.remaining()[0] == self.content@[self.pos as int]);
            }
            assert(skip_ws(self.remaining()) == self.remaining());
        }
    }

    /// Remove the first `n` remaining characters and return them.
    pub fn chop(&mut self, n: usize) -> (tok: Vec<char>)
        requires
            old(self).wf(),
            n <= old(self).remaining().len(),
        ensures
            final(self).wf(),
            tok@ == old(self).remaining().take(n as int),
            final(self).remaining() == old(self).remaining().skip(n as int),
    {
        let clen = self.content.len();
        let mut tok: Vec<char> = Vec::new();
        let mut i: usize = 0;
        while i < n
            invariant
                i <= n,
                self == old(self),
                self.wf(),
                n <= self.remaining().len(),
                self.content@.len() == clen,
                tok@ =~= self.remaining().take(i as int),
            decreases n - i,
        {
            proof {
                assert(self.remaining()[i as int] == self.content@[self.pos + i]);
            }
            tok.push(self.content[self.pos + i]);
            i += 1;
        }
        self.pos = self.pos + n;
        proof {
            assert(self.remaining() =~= old(self).remaining().skip(n as int));
            assert(tok@ =~= old(self).remaining().take(n as int));
        }
        tok
    }

    /// Remove and return the maximal prefix of the remaining characters
    /// that satisfies `pred`.
    pub fn chop_while<F: Fn(char) -> bool>(&mut self, pred: F) -> (tok: Vec<char>)
        requires
            old(self).wf(),
            forall|c: char| #[trigger] call_requires(pred, (c,)),
        ensures
            final(self).wf(),
            tok@.len() <= old(self).remaining().len(),
            tok@ == old(self).remaining().take(tok@.len() as int),
            final(self).remaining() == old(self).remaining().skip(tok@.len() as int),
            forall|i: int| 0 <= i < tok@.len()
                ==> call_ensures(pred, (old(self).remaining()[i],), true),
            tok@.len() < old(self).remaining().len()
                ==> call_ensures(pred, (old(self).remaining()[tok@.len() as int],), false),
    {
        let clen = self.content.len();
        let mut n: usize = 0;
        loop
            invariant
                self == old(self),
                self.wf(),
                self.content@.len() == clen,
                self.pos + n <= self.content@.len(),
                forall|c: char| #[trigger] call_requires(pred, (c,)),
                forall|i: int| 0 <= i < n
                    ==> call_ensures(pred, (self.remaining()[i],), true),
            ensures
                self == old(self),
                n <= self.remaining().len(),
                forall|i: int| 0 <= i < n
                    ==> call_ensures(pred, (self.remaining()[i],), true),
                n < self.remaining().len()
                    ==> call_ensures(pred, (self.remaining()[n as int],), false),
            decreases self.content@.len() - self.pos - n,
        {
            if self.pos + n >= self.content.len() {
                break;
            }
            proof {
                assert(self.remaining()[n as int] == self.content@[self.pos + n]);
            }
            let keep = pred(self.content[self.pos + n]);
            if !keep {
                break;
            }
            n += 1;
        }
        self.chop(n)
    }

    /// The next normalized token, or `None` at the end of the input.
    pub fn next_token(&mut self) -> (t: Option<Vec<char>>)
        requires
            old(self).wf(),
        ensures
            final(self).wf(),
            match token_split(old(self).remaining()) {
                Some(pair) => t matches Some(v) && v@ == pair.0
                    && final(self).remaining() == pair.1,
                None => t is None && final(self).remaining().len() == 0,
            },
            t is Some ==> final(self).remaining().len() < old(self).remaining().len(),
    {
        self.trim_left();
        let ghost t0 = self.remaining();
        proof {
            lemma_token_split_shrinks(old(self).remaining());
            lemma_skip_ws_le(old(self).remaining());
        }
        if self.pos >= self.content.len() {
            proof {
                assert(t0.len() == 0);
            }
            return None;
        }
        proof {
            assert(t0.len() > 0);
            assert(t0[0] == self.content@[self.pos as int]);
        }
        let c0 = self.content[self.pos];
        if c0.is_numeric() {
            let tok = self.chop_while(|c: char| -> (b: bool)
                ensures b == numeric_char(c),
                { c.is_numeric() });
            proof {
                lemma_run_len_is(t0, |c: char| numeric_char(c), tok@.len() as int);
            }
            Some(tok)
        } else if c0.is_alphabetic() {
            let raw = self.chop_while(|c: char| -> (b: bool)
                ensures b == (alphabetic_char(c) || numeric_char(c)),
                { c.is_alphanumeric() });
            proof {
                lemma_run_len_is(t0, |c: char| alphabetic_char(c) || numeric_char(c),
                    raw@.len() as int);
            }
            let mut low: Vec<char> = Vec::new();
            let mut i: usize = 0;
            while i < raw.len()
                invariant
                    i <= raw@.len(),
                    low@.len() == i,
                    forall|j: int| 0 <= j < i ==> low@[j] == lower_char(raw@[j]),
                decreases raw@.len() - i,
            {
                low.push(to_lower_char(raw[i]));
                i += 1;
            }
            proof {
                assert(low@ =~= lower_seq(raw@));
            }
            Some(stem_word(&low))
        } else {
            let tok = self.chop(1);
            Some(tok)
        }
    }
}

/// All tokens of `text`, in order.
pub fn tokenize(text: &Vec<char>) -> (r: Vec<Vec<char>>)
    ensures
        views(r@) == tokens_of(text@),
{
    let copied = crate::text::copy_chars(text);
    let mut lx = Lexer::new(copied);
    let mut out: Vec<Vec<char>> = Vec::new();
    loop
        invariant
            lx.wf(),
            tokens_of(text@) == views(out@) + tokens_of(lx.remaining()),
        ensures
            tokens_of(lx.remaining()).len() == 0,
            tokens_of(text@) == views(out@) + tokens_of(lx.remaining()),
        decreases lx.remaining().len(),
    {
        let ghost rem0 = lx.remaining();
        let t = lx.next_token();
        match t {
            Some(v) => {
                proof {
                    let pair = token_split(rem0).unwrap();
                    assert(tokens_of(rem0) == seq![pair.0] + tokens_of(pair.1));
                    assert(views(out@.push(v)) =~= views(out@).push(v@));
                    assert(views(out@) + tokens_of(rem0)
                        =~= views(out@.push(v)) + tokens_of(lx.remaining()));
                }
                out.push(v);
            },
            None => {
                proof {
                    assert(token_split(rem0) is None);
                    assert(tokens_of(rem0) =~= Seq::<Seq<char>>::empty());
                }
                break;
            },
        }
    }
    proof {
        assert(tokens_of(text@) =~= views(out@));
    }
    out
}

} // verus!
