use tfidf_search::{tokenize, Lexer};

fn cv(s: &str) -> Vec<char> {
    s.chars().collect()
}

fn strings(tokens: &Vec<Vec<char>>) -> Vec<String> {
    tokens.iter().map(|t| t.iter().collect()).collect()
}

#[test]
fn stemming_equates_inflected_forms() {
    let a = tokenize(&cv("Running"));
    let b = tokenize(&cv("run"));
    assert_eq!(strings(&a), strings(&b));
    assert_eq!(strings(&a), vec!["run".to_string()]);
}

#[test]
fn case_folding_is_applied() {
    let a = tokenize(&cv("HELLO"));
    let b = tokenize(&cv("hello"));
    assert_eq!(strings(&a), strings(&b));
}

#[test]
fn scan_rules_split_words_numbers_and_symbols() {
    let toks = tokenize(&cv("hello, world 42"));
    assert_eq!(
        strings(&toks),
        vec![
            "hello".to_string(),
            ",".to_string(),
            "world".to_string(),
            "42".to_string()
        ]
    );
}

#[test]
fn numeric_runs_are_emitted_verbatim() {
    let toks = tokenize(&cv("123abc 007"));
    assert_eq!(
        strings(&toks),
        vec!["123".to_string(), "abc".to_string(), "007".to_string()]
    );
}

#[test]
fn punctuation_becomes_single_character_tokens() {
    let toks = tokenize(&cv("a+b"));
    assert_eq!(
        strings(&toks),
        vec!["a".to_string(), "+".to_string(), "b".to_string()]
    );
}

#[test]
fn whitespace_only_input_yields_no_tokens() {
    assert_eq!(tokenize(&cv("")).len(), 0);
    assert_eq!(tokenize(&cv("   \t\n  ")).len(), 0);
}

#[test]
fn lexer_cursor_methods() {
    let mut lx = Lexer::new(cv("  abc def"));
    lx.trim_left();
    let first = lx.chop(3);
    assert_eq!(first.iter().collect::<String>(), "abc");
    let mut lx2 = Lexer::new(cv("1109 rest"));
    let digits = lx2.chop_while(|c: char| c.is_numeric());
    assert_eq!(digits.iter().collect::<String>(), "1109");
}

#[test]
fn next_token_walks_the_whole_input() {
    let mut lx = Lexer::new(cv("The cats 12!"));
    let mut got: Vec<String> = Vec::new();
    while let Some(t) = lx.next_token() {
        got.push(t.iter().collect());
    }
    assert_eq!(
        got,
        vec![
            "the".to_string(),
            "cat".to_string(),
            "12".to_string(),
            "!".to_string()
        ]
    );
}
