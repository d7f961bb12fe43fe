use language::text::{byte_len, slice, snippet_end, SNIPPET_LIMIT};
use language::tokenizer::longest_match;
use language::{LexicalError, Token, TokenParseRule, TokenRule, Tokenizer};

#[derive(Clone, Debug, PartialEq)]
enum Word {
    Let,
    If,
    Identifier(String),
    Number(u32),
    Plus,
    Increment,
}

impl Token for Word {}

type Make = fn(&str) -> Word;

type Rule = TokenRule<Word, Make>;

fn identifier(text: &str) -> Word {
    Word::Identifier(text.to_string())
}

fn other_identifier(text: &str) -> Word {
    Word::Identifier(format!("other:{}", text))
}

fn number(text: &str) -> Word {
    Word::Number(text.parse().unwrap())
}

fn constant(pattern: &str, word: Word) -> Rule {
    TokenRule::new(pattern, TokenParseRule::Constant(word)).unwrap()
}

fn derive(pattern: &str, make: Make) -> Rule {
    TokenRule::new(pattern, TokenParseRule::Derive(make)).unwrap()
}

fn ignore(pattern: &str) -> Rule {
    TokenRule::new(pattern, TokenParseRule::Ignore).unwrap()
}

fn small_language() -> Vec<Rule> {
    vec![
        constant("let", Word::Let),
        constant("if", Word::If),
        derive("[0-9]+", number),
        ignore(r"\s+"),
        constant(r"\+", Word::Plus),
        constant(r"\+\+", Word::Increment),
        ignore("//.*"),
        derive("[A-Za-z_]+", identifier),
    ]
}

fn all(rules: Vec<Rule>, source: &str) -> (Vec<Word>, Option<LexicalError>) {
    let mut tokenizer = Tokenizer::new(rules, source);
    let mut tokens = Vec::new();
    loop {
        match tokenizer.next() {
            None => return (tokens, None),
            Some(Ok(token)) => tokens.push(token),
            Some(Err(error)) => {
                assert!(tokenizer.failed());
                assert!(tokenizer.next().is_none());
                assert!(tokenizer.next().is_none());
                return (tokens, Some(error));
            }
        }
    }
}

#[test]
fn longer_identifier_beats_keyword_prefix() {
    let rules = vec![constant("let", Word::Let), derive("[A-Za-z_]+", identifier)];
    let (tokens, error) = all(rules, "letx");
    assert_eq!(tokens, vec![Word::Identifier("letx".to_string())]);
    assert_eq!(error, None);
}

#[test]
fn longest_match_wins_over_earlier_rule() {
    let rules = vec![constant("if", Word::If), derive("[A-Za-z_]+", identifier)];
    let (tokens, error) = all(rules, "ifx");
    assert_eq!(tokens, vec![Word::Identifier("ifx".to_string())]);
    assert_eq!(error, None);
}

#[test]
fn earlier_rule_wins_a_tie() {
    let rules = vec![constant("let", Word::Let), derive("[A-Za-z_]+", identifier)];
    assert_eq!(all(rules, "let").0, vec![Word::Let]);
    let rules = vec![derive("[A-Za-z_]+", identifier), constant("let", Word::Let)];
    assert_eq!(all(rules, "let").0, vec![Word::Identifier("let".to_string())]);
}

#[test]
fn earlier_rule_wins_a_tie_among_many_rules() {
    for filler in 0..12 {
        let mut rules = Vec::new();
        for _ in 0..filler {
            rules.push(constant("zzz", Word::Plus));
        }
        rules.push(derive("[a-z]+", identifier));
        for _ in 0..filler {
            rules.push(constant("q", Word::If));
        }
        rules.push(derive("[a-z]+", other_identifier));
        rules.push(constant("abc", Word::Let));
        let (tokens, error) = all(rules, "abc");
        assert_eq!(tokens, vec![Word::Identifier("abc".to_string())]);
        assert_eq!(error, None);
    }
}

#[test]
fn unmatched_character_ends_in_an_error() {
    let (tokens, error) = all(small_language(), "@");
    assert_eq!(tokens, Vec::<Word>::new());
    assert_eq!(error, Some(LexicalError { offset: 0, snippet: "@".to_string() }));
}

#[test]
fn error_stops_the_scan_where_it_stands() {
    let source = "let x @ y";
    let mut tokenizer = Tokenizer::new(small_language(), source);
    assert_eq!(tokenizer.offset(), 0);
    assert_eq!(tokenizer.next(), Some(Ok(Word::Let)));
    assert_eq!(tokenizer.offset(), 3);
    assert_eq!(tokenizer.next(), Some(Ok(Word::Identifier("x".to_string()))));
    assert_eq!(tokenizer.offset(), 5);
    assert!(!tokenizer.failed());
    assert_eq!(
        tokenizer.next(),
        Some(Err(LexicalError { offset: 6, snippet: "@ y".to_string() }))
    );
    assert!(tokenizer.failed());
    assert_eq!(tokenizer.offset(), 6);
    assert_eq!(tokenizer.next(), None);
    assert_eq!(tokenizer.offset(), 6);
}

#[test]
fn ignored_text_gives_no_token() {
    let (tokens, error) = all(small_language(), "  let\n\t if // rest of line\n 12+ +++x  ");
    assert_eq!(
        tokens,
        vec![
            Word::Let,
            Word::If,
            Word::Number(12),
            Word::Plus,
            Word::Increment,
            Word::Plus,
            Word::Identifier("x".to_string()),
        ]
    );
    assert_eq!(error, None);
}

#[test]
fn long_runs_of_ignored_text_are_passed_over() {
    let mut source = String::new();
    for _ in 0..400 {
        source.push_str(" //c\n");
    }
    source.push_str("let");
    let mut tokenizer = Tokenizer::new(small_language(), &source);
    assert_eq!(tokenizer.next(), Some(Ok(Word::Let)));
    assert_eq!(tokenizer.offset(), source.len());
    assert_eq!(tokenizer.next(), None);
}

#[test]
fn empty_source_has_no_token() {
    let mut tokenizer = Tokenizer::new(small_language(), "");
    assert_eq!(tokenizer.next(), None);
    assert_eq!(tokenizer.next(), None);
    assert!(!tokenizer.failed());
    assert_eq!(tokenizer.offset(), 0);
}

#[test]
fn only_ignored_text_has_no_token() {
    let mut tokenizer = Tokenizer::new(small_language(), " \n ");
    assert_eq!(tokenizer.next(), None);
    assert!(!tokenizer.failed());
    assert_eq!(tokenizer.offset(), 3);
}

#[test]
fn no_rules_give_an_error_at_once() {
    let (tokens, error) = all(Vec::new(), "abc");
    assert_eq!(tokens, Vec::<Word>::new());
    assert_eq!(error, Some(LexicalError { offset: 0, snippet: "abc".to_string() }));
}

#[test]
fn match_must_begin_where_the_scan_stands() {
    let rules = vec![constant("let", Word::Let)];
    let (tokens, error) = all(rules, "xlet");
    assert_eq!(tokens, Vec::<Word>::new());
    assert_eq!(error, Some(LexicalError { offset: 0, snippet: "xlet".to_string() }));
}

#[test]
fn match_of_no_length_does_not_count() {
    let rules = vec![ignore("x*"), derive("[0-9]*", number)];
    let (tokens, error) = all(rules, "7xx8y");
    assert_eq!(tokens, vec![Word::Number(7), Word::Number(8)]);
    assert_eq!(error, Some(LexicalError { offset: 4, snippet: "y".to_string() }));
}

#[test]
fn derive_sees_the_matched_text_only() {
    let rules = vec![derive("[0-9]+", number), derive("[a-zé]+", identifier), ignore(" ")];
    let (tokens, error) = all(rules, "12 café 7");
    assert_eq!(
        tokens,
        vec![Word::Number(12), Word::Identifier("café".to_string()), Word::Number(7)]
    );
    assert_eq!(error, None);
}

#[test]
fn snippet_is_cut_after_the_limit() {
    let mut source = String::from("let ");
    for _ in 0..300 {
        source.push('#');
    }
    let (tokens, error) = all(small_language(), &source);
    assert_eq!(tokens, vec![Word::Let]);
    let error = error.unwrap();
    assert_eq!(error.offset, 4);
    assert_eq!(error.snippet.len(), SNIPPET_LIMIT);
    assert_eq!(error.snippet, "#".repeat(100));
}

#[test]
fn snippet_is_not_cut_inside_a_character() {
    let mut source = String::from("#");
    for _ in 0..80 {
        source.push('é');
    }
    let (_, error) = all(small_language(), &source);
    let error = error.unwrap();
    assert_eq!(error.offset, 0);
    assert_eq!(error.snippet.len(), 99);
    assert_eq!(error.snippet, source[..99]);
}

#[test]
fn pattern_that_does_not_compile_is_refused() {
    let rule: Result<Rule, _> = TokenRule::new("foo(bar", TokenParseRule::Ignore);
    let error = rule.err().unwrap();
    assert!(!error.message.is_empty());
    let rule: Result<Rule, _> = TokenRule::new("foo(bar)", TokenParseRule::Ignore);
    assert!(rule.is_ok());
}

#[test]
fn copied_rules_scan_alike() {
    let rules = small_language();
    let copies = rules.clone();
    let source = "let x1 ++ if";
    assert_eq!(all(rules, source), all(copies, source));
}

#[test]
fn longest_match_takes_the_first_of_the_longest() {
    assert_eq!(longest_match(&vec![], 0), None);
    assert_eq!(longest_match(&vec![None, None], 0), None);
    assert_eq!(longest_match(&vec![Some((2, 5)), None, Some((2, 4))], 2), Some((0, 5)));
    assert_eq!(longest_match(&vec![Some((2, 4)), None, Some((2, 5))], 2), Some((2, 5)));
    assert_eq!(longest_match(&vec![Some((2, 5)), Some((2, 5)), Some((2, 5))], 2), Some((0, 5)));
    assert_eq!(
        longest_match(&vec![None, Some((2, 3)), Some((2, 7)), Some((2, 7))], 2),
        Some((2, 7))
    );
}

#[test]
fn longest_match_skips_late_and_empty_matches() {
    assert_eq!(longest_match(&vec![Some((3, 9)), Some((2, 4))], 2), Some((1, 4)));
    assert_eq!(longest_match(&vec![Some((2, 2)), Some((3, 3))], 2), None);
    assert_eq!(longest_match(&vec![Some((2, 2)), Some((2, 3))], 2), Some((1, 3)));
    assert_eq!(longest_match(&vec![Some((0, 9))], 2), None);
}

#[test]
fn slice_cuts_between_byte_offsets() {
    let source = "añb";
    assert_eq!(byte_len(source), 4);
    assert_eq!(slice(source, 0, 0), "");
    assert_eq!(slice(source, 0, 1), "a");
    assert_eq!(slice(source, 1, 3), "ñ");
    assert_eq!(slice(source, 1, 4), "ñb");
    assert_eq!(slice(source, 4, 4), "");
    assert_eq!(slice(source, 0, 4), source);
}

#[test]
fn snippet_end_is_the_last_boundary_within_the_limit() {
    assert_eq!(snippet_end("abc", 0), 3);
    assert_eq!(snippet_end("abc", 3), 3);
    let long = "x".repeat(250);
    assert_eq!(snippet_end(&long, 0), 100);
    assert_eq!(snippet_end(&long, 100), 200);
    assert_eq!(snippet_end(&long, 200), 250);
    let wide = "é".repeat(100);
    assert_eq!(snippet_end(&wide, 0), 100);
    assert_eq!(snippet_end(&wide, 2), 102);
    let shifted = format!("x{}", wide);
    assert_eq!(snippet_end(&shifted, 0), 99);
    assert_eq!(snippet_end(&shifted, 1), 101);
}
