use dfa_lexer::{keyword_automaton, Automaton, AutomatonBuilder, Lexer, Token, TokenKind, START};

#[derive(Clone, Copy, PartialEq, Eq, Debug)]
enum TestLexerTokenKind {
    While,
    If,
    Ident,
    Paren,
    Unknown,
}

impl TokenKind for TestLexerTokenKind {
    fn unknown() -> Self {
        Self::Unknown
    }

    fn has_text(&self) -> bool {
        self == &Self::Ident
    }
}

fn ident_dfa() -> Automaton<u8> {
    let mut ident_builder = AutomatonBuilder::<u8>::new();
    let rest = ident_builder.add_state(true);
    ident_builder.add_transition(START, rest, b'a', b'z');
    ident_builder.add_transition(START, rest, b'A', b'Z');
    ident_builder.add_transition(START, rest, b'_', b'_');
    ident_builder.add_transition(rest, rest, b'a', b'z');
    ident_builder.add_transition(rest, rest, b'A', b'Z');
    ident_builder.add_transition(rest, rest, b'_', b'_');
    ident_builder.add_transition(rest, rest, b'0', b'9');
    ident_builder.build()
}

fn with_sentinel(text: &str) -> Vec<Option<u8>> {
    text.bytes().map(Some).chain(Some(None)).collect()
}

fn standard_lexer() -> Lexer<u8, TestLexerTokenKind> {
    Lexer::new(vec![
        (keyword_automaton(&b"while"[..]), TestLexerTokenKind::While),
        (keyword_automaton(&b"if"[..]), TestLexerTokenKind::If),
        (keyword_automaton(&b"("[..]), TestLexerTokenKind::Paren),
        (ident_dfa(), TestLexerTokenKind::Ident),
    ])
}

#[test]
fn get_tokens() {
    let lexer = standard_lexer();

    let byte_iter = with_sentinel("if  while _neat1(cool 123f");

    let mut token_iter = lexer.lex(&byte_iter).into_iter();
    let get_kind = |t: Token<_, _>| t.kind;

    assert_eq!(token_iter.next().map(get_kind), Some(TestLexerTokenKind::If));
    assert_eq!(token_iter.next().map(get_kind), Some(TestLexerTokenKind::Unknown));
    assert_eq!(token_iter.next().map(get_kind), Some(TestLexerTokenKind::Unknown));
    assert_eq!(token_iter.next().map(get_kind), Some(TestLexerTokenKind::While));
    assert_eq!(token_iter.next().map(get_kind), Some(TestLexerTokenKind::Unknown));
    assert_eq!(token_iter.next().map(get_kind), Some(TestLexerTokenKind::Ident));
    assert_eq!(token_iter.next().map(get_kind), Some(TestLexerTokenKind::Paren));
    assert_eq!(token_iter.next().map(get_kind), Some(TestLexerTokenKind::Ident));
    assert_eq!(token_iter.next().map(get_kind), Some(TestLexerTokenKind::Unknown));
    assert_eq!(token_iter.next().map(get_kind), Some(TestLexerTokenKind::Unknown));
    assert_eq!(token_iter.next().map(get_kind), Some(TestLexerTokenKind::Unknown));
    assert_eq!(token_iter.next().map(get_kind), Some(TestLexerTokenKind::Unknown));
    assert_eq!(token_iter.next().map(get_kind), Some(TestLexerTokenKind::Ident));
    assert_eq!(token_iter.next().map(get_kind), None);
}

#[test]
fn get_ident() {
    let lexer = Lexer::new(vec![(ident_dfa(), TestLexerTokenKind::Ident)]);

    let byte_iter = with_sentinel("_hello123");

    let mut token_iter = lexer.lex(&byte_iter).into_iter();
    let token = token_iter.next().unwrap();

    assert_eq!(token.kind, TestLexerTokenKind::Ident);
    assert_eq!(token.text, Some("_hello123".bytes().collect()));
}

#[test]
fn longest_match_prefers_identifier_over_keyword_prefix() {
    let tokens = standard_lexer().lex(&with_sentinel("whilex"));
    assert_eq!(tokens.len(), 1);
    assert_eq!(tokens[0].kind, TestLexerTokenKind::Ident);
    assert_eq!(tokens[0].len, 6);
    assert_eq!(tokens[0].text, Some(b"whilex".to_vec()));
}

#[test]
fn earlier_registration_wins_a_tie() {
    let tokens = standard_lexer().lex(&with_sentinel("while"));
    assert_eq!(tokens.len(), 1);
    assert_eq!(tokens[0].kind, TestLexerTokenKind::While);
    assert_eq!(tokens[0].len, 5);
    assert_eq!(tokens[0].text, None);

    let ident_first = Lexer::new(vec![
        (ident_dfa(), TestLexerTokenKind::Ident),
        (keyword_automaton(&b"while"[..]), TestLexerTokenKind::While),
    ]);
    let tokens = ident_first.lex(&with_sentinel("while"));
    assert_eq!(tokens.len(), 1);
    assert_eq!(tokens[0].kind, TestLexerTokenKind::Ident);
}

#[test]
fn unmatched_symbols_become_unknown_tokens() {
    let tokens = standard_lexer().lex(&with_sentinel("a+-b"));
    let kinds: Vec<TestLexerTokenKind> = tokens.iter().map(|t| t.kind).collect();
    assert_eq!(
        kinds,
        vec![
            TestLexerTokenKind::Ident,
            TestLexerTokenKind::Unknown,
            TestLexerTokenKind::Unknown,
            TestLexerTokenKind::Ident,
        ]
    );
    let lens: Vec<usize> = tokens.iter().map(|t| t.len).collect();
    assert_eq!(lens, vec![1, 1, 1, 1]);
}

#[test]
fn keyword_prefix_that_fails_is_unknown() {
    let lexer = Lexer::new(vec![(keyword_automaton(&b"while"[..]), TestLexerTokenKind::While)]);
    let tokens = lexer.lex(&with_sentinel("whi"));
    assert_eq!(tokens.len(), 1);
    assert_eq!(tokens[0].kind, TestLexerTokenKind::Unknown);
    assert_eq!(tokens[0].len, 3);
}

#[test]
fn token_lengths_cover_the_input() {
    let input = "if  while _neat1(cool 123f";
    let tokens = standard_lexer().lex(&with_sentinel(input));
    let total: usize = tokens.iter().map(|t| t.len).sum();
    assert_eq!(total, input.len());
    let mut offset = 0;
    for token in &tokens {
        if let Some(text) = &token.text {
            assert_eq!(&text[..], &input.as_bytes()[offset..offset + token.len]);
        }
        offset += token.len;
    }
}

#[test]
fn empty_input_gives_one_empty_unknown_token() {
    let tokens = standard_lexer().lex(&[None]);
    assert_eq!(tokens.len(), 1);
    assert_eq!(tokens[0].kind, TestLexerTokenKind::Unknown);
    assert_eq!(tokens[0].len, 0);
}

#[test]
fn leading_unmatched_symbol_is_preceded_by_an_empty_token() {
    let tokens = standard_lexer().lex(&with_sentinel(" if"));
    let kinds: Vec<TestLexerTokenKind> = tokens.iter().map(|t| t.kind).collect();
    assert_eq!(
        kinds,
        vec![TestLexerTokenKind::Unknown, TestLexerTokenKind::Unknown, TestLexerTokenKind::If]
    );
    let lens: Vec<usize> = tokens.iter().map(|t| t.len).collect();
    assert_eq!(lens, vec![0, 1, 2]);
}

#[test]
fn step_holds_a_token_until_it_ends() {
    let mut lexer = standard_lexer();
    assert!(lexer.step(Some(b'i')).is_none());
    assert!(lexer.step(Some(b'f')).is_none());
    let token = lexer.step(Some(b'(')).unwrap();
    assert_eq!(token.kind, TestLexerTokenKind::If);
    assert_eq!(token.len, 2);
    let token = lexer.step(None).unwrap();
    assert_eq!(token.kind, TestLexerTokenKind::Paren);
    assert_eq!(token.len, 1);
}

#[test]
fn text_is_kept_only_for_kinds_that_ask() {
    let tokens = standard_lexer().lex(&with_sentinel("if x"));
    assert_eq!(tokens[0].kind, TestLexerTokenKind::If);
    assert_eq!(tokens[0].text, None);
    assert_eq!(tokens[2].kind, TestLexerTokenKind::Ident);
    assert_eq!(tokens[2].text, Some(vec![b'x']));
}
