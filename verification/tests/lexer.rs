use metrics_push::lexer::{Lexer, LexerIter};
use metrics_push::token::Token;

fn tokens(text: &str) -> Vec<Token> {
    Lexer::new(text.to_string()).tokens()
}

fn ident(text: &str) -> Token {
    Token::Ident(text.to_string())
}

#[test]
fn iter_test() {
    let code = r#"http_code_name{label_1 = "v1", label_2 = "v2" } = 1.12"#;

    let expected = vec![
        Token::Ident("http_code_name".to_string()),
        Token::Lbrace,
        Token::Ident("label_1".to_string()),
        Token::Assign,
        Token::Dquot,
        Token::Ident("v1".to_string()),
        Token::Dquot,
        Token::Seperator,
        Token::Ident("label_2".to_string()),
        Token::Assign,
        Token::Dquot,
        Token::Ident("v2".to_string()),
        Token::Dquot,
        Token::Rbrace,
        Token::Assign,
        Token::Digit(1),
        Token::Floatp,
        Token::Digit(12),
    ];

    let lexer = Lexer::new(code.to_string());
    let mut iter = lexer.iter();
    let mut i = 0;

    while let Some(t) = iter.next() {
        assert_eq!(expected[i], t);
        i += 1;
    }
    assert_eq!(i, expected.len());
}

#[test]
fn tokens_collects_what_next_yields() {
    let code = r#"http_code_name{label_1 = "v1", label_2 = "v2" } = 1.12"#;
    let lexer = Lexer::new(code.to_string());
    let mut iter = lexer.iter();
    let mut pulled = Vec::new();
    while let Some(t) = iter.next() {
        pulled.push(t);
    }
    assert_eq!(pulled, lexer.tokens());
    assert_eq!(pulled.len(), 18);
}

#[test]
fn empty_and_blank_inputs_have_no_tokens() {
    assert_eq!(tokens(""), vec![]);
    assert_eq!(tokens(" \t\r\n  "), vec![]);
    let mut iter = LexerIter::new("   ");
    assert_eq!(iter.next(), None);
    assert_eq!(iter.next(), None);
}

#[test]
fn last_token_at_end_of_input_is_read() {
    assert_eq!(tokens("abc"), vec![ident("abc")]);
    assert_eq!(tokens("  42"), vec![Token::Digit(42)]);
    assert_eq!(tokens("x}"), vec![ident("x"), Token::Rbrace]);
}

#[test]
fn decimal_number_is_three_tokens() {
    assert_eq!(tokens("1.12"), vec![Token::Digit(1), Token::Floatp, Token::Digit(12)]);
}

#[test]
fn punctuation_is_always_its_own_token() {
    assert_eq!(
        tokens(r#"={}",."#),
        vec![
            Token::Assign,
            Token::Lbrace,
            Token::Rbrace,
            Token::Dquot,
            Token::Seperator,
            Token::Floatp,
        ]
    );
    assert_eq!(tokens("=="), vec![Token::Assign, Token::Assign]);
}

#[test]
fn a_letter_closes_a_number_and_a_word_takes_digits() {
    assert_eq!(tokens("12ab"), vec![Token::Digit(12), ident("ab")]);
    assert_eq!(tokens("ab12"), vec![ident("ab12")]);
    assert_eq!(tokens("_x9 y"), vec![ident("_x9"), ident("y")]);
}

#[test]
fn leading_zeros_are_kept_out_of_the_value() {
    assert_eq!(tokens("007"), vec![Token::Digit(7)]);
    assert_eq!(tokens("0"), vec![Token::Digit(0)]);
}

#[test]
fn number_at_the_limit_and_beyond() {
    assert_eq!(tokens("18446744073709551615"), vec![Token::Digit(u64::MAX)]);
    assert_eq!(tokens("18446744073709551616"), vec![Token::Illegal]);
    assert_eq!(tokens("99999999999999999999999 7"), vec![Token::Illegal, Token::Digit(7)]);
}

#[test]
fn stray_characters_make_one_illegal_token_per_run() {
    assert_eq!(tokens("#"), vec![Token::Illegal]);
    assert_eq!(tokens("#$%"), vec![Token::Illegal]);
    assert_eq!(tokens("a#b"), vec![ident("a"), Token::Illegal, ident("b")]);
    assert_eq!(tokens("# $"), vec![Token::Illegal, Token::Illegal]);
    assert_eq!(tokens("-1"), vec![Token::Illegal, Token::Digit(1)]);
    assert_eq!(tokens("#="), vec![Token::Illegal, Token::Assign]);
}

#[test]
fn text_beyond_ascii_is_illegal() {
    assert_eq!(tokens("é"), vec![Token::Illegal]);
    assert_eq!(tokens("aé1"), vec![ident("a"), Token::Illegal, Token::Digit(1)]);
    assert_eq!(tokens("日本 x"), vec![Token::Illegal, ident("x")]);
}

#[test]
fn a_new_pass_starts_over() {
    let lexer = Lexer::new("a b".to_string());
    let mut first = lexer.iter();
    assert_eq!(first.next(), Some(ident("a")));
    let mut second = lexer.iter();
    assert_eq!(second.next(), Some(ident("a")));
    assert_eq!(first.next(), Some(ident("b")));
    assert_eq!(first.next(), None);
}

#[test]
fn character_classes() {
    for c in [' ', '\t', '\n', '\r'] {
        assert!(LexerIter::is_blank(c));
        assert!(!LexerIter::is_letter(c));
        assert!(!LexerIter::is_digit(c));
    }
    for c in ['a', 'z', 'A', 'Z', '_', 'm'] {
        assert!(LexerIter::is_letter(c));
        assert!(!LexerIter::is_blank(c));
        assert!(!LexerIter::is_digit(c));
    }
    for c in ['0', '5', '9'] {
        assert!(LexerIter::is_digit(c));
        assert!(!LexerIter::is_letter(c));
    }
    for c in ['=', '{', '}', '"', ',', '.'] {
        assert!(LexerIter::is_punct(c));
        assert!(!LexerIter::is_letter(c));
        assert!(!LexerIter::is_digit(c));
        assert!(!LexerIter::is_blank(c));
    }
    for c in ['`', '{', '@', '[', '/', ':', '-', 'é'] {
        assert!(!LexerIter::is_letter(c));
        assert!(!LexerIter::is_digit(c));
    }
}

#[test]
fn tokens_are_no_more_than_bytes() {
    for text in ["", "a", "={}", "a b c", "1.12", "é", "  x  ", "#=#=#"] {
        assert!(tokens(text).len() <= text.len(), "{text}");
    }
    assert_eq!(tokens("={}").len(), 3);
}
