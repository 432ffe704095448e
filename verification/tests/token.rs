use metrics_push::decimal::decimal_string;
use metrics_push::token::{is_digit, is_letter, Token};

#[test]
fn structural_characters_classify_as_their_tokens() {
    assert_eq!(Token::from("=".to_string()), Token::Assign);
    assert_eq!(Token::from("{".to_string()), Token::Lbrace);
    assert_eq!(Token::from("}".to_string()), Token::Rbrace);
    assert_eq!(Token::from("\"".to_string()), Token::Dquot);
    assert_eq!(Token::from(",".to_string()), Token::Seperator);
    assert_eq!(Token::from(".".to_string()), Token::Floatp);
}

#[test]
fn digits_words_and_the_rest() {
    assert_eq!(Token::from("12".to_string()), Token::Digit(12));
    assert_eq!(Token::from("".to_string()), Token::Digit(0));
    assert_eq!(Token::from("label_1".to_string()), Token::Ident("label_1".to_string()));
    assert_eq!(Token::from("1a".to_string()), Token::Illegal);
    assert_eq!(Token::from("a b".to_string()), Token::Illegal);
    assert_eq!(Token::from("==".to_string()), Token::Illegal);
    assert_eq!(Token::from("é".to_string()), Token::Illegal);
    assert_eq!(Token::from("18446744073709551616".to_string()), Token::Illegal);
}

#[test]
fn into_through_from() {
    let t: Token = "v1".to_string().into();
    assert_eq!(t, Token::Ident("v1".to_string()));
}

#[test]
fn is_digit_reads_decimal_numerals() {
    assert_eq!(is_digit("12"), Some(12));
    assert_eq!(is_digit("0012"), Some(12));
    assert_eq!(is_digit(""), Some(0));
    assert_eq!(is_digit("18446744073709551615"), Some(u64::MAX));
    assert_eq!(is_digit("18446744073709551616"), None);
    assert_eq!(is_digit("184467440737095516150"), None);
    assert_eq!(is_digit("1x"), None);
    assert_eq!(is_digit("/"), None);
    assert_eq!(is_digit(":"), None);
    assert_eq!(is_digit("١"), None);
}

#[test]
fn is_letter_accepts_words_only() {
    assert_eq!(is_letter("abc"), Some("abc"));
    assert_eq!(is_letter("_a1"), Some("_a1"));
    assert_eq!(is_letter("Z"), Some("Z"));
    assert_eq!(is_letter(""), None);
    assert_eq!(is_letter("1a"), None);
    assert_eq!(is_letter("a-b"), None);
    assert_eq!(is_letter("a b"), None);
    assert_eq!(is_letter("é"), None);
}

#[test]
fn tokens_are_written_as_their_text() {
    assert_eq!(String::from(Token::Assign), "=");
    assert_eq!(String::from(Token::Lbrace), "{");
    assert_eq!(String::from(Token::Rbrace), "}");
    assert_eq!(String::from(Token::Dquot), "\"");
    assert_eq!(String::from(Token::Seperator), ",");
    assert_eq!(String::from(Token::Floatp), ".");
    assert_eq!(String::from(Token::Ident("abc".to_string())), "abc");
    assert_eq!(String::from(Token::Digit(12)), "12");
    assert_eq!(String::from(Token::Digit(0)), "0");
    assert_eq!(String::from(Token::Illegal), "ILLEGAL");
    let text: String = Token::Digit(u64::MAX).into();
    assert_eq!(text, "18446744073709551615");
}

#[test]
fn text_of_a_token_classifies_as_that_token() {
    let tokens = vec![
        Token::Assign,
        Token::Lbrace,
        Token::Rbrace,
        Token::Dquot,
        Token::Seperator,
        Token::Floatp,
        Token::Ident("label_1".to_string()),
        Token::Digit(1690000000000),
    ];
    for t in tokens {
        assert_eq!(Token::from(String::from(t.clone())), t);
    }
}

#[test]
fn clone_keeps_the_token() {
    let t = Token::Ident("abc".to_string());
    assert_eq!(t.clone(), t);
    assert_eq!(Token::Digit(3).clone(), Token::Digit(3));
}

#[test]
fn decimal_strings() {
    assert_eq!(decimal_string(0), "0");
    assert_eq!(decimal_string(7), "7");
    assert_eq!(decimal_string(10), "10");
    assert_eq!(decimal_string(1690000000000), "1690000000000");
    assert_eq!(decimal_string(u64::MAX), "18446744073709551615");
}
