use metrics_push::decoder::{decode, decode_line, Sample};
use metrics_push::encoder::{encode, Label};
use metrics_push::lexer::Lexer;
use metrics_push::token::Token;

fn sample(name: &str, labels: &[(&str, &str)], value: u64, timestamp: u64) -> Sample {
    Sample {
        name: name.to_string(),
        labels: labels.iter().map(|(k, v)| Label::new(k, v)).collect(),
        value,
        timestamp,
    }
}

fn round_trip(name: &str, labels: &[(&str, &str)], timestamp: u64, value: u64) -> Option<Sample> {
    let set: Vec<Label> = labels.iter().map(|(k, v)| Label::new(k, v)).collect();
    let line = encode(name, &set, timestamp, value).unwrap();
    let tokens = Lexer::new(line).tokens();
    decode(&tokens)
}

#[test]
fn round_trip_one_label() {
    assert_eq!(
        round_trip("test", &[("k", "V")], 1690000000000, 42),
        Some(sample("test", &[("k", "V")], 42, 1690000000000))
    );
}

#[test]
fn round_trip_keeps_order_and_repeats() {
    let labels = [("b", "x2"), ("a", "x1"), ("b", "x2"), ("z_9", "Q")];
    assert_eq!(round_trip("m", &labels, 1, 2), Some(sample("m", &labels, 2, 1)));
}

#[test]
fn round_trip_values_of_several_tokens() {
    let labels = [("code", "200"), ("version", "1.12"), ("path", "a.b,c=d"), ("set", "{x}")];
    assert_eq!(
        round_trip("http_code_name", &labels, u64::MAX, 0),
        Some(sample("http_code_name", &labels, 0, u64::MAX))
    );
}

#[test]
fn round_trip_empty_value() {
    assert_eq!(round_trip("m", &[("k", "")], 3, 4), Some(sample("m", &[("k", "")], 4, 3)));
}

#[test]
fn blank_in_a_value_is_not_read_back() {
    assert_eq!(round_trip("m", &[("k", "a b")], 3, 4), Some(sample("m", &[("k", "ab")], 4, 3)));
}

#[test]
fn leading_zeros_in_a_value_are_not_read_back() {
    assert_eq!(round_trip("m", &[("k", "007")], 3, 4), Some(sample("m", &[("k", "7")], 4, 3)));
}

#[test]
fn stray_character_in_a_value_is_refused() {
    assert_eq!(round_trip("m", &[("k", "a-b")], 3, 4), None);
    assert_eq!(round_trip("m", &[("k", "é")], 3, 4), None);
    assert_eq!(round_trip("m", &[("k", "99999999999999999999")], 3, 4), None);
}

#[test]
fn quote_in_a_value_is_not_read_back() {
    assert_eq!(round_trip("m", &[("k", "a\"b")], 3, 4), None);
}

#[test]
fn name_or_key_that_is_no_word_is_refused() {
    assert_eq!(round_trip("a.b", &[("k", "v")], 3, 4), None);
    assert_eq!(round_trip("", &[("k", "v")], 3, 4), None);
    assert_eq!(round_trip("m", &[("1k", "v")], 3, 4), None);
    assert_eq!(round_trip("m", &[("", "v")], 3, 4), None);
}

#[test]
fn decode_line_reads_text() {
    assert_eq!(
        decode_line("test{k=\"V\"} 42 1690000000000"),
        Some(sample("test", &[("k", "V")], 42, 1690000000000))
    );
    assert_eq!(
        decode_line("  up { job = \"api\" , code = \"200\" }\t1\n2 "),
        Some(sample("up", &[("job", "api"), ("code", "200")], 1, 2))
    );
}

#[test]
fn decode_refuses_what_is_no_line() {
    for text in [
        "",
        "test",
        "test{",
        "test{}",
        "test{} 1 2",
        "test{k} 1 2",
        "test{k=\"v\"}",
        "test{k=\"v\"} 1",
        "test{k=\"v\"} 1 2 3",
        "test{k=\"v\"} 1 x",
        "test{k=\"v\"} 1.5 2",
        "test{k=\"v\",} 1 2",
        "test{k=\"v\" j=\"w\"} 1 2",
        "test{k=v} 1 2",
        "test{k=\"v} 1 2",
        "test k=\"v\"} 1 2",
        "{k=\"v\"} 1 2",
        "7{k=\"v\"} 1 2",
        "test{k=\"v\"} 1 18446744073709551616",
        "test{k=\"#\"} 1 2",
    ] {
        assert_eq!(decode_line(text), None, "{text}");
    }
}

#[test]
fn decode_takes_tokens() {
    let tokens = vec![
        Token::Ident("m".to_string()),
        Token::Lbrace,
        Token::Ident("k".to_string()),
        Token::Assign,
        Token::Dquot,
        Token::Ident("v".to_string()),
        Token::Floatp,
        Token::Digit(5),
        Token::Dquot,
        Token::Rbrace,
        Token::Digit(1),
        Token::Digit(2),
    ];
    assert_eq!(decode(&tokens), Some(sample("m", &[("k", "v.5")], 1, 2)));
    let mut with_illegal = tokens;
    with_illegal[6] = Token::Illegal;
    assert_eq!(decode(&with_illegal), None);
}
