use metrics_push::encoder::{encode, labels_to_string, EncodeError, Label};

#[test]
fn encode_one_label() {
    let labels = vec![Label::new("k", "V")];
    assert_eq!(
        encode("test", &labels, 1690000000000, 42),
        Ok("test{k=\"V\"} 42 1690000000000".to_string())
    );
}

#[test]
fn encode_empty_label_set_is_refused() {
    assert_eq!(encode("test", &[], 1690000000000, 42), Err(EncodeError::EmptyLabelSet));
    assert_eq!(encode("", &[], 0, 0), Err(EncodeError::EmptyLabelSet));
    assert_eq!(encode("x", &Vec::new(), u64::MAX, u64::MAX), Err(EncodeError::EmptyLabelSet));
    assert_eq!(labels_to_string(&[]), Err(EncodeError::EmptyLabelSet));
}

#[test]
fn labels_keep_their_order_and_are_not_merged() {
    let labels = vec![Label::new("b", "2"), Label::new("a", "1"), Label::new("b", "2")];
    assert_eq!(labels_to_string(&labels), Ok(r#"{b="2",a="1",b="2"}"#.to_string()));
    assert_eq!(
        encode("m", &labels, 5, 6),
        Ok(r#"m{b="2",a="1",b="2"} 6 5"#.to_string())
    );
}

#[test]
fn single_label_is_still_in_braces() {
    assert_eq!(labels_to_string(&[Label::new("k", "v")]), Ok(r#"{k="v"}"#.to_string()));
}

#[test]
fn quotes_in_values_are_not_escaped() {
    let labels = vec![Label::new("k", "a\"b")];
    assert_eq!(labels_to_string(&labels), Ok("{k=\"a\"b\"}".to_string()));
}

#[test]
fn extreme_numbers_and_no_trailing_text() {
    let labels = vec![Label::new("k", "v")];
    let line = encode("n", &labels, u64::MAX, 0).unwrap();
    assert_eq!(line, r#"n{k="v"} 0 18446744073709551615"#);
    assert!(!line.ends_with(' '));
    assert!(!line.contains('\n'));
}

#[test]
fn label_new_and_clone() {
    let l = Label::new("key", "value");
    assert_eq!(l.key, "key");
    assert_eq!(l.value, "value");
    assert_eq!(l.clone(), l);
}
