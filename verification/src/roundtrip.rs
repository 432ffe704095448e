//! What is written can be read back: the tokens of an encoded line, and the
//! sample that they decode to.

use vstd::prelude::*;
use vstd::utf8::{is_ascii_chars, is_ascii_chars_concat};
use crate::chars::{digit, letter, punct, word};
use crate::decimal::{decimal_text, lemma_decimal_text_value};
use crate::decoder::{
    all_legal, joined_text, lemma_value_end_is, parse_labels, parse_line, SampleText,
};
use crate::encoder::{block_text, label_text, line_text, more_labels_text, LabelText};
use crate::lexer::{lemma_ascii_stream, stream};
use crate::scan::{
    lemma_run_end, lemma_skip_blanks, lemma_tokens_after_blanks, lemma_tokens_decimal,
    lemma_tokens_punct, lemma_tokens_split, lemma_tokens_word, punct_lexeme, skip_blanks,
    token_end, tokens_of,
};
use crate::token::{classify, lexeme_text, Lexeme};

verus! {

/// Every key of `labels` is a word.
pub open spec fn keys_are_words(labels: Seq<LabelText>) -> bool {
    forall|i: int| 0 <= i < labels.len() ==> word((#[trigger] labels[i]).0)
}

/// No character of `text` is a double quote.
pub open spec fn quote_free(text: Seq<char>) -> bool {
    forall|i: int| 0 <= i < text.len() ==> #[trigger] text[i] != '"'
}

/// `text` holds no quote and is spelled by its own tokens: none of them is
/// `Illegal`, and their texts, joined, give `text` again. Such a text holds
/// no blank and no stray character, and each integer literal in it is
/// written in its shortest form and fits in 64 bits.
pub open spec fn legible(text: Seq<char>) -> bool {
    &&& quote_free(text)
    &&& all_legal(tokens_of(text))
    &&& joined_text(tokens_of(text)) == text
}

/// Every value of `labels` is legible.
pub open spec fn values_are_legible(labels: Seq<LabelText>) -> bool {
    forall|i: int| 0 <= i < labels.len() ==> legible((#[trigger] labels[i]).1)
}

/// The tokens of one label: the key, `=`, and the tokens of the value
/// between two quotes.
pub open spec fn label_lexemes(label: LabelText) -> Seq<Lexeme> {
    seq![Lexeme::Ident(label.0), Lexeme::Assign, Lexeme::Dquot] + tokens_of(label.1) + seq![
        Lexeme::Dquot,
    ]
}

/// The tokens of the labels that follow the first: a separator before each.
pub open spec fn more_labels_lexemes(labels: Seq<LabelText>) -> Seq<Lexeme>
    decreases labels.len(),
{
    if labels.len() == 0 {
        Seq::empty()
    } else {
        seq![Lexeme::Seperator] + label_lexemes(labels[0]) + more_labels_lexemes(labels.skip(1))
    }
}

/// The tokens of a label set that is not empty, without the braces.
pub open spec fn labels_lexemes(labels: Seq<LabelText>) -> Seq<Lexeme> {
    label_lexemes(labels[0]) + more_labels_lexemes(labels.skip(1))
}

/// The tokens of the line of one sample.
pub open spec fn line_lexemes(
    name: Seq<char>,
    labels: Seq<LabelText>,
    timestamp: u64,
    value: u64,
) -> Seq<Lexeme> {
    seq![Lexeme::Ident(name), Lexeme::Lbrace] + labels_lexemes(labels) + seq![
        Lexeme::Rbrace,
        Lexeme::Digit(value),
        Lexeme::Digit(timestamp),
    ]
}

/// A word is legible.
pub proof fn lemma_word_is_legible(w: Seq<char>)
    requires
        word(w),
    ensures
        legible(w),
{
    lemma_tokens_word(w);
    let toks = tokens_of(w);
    assert(toks.drop_last() =~= Seq::<Lexeme>::empty());
    assert(joined_text(toks.drop_last()) =~= Seq::<char>::empty());
    assert(toks.last() == Lexeme::Ident(w));
    assert(joined_text(toks) =~= w);
    assert forall|i: int| 0 <= i < w.len() implies #[trigger] w[i] != '"' by {
        assert(letter(w[i]) || digit(w[i]));
    }
}

/// The decimal numeral of a number is legible.
pub proof fn lemma_decimal_is_legible(n: u64)
    ensures
        legible(decimal_text(n as nat)),
{
    let t = decimal_text(n as nat);
    lemma_tokens_decimal(n);
    lemma_decimal_text_value(n as nat);
    let toks = tokens_of(t);
    assert(toks.drop_last() =~= Seq::<Lexeme>::empty());
    assert(joined_text(toks.drop_last()) =~= Seq::<char>::empty());
    assert(toks.last() == Lexeme::Digit(n));
    assert(joined_text(toks) =~= t);
    assert forall|i: int| 0 <= i < t.len() implies #[trigger] t[i] != '"' by {
        assert(digit(t[i]));
    }
}

/// The empty text is legible.
pub proof fn lemma_empty_is_legible()
    ensures
        legible(Seq::<char>::empty()),
{
    let none = Seq::<char>::empty();
    assert(tokens_of(none) =~= Seq::<Lexeme>::empty());
    assert(joined_text(tokens_of(none)) =~= none);
}

/// The joined text of two runs of tokens is the one, then the other.
proof fn lemma_joined_text_concat(x: Seq<Lexeme>, y: Seq<Lexeme>)
    ensures
        joined_text(x + y) == joined_text(x) + joined_text(y),
    decreases y.len(),
{
    if y.len() == 0 {
        assert(x + y =~= x);
        assert(joined_text(x) + joined_text(y) =~= joined_text(x));
    } else {
        lemma_joined_text_concat(x, y.drop_last());
        assert((x + y).drop_last() =~= x + y.drop_last());
        assert((x + y).last() == y.last());
        assert(joined_text(x + y) =~= joined_text(x) + joined_text(y));
    }
}

/// A legible text stays legible with a structural character other than the
/// quote in front of it.
pub proof fn lemma_legible_after_punct(c: char, text: Seq<char>)
    requires
        punct(c),
        c != '"',
        legible(text),
    ensures
        legible(seq![c] + text),
{
    let whole = seq![c] + text;
    lemma_tokens_punct(c, text);
    lemma_joined_text_concat(seq![punct_lexeme(c)], tokens_of(text));
    let one = seq![punct_lexeme(c)];
    assert(one.drop_last() =~= Seq::<Lexeme>::empty());
    assert(joined_text(one.drop_last()) =~= Seq::<char>::empty());
    assert(joined_text(one) =~= seq![c]);
    assert forall|i: int| 0 <= i < whole.len() implies #[trigger] whole[i] != '"' by {
        if i > 0 {
            assert(whole[i] == text[i - 1]);
        }
    }
    let toks = tokens_of(whole);
    assert forall|i: int| 0 <= i < toks.len() implies !((#[trigger] toks[i]) is Illegal) by {
        if i > 0 {
            assert(toks[i] == tokens_of(text)[i - 1]);
        }
    }
}

/// Two legible texts are legible one after the other where nothing stands
/// after the first or the second begins with a structural character.
pub proof fn lemma_legible_before_punct(first: Seq<char>, second: Seq<char>)
    requires
        legible(first),
        legible(second),
        second.len() == 0 || punct(second[0]),
    ensures
        legible(first + second),
{
    let whole = first + second;
    lemma_tokens_split(first, second);
    lemma_joined_text_concat(tokens_of(first), tokens_of(second));
    assert forall|i: int| 0 <= i < whole.len() implies #[trigger] whole[i] != '"' by {
        if i < first.len() {
            assert(whole[i] == first[i]);
        } else {
            assert(whole[i] == second[i - first.len()]);
        }
    }
    let toks = tokens_of(whole);
    let k = tokens_of(first).len() as int;
    assert forall|i: int| 0 <= i < toks.len() implies !((#[trigger] toks[i]) is Illegal) by {
        if i < k {
            assert(toks[i] == tokens_of(first)[i]);
        } else {
            assert(toks[i] == tokens_of(second)[i - k]);
        }
    }
}

/// A text without a quote has no quote among its tokens.
pub proof fn lemma_no_quote_token(text: Seq<char>)
    requires
        quote_free(text),
    ensures
        forall|i: int| 0 <= i < tokens_of(text).len() ==> !((#[trigger] tokens_of(text)[i]) is Dquot),
    decreases text.len(),
{
    let start = skip_blanks(text, 0);
    lemma_skip_blanks(text, 0);
    if start < text.len() {
        let end = token_end(text, start);
        lemma_run_end(text, text[start], start + 1);
        let piece = text.subrange(start, end);
        let rest = text.skip(end);
        assert(piece[0] == text[start]);
        assert forall|i: int| 0 <= i < rest.len() implies #[trigger] rest[i] != '"' by {
            assert(rest[i] == text[i + end]);
        }
        lemma_no_quote_token(rest);
        let toks = tokens_of(text);
        assert forall|i: int| 0 <= i < toks.len() implies !((#[trigger] toks[i]) is Dquot) by {
            if i > 0 {
                assert(toks[i] == tokens_of(rest)[i - 1]);
            }
        }
    }
}

/// A label whose key is a word is read as the key, `=`, and the tokens of
/// the value between quotes, whatever follows it.
proof fn lemma_tokens_label(label: LabelText, rest: Seq<char>)
    requires
        word(label.0),
    ensures
        tokens_of(label_text(label) + rest) == label_lexemes(label) + tokens_of(rest),
{
    let after_value = seq!['"'] + rest;
    let from_value = label.1 + after_value;
    let from_quote = seq!['"'] + from_value;
    let from_assign = seq!['='] + from_quote;
    assert(label_text(label) + rest =~= label.0 + from_assign);
    lemma_tokens_split(label.0, from_assign);
    lemma_tokens_word(label.0);
    lemma_tokens_punct('=', from_quote);
    lemma_tokens_punct('"', from_value);
    lemma_tokens_split(label.1, after_value);
    lemma_tokens_punct('"', rest);
    assert(tokens_of(label.0 + from_assign) =~= label_lexemes(label) + tokens_of(rest));
}

/// The labels after the first are read as their tokens, whatever follows.
proof fn lemma_tokens_more_labels(labels: Seq<LabelText>, rest: Seq<char>)
    requires
        keys_are_words(labels),
    ensures
        tokens_of(more_labels_text(labels) + rest) == more_labels_lexemes(labels) + tokens_of(rest),
    decreases labels.len(),
{
    if labels.len() == 0 {
        assert(more_labels_text(labels) + rest =~= rest);
        assert(more_labels_lexemes(labels) + tokens_of(rest) =~= tokens_of(rest));
    } else {
        let first = labels[0];
        let others = labels.skip(1);
        assert(keys_are_words(others)) by {
            assert forall|i: int| 0 <= i < others.len() implies word((#[trigger] others[i]).0) by {
                assert(others[i] == labels[i + 1]);
            }
        }
        let after_first = more_labels_text(others) + rest;
        let from_first = label_text(first) + after_first;
        assert(more_labels_text(labels) + rest =~= seq![','] + from_first);
        lemma_tokens_punct(',', from_first);
        lemma_tokens_label(first, after_first);
        lemma_tokens_more_labels(others, rest);
        assert(tokens_of(seq![','] + from_first) =~= more_labels_lexemes(labels) + tokens_of(
            rest,
        ));
    }
}

/// The tokenizer reads an encoded line as the encoder meant it: where the
/// name and the keys are words, the tokens of the line are the name, the
/// label block with each value as its own tokens, the value and the
/// timestamp.
pub proof fn lemma_tokens_of_line(
    name: Seq<char>,
    labels: Seq<LabelText>,
    timestamp: u64,
    value: u64,
)
    requires
        labels.len() > 0,
        word(name),
        keys_are_words(labels),
    ensures
        tokens_of(line_text(name, labels, timestamp, value)) == line_lexemes(
            name,
            labels,
            timestamp,
            value,
        ),
{
    let others = labels.skip(1);
    assert(keys_are_words(others)) by {
        assert forall|i: int| 0 <= i < others.len() implies word((#[trigger] others[i]).0) by {
            assert(others[i] == labels[i + 1]);
        }
    }
    let stamp = decimal_text(timestamp as nat);
    let number = decimal_text(value as nat);
    let from_stamp_gap = seq![' '] + stamp;
    let from_number = number + from_stamp_gap;
    let from_number_gap = seq![' '] + from_number;
    let from_close = seq!['}'] + from_number_gap;
    let from_others = more_labels_text(others) + from_close;
    let from_first = label_text(labels[0]) + from_others;
    let from_open = seq!['{'] + from_first;
    assert(line_text(name, labels, timestamp, value) =~= name + from_open);
    lemma_tokens_split(name, from_open);
    lemma_tokens_word(name);
    lemma_tokens_punct('{', from_first);
    lemma_tokens_label(labels[0], from_others);
    lemma_tokens_more_labels(others, from_close);
    lemma_tokens_punct('}', from_number_gap);
    lemma_tokens_after_blanks(seq![' '], from_number);
    lemma_tokens_split(number, from_stamp_gap);
    lemma_tokens_decimal(value);
    lemma_tokens_after_blanks(seq![' '], stamp);
    lemma_tokens_decimal(timestamp);
    assert(tokens_of(name + from_open) =~= line_lexemes(name, labels, timestamp, value));
}

/// The tokens of a label set, a closing brace and anything after it are
/// parsed as that label set, with what came after the brace left over.
proof fn lemma_parse_labels(labels: Seq<LabelText>, rest: Seq<Lexeme>)
    requires
        labels.len() > 0,
        values_are_legible(labels),
    ensures
        parse_labels(labels_lexemes(labels) + seq![Lexeme::Rbrace] + rest) == Some((labels, rest)),
    decreases labels.len(),
{
    let toks = labels_lexemes(labels) + seq![Lexeme::Rbrace] + rest;
    let others = labels.skip(1);
    let first = labels[0];
    let value = tokens_of(first.1);
    let close = 3 + value.len() as int;
    assert(legible(first.1));
    lemma_no_quote_token(first.1);
    assert(toks[0] == Lexeme::Ident(first.0));
    assert(toks[1] == Lexeme::Assign);
    assert(toks[2] == Lexeme::Dquot);
    assert forall|i: int| 3 <= i < close implies !((#[trigger] toks[i]) is Dquot) by {
        assert(toks[i] == value[i - 3]);
    }
    assert(toks[close] == Lexeme::Dquot);
    lemma_value_end_is(toks, 3, close);
    assert(toks.subrange(3, close) =~= value);
    assert((first.0, joined_text(value)) == first);
    if others.len() == 0 {
        assert(more_labels_lexemes(others) =~= Seq::<Lexeme>::empty());
        assert(toks[close + 1] == Lexeme::Rbrace);
        assert(toks.skip(close + 2) =~= rest);
        assert(seq![first] =~= labels);
    } else {
        assert(values_are_legible(others)) by {
            assert forall|i: int| 0 <= i < others.len() implies legible((#[trigger] others[i]).1) by {
                assert(others[i] == labels[i + 1]);
            }
        }
        assert(toks[close + 1] == Lexeme::Seperator);
        assert(toks.skip(close + 2) =~= labels_lexemes(others) + seq![Lexeme::Rbrace] + rest);
        lemma_parse_labels(others, rest);
        assert(seq![first] + others =~= labels);
    }
}

/// The decoder reads the tokens of a sample as that sample, where the
/// values are legible.
pub proof fn lemma_parse_line(name: Seq<char>, labels: Seq<LabelText>, timestamp: u64, value: u64)
    requires
        labels.len() > 0,
        values_are_legible(labels),
    ensures
        parse_line(line_lexemes(name, labels, timestamp, value)) == Some(
            SampleText { name, labels, value, timestamp },
        ),
{
    let toks = line_lexemes(name, labels, timestamp, value);
    let rest = seq![Lexeme::Digit(value), Lexeme::Digit(timestamp)];
    assert(toks[0] == Lexeme::Ident(name));
    assert(toks[1] == Lexeme::Lbrace);
    assert(toks.skip(2) =~= labels_lexemes(labels) + seq![Lexeme::Rbrace] + rest);
    lemma_parse_labels(labels, rest);
}

/// A token that is not `Illegal` is written in ASCII.
proof fn lemma_classified_text_is_ascii(text: Seq<char>)
    ensures
        !(classify(text) is Illegal) ==> is_ascii_chars(lexeme_text(classify(text))),
{
    match classify(text) {
        Lexeme::Ident(w) => {
            assert forall|i: int| 0 <= i < w.len() implies '\0' <= #[trigger] w[i] <= '\u{7f}' by {
                assert(letter(w[i]) || digit(w[i]));
            }
        },
        Lexeme::Digit(d) => {
            let t = decimal_text(d as nat);
            lemma_decimal_text_value(d as nat);
            assert forall|i: int| 0 <= i < t.len() implies '\0' <= #[trigger] t[i] <= '\u{7f}' by {
                assert(digit(t[i]));
            }
        },
        _ => {},
    }
}

/// Every token of a text that is not `Illegal` is written in ASCII.
proof fn lemma_token_texts_are_ascii(text: Seq<char>)
    ensures
        forall|i: int|
            0 <= i < tokens_of(text).len() && !((#[trigger] tokens_of(text)[i]) is Illegal)
                ==> is_ascii_chars(lexeme_text(tokens_of(text)[i])),
    decreases text.len(),
{
    let start = skip_blanks(text, 0);
    lemma_skip_blanks(text, 0);
    if start < text.len() {
        let end = token_end(text, start);
        lemma_run_end(text, text[start], start + 1);
        let rest = text.skip(end);
        lemma_classified_text_is_ascii(text.subrange(start, end));
        lemma_token_texts_are_ascii(rest);
        let toks = tokens_of(text);
        assert forall|i: int| 0 <= i < toks.len() && !((#[trigger] toks[i]) is Illegal) implies is_ascii_chars(
            lexeme_text(toks[i]),
        ) by {
            if i > 0 {
                assert(toks[i] == tokens_of(rest)[i - 1]);
            }
        }
    }
}

/// Tokens that are each written in ASCII are so when joined.
proof fn lemma_joined_text_is_ascii(toks: Seq<Lexeme>)
    requires
        forall|i: int| 0 <= i < toks.len() ==> is_ascii_chars(lexeme_text(#[trigger] toks[i])),
    ensures
        is_ascii_chars(joined_text(toks)),
    decreases toks.len(),
{
    if toks.len() > 0 {
        let front = toks.drop_last();
        assert forall|i: int| 0 <= i < front.len() implies is_ascii_chars(
            lexeme_text(#[trigger] front[i]),
        ) by {
            assert(front[i] == toks[i]);
        }
        lemma_joined_text_is_ascii(front);
        assert(is_ascii_chars(lexeme_text(toks.last())));
        is_ascii_chars_concat(joined_text(toks), joined_text(front), lexeme_text(toks.last()));
    }
}

/// A legible text is ASCII.
pub proof fn lemma_legible_is_ascii(text: Seq<char>)
    requires
        legible(text),
    ensures
        is_ascii_chars(text),
{
    lemma_token_texts_are_ascii(text);
    lemma_joined_text_is_ascii(tokens_of(text));
}

/// A word is ASCII.
proof fn lemma_word_is_ascii(w: Seq<char>)
    requires
        word(w),
    ensures
        is_ascii_chars(w),
{
    assert forall|i: int| 0 <= i < w.len() implies '\0' <= #[trigger] w[i] <= '\u{7f}' by {
        assert(letter(w[i]) || digit(w[i]));
    }
}

/// One label of ASCII key and value is ASCII.
proof fn lemma_label_is_ascii(label: LabelText)
    requires
        is_ascii_chars(label.0),
        is_ascii_chars(label.1),
    ensures
        is_ascii_chars(label_text(label)),
{
    let t = label_text(label);
    let k = label.0.len() as int;
    let v = label.1.len() as int;
    assert forall|i: int| 0 <= i < t.len() implies '\0' <= #[trigger] t[i] <= '\u{7f}' by {
        if i < k {
            assert(t[i] == label.0[i]);
        } else if i < k + 2 {
        } else if i < k + 2 + v {
            assert(t[i] == label.1[i - k - 2]);
        } else {
        }
    }
}

/// The labels after the first, when their keys are words and their values
/// legible, are ASCII.
proof fn lemma_more_labels_are_ascii(labels: Seq<LabelText>)
    requires
        keys_are_words(labels),
        values_are_legible(labels),
    ensures
        is_ascii_chars(more_labels_text(labels)),
    decreases labels.len(),
{
    if labels.len() > 0 {
        let others = labels.skip(1);
        assert forall|i: int| 0 <= i < others.len() implies word((#[trigger] others[i]).0)
            && legible(others[i].1) by {
            assert(others[i] == labels[i + 1]);
        }
        lemma_more_labels_are_ascii(others);
        lemma_word_is_ascii(labels[0].0);
        lemma_legible_is_ascii(labels[0].1);
        lemma_label_is_ascii(labels[0]);
        let comma_label = seq![','] + label_text(labels[0]);
        is_ascii_chars_concat(comma_label, seq![','], label_text(labels[0]));
        is_ascii_chars_concat(more_labels_text(labels), comma_label, more_labels_text(others));
    }
}

/// The line of a sample whose name and keys are words and whose values are
/// legible is ASCII, so the tokenizer reads its characters as they are.
pub proof fn lemma_line_is_read_as_written(
    name: Seq<char>,
    labels: Seq<LabelText>,
    timestamp: u64,
    value: u64,
)
    requires
        labels.len() > 0,
        word(name),
        keys_are_words(labels),
        values_are_legible(labels),
    ensures
        stream(line_text(name, labels, timestamp, value)) == line_text(
            name,
            labels,
            timestamp,
            value,
        ),
{
    let others = labels.skip(1);
    assert forall|i: int| 0 <= i < others.len() implies word((#[trigger] others[i]).0) && legible(
        others[i].1,
    ) by {
        assert(others[i] == labels[i + 1]);
    }
    lemma_word_is_ascii(name);
    lemma_word_is_ascii(labels[0].0);
    lemma_legible_is_ascii(labels[0].1);
    lemma_label_is_ascii(labels[0]);
    lemma_more_labels_are_ascii(others);
    lemma_decimal_is_legible(value);
    lemma_legible_is_ascii(decimal_text(value as nat));
    lemma_decimal_is_legible(timestamp);
    lemma_legible_is_ascii(decimal_text(timestamp as nat));
    let open_first = seq!['{'] + label_text(labels[0]);
    let open_all = open_first + more_labels_text(others);
    let block = open_all + seq!['}'];
    let named = name + block;
    let gap_one = named + seq![' '];
    let with_value = gap_one + decimal_text(value as nat);
    let gap_two = with_value + seq![' '];
    let line = gap_two + decimal_text(timestamp as nat);
    is_ascii_chars_concat(open_first, seq!['{'], label_text(labels[0]));
    is_ascii_chars_concat(open_all, open_first, more_labels_text(others));
    is_ascii_chars_concat(block, open_all, seq!['}']);
    is_ascii_chars_concat(named, name, block);
    is_ascii_chars_concat(gap_one, named, seq![' ']);
    is_ascii_chars_concat(with_value, gap_one, decimal_text(value as nat));
    is_ascii_chars_concat(gap_two, with_value, seq![' ']);
    is_ascii_chars_concat(line, gap_two, decimal_text(timestamp as nat));
    assert(block == block_text(labels));
    assert(line =~= line_text(name, labels, timestamp, value));
    lemma_ascii_stream(line);
}

/// Round trip: a sample that is encoded, tokenized and decoded comes back
/// as it was, labels in their order, where its name and its keys are words
/// and its values are legible. (A value that is not legible is not read
/// back: the tokens keep neither blanks nor stray characters, and of a
/// number only its value.)
pub proof fn lemma_round_trip(name: Seq<char>, labels: Seq<LabelText>, timestamp: u64, value: u64)
    requires
        labels.len() > 0,
        word(name),
        keys_are_words(labels),
        values_are_legible(labels),
    ensures
        parse_line(tokens_of(stream(line_text(name, labels, timestamp, value)))) == Some(
            SampleText { name, labels, value, timestamp },
        ),
{
    lemma_line_is_read_as_written(name, labels, timestamp, value);
    lemma_tokens_of_line(name, labels, timestamp, value);
    lemma_parse_line(name, labels, timestamp, value);
}

} // verus!
