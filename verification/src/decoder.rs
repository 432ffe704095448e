//! The decoder: the sample that a sequence of tokens spells, if it spells
//! one.

use vstd::prelude::*;
use crate::encoder::{label_texts, Label, LabelText};
use crate::lexer::{stream, LexerIter};
use crate::scan::tokens_of;
use crate::token::{lexeme_text, lexemes, Lexeme, Token};
use vstd::string::StringExecFns;

verus! {

/// One sample as it is read back from a line.
#[derive(Debug, PartialEq, Eq)]
pub struct Sample {
    pub name: String,
    pub labels: Vec<Label>,
    pub value: u64,
    pub timestamp: u64,
}

/// A sample, with its texts as sequences of characters.
pub struct SampleText {
    pub name: Seq<char>,
    pub labels: Seq<LabelText>,
    pub value: u64,
    pub timestamp: u64,
}

impl View for Sample {
    type V = SampleText;

    open spec fn view(&self) -> SampleText {
        SampleText {
            name: self.name@,
            labels: label_texts(self.labels@),
            value: self.value,
            timestamp: self.timestamp,
        }
    }
}

/// The first position at or after `pos` where a quote stands, or the
/// length of `toks` when none is left.
pub open spec fn value_end(toks: Seq<Lexeme>, pos: int) -> int
    decreases toks.len() - pos,
{
    if 0 <= pos < toks.len() && !(toks[pos] is Dquot) {
        value_end(toks, pos + 1)
    } else {
        pos
    }
}

/// None of `toks` is `Illegal`.
pub open spec fn all_legal(toks: Seq<Lexeme>) -> bool {
    forall|i: int| 0 <= i < toks.len() ==> !((#[trigger] toks[i]) is Illegal)
}

/// The texts of `toks`, one after the other with nothing between them.
pub open spec fn joined_text(toks: Seq<Lexeme>) -> Seq<char>
    decreases toks.len(),
{
    if toks.len() == 0 {
        Seq::empty()
    } else {
        joined_text(toks.drop_last()) + lexeme_text(toks.last())
    }
}

/// The labels that `toks` begins with, up to the closing brace, and the
/// tokens after that brace. A label is an identifier, `=`, and a value
/// between quotes; a comma stands between two labels; there is at least one
/// label. The value is what the tokens between the quotes spell, joined (the
/// tokens hold no blanks); an `Illegal` token among them spells nothing,
/// and the labels are refused.
pub open spec fn parse_labels(toks: Seq<Lexeme>) -> Option<(Seq<LabelText>, Seq<Lexeme>)>
    decreases toks.len(),
    via parse_labels_decreases
{
    if toks.len() >= 3 {
        match (toks[0], toks[1], toks[2]) {
            (Lexeme::Ident(key), Lexeme::Assign, Lexeme::Dquot) => {
                let close = value_end(toks, 3);
                let value = toks.subrange(3, close);
                if close + 1 < toks.len() && all_legal(value) {
                    let label = (key, joined_text(value));
                    match toks[close + 1] {
                        Lexeme::Rbrace => Some((seq![label], toks.skip(close + 2))),
                        Lexeme::Seperator => with_front(
                            seq![label],
                            parse_labels(toks.skip(close + 2)),
                        ),
                        _ => None,
                    }
                } else {
                    None
                }
            },
            _ => None,
        }
    } else {
        None
    }
}

#[via_fn]
proof fn parse_labels_decreases(toks: Seq<Lexeme>) {
    if toks.len() >= 3 {
        lemma_value_end(toks, 3);
    }
}

/// `value_end` moves forward over tokens that are no quote and stops at a
/// quote.
pub proof fn lemma_value_end(toks: Seq<Lexeme>, pos: int)
    requires
        0 <= pos <= toks.len(),
    ensures
        pos <= value_end(toks, pos) <= toks.len(),
        forall|i: int| pos <= i < value_end(toks, pos) ==> !((#[trigger] toks[i]) is Dquot),
        value_end(toks, pos) < toks.len() ==> toks[value_end(toks, pos)] is Dquot,
    decreases toks.len() - pos,
{
    if pos < toks.len() && !(toks[pos] is Dquot) {
        lemma_value_end(toks, pos + 1);
    }
}

/// Where a value ends is fixed by the tokens it holds and the quote that
/// follows.
pub proof fn lemma_value_end_is(toks: Seq<Lexeme>, pos: int, stop: int)
    requires
        0 <= pos <= stop <= toks.len(),
        forall|i: int| pos <= i < stop ==> !((#[trigger] toks[i]) is Dquot),
        stop < toks.len() ==> toks[stop] is Dquot,
    ensures
        value_end(toks, pos) == stop,
    decreases stop - pos,
{
    if pos < stop {
        lemma_value_end_is(toks, pos + 1, stop);
    }
}

/// `parsed` with labels in front of those it holds.
pub open spec fn with_front(
    front: Seq<LabelText>,
    parsed: Option<(Seq<LabelText>, Seq<Lexeme>)>,
) -> Option<(Seq<LabelText>, Seq<Lexeme>)> {
    match parsed {
        Some((more, rest)) => Some((front + more, rest)),
        None => None,
    }
}

/// The sample that `toks` spells: an identifier for the name, a label block
/// in braces, then two integer literals, the value and the timestamp, and
/// nothing more.
pub open spec fn parse_line(toks: Seq<Lexeme>) -> Option<SampleText> {
    if toks.len() >= 2 {
        match (toks[0], toks[1]) {
            (Lexeme::Ident(name), Lexeme::Lbrace) => match parse_labels(toks.skip(2)) {
                Some((labels, rest)) => if rest.len() == 2 {
                    match (rest[0], rest[1]) {
                        (Lexeme::Digit(value), Lexeme::Digit(timestamp)) => Some(
                            SampleText { name, labels, value, timestamp },
                        ),
                        _ => None,
                    }
                } else {
                    None
                },
                None => None,
            },
            _ => None,
        }
    } else {
        None
    }
}

/// The text of the identifier at `i`, if an identifier stands there.
fn ident_at(tokens: &[Token], i: usize) -> (r: Option<String>)
    requires
        i < tokens@.len(),
    ensures
        match tokens@[i as int]@ {
            Lexeme::Ident(text) => r is Some && r->Some_0@ == text,
            _ => r is None,
        },
{
    match &tokens[i] {
        Token::Ident(s) => Some(s.clone()),
        _ => None,
    }
}

/// The value of the integer literal at `i`, if one stands there.
fn digit_at(tokens: &[Token], i: usize) -> (r: Option<u64>)
    requires
        i < tokens@.len(),
    ensures
        match tokens@[i as int]@ {
            Lexeme::Digit(d) => r == Some(d),
            _ => r is None,
        },
{
    match &tokens[i] {
        Token::Digit(d) => Some(*d),
        _ => None,
    }
}

/// Reads the value that begins at `from`, up to the quote that closes it;
/// gives its text with the position of that quote.
fn decode_value(tokens: &[Token], from: usize) -> (r: Option<(String, usize)>)
    requires
        from <= tokens@.len(),
    ensures
        ({
            let toks = lexemes(tokens@);
            let close = value_end(toks, from as int);
            if close < toks.len() && all_legal(toks.subrange(from as int, close)) {
                &&& r is Some
                &&& r->Some_0.0@ == joined_text(toks.subrange(from as int, close))
                &&& r->Some_0.1 == close
            } else {
                r is None
            }
        }),
{
    let ghost toks = lexemes(tokens@);
    let n = tokens.len();
    let mut text = String::new();
    let mut j = from;
    while j < n
        invariant
            toks == lexemes(tokens@),
            n == tokens@.len(),
            from <= j <= n,
            forall|i: int| from <= i < j ==> !((#[trigger] toks[i]) is Dquot),
            all_legal(toks.subrange(from as int, j as int)),
            text@ == joined_text(toks.subrange(from as int, j as int)),
        decreases n - j,
    {
        let ghost read = toks.subrange(from as int, j as int);
        assert(toks[j as int] == tokens@[j as int]@);
        match &tokens[j] {
            Token::Dquot => {
                proof {
                    lemma_value_end_is(toks, from as int, j as int);
                }
                return Some((text, j));
            },
            Token::Illegal => {
                proof {
                    lemma_value_end(toks, from as int);
                    let close = value_end(toks, from as int);
                    if close < toks.len() {
                        assert(toks.subrange(from as int, close)[j - from] == toks[j as int]);
                    }
                }
                return None;
            },
            token => {
                let piece = String::from(token.clone());
                text.append(piece.as_str());
            },
        }
        j += 1;
        proof {
            let now = toks.subrange(from as int, j as int);
            assert(now.drop_last() =~= read);
            assert(now.last() == toks[j - 1]);
            assert forall|i: int| 0 <= i < now.len() implies !((#[trigger] now[i]) is Illegal) by {
                if i < read.len() {
                    assert(now[i] == read[i]);
                }
            }
        }
    }
    proof {
        lemma_value_end_is(toks, from as int, j as int);
    }
    None
}

/// Reads the labels that begin at `from`, up to the closing brace; gives
/// them with the position just past that brace.
fn decode_labels(tokens: &[Token], from: usize) -> (r: Option<(Vec<Label>, usize)>)
    requires
        from <= tokens@.len(),
    ensures
        match parse_labels(lexemes(tokens@).skip(from as int)) {
            Some((labels, rest)) => {
                &&& r is Some
                &&& label_texts(r->Some_0.0@) == labels
                &&& r->Some_0.1 <= tokens@.len()
                &&& lexemes(tokens@).skip(r->Some_0.1 as int) == rest
            },
            None => r is None,
        },
{
    let ghost toks = lexemes(tokens@);
    let n = tokens.len();
    let mut labels: Vec<Label> = Vec::new();
    let mut i = from;
    proof {
        let parsed = parse_labels(toks.skip(i as int));
        if let Some((more, rest)) = parsed {
            assert(label_texts(labels@) + more =~= more);
        }
    }
    loop
        invariant
            toks == lexemes(tokens@),
            n == tokens@.len(),
            from <= i <= n,
            parse_labels(toks.skip(from as int)) == with_front(
                label_texts(labels@),
                parse_labels(toks.skip(i as int)),
            ),
        decreases n - i,
    {
        let ghost here = toks.skip(i as int);
        let ghost so_far = label_texts(labels@);
        if n - i < 3 {
            return None;
        }
        proof {
            assert(here[0] == tokens@[i + 0]@);
            assert(here[1] == tokens@[i + 1]@);
            assert(here[2] == tokens@[i + 2]@);
            lemma_value_end(here, 3);
            lemma_value_end(toks, i + 3);
            lemma_value_end_shift(toks, i as int, 3);
            assert(here.subrange(3, value_end(here, 3)) =~= toks.subrange(
                i + 3,
                value_end(toks, i + 3),
            ));
        }
        let key = match ident_at(tokens, i) {
            Some(key) => key,
            None => {
                return None;
            },
        };
        if !matches!(tokens[i + 1], Token::Assign) {
            return None;
        }
        if !matches!(tokens[i + 2], Token::Dquot) {
            return None;
        }
        let (value, close) = match decode_value(tokens, i + 3) {
            Some(found) => found,
            None => {
                return None;
            },
        };
        if n - close < 2 {
            return None;
        }
        proof {
            assert(here[close - i + 1] == tokens@[close + 1]@);
            assert(here.skip(close - i + 2) =~= toks.skip(close + 2));
        }
        let label = Label { key, value };
        let ghost text = label@;
        match &tokens[close + 1] {
            Token::Rbrace => {
                labels.push(label);
                proof {
                    assert(label_texts(labels@) =~= so_far + seq![text]);
                }
                return Some((labels, close + 2));
            },
            Token::Seperator => {
                labels.push(label);
                proof {
                    assert(label_texts(labels@) =~= so_far + seq![text]);
                    if let Some((more, rest)) = parse_labels(toks.skip(close + 2)) {
                        assert(so_far + (seq![text] + more) =~= (so_far + seq![text]) + more);
                    }
                }
                i = close + 2;
            },
            _ => {
                return None;
            },
        }
    }
}

/// A value is found at the same tokens whether positions are counted from
/// the start or from `k`.
proof fn lemma_value_end_shift(toks: Seq<Lexeme>, k: int, pos: int)
    requires
        0 <= k,
        0 <= pos,
        k + pos <= toks.len(),
    ensures
        value_end(toks.skip(k), pos) + k == value_end(toks, k + pos),
{
    let tail = toks.skip(k);
    lemma_value_end(toks, k + pos);
    let stop = value_end(toks, k + pos);
    assert forall|i: int| pos <= i < stop - k implies !((#[trigger] tail[i]) is Dquot) by {
        assert(tail[i] == toks[i + k]);
    }
    if stop < toks.len() {
        assert(tail[stop - k] == toks[stop]);
    }
    lemma_value_end_is(tail, pos, stop - k);
}

/// Reads one sample from the tokens of a line. `None` when the tokens are
/// not exactly those of one line: a name, a label block, a value and a
/// timestamp.
pub fn decode(tokens: &[Token]) -> (r: Option<Sample>)
    ensures
        r is Some <==> parse_line(lexemes(tokens@)) is Some,
        r is Some ==> r->Some_0@ == parse_line(lexemes(tokens@))->Some_0,
{
    let ghost toks = lexemes(tokens@);
    let n = tokens.len();
    if n < 2 {
        return None;
    }
    let name = match ident_at(tokens, 0) {
        Some(name) => name,
        None => {
            return None;
        },
    };
    if !matches!(tokens[1], Token::Lbrace) {
        return None;
    }
    let (labels, next) = match decode_labels(tokens, 2) {
        Some(found) => found,
        None => {
            return None;
        },
    };
    if n - next != 2 {
        return None;
    }
    proof {
        let rest = toks.skip(next as int);
        assert(rest[0] == tokens@[next + 0]@);
        assert(rest[1] == tokens@[next + 1]@);
    }
    let value = match digit_at(tokens, next) {
        Some(value) => value,
        None => {
            return None;
        },
    };
    let timestamp = match digit_at(tokens, next + 1) {
        Some(timestamp) => timestamp,
        None => {
            return None;
        },
    };
    Some(Sample { name, labels, value, timestamp })
}

/// Reads one sample from a line of text: tokenizes it and decodes the
/// tokens.
pub fn decode_line(line: &str) -> (r: Option<Sample>)
    ensures
        r is Some <==> parse_line(tokens_of(stream(line@))) is Some,
        r is Some ==> r->Some_0@ == parse_line(tokens_of(stream(line@)))->Some_0,
{
    let tokens = LexerIter::new(line).tokens();
    decode(tokens.as_slice())
}

} // verus!
