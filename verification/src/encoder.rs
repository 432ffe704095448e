//! The exposition encoder: one sample as one line of text,
//! `name{k1="v1",k2="v2"} value timestamp`.

use vstd::prelude::*;
use vstd::string::StringExecFns;
use crate::decimal::{decimal_text, push_decimal};

verus! {

/// A key/value annotation of a sample.
#[derive(Debug, PartialEq, Eq)]
pub struct Label {
    pub key: String,
    pub value: String,
}

/// A label as a pair of texts: the key, then the value.
pub type LabelText = (Seq<char>, Seq<char>);

impl View for Label {
    type V = LabelText;

    open spec fn view(&self) -> LabelText {
        (self.key@, self.value@)
    }
}

impl Clone for Label {
    fn clone(&self) -> (copy: Label)
        ensures
            copy@ == self@,
    {
        Label { key: self.key.clone(), value: self.value.clone() }
    }
}

impl Label {
    pub fn new(key: &str, value: &str) -> (label: Label)
        ensures
            label@ == (key@, value@),
    {
        Label { key: key.to_owned(), value: value.to_owned() }
    }
}

/// Why a sample could not be encoded.
#[derive(Debug, PartialEq, Eq, Clone, Copy)]
pub enum EncodeError {
    /// The label set holds no label.
    EmptyLabelSet,
}

/// The labels of a label set as pairs of texts, in order.
pub open spec fn label_texts(labels: Seq<Label>) -> Seq<LabelText> {
    labels.map_values(|l: Label| l@)
}

/// One label: `key="value"`, the value as it is, with no escaping.
pub open spec fn label_text(label: LabelText) -> Seq<char> {
    label.0 + seq!['=', '"'] + label.1 + seq!['"']
}

/// Labels that follow the first: each with a comma before it.
pub open spec fn more_labels_text(labels: Seq<LabelText>) -> Seq<char>
    decreases labels.len(),
{
    if labels.len() == 0 {
        Seq::empty()
    } else {
        seq![','] + label_text(labels[0]) + more_labels_text(labels.skip(1))
    }
}

/// The label block of a label set that is not empty: the labels in the
/// caller's order, between braces.
pub open spec fn block_text(labels: Seq<LabelText>) -> Seq<char> {
    seq!['{'] + label_text(labels[0]) + more_labels_text(labels.skip(1)) + seq!['}']
}

/// The line of one sample: name, label block, value and timestamp, with one
/// space before each of the two numbers and nothing after the last.
pub open spec fn line_text(name: Seq<char>, labels: Seq<LabelText>, timestamp: u64, value: u64) -> Seq<
    char,
> {
    name + block_text(labels) + seq![' '] + decimal_text(value as nat) + seq![' '] + decimal_text(
        timestamp as nat,
    )
}

/// One more label at the end adds a comma and that label to the text.
pub proof fn lemma_more_labels_push(labels: Seq<LabelText>, last: LabelText)
    ensures
        more_labels_text(labels.push(last)) == more_labels_text(labels) + seq![','] + label_text(
            last,
        ),
    decreases labels.len(),
{
    let all = labels.push(last);
    if labels.len() == 0 {
        assert(all.skip(1) =~= Seq::<LabelText>::empty());
        assert(more_labels_text(all.skip(1)) =~= Seq::<char>::empty());
        assert(more_labels_text(all) =~= more_labels_text(labels) + seq![','] + label_text(last));
    } else {
        lemma_more_labels_push(labels.skip(1), last);
        assert(all.skip(1) =~= labels.skip(1).push(last));
        assert(more_labels_text(all) =~= more_labels_text(labels) + seq![','] + label_text(last));
    }
}

/// Appends `key="value"` to `out`.
fn push_label(out: &mut String, label: &Label)
    ensures
        final(out)@ == old(out)@ + label_text(label@),
{
    out.append(label.key.as_str());
    out.push('=');
    out.push('"');
    out.append(label.value.as_str());
    out.push('"');
    assert(out@ =~= old(out)@ + label_text(label@));
}

/// Appends the label block of `labels` to `out`.
fn push_block(out: &mut String, labels: &[Label])
    requires
        labels@.len() > 0,
    ensures
        final(out)@ == old(out)@ + block_text(label_texts(labels@)),
{
    let ghost texts = label_texts(labels@);
    out.push('{');
    push_label(out, &labels[0]);
    let mut i: usize = 1;
    assert(texts.subrange(1, 1) =~= Seq::<LabelText>::empty());
    assert(out@ =~= old(out)@ + seq!['{'] + label_text(texts[0]) + more_labels_text(
        texts.subrange(1, 1),
    ));
    while i < labels.len()
        invariant
            1 <= i <= labels@.len(),
            texts == label_texts(labels@),
            out@ == old(out)@ + seq!['{'] + label_text(texts[0]) + more_labels_text(
                texts.subrange(1, i as int),
            ),
        decreases labels.len() - i,
    {
        let ghost before = out@;
        out.push(',');
        push_label(out, &labels[i]);
        proof {
            lemma_more_labels_push(texts.subrange(1, i as int), texts[i as int]);
            assert(texts.subrange(1, i as int).push(texts[i as int]) =~= texts.subrange(
                1,
                i + 1,
            ));
            assert(out@ =~= before + seq![','] + label_text(texts[i as int]));
        }
        i += 1;
    }
    out.push('}');
    proof {
        assert(texts.subrange(1, i as int) =~= texts.skip(1));
        assert(out@ =~= old(out)@ + block_text(texts));
    }
}

/// The label block of a label set, `{k1="v1",k2="v2"}`. An empty label set
/// is refused.
pub fn labels_to_string(labels: &[Label]) -> (r: Result<String, EncodeError>)
    ensures
        r is Err <==> labels@.len() == 0,
        r is Err ==> r->Err_0 == EncodeError::EmptyLabelSet,
        r is Ok ==> r->Ok_0@ == block_text(label_texts(labels@)),
{
    if labels.len() == 0 {
        return Err(EncodeError::EmptyLabelSet);
    }
    let mut s = String::new();
    push_block(&mut s, labels);
    assert(s@ =~= block_text(label_texts(labels@)));
    Ok(s)
}

/// The exposition line of one sample. An empty label set is refused,
/// whatever the name, the timestamp and the value.
pub fn encode(name: &str, labels: &[Label], timestamp: u64, value: u64) -> (r: Result<
    String,
    EncodeError,
>)
    ensures
        r is Err <==> labels@.len() == 0,
        r is Err ==> r->Err_0 == EncodeError::EmptyLabelSet,
        r is Ok ==> r->Ok_0@ == line_text(name@, label_texts(labels@), timestamp, value),
{
    if labels.len() == 0 {
        return Err(EncodeError::EmptyLabelSet);
    }
    Ok(encode_labelled(name, labels, timestamp, value))
}

/// The exposition line of a sample that has at least one label.
pub(crate) fn encode_labelled(name: &str, labels: &[Label], timestamp: u64, value: u64) -> (line:
    String)
    requires
        labels@.len() > 0,
    ensures
        line@ == line_text(name@, label_texts(labels@), timestamp, value),
{
    let mut s = name.to_owned();
    push_block(&mut s, labels);
    s.push(' ');
    push_decimal(&mut s, value);
    s.push(' ');
    push_decimal(&mut s, timestamp);
    assert(s@ =~= line_text(name@, label_texts(labels@), timestamp, value));
    s
}

} // verus!
