//! Where tokens begin and end in a character stream, and the sequence of
//! tokens that a text is.

use vstd::prelude::*;
use crate::chars::{blank, delimiter, digit, letter, punct, stray, word};
use crate::decimal::{decimal_text, lemma_decimal_text_value};
use crate::token::{classify, Lexeme};

verus! {

/// Whether `c` carries on a token whose first character is `first`. A word
/// goes on through letters and digits, a number through digits, a run of
/// stray characters through stray characters; a structural character stands
/// alone.
pub open spec fn continues(first: char, c: char) -> bool {
    if letter(first) {
        letter(c) || digit(c)
    } else if digit(first) {
        digit(c)
    } else if punct(first) {
        false
    } else {
        stray(c)
    }
}

/// The first position at or after `pos` whose character is not blank, or the
/// length of `s` when only blanks are left.
pub open spec fn skip_blanks(s: Seq<char>, pos: int) -> int
    decreases s.len() - pos,
{
    if 0 <= pos < s.len() && blank(s[pos]) {
        skip_blanks(s, pos + 1)
    } else {
        pos
    }
}

/// The first position at or after `pos` whose character does not carry on a
/// token that began with `first`, or the length of `s`.
pub open spec fn run_end(s: Seq<char>, first: char, pos: int) -> int
    decreases s.len() - pos,
{
    if 0 <= pos < s.len() && continues(first, s[pos]) {
        run_end(s, first, pos + 1)
    } else {
        pos
    }
}

/// The position just past the token that begins at `start`.
pub open spec fn token_end(s: Seq<char>, start: int) -> int {
    run_end(s, s[start], start + 1)
}

/// The first token of `rest` and the text that follows it, or `None` when
/// `rest` holds nothing but blanks.
pub open spec fn next_lexeme(rest: Seq<char>) -> Option<(Lexeme, Seq<char>)> {
    let start = skip_blanks(rest, 0);
    if start < rest.len() {
        let end = token_end(rest, start);
        Some((classify(rest.subrange(start, end)), rest.skip(end)))
    } else {
        None
    }
}

/// All the tokens of `s`, in source order.
pub open spec fn tokens_of(s: Seq<char>) -> Seq<Lexeme>
    decreases s.len(),
    via tokens_of_decreases
{
    match next_lexeme(s) {
        Some((first, rest)) => seq![first] + tokens_of(rest),
        None => Seq::empty(),
    }
}

#[via_fn]
proof fn tokens_of_decreases(s: Seq<char>) {
    let start = skip_blanks(s, 0);
    lemma_skip_blanks(s, 0);
    if start < s.len() {
        lemma_run_end(s, s[start], start + 1);
    }
}

/// `skip_blanks` moves forward over blanks only and stops at a character
/// that is not blank.
pub proof fn lemma_skip_blanks(s: Seq<char>, pos: int)
    requires
        0 <= pos <= s.len(),
    ensures
        pos <= skip_blanks(s, pos) <= s.len(),
        forall|i: int| pos <= i < skip_blanks(s, pos) ==> blank(#[trigger] s[i]),
        skip_blanks(s, pos) < s.len() ==> !blank(s[skip_blanks(s, pos)]),
    decreases s.len() - pos,
{
    if pos < s.len() && blank(s[pos]) {
        lemma_skip_blanks(s, pos + 1);
    }
}

/// `run_end` moves forward over characters that carry the token on and
/// stops at one that does not.
pub proof fn lemma_run_end(s: Seq<char>, first: char, pos: int)
    requires
        0 <= pos <= s.len(),
    ensures
        pos <= run_end(s, first, pos) <= s.len(),
        forall|i: int| pos <= i < run_end(s, first, pos) ==> continues(first, #[trigger] s[i]),
        run_end(s, first, pos) < s.len() ==> !continues(first, s[run_end(s, first, pos)]),
    decreases s.len() - pos,
{
    if pos < s.len() && continues(first, s[pos]) {
        lemma_run_end(s, first, pos + 1);
    }
}

/// The position where a scan over blanks stops is fixed by the characters it
/// passes and the one it stops at.
pub proof fn lemma_skip_blanks_is(s: Seq<char>, pos: int, stop: int)
    requires
        0 <= pos <= stop <= s.len(),
        forall|i: int| pos <= i < stop ==> blank(#[trigger] s[i]),
        stop < s.len() ==> !blank(s[stop]),
    ensures
        skip_blanks(s, pos) == stop,
    decreases stop - pos,
{
    if pos < stop {
        lemma_skip_blanks_is(s, pos + 1, stop);
    }
}

/// The position where a token ends is fixed by the characters it holds and
/// the one that follows.
pub proof fn lemma_run_end_is(s: Seq<char>, first: char, pos: int, stop: int)
    requires
        0 <= pos <= stop <= s.len(),
        forall|i: int| pos <= i < stop ==> continues(first, #[trigger] s[i]),
        stop < s.len() ==> !continues(first, s[stop]),
    ensures
        run_end(s, first, pos) == stop,
    decreases stop - pos,
{
    if pos < stop {
        lemma_run_end_is(s, first, pos + 1, stop);
    }
}

/// Reading a token leaves a shorter text.
pub proof fn lemma_next_lexeme_shrinks(s: Seq<char>)
    ensures
        next_lexeme(s) is Some ==> next_lexeme(s)->Some_0.1.len() < s.len(),
{
    let start = skip_blanks(s, 0);
    lemma_skip_blanks(s, 0);
    if start < s.len() {
        lemma_run_end(s, s[start], start + 1);
    }
}

/// A text has no more tokens than characters.
pub proof fn lemma_tokens_bounded(s: Seq<char>)
    ensures
        tokens_of(s).len() <= s.len(),
    decreases s.len(),
{
    lemma_next_lexeme_shrinks(s);
    if let Some((_, rest)) = next_lexeme(s) {
        lemma_tokens_bounded(rest);
    }
}

/// The first token of a text that begins at position `pos` of a stream is
/// found in the stream by scanning from `pos`.
pub proof fn lemma_next_lexeme_at(s: Seq<char>, pos: int)
    requires
        0 <= pos <= s.len(),
    ensures
        ({
            let start = skip_blanks(s, pos);
            match next_lexeme(s.skip(pos)) {
                Some((first, rest)) => {
                    &&& start < s.len()
                    &&& start < token_end(s, start) <= s.len()
                    &&& first == classify(s.subrange(start, token_end(s, start)))
                    &&& rest == s.skip(token_end(s, start))
                },
                None => start == s.len(),
            }
        }),
{
    let tail = s.skip(pos);
    let start = skip_blanks(s, pos);
    lemma_skip_blanks(s, pos);
    assert forall|i: int| 0 <= i < start - pos implies blank(#[trigger] tail[i]) by {
        assert(tail[i] == s[i + pos]);
    }
    lemma_skip_blanks_is(tail, 0, start - pos);
    if start < s.len() {
        let end = token_end(s, start);
        let first = s[start];
        lemma_run_end(s, first, start + 1);
        assert(tail[start - pos] == first);
        assert forall|i: int| start - pos + 1 <= i < end - pos implies continues(
            first,
            #[trigger] tail[i],
        ) by {
            assert(tail[i] == s[i + pos]);
        }
        if end < s.len() {
            assert(tail[end - pos] == s[end]);
        }
        lemma_run_end_is(tail, first, start - pos + 1, end - pos);
        assert(tail.subrange(start - pos, end - pos) =~= s.subrange(start, end));
        assert(tail.skip(end - pos) =~= s.skip(end));
    }
}

/// Blanks in front of a text do not change its tokens.
pub proof fn lemma_tokens_after_blanks(a: Seq<char>, b: Seq<char>)
    requires
        forall|i: int| 0 <= i < a.len() ==> blank(#[trigger] a[i]),
    ensures
        tokens_of(a + b) == tokens_of(b),
{
    let s = a + b;
    let k = a.len() as int;
    assert(s.skip(k) =~= b);
    assert(s.skip(0) =~= s);
    lemma_next_lexeme_at(s, k);
    lemma_next_lexeme_at(s, 0);
    lemma_skip_blanks(s, k);
    let stop = skip_blanks(s, k);
    assert forall|i: int| 0 <= i < stop implies blank(#[trigger] s[i]) by {
        if i < k {
            assert(s[i] == a[i]);
        }
    }
    lemma_skip_blanks_is(s, 0, stop);
    assert(next_lexeme(s) == next_lexeme(b));
}

/// A text that ends where a delimiter follows, or where the input ends, is
/// tokenized by itself: the tokens of the whole are those of the text, then
/// those of the rest.
pub proof fn lemma_tokens_split(a: Seq<char>, b: Seq<char>)
    requires
        b.len() == 0 || delimiter(b[0]),
    ensures
        tokens_of(a + b) == tokens_of(a) + tokens_of(b),
    decreases a.len(),
{
    let s = a + b;
    let start = skip_blanks(a, 0);
    lemma_skip_blanks(a, 0);
    if start == a.len() {
        lemma_tokens_after_blanks(a, b);
        assert(tokens_of(a) =~= Seq::<Lexeme>::empty());
        assert(tokens_of(a) + tokens_of(b) =~= tokens_of(b));
    } else {
        let first = a[start];
        let end = token_end(a, start);
        lemma_run_end(a, first, start + 1);
        assert forall|i: int| 0 <= i < start implies blank(#[trigger] s[i]) by {
            assert(s[i] == a[i]);
        }
        assert(s[start] == first);
        lemma_skip_blanks_is(s, 0, start);
        assert forall|i: int| start + 1 <= i < end implies continues(first, #[trigger] s[i]) by {
            assert(s[i] == a[i]);
        }
        if end < a.len() {
            assert(s[end] == a[end]);
        } else if b.len() > 0 {
            assert(s[end] == b[0]);
        }
        lemma_run_end_is(s, first, start + 1, end);
        assert(s.subrange(start, end) =~= a.subrange(start, end));
        assert(s.skip(end) =~= a.skip(end) + b);
        lemma_tokens_split(a.skip(end), b);
        let head = classify(a.subrange(start, end));
        assert(tokens_of(s) == seq![head] + tokens_of(a.skip(end) + b));
        assert(tokens_of(a) == seq![head] + tokens_of(a.skip(end)));
        assert(tokens_of(s) =~= tokens_of(a) + tokens_of(b));
    }
}

/// The token of a structural character.
pub open spec fn punct_lexeme(c: char) -> Lexeme {
    classify(seq![c])
}

/// A structural character is a token whatever follows it.
pub proof fn lemma_tokens_punct(c: char, b: Seq<char>)
    requires
        punct(c),
    ensures
        tokens_of(seq![c] + b) == seq![punct_lexeme(c)] + tokens_of(b),
{
    let s = seq![c] + b;
    assert(s[0] == c);
    assert(skip_blanks(s, 0) == 0);
    assert(run_end(s, c, 1) == 1);
    assert(s.subrange(0, 1) =~= seq![c]);
    assert(s.skip(1) =~= b);
}

/// A word alone is one identifier.
pub proof fn lemma_tokens_word(w: Seq<char>)
    requires
        word(w),
    ensures
        tokens_of(w) == seq![Lexeme::Ident(w)],
{
    assert(skip_blanks(w, 0) == 0);
    lemma_run_end_is(w, w[0], 1, w.len() as int);
    assert(w.subrange(0, w.len() as int) =~= w);
    assert(!digit(w[0]) && !punct(w[0]));
    assert(classify(w) == Lexeme::Ident(w));
    assert(w.skip(w.len() as int) =~= Seq::<char>::empty());
    assert(tokens_of(Seq::<char>::empty()) =~= Seq::<Lexeme>::empty());
    assert(tokens_of(w) =~= seq![Lexeme::Ident(w)]);
}

/// The decimal numeral of a number alone is one integer literal of that
/// value.
pub proof fn lemma_tokens_decimal(n: u64)
    ensures
        tokens_of(decimal_text(n as nat)) == seq![Lexeme::Digit(n)],
{
    let t = decimal_text(n as nat);
    lemma_decimal_text_value(n as nat);
    assert(digit(t[0]));
    assert(skip_blanks(t, 0) == 0);
    lemma_run_end_is(t, t[0], 1, t.len() as int);
    assert(t.subrange(0, t.len() as int) =~= t);
    assert(!punct(t[0]));
    assert(classify(t) == Lexeme::Digit(n));
    assert(t.skip(t.len() as int) =~= Seq::<char>::empty());
    assert(tokens_of(Seq::<char>::empty()) =~= Seq::<Lexeme>::empty());
    assert(tokens_of(t) =~= seq![Lexeme::Digit(n)]);
}

} // verus!
