//! The tokenizer: a pull-based pass over the bytes of a text.

use vstd::prelude::*;
use vstd::utf8::{encode_utf8, is_ascii_chars, is_ascii_chars_encode_utf8};
use crate::chars::{blank, digit, letter, punct};
use crate::scan::{
    continues, lemma_next_lexeme_at, lemma_next_lexeme_shrinks, lemma_run_end_is,
    lemma_skip_blanks_is, lemma_tokens_bounded, next_lexeme, skip_blanks, token_end, tokens_of,
};
use crate::token::{lexemes, Token};

verus! {

/// The characters that a run of bytes is read as: each byte on its own, as
/// the character with that code.
pub open spec fn byte_chars(bytes: Seq<u8>) -> Seq<char> {
    bytes.map_values(|b: u8| b as char)
}

/// The character stream that the tokenizer reads for a text: the bytes of
/// its UTF-8 encoding, each as a character. A character beyond ASCII thus
/// comes as two to four stray characters, and so as part of an `Illegal`
/// token.
pub open spec fn stream(text: Seq<char>) -> Seq<char> {
    byte_chars(encode_utf8(text))
}

/// An ASCII text is read as itself.
pub proof fn lemma_ascii_stream(text: Seq<char>)
    requires
        is_ascii_chars(text),
    ensures
        stream(text) == text,
{
    is_ascii_chars_encode_utf8(text);
    let bytes = encode_utf8(text);
    assert forall|i: int| 0 <= i < text.len() implies stream(text)[i] == text[i] by {
        assert('\0' <= text[i] <= '\u{7f}');
        assert(bytes[i] == text[i] as u8);
    }
    assert(stream(text) =~= text);
}

/// A text to be tokenized.
pub struct Lexer {
    input: String,
}

impl View for Lexer {
    type V = Seq<char>;

    /// The text.
    closed spec fn view(&self) -> Seq<char> {
        self.input@
    }
}

/// One pass over a text, token by token. A fresh pass takes a new value.
pub struct LexerIter<'a> {
    input_size: usize,
    input_bytes: &'a [u8],
    pos: usize,  // current token cursor
}

impl<'a> View for LexerIter<'a> {
    type V = Seq<char>;

    /// The part of the character stream that is still to be read.
    closed spec fn view(&self) -> Seq<char> {
        self.chars().skip(self.pos as int)
    }
}

impl Lexer {
    pub fn new(input: String) -> (lexer: Self)
        ensures
            lexer@ == input@,
    {
        Self { input }
    }

    /// A pass over the text, at its beginning.
    pub fn iter(&self) -> (it: LexerIter<'_>)
        ensures
            it@ == stream(self@),
    {
        LexerIter::new(self.input.as_str())
    }

    /// All the tokens of the text, in source order: no more of them than
    /// the text has bytes.
    pub fn tokens(&self) -> (all: Vec<Token>)
        ensures
            lexemes(all@) == tokens_of(stream(self@)),
            all@.len() <= stream(self@).len(),
    {
        self.iter().tokens()
    }
}

impl<'a> LexerIter<'a> {
    #[verifier::type_invariant]
    spec fn inv(self) -> bool {
        self.input_size == self.input_bytes@.len() && self.pos <= self.input_size
    }

    /// The whole character stream of this pass.
    closed spec fn chars(&self) -> Seq<char> {
        byte_chars(self.input_bytes@)
    }

    /// A pass over `lex`, at its beginning.
    pub fn new(lex: &'a str) -> (it: Self)
        ensures
            it@ == stream(lex@),
    {
        let input_bytes = lex.as_bytes();
        let it = Self { input_size: input_bytes.len(), input_bytes, pos: 0 };
        assert(it.chars().skip(0) =~= it.chars());
        it
    }

    /// The position of the first character at or after the cursor that is
    /// not blank.
    fn next_non_blank(&self) -> (r: Option<usize>)
        ensures
            match r {
                Some(i) => i == skip_blanks(self.chars(), self.pos as int) && i
                    < self.chars().len(),
                None => skip_blanks(self.chars(), self.pos as int) == self.chars().len(),
            },
    {
        proof {
            use_type_invariant(self);
        }
        let mut i = self.pos;
        while i < self.input_size
            invariant
                self.pos <= i <= self.input_size == self.input_bytes@.len(),
                forall|j: int| self.pos <= j < i ==> blank(#[trigger] self.chars()[j]),
            decreases self.input_size - i,
        {
            if !Self::is_blank(self.input_bytes[i] as char) {
                proof {
                    lemma_skip_blanks_is(self.chars(), self.pos as int, i as int);
                }
                return Some(i);
            }
            i += 1;
        }
        proof {
            lemma_skip_blanks_is(self.chars(), self.pos as int, i as int);
        }
        None
    }

    /// The text of the token that begins at the cursor, and the position
    /// just past it.
    fn read_string(&self) -> (r: (String, usize))
        requires
            self.pos < self.chars().len(),
        ensures
            r.1 == token_end(self.chars(), self.pos as int),
            self.pos < r.1 <= self.chars().len(),
            r.0@ == self.chars().subrange(self.pos as int, r.1 as int),
    {
        proof {
            use_type_invariant(self);
        }
        let first = self.input_bytes[self.pos] as char;
        let mut s = String::new();
        s.push(first);
        let mut i = self.pos + 1;
        assert(s@ =~= self.chars().subrange(self.pos as int, i as int));
        while i < self.input_size
            invariant
                self.pos < i <= self.input_size == self.input_bytes@.len(),
                first == self.chars()[self.pos as int],
                forall|j: int| self.pos < j < i ==> continues(first, #[trigger] self.chars()[j]),
                s@ == self.chars().subrange(self.pos as int, i as int),
            decreases self.input_size - i,
        {
            let b = self.input_bytes[i] as char;
            if !Self::carries_on(first, b) {
                proof {
                    lemma_run_end_is(self.chars(), first, self.pos + 1, i as int);
                }
                return (s, i);
            }
            s.push(b);
            i += 1;
            assert(s@ =~= self.chars().subrange(self.pos as int, i as int));
        }
        proof {
            lemma_run_end_is(self.chars(), first, self.pos + 1, i as int);
        }
        (s, i)
    }

    #[inline]
    pub fn is_blank(c: char) -> (r: bool)
        ensures
            r == blank(c),
    {
        c == ' ' || c == '\t' || c == '\n' || c == '\r'
    }

    #[inline]
    pub fn is_letter(c: char) -> (r: bool)
        ensures
            r == letter(c),
    {
        ('a' <= c && c <= 'z') || ('A' <= c && c <= 'Z') || c == '_'
    }

    #[inline]
    pub fn is_digit(c: char) -> (r: bool)
        ensures
            r == digit(c),
    {
        '0' <= c && c <= '9'
    }

    /// Whether `c` is one of the six structural characters.
    #[inline]
    pub fn is_punct(c: char) -> (r: bool)
        ensures
            r == punct(c),
    {
        c == '=' || c == '{' || c == '}' || c == '"' || c == ',' || c == '.'
    }

    /// Whether `c` carries on a token that began with `first`.
    fn carries_on(first: char, c: char) -> (r: bool)
        ensures
            r == continues(first, c),
    {
        if Self::is_letter(first) {
            Self::is_letter(c) || Self::is_digit(c)
        } else if Self::is_digit(first) {
            Self::is_digit(c)
        } else if Self::is_punct(first) {
            false
        } else {
            !Self::is_blank(c) && !Self::is_letter(c) && !Self::is_digit(c) && !Self::is_punct(c)
        }
    }

    /// All the tokens that are still to come, in source order: no more of
    /// them than characters are left.
    pub fn tokens(self) -> (all: Vec<Token>)
        ensures
            lexemes(all@) == tokens_of(self@),
            all@.len() <= self@.len(),
    {
        proof {
            lemma_tokens_bounded(self@);
        }
        let mut it = self;
        let mut all: Vec<Token> = Vec::new();
        assert(lexemes(all@) + tokens_of(it@) =~= tokens_of(self@));
        loop
            invariant
                lexemes(all@) + tokens_of(it@) == tokens_of(self@),
                tokens_of(self@).len() <= self@.len(),
            decreases it@.len(),
        {
            let ghost before = it@;
            proof {
                lemma_next_lexeme_shrinks(before);
            }
            let ghost found = lexemes(all@);
            match it.next() {
                Some(t) => {
                    all.push(t);
                    assert(lexemes(all@) =~= found.push(t@));
                    assert(found.push(t@) + tokens_of(it@) =~= found + tokens_of(before));
                },
                None => {
                    assert(lexemes(all@) + tokens_of(it@) =~= lexemes(all@));
                    assert(lexemes(all@).len() == all@.len());
                    return all;
                },
            }
        }
    }

    /// Reads the next token. Blanks before it are passed over; `None` means
    /// that only blanks were left, and then nothing is consumed.
    pub fn next(&mut self) -> (t: Option<Token>)
        ensures
            match next_lexeme(old(self)@) {
                Some((first, rest)) => t is Some && t->Some_0@ == first && final(self)@ == rest,
                None => t is None && final(self)@ == old(self)@,
            },
    {
        proof {
            use_type_invariant(&*self);
            lemma_next_lexeme_at(self.chars(), self.pos as int);
        }
        match self.next_non_blank() {
            Some(start) => {
                self.pos = start;
                let (text, end) = self.read_string();
                self.pos = end;
                Some(Token::from(text))
            },
            None => None,
        }
    }
}

} // verus!
