//! Tokens of the exposition format and the rule that tells them apart.

use vstd::prelude::*;
use vstd::std_specs::convert::FromSpecImpl;
use vstd::string::{is_ascii_spec_bytes, StringSliceAdditionalSpecFns};
use vstd::utf8::is_ascii_chars;
use crate::chars::{all_digits, digit, letter, punct, word};
use crate::decimal::{
    decimal_string, decimal_text, decimal_value, lemma_decimal_text_value,
    lemma_decimal_value_prefix,
};

verus! {

/// The smallest lexical unit of an exposition line.
#[derive(Debug, PartialEq, Eq)]
pub enum Token {
    /// A word: a letter followed by letters and digits.
    Ident(String),
    /// An unsigned integer literal, by its value.
    Digit(u64),
    /// `=`
    Assign,
    /// `{`
    Lbrace,
    /// `}`
    Rbrace,
    /// `"`
    Dquot,
    /// `,`
    Seperator,
    /// `.`
    Floatp,
    /// A run of characters of no token shape.
    Illegal,
}

/// What a token is, with its text as a sequence of characters.
pub enum Lexeme {
    Ident(Seq<char>),
    Digit(u64),
    Assign,
    Lbrace,
    Rbrace,
    Dquot,
    Seperator,
    Floatp,
    Illegal,
}

impl View for Token {
    type V = Lexeme;

    open spec fn view(&self) -> Lexeme {
        match self {
            Token::Ident(s) => Lexeme::Ident(s@),
            Token::Digit(d) => Lexeme::Digit(*d),
            Token::Assign => Lexeme::Assign,
            Token::Lbrace => Lexeme::Lbrace,
            Token::Rbrace => Lexeme::Rbrace,
            Token::Dquot => Lexeme::Dquot,
            Token::Seperator => Lexeme::Seperator,
            Token::Floatp => Lexeme::Floatp,
            Token::Illegal => Lexeme::Illegal,
        }
    }
}

/// The views of a sequence of tokens, in order.
pub open spec fn lexemes(tokens: Seq<Token>) -> Seq<Lexeme> {
    tokens.map_values(|t: Token| t@)
}

/// The token that a candidate text is. A structural character alone is its
/// token; a run of digits is an integer literal when its value fits in 64
/// bits (the empty run counts, with value zero); a word is an identifier;
/// everything else, a number too large included, is `Illegal`.
pub open spec fn classify(text: Seq<char>) -> Lexeme {
    if text == seq!['='] {
        Lexeme::Assign
    } else if text == seq!['{'] {
        Lexeme::Lbrace
    } else if text == seq!['}'] {
        Lexeme::Rbrace
    } else if text == seq!['"'] {
        Lexeme::Dquot
    } else if text == seq![','] {
        Lexeme::Seperator
    } else if text == seq!['.'] {
        Lexeme::Floatp
    } else if all_digits(text) && decimal_value(text) <= u64::MAX {
        Lexeme::Digit(decimal_value(text) as u64)
    } else if word(text) {
        Lexeme::Ident(text)
    } else {
        Lexeme::Illegal
    }
}

/// The text a token is written as. An integer literal is written without
/// leading zeros, and `Illegal` as the word `ILLEGAL`.
pub open spec fn lexeme_text(l: Lexeme) -> Seq<char> {
    match l {
        Lexeme::Ident(s) => s,
        Lexeme::Digit(d) => decimal_text(d as nat),
        Lexeme::Assign => seq!['='],
        Lexeme::Lbrace => seq!['{'],
        Lexeme::Rbrace => seq!['}'],
        Lexeme::Dquot => seq!['"'],
        Lexeme::Seperator => seq![','],
        Lexeme::Floatp => seq!['.'],
        Lexeme::Illegal => seq!['I', 'L', 'L', 'E', 'G', 'A', 'L'],
    }
}

/// Whether a token can come out of `classify` and is not `Illegal`: an
/// identifier must hold a word.
pub open spec fn well_formed(l: Lexeme) -> bool {
    match l {
        Lexeme::Ident(text) => word(text),
        Lexeme::Illegal => false,
        _ => true,
    }
}

/// Writing a token and classifying the text gives the token back.
pub proof fn lemma_text_classifies_back(l: Lexeme)
    requires
        well_formed(l),
    ensures
        classify(lexeme_text(l)) == l,
{
    match l {
        Lexeme::Ident(text) => {
            assert(letter(text[0]));
        },
        Lexeme::Digit(d) => {
            lemma_decimal_text_value(d as nat);
            assert(digit(decimal_text(d as nat)[0]));
        },
        _ => {
            assert(lexeme_text(l).len() == 1);
            assert(punct(lexeme_text(l)[0]));
        },
    }
}

/// A token that `classify` gives is well formed or `Illegal`.
pub proof fn lemma_classify_well_formed(text: Seq<char>)
    ensures
        classify(text) is Illegal || well_formed(classify(text)),
{
}

/// `bytes` holds the characters of `text`, one byte each.
spec fn spells(bytes: Seq<u8>, text: Seq<char>) -> bool {
    &&& bytes.len() == text.len()
    &&& forall|j: int| 0 <= j < bytes.len() ==> (#[trigger] bytes[j]) as char == text[j]
}

/// The bytes of an ASCII string are its characters.
proof fn lemma_ascii_bytes(s: &str)
    requires
        is_ascii_chars(s@),
    ensures
        spells(s.spec_bytes(), s@),
{
    is_ascii_spec_bytes(s);
    let bytes = s.spec_bytes();
    assert forall|j: int| 0 <= j < bytes.len() implies (#[trigger] bytes[j]) as char == s@[j] by {
        assert('\0' <= s@[j] <= '\u{7f}');
        assert(bytes[j] == s@[j] as u8);
    }
}

/// A text with a character beyond ASCII is neither a number nor a word.
proof fn lemma_beyond_ascii(text: Seq<char>)
    requires
        !is_ascii_chars(text),
    ensures
        !all_digits(text),
        !word(text),
        text.len() == 1 ==> !punct(text[0]),
{
    let i = choose|i: int| 0 <= i < text.len() && !('\0' <= #[trigger] text[i] <= '\u{7f}');
    assert(!digit(text[i]) && !letter(text[i]));
}

/// The value of `s` read as an unsigned decimal numeral: `Some` exactly when
/// every character is a digit and the value fits in 64 bits.
pub fn is_digit(s: &str) -> (r: Option<u64>)
    ensures
        r is Some <==> all_digits(s@) && decimal_value(s@) <= u64::MAX,
        r is Some ==> r->Some_0 == decimal_value(s@),
{
    if !s.is_ascii() {
        proof {
            lemma_beyond_ascii(s@);
        }
        return None;
    }
    let bytes = s.as_bytes();
    proof {
        lemma_ascii_bytes(s);
    }
    let mut res: u64 = 0;
    let mut i: usize = 0;
    while i < bytes.len()
        invariant
            0 <= i <= bytes.len(),
            spells(bytes@, s@),
            all_digits(s@.take(i as int)),
            res == decimal_value(s@.take(i as int)),
        decreases bytes.len() - i,
    {
        let c = bytes[i];
        proof {
            assert(c as char == s@[i as int]);
            assert(s@.take(i + 1).drop_last() =~= s@.take(i as int));
            assert(s@.take(i + 1).last() == s@[i as int]);
            if all_digits(s@) {
                assert(digit(s@[i as int]));
                lemma_decimal_value_prefix(s@, i + 1);
            }
        }
        if c < 48 || c > 57 {
            assert(!digit(s@[i as int]));
            return None;
        }
        let next = match res.checked_mul(10) {
            Some(m) => m.checked_add((c - 48) as u64),
            None => None,
        };
        match next {
            Some(v) => {
                res = v;
            },
            None => {
                return None;
            },
        }
        i += 1;
        assert(all_digits(s@.take(i as int))) by {
            let now = s@.take(i as int);
            let before = s@.take(i - 1);
            assert forall|j: int| 0 <= j < now.len() implies digit(#[trigger] now[j]) by {
                if j < i - 1 {
                    assert(now[j] == before[j]);
                } else {
                    assert(now[j] == bytes@[i - 1] as char);
                }
            }
        }
    }
    assert(s@.take(i as int) =~= s@);
    Some(res)
}

/// `s` again when it is a word, a letter followed by letters and digits;
/// `None` otherwise.
pub fn is_letter(s: &str) -> (r: Option<&str>)
    ensures
        r is Some <==> word(s@),
        r is Some ==> r->Some_0@ == s@,
{
    if !s.is_ascii() {
        proof {
            lemma_beyond_ascii(s@);
        }
        return None;
    }
    let bytes = s.as_bytes();
    proof {
        lemma_ascii_bytes(s);
    }
    if bytes.len() == 0 {
        return None;
    }
    let first = bytes[0];
    if !byte_is_letter(first) {
        return None;
    }
    let mut i: usize = 1;
    while i < bytes.len()
        invariant
            1 <= i <= bytes.len(),
            spells(bytes@, s@),
            forall|j: int| 0 <= j < i ==> letter(#[trigger] s@[j]) || digit(s@[j]),
        decreases bytes.len() - i,
    {
        let c = bytes[i];
        assert(c as char == s@[i as int]);
        if !(byte_is_letter(c) || (48 <= c && c <= 57)) {
            assert(!(letter(s@[i as int]) || digit(s@[i as int])));
            return None;
        }
        i += 1;
    }
    Some(s)
}

fn byte_is_letter(b: u8) -> (r: bool)
    ensures
        r == letter(b as char),
{
    (97 <= b && b <= 122) || (65 <= b && b <= 90) || b == 95
}

/// The structural token that `s` is, when it is one structural character.
fn structural(s: &str) -> (r: Option<Token>)
    ensures
        match r {
            Some(t) => t@ == classify(s@) && (t@ is Assign || t@ is Lbrace || t@ is Rbrace
                || t@ is Dquot || t@ is Seperator || t@ is Floatp),
            None => !(classify(s@) is Assign || classify(s@) is Lbrace || classify(s@) is Rbrace
                || classify(s@) is Dquot || classify(s@) is Seperator || classify(s@) is Floatp),
        },
{
    if !s.is_ascii() {
        proof {
            lemma_beyond_ascii(s@);
        }
        return None;
    }
    let bytes = s.as_bytes();
    proof {
        lemma_ascii_bytes(s);
    }
    if bytes.len() != 1 {
        return None;
    }
    let c = bytes[0];
    assert(s@ =~= seq![s@[0]]);
    assert(c as char == s@[0]);
    if c == 61 {
        assert(s@[0] == '=');
        Some(Token::Assign)
    } else if c == 123 {
        assert(s@[0] == '{');
        Some(Token::Lbrace)
    } else if c == 125 {
        assert(s@[0] == '}');
        Some(Token::Rbrace)
    } else if c == 34 {
        assert(s@[0] == '"');
        Some(Token::Dquot)
    } else if c == 44 {
        assert(s@[0] == ',');
        Some(Token::Seperator)
    } else if c == 46 {
        assert(s@[0] == '.');
        Some(Token::Floatp)
    } else {
        None
    }
}

impl From<String> for Token {
    /// Classifies a candidate text; an identifier keeps the text itself.
    fn from(value: String) -> (t: Token)
        ensures
            t@ == classify(value@),
    {
        if let Some(t) = structural(value.as_str()) {
            t
        } else if let Some(d) = is_digit(value.as_str()) {
            Token::Digit(d)
        } else if is_letter(value.as_str()).is_some() {
            Token::Ident(value)
        } else {
            Token::Illegal
        }
    }
}

impl FromSpecImpl<String> for Token {
    open spec fn obeys_from_spec() -> bool {
        true
    }

    open spec fn from_spec(value: String) -> Token {
        match classify(value@) {
            Lexeme::Ident(_) => Token::Ident(value),
            Lexeme::Digit(d) => Token::Digit(d),
            Lexeme::Assign => Token::Assign,
            Lexeme::Lbrace => Token::Lbrace,
            Lexeme::Rbrace => Token::Rbrace,
            Lexeme::Dquot => Token::Dquot,
            Lexeme::Seperator => Token::Seperator,
            Lexeme::Floatp => Token::Floatp,
            Lexeme::Illegal => Token::Illegal,
        }
    }
}

impl Clone for Token {
    fn clone(&self) -> (t: Token)
        ensures
            t@ == self@,
    {
        match self {
            Token::Ident(s) => Token::Ident(s.clone()),
            Token::Digit(d) => Token::Digit(*d),
            Token::Assign => Token::Assign,
            Token::Lbrace => Token::Lbrace,
            Token::Rbrace => Token::Rbrace,
            Token::Dquot => Token::Dquot,
            Token::Seperator => Token::Seperator,
            Token::Floatp => Token::Floatp,
            Token::Illegal => Token::Illegal,
        }
    }
}

impl From<Token> for String {
    /// The text that `token` is written as.
    fn from(token: Token) -> (s: String)
        ensures
            s@ == lexeme_text(token@),
    {
        proof {
            reveal_strlit("=");
            reveal_strlit("{");
            reveal_strlit("}");
            reveal_strlit("\"");
            reveal_strlit(",");
            reveal_strlit(".");
            reveal_strlit("ILLEGAL");
            assert("ILLEGAL"@ =~= seq!['I', 'L', 'L', 'E', 'G', 'A', 'L']);
            assert("="@ =~= seq!['=']);
            assert("{"@ =~= seq!['{']);
            assert("}"@ =~= seq!['}']);
            assert("\""@ =~= seq!['"']);
            assert(","@ =~= seq![',']);
            assert("."@ =~= seq!['.']);
        }
        match token {
            Token::Assign => "=".to_owned(),
            Token::Lbrace => "{".to_owned(),
            Token::Rbrace => "}".to_owned(),
            Token::Dquot => "\"".to_owned(),
            Token::Seperator => ",".to_owned(),
            Token::Floatp => ".".to_owned(),
            Token::Ident(s) => s,
            Token::Digit(d) => decimal_string(d),
            Token::Illegal => "ILLEGAL".to_owned(),
        }
    }
}

impl FromSpecImpl<Token> for String {
    /// The text is stated by its characters, in the contract of `from`.
    open spec fn obeys_from_spec() -> bool {
        false
    }

    open spec fn from_spec(token: Token) -> String {
        arbitrary()
    }
}

} // verus!
