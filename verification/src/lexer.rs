//! The P4 lexer: turns source text into tokens with byte spans.
//!
//! At each position the longest token is taken; keywords win over
//! identifiers of the same length. Integer literals and preprocessor
//! directives are decoded while lexing, and whatever cannot be lexed becomes
//! an [`Token::Error`] token.
use vstd::prelude::*;

use crate::base_abstractions::{Diagnostic, FileId, Severity, Span};
use crate::preprocessor::parser::{
    digit_value, digits_value, is_alpha, is_digit, is_word, spec_expression, word_end,
};
use crate::parser::Symbol;
use crate::preprocessor::{
    same_directive, PreprocessorDirective, PreprocessorQuotationStyle, SpecDirective, SpecExpr,
};
use crate::preprocessor::parser::{digits_to_i64, parse_expression, lemma_digits_monotone, scan_word};
use crate::text::{
    ascii_whitespace, byte_offset, chars_equal, chars_of, is_ascii_ws, is_unicode_whitespace,
    lemma_utf8_size_prefix, spec_utf8_size, string_of, sub_chars, unicode_whitespace, utf8_size_fits,
};

verus! {

/// A decoded integer literal such as `8w255` or `0xff`.
#[derive(Clone, Copy, Debug, PartialEq, Eq, Structural, PartialOrd, Ord, Hash)]
pub struct Literal {
    pub base: u8,
    pub signed: bool,
    pub width: Option<u32>,
    pub value: i64,
}

/// The tokens of P4 source text.
#[derive(Debug, PartialEq, Eq, PartialOrd, Ord)]
pub enum Token {
    CloseBrace,
    CloseBracket,
    CloseChevron,
    CloseParen,
    Colon,
    Comma,
    Comment,
    Dot,
    Equals,
    Asterisk,
    Slash,
    Plus,
    Minus,
    Error,
    Identifier(String),
    Integer(Literal),
    KwAction,
    KwApply,
    KwControl,
    KwElse,
    KwHeader,
    KwIf,
    KwParser,
    KwReturn,
    KwState,
    KwTable,
    KwTransition,
    KwTypedef,
    OpenBrace,
    OpenBracket,
    OpenChevron,
    OpenParen,
    PreprocessorDirective(PreprocessorDirective),
    Semicolon,
    AtSymbol,
    Whitespace,
}

impl Clone for Token {
    fn clone(&self) -> (r: Self)
        ensures
            r == *self,
    {
        match self {
            Token::Identifier(s) => Token::Identifier(s.clone()),
            Token::Integer(l) => Token::Integer(*l),
            Token::PreprocessorDirective(d) => Token::PreprocessorDirective(d.clone()),
            Token::CloseBrace => Token::CloseBrace,
            Token::CloseBracket => Token::CloseBracket,
            Token::CloseChevron => Token::CloseChevron,
            Token::CloseParen => Token::CloseParen,
            Token::Colon => Token::Colon,
            Token::Comma => Token::Comma,
            Token::Comment => Token::Comment,
            Token::Dot => Token::Dot,
            Token::Equals => Token::Equals,
            Token::Asterisk => Token::Asterisk,
            Token::Slash => Token::Slash,
            Token::Plus => Token::Plus,
            Token::Minus => Token::Minus,
            Token::Error => Token::Error,
            Token::KwAction => Token::KwAction,
            Token::KwApply => Token::KwApply,
            Token::KwControl => Token::KwControl,
            Token::KwElse => Token::KwElse,
            Token::KwHeader => Token::KwHeader,
            Token::KwIf => Token::KwIf,
            Token::KwParser => Token::KwParser,
            Token::KwReturn => Token::KwReturn,
            Token::KwState => Token::KwState,
            Token::KwTable => Token::KwTable,
            Token::KwTransition => Token::KwTransition,
            Token::KwTypedef => Token::KwTypedef,
            Token::OpenBrace => Token::OpenBrace,
            Token::OpenBracket => Token::OpenBracket,
            Token::OpenChevron => Token::OpenChevron,
            Token::OpenParen => Token::OpenParen,
            Token::Semicolon => Token::Semicolon,
            Token::AtSymbol => Token::AtSymbol,
            Token::Whitespace => Token::Whitespace,
        }
    }
}

/// The model of a [`Token`]: text is a character sequence.
pub enum SpecToken {
    CloseBrace,
    CloseBracket,
    CloseChevron,
    CloseParen,
    Colon,
    Comma,
    Comment,
    Dot,
    Equals,
    Asterisk,
    Slash,
    Plus,
    Minus,
    Error,
    Identifier(Seq<char>),
    Integer(Literal),
    KwAction,
    KwApply,
    KwControl,
    KwElse,
    KwHeader,
    KwIf,
    KwParser,
    KwReturn,
    KwState,
    KwTable,
    KwTransition,
    KwTypedef,
    OpenBrace,
    OpenBracket,
    OpenChevron,
    OpenParen,
    PreprocessorDirective(SpecDirective),
    Semicolon,
    AtSymbol,
    Whitespace,
}

impl View for Token {
    type V = SpecToken;

    open spec fn view(&self) -> SpecToken {
        match self {
            Token::CloseBrace => SpecToken::CloseBrace,
            Token::CloseBracket => SpecToken::CloseBracket,
            Token::CloseChevron => SpecToken::CloseChevron,
            Token::CloseParen => SpecToken::CloseParen,
            Token::Colon => SpecToken::Colon,
            Token::Comma => SpecToken::Comma,
            Token::Comment => SpecToken::Comment,
            Token::Dot => SpecToken::Dot,
            Token::Equals => SpecToken::Equals,
            Token::Asterisk => SpecToken::Asterisk,
            Token::Slash => SpecToken::Slash,
            Token::Plus => SpecToken::Plus,
            Token::Minus => SpecToken::Minus,
            Token::Error => SpecToken::Error,
            Token::Identifier(s) => SpecToken::Identifier(s@),
            Token::Integer(l) => SpecToken::Integer(*l),
            Token::KwAction => SpecToken::KwAction,
            Token::KwApply => SpecToken::KwApply,
            Token::KwControl => SpecToken::KwControl,
            Token::KwElse => SpecToken::KwElse,
            Token::KwHeader => SpecToken::KwHeader,
            Token::KwIf => SpecToken::KwIf,
            Token::KwParser => SpecToken::KwParser,
            Token::KwReturn => SpecToken::KwReturn,
            Token::KwState => SpecToken::KwState,
            Token::KwTable => SpecToken::KwTable,
            Token::KwTransition => SpecToken::KwTransition,
            Token::KwTypedef => SpecToken::KwTypedef,
            Token::OpenBrace => SpecToken::OpenBrace,
            Token::OpenBracket => SpecToken::OpenBracket,
            Token::OpenChevron => SpecToken::OpenChevron,
            Token::OpenParen => SpecToken::OpenParen,
            Token::PreprocessorDirective(d) => SpecToken::PreprocessorDirective(d@),
            Token::Semicolon => SpecToken::Semicolon,
            Token::AtSymbol => SpecToken::AtSymbol,
            Token::Whitespace => SpecToken::Whitespace,
        }
    }
}

impl Symbol for Token {
    fn same(&self, other: &Self) -> (b: bool) {
        match (self, other) {
            (Token::Identifier(x), Token::Identifier(y)) => crate::text::same_text(x.as_str(), y.as_str()),
            (Token::Integer(x), Token::Integer(y)) => *x == *y,
            (Token::PreprocessorDirective(x), Token::PreprocessorDirective(y)) => same_directive(x, y),
            (Token::CloseBrace, Token::CloseBrace) => true,
            (Token::CloseBracket, Token::CloseBracket) => true,
            (Token::CloseChevron, Token::CloseChevron) => true,
            (Token::CloseParen, Token::CloseParen) => true,
            (Token::Colon, Token::Colon) => true,
            (Token::Comma, Token::Comma) => true,
            (Token::Comment, Token::Comment) => true,
            (Token::Dot, Token::Dot) => true,
            (Token::Equals, Token::Equals) => true,
            (Token::Asterisk, Token::Asterisk) => true,
            (Token::Slash, Token::Slash) => true,
            (Token::Plus, Token::Plus) => true,
            (Token::Minus, Token::Minus) => true,
            (Token::Error, Token::Error) => true,
            (Token::KwAction, Token::KwAction) => true,
            (Token::KwApply, Token::KwApply) => true,
            (Token::KwControl, Token::KwControl) => true,
            (Token::KwElse, Token::KwElse) => true,
            (Token::KwHeader, Token::KwHeader) => true,
            (Token::KwIf, Token::KwIf) => true,
            (Token::KwParser, Token::KwParser) => true,
            (Token::KwReturn, Token::KwReturn) => true,
            (Token::KwState, Token::KwState) => true,
            (Token::KwTable, Token::KwTable) => true,
            (Token::KwTransition, Token::KwTransition) => true,
            (Token::KwTypedef, Token::KwTypedef) => true,
            (Token::OpenBrace, Token::OpenBrace) => true,
            (Token::OpenBracket, Token::OpenBracket) => true,
            (Token::OpenChevron, Token::OpenChevron) => true,
            (Token::OpenParen, Token::OpenParen) => true,
            (Token::Semicolon, Token::Semicolon) => true,
            (Token::AtSymbol, Token::AtSymbol) => true,
            (Token::Whitespace, Token::Whitespace) => true,
            _ => false,
        }
    }

    fn duplicate(&self) -> (r: Self) {
        self.clone()
    }
}

// ---------------------------------------------------------------------------
// The token grammar, stated over character sequences.
// ---------------------------------------------------------------------------

/// Whether `c` is a word character of regular expressions (`\w`: Unicode alphabetic
/// characters, marks, decimal digits, connector punctuation and join controls).
pub uninterp spec fn unicode_word(c: char) -> bool;

/// `regex::Regex` with the pattern `\w`, matched against `c` alone. Its result is named
/// [`unicode_word`]; among ASCII characters the word characters are the letters, the digits and
/// `_`, as the crate's documentation of `\w` and `[[:word:]]` says.
#[verifier::external_body]
fn is_unicode_word(c: char) -> (r: bool)
    ensures
        r == unicode_word(c),
        (c as u32) < 0x80 ==> (r == is_word(c)),
{
    regex::Regex::new(r"\A\w\z").unwrap().is_match(&c.to_string())
}

/// The end of the run of word characters (see [`unicode_word`]) starting at `i`.
pub open spec fn unicode_word_end(s: Seq<char>, i: int) -> int
    decreases s.len() - i,
{
    if 0 <= i < s.len() && unicode_word(s[i]) {
        unicode_word_end(s, i + 1)
    } else {
        i
    }
}

/// The end of the run of Unicode whitespace starting at `i`.
pub open spec fn whitespace_end(s: Seq<char>, i: int) -> int
    decreases s.len() - i,
{
    if 0 <= i < s.len() && is_unicode_whitespace(s[i]) {
        whitespace_end(s, i + 1)
    } else {
        i
    }
}

/// The end of the run of ASCII whitespace starting at `i`.
pub open spec fn ascii_ws_end(s: Seq<char>, i: int) -> int
    decreases s.len() - i,
{
    if 0 <= i < s.len() && is_ascii_ws(s[i]) {
        ascii_ws_end(s, i + 1)
    } else {
        i
    }
}

/// The first position at or after `i` holding `c`, or the length if there is none.
pub open spec fn find_char(s: Seq<char>, i: int, c: char) -> int
    decreases s.len() - i,
{
    if 0 <= i < s.len() && s[i] != c {
        find_char(s, i + 1, c)
    } else if i < 0 {
        s.len() as int
    } else {
        i
    }
}

/// Characters that may continue an integer literal.
pub open spec fn is_int_char(c: char) -> bool {
    is_digit(c) || c == 'w' || c == 's' || c == 'b' || c == 'B' || c == 'd' || c == 'D' || c == 'o'
        || c == 'O' || c == 'x' || c == 'X' || ('a' <= c && c <= 'f') || ('A' <= c && c <= 'F')
        || c == '_'
}

/// The end of the run of integer-literal characters starting at `i`.
pub open spec fn int_end(s: Seq<char>, i: int) -> int
    decreases s.len() - i,
{
    if 0 <= i < s.len() && is_int_char(s[i]) {
        int_end(s, i + 1)
    } else {
        i
    }
}

/// The end of the run of decimal digits starting at `i`.
pub open spec fn digit_run_end(s: Seq<char>, i: int) -> int
    decreases s.len() - i,
{
    if 0 <= i < s.len() && is_digit(s[i]) {
        digit_run_end(s, i + 1)
    } else {
        i
    }
}

/// The end of a block comment whose body starts at `i`, just after its closing
/// `*/`; `None` when the text ends first. `star` tells whether the previous
/// body character was a `*`.
pub open spec fn block_comment_end(s: Seq<char>, i: int, star: bool) -> Option<int>
    decreases s.len() - i,
{
    if !(0 <= i < s.len()) {
        None
    } else if s[i] == '*' {
        block_comment_end(s, i + 1, true)
    } else if s[i] == '/' && star {
        Some(i + 1)
    } else {
        block_comment_end(s, i + 1, false)
    }
}

/// The keyword spelled by `w`, if any.
pub open spec fn spec_keyword(w: Seq<char>) -> Option<SpecToken> {
    if w == seq!['a', 'c', 't', 'i', 'o', 'n'] {
        Some(SpecToken::KwAction)
    } else if w == seq!['a', 'p', 'p', 'l', 'y'] {
        Some(SpecToken::KwApply)
    } else if w == seq!['c', 'o', 'n', 't', 'r', 'o', 'l'] {
        Some(SpecToken::KwControl)
    } else if w == seq!['e', 'l', 's', 'e'] {
        Some(SpecToken::KwElse)
    } else if w == seq!['h', 'e', 'a', 'd', 'e', 'r'] {
        Some(SpecToken::KwHeader)
    } else if w == seq!['i', 'f'] {
        Some(SpecToken::KwIf)
    } else if w == seq!['p', 'a', 'r', 's', 'e', 'r'] {
        Some(SpecToken::KwParser)
    } else if w == seq!['r', 'e', 't', 'u', 'r', 'n'] {
        Some(SpecToken::KwReturn)
    } else if w == seq!['s', 't', 'a', 't', 'e'] {
        Some(SpecToken::KwState)
    } else if w == seq!['t', 'a', 'b', 'l', 'e'] {
        Some(SpecToken::KwTable)
    } else if w == seq!['t', 'r', 'a', 'n', 's', 'i', 't', 'i', 'o', 'n'] {
        Some(SpecToken::KwTransition)
    } else if w == seq!['t', 'y', 'p', 'e', 'd', 'e', 'f'] {
        Some(SpecToken::KwTypedef)
    } else {
        None
    }
}

/// The one-character token `c`, if it is one.
pub open spec fn spec_punctuation(c: char) -> Option<SpecToken> {
    if c == '}' {
        Some(SpecToken::CloseBrace)
    } else if c == ']' {
        Some(SpecToken::CloseBracket)
    } else if c == '>' {
        Some(SpecToken::CloseChevron)
    } else if c == ')' {
        Some(SpecToken::CloseParen)
    } else if c == ':' {
        Some(SpecToken::Colon)
    } else if c == ',' {
        Some(SpecToken::Comma)
    } else if c == '.' {
        Some(SpecToken::Dot)
    } else if c == '=' {
        Some(SpecToken::Equals)
    } else if c == '*' {
        Some(SpecToken::Asterisk)
    } else if c == '+' {
        Some(SpecToken::Plus)
    } else if c == '-' {
        Some(SpecToken::Minus)
    } else if c == '{' {
        Some(SpecToken::OpenBrace)
    } else if c == '[' {
        Some(SpecToken::OpenBracket)
    } else if c == '<' {
        Some(SpecToken::OpenChevron)
    } else if c == '(' {
        Some(SpecToken::OpenParen)
    } else if c == ';' {
        Some(SpecToken::Semicolon)
    } else if c == '@' {
        Some(SpecToken::AtSymbol)
    } else {
        None
    }
}

/// The outcome of decoding one token: a fault where the decoding does not
/// return, or a token with the messages reported while decoding it.
pub enum Decoded<T> {
    Fault,
    Done(T, Seq<Seq<char>>),
}

/// The position of the first width prefix `[0-9]+[ws]` at or after `p`: the
/// start of its digits and the position of its `w` or `s`.
pub open spec fn find_width(w: Seq<char>, p: int) -> Option<(int, int)>
    decreases w.len() - p,
{
    if !(0 <= p < w.len()) {
        None
    } else if is_digit(w[p]) {
        let q = digit_run_end(w, p);
        if p < q < w.len() && (w[q] == 'w' || w[q] == 's') {
            Some((p, q))
        } else if p < q <= w.len() {
            find_width(w, q)
        } else {
            None
        }
    } else {
        find_width(w, p + 1)
    }
}

/// The position of the first base prefix `0[bBdDoOxX]` at or after `p`, with its base.
pub open spec fn find_base(w: Seq<char>, p: int) -> Option<(int, u8)>
    decreases w.len() - p,
{
    if !(0 <= p && p + 1 < w.len()) {
        None
    } else if w[p] == '0' && (w[p + 1] == 'b' || w[p + 1] == 'B') {
        Some((p, 2u8))
    } else if w[p] == '0' && (w[p + 1] == 'd' || w[p + 1] == 'D') {
        Some((p, 10u8))
    } else if w[p] == '0' && (w[p + 1] == 'o' || w[p + 1] == 'O') {
        Some((p, 8u8))
    } else if w[p] == '0' && (w[p + 1] == 'x' || w[p + 1] == 'X') {
        Some((p, 16u8))
    } else {
        find_base(w, p + 1)
    }
}

/// Whether `c` is a digit of `base` (letters count from 10 upwards).
pub open spec fn is_digit_of(c: char, base: int) -> bool {
    (is_digit(c) || ('a' <= c && c <= 'z') || ('A' <= c && c <= 'Z')) && digit_value(c) < base
}

/// `w` read as an unsigned number in `base` with no sign and no separators,
/// as `i64::from_str_radix` reads it: `None` unless every character is a
/// digit, there is at least one, and the value fits.
pub open spec fn spec_radix_value(w: Seq<char>, base: int) -> Option<i64> {
    if w.len() > 0 && (forall|k: int| 0 <= k < w.len() ==> is_digit_of(#[trigger] w[k], base))
        && digits_value(w, 0, w.len() as int, base) <= i64::MAX {
        Some(digits_value(w, 0, w.len() as int, base) as i64)
    } else {
        None
    }
}

pub open spec fn msg_malformed_integer() -> Seq<char> {
    "malformed integer literal"@
}

/// Decodes the text `w` of an integer literal: an optional width prefix
/// (`8w`, `16s`), an optional base prefix (`0x`, ...) and the digits.
/// `None` inside `Done` marks a malformed literal.
pub open spec fn spec_read_int(w: Seq<char>) -> Decoded<Option<Literal>> {
    let width = find_width(w, 0);
    let width_ok = match width {
        Some((p, q)) => digits_value(w, p, q, 10) <= u32::MAX,
        None => true,
    };
    if !width_ok {
        Decoded::Fault
    } else {
        let (width_value, signed, rest) = match width {
            Some((p, q)) => (Some(digits_value(w, p, q, 10) as u32), w[q] == 's', w.subrange(q + 1, w.len() as int)),
            None => (None::<u32>, false, w),
        };
        let (base, digits) = match find_base(rest, 0) {
            Some((p, b)) => (b, rest.subrange(p + 2, rest.len() as int)),
            None => (10u8, rest),
        };
        match spec_radix_value(digits, base as int) {
            Some(v) => Decoded::Done(
                Some(Literal { base, signed, width: width_value, value: v }),
                seq![],
            ),
            None => Decoded::Done(None, seq![msg_malformed_integer()]),
        }
    }
}

/// The number that the binary digits `bits` write, most significant first.
pub open spec fn binary_value(bits: Seq<char>) -> int
    decreases bits.len(),
{
    if bits.len() == 0 {
        0
    } else {
        2 * binary_value(bits.drop_last()) + if bits.last() == '1' { 1int } else { 0int }
    }
}

/// Whether `bits` is a non-empty run of binary digits.
pub open spec fn is_binary(bits: Seq<char>) -> bool {
    bits.len() > 0 && forall|k: int| 0 <= k < bits.len() ==> (#[trigger] bits[k] == '0' || bits[k] == '1')
}

/// Two to the `n`.
pub open spec fn two_to(n: nat) -> int
    decreases n,
{
    if n == 0 {
        1
    } else {
        2 * two_to((n - 1) as nat)
    }
}

proof fn lemma_binary_value(bits: Seq<char>)
    requires
        forall|k: int| 0 <= k < bits.len() ==> (#[trigger] bits[k] == '0' || bits[k] == '1'),
    ensures
        digits_value(bits, 0, bits.len() as int, 2) == binary_value(bits),
        0 <= binary_value(bits) < two_to(bits.len()),
        forall|k: int| 0 <= k < bits.len() ==> is_digit_of(#[trigger] bits[k], 2),
        digit_run_end(bits, 0) == bits.len(),
    decreases bits.len(),
{
    if bits.len() > 0 {
        let d = bits.drop_last();
        lemma_binary_value(d);
        assert forall|j: int| 0 <= j <= d.len() implies digits_value(bits, 0, j, 2) == digits_value(d, 0, j, 2) by {
            lemma_digits_prefix(bits, d, j);
        }
        assert(bits[bits.len() - 1] == bits.last());
        lemma_digit_run_end_all(bits, 0);
    }
}

proof fn lemma_digits_prefix(s: Seq<char>, t: Seq<char>, j: int)
    requires
        0 <= j <= t.len() <= s.len(),
        t == s.take(t.len() as int),
    ensures
        digits_value(s, 0, j, 2) == digits_value(t, 0, j, 2),
    decreases j,
{
    if j > 0 {
        lemma_digits_prefix(s, t, j - 1);
        assert(s[j - 1] == t[j - 1]);
    }
}

proof fn lemma_digit_run_end_all(s: Seq<char>, i: int)
    requires
        0 <= i <= s.len(),
        forall|k: int| 0 <= k < s.len() ==> (#[trigger] s[k] == '0' || s[k] == '1'),
    ensures
        digit_run_end(s, i) == s.len(),
    decreases s.len() - i,
{
    if i < s.len() {
        lemma_digit_run_end_all(s, i + 1);
    }
}

/// A literal `0b` (or `0B`) followed by binary digits is read in base 2: its value is the number
/// that the digits write, without width or sign, as long as it fits a 63-bit number.
pub proof fn lemma_binary_literal(bits: Seq<char>, b: char)
    requires
        is_binary(bits),
        bits.len() <= 62,
        b == 'b' || b == 'B',
    ensures
        spec_read_int(seq!['0', b] + bits) == Decoded::Done(
            Some(Literal { base: 2, signed: false, width: None, value: binary_value(bits) as i64 }),
            seq![],
        ),
{
    let w = seq!['0', b] + bits;
    lemma_binary_value(bits);
    assert(two_to(62) == 0x4000000000000000) by {
        reveal_with_fuel(two_to, 63);
    }
    lemma_two_to_mono(bits.len(), 62);
    // No width prefix: the digit run `0` is followed by `b`, the bits run to the end.
    assert(digit_run_end(w, 1) == 1);
    assert(digit_run_end(w, 0) == 1);
    assert(w.subrange(2, w.len() as int) =~= bits);
    lemma_digit_run_end_shift(w, bits, 2);
    assert(find_width(w, w.len() as int) is None);
    assert(find_width(w, 2) is None);
    assert(find_width(w, 1) is None);
    assert(find_width(w, 0) is None);
    assert(find_base(w, 0) == Some((0int, 2u8)));
}

/// Lexing a binary literal `0b...` that ends where the text or the literal characters end gives
/// an integer token in base 2 holding the number that its digits write.
pub proof fn lemma_binary_token(s: Seq<char>, i: int, bits: Seq<char>, b: char)
    requires
        is_binary(bits),
        bits.len() <= 62,
        b == 'b' || b == 'B',
        0 <= i,
        i + 2 + bits.len() <= s.len(),
        s.subrange(i, i + 2 + bits.len()) == seq!['0', b] + bits,
        i + 2 + bits.len() == s.len() || !is_int_char(s[i + 2 + bits.len()]),
    ensures
        spec_token_at(s, i) == Decoded::Done(
            (
                SpecToken::Integer(Literal { base: 2, signed: false, width: None, value: binary_value(bits) as i64 }),
                i + 2 + bits.len(),
            ),
            seq![],
        ),
{
    let e = i + 2 + bits.len();
    lemma_binary_literal(bits, b);
    let w = seq!['0', b] + bits;
    assert forall|k: int| i <= k < e implies is_int_char(#[trigger] s[k]) by {
        assert(s[k] == s.subrange(i, e)[k - i]);
        if k - i >= 2 {
            assert(w[k - i] == bits[k - i - 2]);
        }
    }
    lemma_int_end_run(s, i, e);
    assert(s.subrange(i, e) == w);
    assert(s[i] == '0');
}

proof fn lemma_int_end_run(s: Seq<char>, i: int, e: int)
    requires
        0 <= i <= e <= s.len(),
        forall|k: int| i <= k < e ==> is_int_char(#[trigger] s[k]),
        e == s.len() || !is_int_char(s[e]),
    ensures
        int_end(s, i) == e,
    decreases e - i,
{
    if i < e {
        lemma_int_end_run(s, i + 1, e);
    }
}

/// The reserved words of P4 that the lexer knows, each with its keyword token.
pub open spec fn p4_reserved_words() -> Seq<(Seq<char>, SpecToken)> {
    seq![
        (seq!['a', 'c', 't', 'i', 'o', 'n'], SpecToken::KwAction),
        (seq!['a', 'p', 'p', 'l', 'y'], SpecToken::KwApply),
        (seq!['c', 'o', 'n', 't', 'r', 'o', 'l'], SpecToken::KwControl),
        (seq!['e', 'l', 's', 'e'], SpecToken::KwElse),
        (seq!['h', 'e', 'a', 'd', 'e', 'r'], SpecToken::KwHeader),
        (seq!['i', 'f'], SpecToken::KwIf),
        (seq!['p', 'a', 'r', 's', 'e', 'r'], SpecToken::KwParser),
        (seq!['r', 'e', 't', 'u', 'r', 'n'], SpecToken::KwReturn),
        (seq!['s', 't', 'a', 't', 'e'], SpecToken::KwState),
        (seq!['t', 'a', 'b', 'l', 'e'], SpecToken::KwTable),
        (seq!['t', 'r', 'a', 'n', 's', 'i', 't', 'i', 'o', 'n'], SpecToken::KwTransition),
        (seq!['t', 'y', 'p', 'e', 'd', 'e', 'f'], SpecToken::KwTypedef),
    ]
}

/// A reserved word of P4 that ends where the text or the word characters end is lexed as its
/// keyword token, never as an identifier.
pub proof fn lemma_reserved_word_token(s: Seq<char>, i: int, k: int)
    requires
        0 <= k < p4_reserved_words().len(),
        0 <= i,
        i + p4_reserved_words()[k].0.len() <= s.len(),
        s.subrange(i, i + p4_reserved_words()[k].0.len()) == p4_reserved_words()[k].0,
        i + p4_reserved_words()[k].0.len() == s.len() || !is_word(s[i + p4_reserved_words()[k].0.len()]),
    ensures
        spec_token_at(s, i) == Decoded::Done(
            (p4_reserved_words()[k].1, i + p4_reserved_words()[k].0.len()),
            seq![],
        ),
        !(spec_token_at(s, i) matches Decoded::Done((SpecToken::Identifier(_), _), _)),
{
    let w = p4_reserved_words()[k].0;
    let e = i + w.len();
    assert forall|j: int| 0 <= j < w.len() implies 'a' <= #[trigger] w[j] && w[j] <= 'z' by {
        assert(p4_reserved_words()[k].0 == w);
    }
    assert forall|j: int| i <= j < e implies is_word(#[trigger] s[j]) by {
        assert(s[j] == s.subrange(i, e)[j - i]);
    }
    assert(s[i] == w[0]);
    lemma_word_end_run(s, i + 1, e);
    assert(s.subrange(i, e) == w);
}

proof fn lemma_word_end_run(s: Seq<char>, i: int, e: int)
    requires
        0 <= i <= e <= s.len(),
        forall|k: int| i <= k < e ==> is_word(#[trigger] s[k]),
        e == s.len() || !is_word(s[e]),
    ensures
        word_end(s, i) == e,
    decreases e - i,
{
    if i < e {
        lemma_word_end_run(s, i + 1, e);
    }
}

/// The value of a digit of an integer literal: `0`-`9`, then `a`-`f` (or `A`-`F`) for 10 to 15;
/// 16 for any other character.
pub open spec fn literal_digit(c: char) -> int {
    if '0' <= c && c <= '9' {
        c as int - '0' as int
    } else if 'a' <= c && c <= 'f' {
        c as int - 'a' as int + 10
    } else if 'A' <= c && c <= 'F' {
        c as int - 'A' as int + 10
    } else {
        16
    }
}

/// The number that the digits `ds` write in `base`, most significant first.
pub open spec fn positional_value(ds: Seq<char>, base: int) -> int
    decreases ds.len(),
{
    if ds.len() == 0 {
        0
    } else {
        base * positional_value(ds.drop_last(), base) + literal_digit(ds.last())
    }
}

/// The base that the prefix letter of an integer literal (`0b`, `0o`, `0d`, `0x`, either case)
/// selects.
pub open spec fn prefix_base(p: char) -> Option<u8> {
    if p == 'b' || p == 'B' {
        Some(2u8)
    } else if p == 'o' || p == 'O' {
        Some(8u8)
    } else if p == 'd' || p == 'D' {
        Some(10u8)
    } else if p == 'x' || p == 'X' {
        Some(16u8)
    } else {
        None
    }
}

proof fn lemma_digit_run_end_bounds(s: Seq<char>, p: int)
    requires
        0 <= p <= s.len(),
    ensures
        p <= digit_run_end(s, p) <= s.len(),
        forall|k: int| p <= k < digit_run_end(s, p) ==> is_digit(#[trigger] s[k]),
        digit_run_end(s, p) < s.len() ==> !is_digit(s[digit_run_end(s, p)]),
    decreases s.len() - p,
{
    if p < s.len() && is_digit(s[p]) {
        lemma_digit_run_end_bounds(s, p + 1);
    }
}

proof fn lemma_no_width(w: Seq<char>, p: int)
    requires
        0 <= p,
        forall|k: int| 0 <= k < w.len() ==> #[trigger] w[k] != 'w' && w[k] != 's',
    ensures
        find_width(w, p) is None,
    decreases w.len() - p,
{
    if 0 <= p < w.len() {
        if is_digit(w[p]) {
            lemma_digit_run_end_bounds(w, p);
            let q = digit_run_end(w, p);
            if p < q <= w.len() {
                lemma_no_width(w, q);
            }
        } else {
            lemma_no_width(w, p + 1);
        }
    }
}

proof fn lemma_positional(ds: Seq<char>, base: int)
    requires
        2 <= base <= 16,
        forall|k: int| 0 <= k < ds.len() ==> literal_digit(#[trigger] ds[k]) < base,
    ensures
        digits_value(ds, 0, ds.len() as int, base) == positional_value(ds, base),
        forall|k: int| 0 <= k < ds.len() ==> is_digit_of(#[trigger] ds[k], base),
    decreases ds.len(),
{
    if ds.len() > 0 {
        let d = ds.drop_last();
        lemma_positional(d, base);
        assert forall|j: int| 0 <= j <= d.len() implies digits_value(ds, 0, j, base) == digits_value(d, 0, j, base) by {
            lemma_digits_prefix_base(ds, d, j, base);
        }
        let c = ds.last();
        assert(ds[ds.len() - 1] == c);
        assert(literal_digit(c) < base);
        assert(c != '_');
        assert(digit_value(c) == literal_digit(c));
        let x = digits_value(ds, 0, ds.len() - 1, base);
        let y = positional_value(d, base);
        assert(x == y);
        assert(x * base == base * y) by (nonlinear_arith)
            requires
                x == y,
        ;
    }
}

proof fn lemma_digits_prefix_base(s: Seq<char>, t: Seq<char>, j: int, base: int)
    requires
        0 <= j <= t.len() <= s.len(),
        t == s.take(t.len() as int),
    ensures
        digits_value(s, 0, j, base) == digits_value(t, 0, j, base),
    decreases j,
{
    if j > 0 {
        lemma_digits_prefix_base(s, t, j - 1, base);
        assert(s[j - 1] == t[j - 1]);
    }
}

/// A literal `0` followed by a base letter and digits of that base is read in that base: `0b`
/// binary, `0o` octal, `0d` decimal, `0x` hexadecimal (either case), without width or sign, its
/// value the number that the digits write, as long as it fits an `i64`.
pub proof fn lemma_prefixed_literal(p: char, ds: Seq<char>)
    requires
        prefix_base(p) is Some,
        ds.len() > 0,
        forall|k: int| 0 <= k < ds.len() ==> literal_digit(#[trigger] ds[k]) < prefix_base(p)->0,
        positional_value(ds, prefix_base(p)->0 as int) <= i64::MAX,
    ensures
        spec_read_int(seq!['0', p] + ds) == Decoded::Done(
            Some(
                Literal {
                    base: prefix_base(p)->0,
                    signed: false,
                    width: None,
                    value: positional_value(ds, prefix_base(p)->0 as int) as i64,
                },
            ),
            seq![],
        ),
{
    let base = prefix_base(p)->0;
    let w = seq!['0', p] + ds;
    lemma_positional(ds, base as int);
    assert forall|k: int| 0 <= k < w.len() implies #[trigger] w[k] != 'w' && w[k] != 's' by {
        if k >= 2 {
            assert(w[k] == ds[k - 2]);
        }
    }
    lemma_no_width(w, 0);
    assert(w.subrange(2, w.len() as int) =~= ds);
    assert(find_base(w, 0) == Some((0int, base)));
    lemma_positional_nonneg(ds, base as int);
}

proof fn lemma_positional_nonneg(ds: Seq<char>, base: int)
    requires
        2 <= base <= 16,
        forall|k: int| 0 <= k < ds.len() ==> literal_digit(#[trigger] ds[k]) < base,
    ensures
        0 <= positional_value(ds, base),
    decreases ds.len(),
{
    if ds.len() > 0 {
        lemma_positional_nonneg(ds.drop_last(), base);
        assert(ds.drop_last().len() == ds.len() - 1);
        assert forall|k: int| 0 <= k < ds.drop_last().len() implies literal_digit(#[trigger] ds.drop_last()[k]) < base by {
            assert(ds.drop_last()[k] == ds[k]);
        }
        assert(0 <= base * positional_value(ds.drop_last(), base)) by (nonlinear_arith)
            requires
                0 <= positional_value(ds.drop_last(), base),
                0 <= base,
        ;
    }
}

proof fn lemma_two_to_mono(m: nat, n: nat)
    requires
        m <= n,
    ensures
        1 <= two_to(m) <= two_to(n),
    decreases n,
{
    if m < n {
        lemma_two_to_mono(m, (n - 1) as nat);
    } else {
        lemma_two_to_pos(n);
    }
}

proof fn lemma_two_to_pos(n: nat)
    ensures
        1 <= two_to(n),
    decreases n,
{
    if n > 0 {
        lemma_two_to_pos((n - 1) as nat);
    }
}

proof fn lemma_digit_run_end_shift(w: Seq<char>, bits: Seq<char>, k: int)
    requires
        0 <= k <= w.len(),
        w.subrange(k, w.len() as int) == bits,
        forall|j: int| 0 <= j < bits.len() ==> (#[trigger] bits[j] == '0' || bits[j] == '1'),
    ensures
        digit_run_end(w, k) == w.len(),
    decreases w.len() - k,
{
    if k < w.len() {
        assert(w[k] == bits[0]);
        assert(w.subrange(k + 1, w.len() as int) =~= bits.drop_first());
        lemma_digit_run_end_shift(w, bits.drop_first(), k + 1);
    }
}

/// Reads the rest of a directive's line from `i`: a backslash escapes the next
/// character (an escaped newline continues the line) and is dropped; an
/// unescaped newline ends the line and is consumed. Returns the text read
/// (appended to `acc`) and the position after the line.
pub open spec fn spec_read_line(s: Seq<char>, i: int, escape: bool, acc: Seq<char>) -> (Seq<char>, int)
    decreases s.len() - i,
{
    if !(0 <= i < s.len()) {
        (acc, if i < 0 { 0 } else { i })
    } else if s[i] == '\\' && !escape {
        spec_read_line(s, i + 1, true, acc)
    } else if s[i] == '\n' && !escape {
        (acc, i + 1)
    } else {
        spec_read_line(s, i + 1, false, acc.push(s[i]))
    }
}

pub open spec fn msg_include_separator() -> Seq<char> {
    "the include directive and its argument must be separated by whitespace"@
}

pub open spec fn msg_include_open() -> Seq<char> {
    "include path must start with an opening angle bracket ('<') or double quote ('\"')"@
}

pub open spec fn msg_include_close_angle() -> Seq<char> {
    "include path must end with a '>'"@
}

pub open spec fn msg_include_close_quote() -> Seq<char> {
    "include path must end with a '\"'"@
}

pub open spec fn msg_macro_name() -> Seq<char> {
    "the name of a macro must start with a letter or an underscore ('_')"@
}

pub open spec fn msg_unexpected_token() -> Seq<char> {
    "unexpected token"@
}

/// Decodes the argument of `#include`: the quotation style and the path.
pub open spec fn spec_parse_include(arg: Seq<char>) -> (Option<(PreprocessorQuotationStyle, Seq<char>)>, Seq<Seq<char>>) {
    let sep = if arg.len() > 0 && !is_ascii_ws(arg[0]) {
        seq![msg_include_separator()]
    } else {
        seq![]
    };
    let j = ascii_ws_end(arg, 0);
    if j < arg.len() && (arg[j] == '<' || arg[j] == '"') {
        let style = if arg[j] == '<' {
            PreprocessorQuotationStyle::AngleBrackets
        } else {
            PreprocessorQuotationStyle::DoubleQuotes
        };
        let term = if arg[j] == '<' { '>' } else { '"' };
        let k = find_char(arg, j + 1, term);
        if k < arg.len() {
            (Some((style, arg.subrange(j + 1, k))), sep)
        } else {
            (None, sep.push(if arg[j] == '<' { msg_include_close_angle() } else { msg_include_close_quote() }))
        }
    } else {
        (None, sep.push(msg_include_open()))
    }
}

/// The first position at or after `i` holding a backslash or a newline, or the length.
pub open spec fn find_escape_or_newline(s: Seq<char>, i: int) -> int
    decreases s.len() - i,
{
    if 0 <= i < s.len() && s[i] != '\\' && s[i] != '\n' {
        find_escape_or_newline(s, i + 1)
    } else if i < 0 {
        s.len() as int
    } else {
        i
    }
}

/// Decodes the argument of `#define`: the macro's name and its replacement
/// text. A backslash in the replacement text is a fault: the text after it is
/// taken verbatim and its end is never accepted.
pub open spec fn spec_parse_define(arg: Seq<char>) -> Decoded<Option<(Seq<char>, Seq<char>)>> {
    let j = ascii_ws_end(arg, 0);
    if j < arg.len() && !(is_alpha(arg[j]) || arg[j] == '_') {
        Decoded::Done(None, seq![msg_macro_name()])
    } else {
        let k = word_end(arg, j);
        let m = ascii_ws_end(arg, k);
        let p = find_escape_or_newline(arg, m);
        if p < arg.len() && arg[p] == '\\' {
            Decoded::Fault
        } else {
            Decoded::Done(Some((arg.subrange(j, k), arg.subrange(m, p))), seq![])
        }
    }
}

/// The last position before which `s` ends with Unicode whitespace only.
pub open spec fn trim_end(s: Seq<char>, e: int) -> int
    decreases e,
{
    if 0 < e <= s.len() && is_unicode_whitespace(s[e - 1]) {
        trim_end(s, e - 1)
    } else {
        e
    }
}

/// The single word of `#undef`'s argument, if it has exactly one.
pub open spec fn spec_undef_word(arg: Seq<char>) -> Option<Seq<char>> {
    let a = whitespace_end(arg, 0);
    let b = trim_end(arg, arg.len() as int);
    if a < b && (forall|k: int| a <= k < b ==> !is_ascii_ws(#[trigger] arg[k])) {
        Some(arg.subrange(a, b))
    } else {
        None
    }
}

/// Decodes a directive with name `name` and argument `arg`; `None` inside
/// `Done` marks a directive that cannot be decoded.
pub open spec fn spec_directive(name: Seq<char>, arg: Seq<char>) -> Decoded<Option<SpecDirective>> {
    if name == seq!['i', 'n', 'c', 'l', 'u', 'd', 'e'] {
        match spec_parse_include(arg) {
            (Some((q, p)), msgs) => Decoded::Done(Some(SpecDirective::Include(q, p)), msgs),
            (None, msgs) => Decoded::Done(None, msgs),
        }
    } else if name == seq!['i', 'f'] {
        match spec_expression(arg) {
            Some((e, _)) => Decoded::Done(Some(SpecDirective::If(e)), seq![]),
            None => Decoded::Done(None, seq![]),
        }
    } else if name == seq!['e', 'l', 'i', 'f'] {
        match spec_expression(arg) {
            Some((e, _)) => Decoded::Done(Some(SpecDirective::ElseIf(e)), seq![]),
            None => Decoded::Done(None, seq![]),
        }
    } else if name == seq!['e', 'l', 's', 'e'] {
        Decoded::Done(Some(SpecDirective::Else), seq![])
    } else if name == seq!['e', 'n', 'd', 'i', 'f'] {
        Decoded::Done(Some(SpecDirective::EndIf), seq![])
    } else if name == seq!['d', 'e', 'f', 'i', 'n', 'e'] {
        match spec_parse_define(arg) {
            Decoded::Fault => Decoded::Fault,
            Decoded::Done(Some((k, v)), msgs) => Decoded::Done(Some(SpecDirective::Define(k, v)), msgs),
            Decoded::Done(None, msgs) => Decoded::Done(None, msgs),
        }
    } else if name == seq!['u', 'n', 'd', 'e', 'f'] {
        match spec_undef_word(arg) {
            Some(w) => Decoded::Done(Some(SpecDirective::Undef(w)), seq![]),
            None => Decoded::Done(None, seq![]),
        }
    } else if name == seq!['p', 'r', 'a', 'g', 'm', 'a'] {
        Decoded::Done(
            Some(SpecDirective::Pragma(arg.subrange(ascii_ws_end(arg, 0), arg.len() as int))),
            seq![],
        )
    } else {
        Decoded::Done(Some(SpecDirective::Other(name, arg)), seq![])
    }
}

/// The token that starts at position `i` of `s`: the token, the position
/// after it, and the messages reported while decoding it.
pub open spec fn spec_token_at(s: Seq<char>, i: int) -> Decoded<(SpecToken, int)> {
    let c = s[i];
    let at = |k: int, d: char| 0 <= k < s.len() && s[k] == d;
    if is_unicode_whitespace(c) {
        Decoded::Done((SpecToken::Whitespace, whitespace_end(s, i)), seq![])
    } else if c == '/' && at(i + 1, '/') {
        let k = find_char(s, i + 2, '\n');
        if k < s.len() {
            Decoded::Done((SpecToken::Comment, k + 1), seq![])
        } else {
            Decoded::Done((SpecToken::Slash, i + 1), seq![])
        }
    } else if c == '/' && at(i + 1, '*') {
        match block_comment_end(s, i + 2, false) {
            Some(e) => Decoded::Done((SpecToken::Comment, e), seq![]),
            None => Decoded::Done((SpecToken::Error, s.len() as int), seq![]),
        }
    } else if c == '/' {
        Decoded::Done((SpecToken::Slash, i + 1), seq![])
    } else if spec_punctuation(c) is Some {
        Decoded::Done((spec_punctuation(c)->0, i + 1), seq![])
    } else if is_alpha(c) || c == '_' {
        let e = word_end(s, i + 1);
        let w = s.subrange(i, e);
        match spec_keyword(w) {
            Some(k) => Decoded::Done((k, e), seq![]),
            None => Decoded::Done((SpecToken::Identifier(w), e), seq![]),
        }
    } else if is_digit(c) {
        let e = int_end(s, i);
        match spec_read_int(s.subrange(i, e)) {
            Decoded::Fault => Decoded::Fault,
            Decoded::Done(Some(l), msgs) => Decoded::Done((SpecToken::Integer(l), e), msgs),
            Decoded::Done(None, msgs) => Decoded::Done((SpecToken::Error, e), msgs),
        }
    } else if c == '#' && whitespace_end(s, i + 1) < s.len() && unicode_word(s[whitespace_end(s, i + 1)]) {
        let j = whitespace_end(s, i + 1);
        let k = unicode_word_end(s, j);
        let (arg, e) = spec_read_line(s, k, false, seq![]);
        match spec_directive(s.subrange(j, k), arg) {
            Decoded::Fault => Decoded::Fault,
            Decoded::Done(Some(d), msgs) => Decoded::Done((SpecToken::PreprocessorDirective(d), e), msgs),
            Decoded::Done(None, msgs) => Decoded::Done((SpecToken::Error, e), msgs),
        }
    } else {
        Decoded::Done((SpecToken::Error, i + 1), seq![])
    }
}

/// The byte offset of character position `i`.
pub open spec fn byte_pos(s: Seq<char>, i: int) -> usize {
    spec_utf8_size(s.take(i)) as usize
}

/// A diagnostic of the lexer: where, and what.
pub type LexMessage = (Span, Seq<char>);

/// The error run that follows `run` once a token `tok` spanning `sp` is seen,
/// and the diagnostics that closes.
pub open spec fn next_error_run(run: Option<Span>, tok: SpecToken, sp: Span) -> (Option<Span>, Seq<LexMessage>) {
    match (run, tok) {
        (None, SpecToken::Error) => (Some(sp), seq![]),
        (None, _) => (None, seq![]),
        (Some(r), SpecToken::Error) => (Some(Span { start: r.start, end: sp.end }), seq![]),
        (Some(r), _) => (None, seq![(r, msg_unexpected_token())]),
    }
}

/// Lexes `s` from position `i` on, with `run` the span of the error tokens
/// seen last (if the previous token was one). Yields the tokens with their
/// byte spans and the diagnostics in the order in which they are reported:
/// the messages of decoding a token, then the "unexpected token" diagnostic
/// of a run of error tokens that this token ends. `None` on a fault.
pub open spec fn spec_lex_from(s: Seq<char>, i: int, run: Option<Span>) -> Option<(Seq<(SpecToken, Span)>, Seq<LexMessage>)>
    decreases s.len() - i,
{
    if !(0 <= i < s.len()) {
        Some((seq![], match run { Some(r) => seq![(r, msg_unexpected_token())], None => seq![] }))
    } else {
        match spec_token_at(s, i) {
            Decoded::Fault => None,
            Decoded::Done((tok, e), msgs) => if i < e <= s.len() {
                let sp = Span { start: byte_pos(s, i), end: byte_pos(s, e) };
                let (run2, closed) = next_error_run(run, tok, sp);
                match spec_lex_from(s, e, run2) {
                    Some((toks, ds)) => Some((
                        seq![(tok, sp)] + toks,
                        msgs.map_values(|m: Seq<char>| (sp, m)) + closed + ds,
                    )),
                    None => None,
                }
            } else {
                None
            },
        }
    }
}

/// Lexes all of `s`.
pub open spec fn spec_lex(s: Seq<char>) -> Option<(Seq<(SpecToken, Span)>, Seq<LexMessage>)> {
    spec_lex_from(s, 0, None)
}


// ---------------------------------------------------------------------------
// Scanning.
// ---------------------------------------------------------------------------

fn scan_whitespace(s: &Vec<char>, i: usize) -> (j: usize)
    requires
        i <= s.len(),
    ensures
        j == whitespace_end(s@, i as int),
        i <= j <= s.len(),
        i < s.len() && is_unicode_whitespace(s@[i as int]) ==> i < j,
{
    let mut j = i;
    while j < s.len() && unicode_whitespace(s[j])
        invariant
            i <= j <= s.len(),
            whitespace_end(s@, j as int) == whitespace_end(s@, i as int),
        decreases s.len() - j,
    {
        j = j + 1;
    }
    j
}

fn scan_unicode_word(s: &Vec<char>, i: usize) -> (j: usize)
    requires
        i <= s.len(),
    ensures
        j == unicode_word_end(s@, i as int),
        i <= j <= s.len(),
        i < s.len() && unicode_word(s@[i as int]) ==> i < j,
{
    let mut j = i;
    while j < s.len() && is_unicode_word(s[j])
        invariant
            i <= j <= s.len(),
            unicode_word_end(s@, j as int) == unicode_word_end(s@, i as int),
        decreases s.len() - j,
    {
        j = j + 1;
    }
    j
}

fn scan_ascii_whitespace(s: &Vec<char>, i: usize) -> (j: usize)
    requires
        i <= s.len(),
    ensures
        j == ascii_ws_end(s@, i as int),
        i <= j <= s.len(),
{
    let mut j = i;
    while j < s.len() && ascii_whitespace(s[j])
        invariant
            i <= j <= s.len(),
            ascii_ws_end(s@, j as int) == ascii_ws_end(s@, i as int),
        decreases s.len() - j,
    {
        j = j + 1;
    }
    j
}

fn find_char_from(s: &Vec<char>, i: usize, c: char) -> (j: usize)
    requires
        i <= s.len(),
    ensures
        j == find_char(s@, i as int, c),
        i <= j <= s.len(),
{
    let mut j = i;
    while j < s.len() && s[j] != c
        invariant
            i <= j <= s.len(),
            find_char(s@, j as int, c) == find_char(s@, i as int, c),
        decreases s.len() - j,
    {
        j = j + 1;
    }
    j
}

fn int_char(c: char) -> (r: bool)
    ensures
        r == is_int_char(c),
{
    ('0' <= c && c <= '9') || c == 'w' || c == 's' || c == 'b' || c == 'B' || c == 'd' || c == 'D'
        || c == 'o' || c == 'O' || c == 'x' || c == 'X' || ('a' <= c && c <= 'f') || ('A' <= c
        && c <= 'F') || c == '_'
}

fn scan_int(s: &Vec<char>, i: usize) -> (j: usize)
    requires
        i <= s.len(),
    ensures
        j == int_end(s@, i as int),
        i <= j <= s.len(),
        i < s.len() && is_int_char(s@[i as int]) ==> i < j,
{
    let mut j = i;
    while j < s.len() && int_char(s[j])
        invariant
            i <= j <= s.len(),
            int_end(s@, j as int) == int_end(s@, i as int),
        decreases s.len() - j,
    {
        j = j + 1;
    }
    j
}

fn scan_digits(s: &Vec<char>, i: usize) -> (j: usize)
    requires
        i <= s.len(),
    ensures
        j == digit_run_end(s@, i as int),
        i <= j <= s.len(),
        i < s.len() && is_digit(s@[i as int]) ==> i < j,
        forall|m: int| i <= m < j ==> is_digit(#[trigger] s@[m]),
{
    let mut j = i;
    while j < s.len() && '0' <= s[j] && s[j] <= '9'
        invariant
            i <= j <= s.len(),
            digit_run_end(s@, j as int) == digit_run_end(s@, i as int),
            forall|m: int| i <= m < j ==> is_digit(#[trigger] s@[m]),
        decreases s.len() - j,
    {
        j = j + 1;
    }
    j
}

fn scan_block_comment(s: &Vec<char>, i: usize) -> (r: Option<usize>)
    requires
        i <= s.len(),
    ensures
        r matches Some(e) ==> block_comment_end(s@, i as int, false) == Some(e as int) && i < e <= s.len(),
        r is None ==> block_comment_end(s@, i as int, false) is None,
{
    let mut k = i;
    let mut star = false;
    while k < s.len()
        invariant
            i <= k <= s.len(),
            block_comment_end(s@, k as int, star) == block_comment_end(s@, i as int, false),
        decreases s.len() - k,
    {
        if s[k] == '*' {
            star = true;
        } else if s[k] == '/' && star {
            return Some(k + 1);
        } else {
            star = false;
        }
        k = k + 1;
    }
    None
}

fn keyword(s: &Vec<char>, i: usize, e: usize) -> (r: Option<Token>)
    requires
        i <= e <= s.len(),
    ensures
        r matches Some(t) ==> spec_keyword(s@.subrange(i as int, e as int)) == Some(t@),
        r is None ==> spec_keyword(s@.subrange(i as int, e as int)) is None,
{
    let ghost w = s@.subrange(i as int, e as int);
    let a = ['a', 'c', 't', 'i', 'o', 'n'];
    assert(a@ =~= seq!['a', 'c', 't', 'i', 'o', 'n']);
    if chars_equal(s, i, e, &a) {
        return Some(Token::KwAction);
    }
    let a = ['a', 'p', 'p', 'l', 'y'];
    assert(a@ =~= seq!['a', 'p', 'p', 'l', 'y']);
    if chars_equal(s, i, e, &a) {
        return Some(Token::KwApply);
    }
    let a = ['c', 'o', 'n', 't', 'r', 'o', 'l'];
    assert(a@ =~= seq!['c', 'o', 'n', 't', 'r', 'o', 'l']);
    if chars_equal(s, i, e, &a) {
        return Some(Token::KwControl);
    }
    let a = ['e', 'l', 's', 'e'];
    assert(a@ =~= seq!['e', 'l', 's', 'e']);
    if chars_equal(s, i, e, &a) {
        return Some(Token::KwElse);
    }
    let a = ['h', 'e', 'a', 'd', 'e', 'r'];
    assert(a@ =~= seq!['h', 'e', 'a', 'd', 'e', 'r']);
    if chars_equal(s, i, e, &a) {
        return Some(Token::KwHeader);
    }
    let a = ['i', 'f'];
    assert(a@ =~= seq!['i', 'f']);
    if chars_equal(s, i, e, &a) {
        return Some(Token::KwIf);
    }
    let a = ['p', 'a', 'r', 's', 'e', 'r'];
    assert(a@ =~= seq!['p', 'a', 'r', 's', 'e', 'r']);
    if chars_equal(s, i, e, &a) {
        return Some(Token::KwParser);
    }
    let a = ['r', 'e', 't', 'u', 'r', 'n'];
    assert(a@ =~= seq!['r', 'e', 't', 'u', 'r', 'n']);
    if chars_equal(s, i, e, &a) {
        return Some(Token::KwReturn);
    }
    let a = ['s', 't', 'a', 't', 'e'];
    assert(a@ =~= seq!['s', 't', 'a', 't', 'e']);
    if chars_equal(s, i, e, &a) {
        return Some(Token::KwState);
    }
    let a = ['t', 'a', 'b', 'l', 'e'];
    assert(a@ =~= seq!['t', 'a', 'b', 'l', 'e']);
    if chars_equal(s, i, e, &a) {
        return Some(Token::KwTable);
    }
    let a = ['t', 'r', 'a', 'n', 's', 'i', 't', 'i', 'o', 'n'];
    assert(a@ =~= seq!['t', 'r', 'a', 'n', 's', 'i', 't', 'i', 'o', 'n']);
    if chars_equal(s, i, e, &a) {
        return Some(Token::KwTransition);
    }
    let a = ['t', 'y', 'p', 'e', 'd', 'e', 'f'];
    assert(a@ =~= seq!['t', 'y', 'p', 'e', 'd', 'e', 'f']);
    if chars_equal(s, i, e, &a) {
        return Some(Token::KwTypedef);
    }
    None
}

fn punctuation(c: char) -> (r: Option<Token>)
    ensures
        r matches Some(t) ==> spec_punctuation(c) == Some(t@),
        r is None ==> spec_punctuation(c) is None,
{
    if c == '}' {
        Some(Token::CloseBrace)
    } else if c == ']' {
        Some(Token::CloseBracket)
    } else if c == '>' {
        Some(Token::CloseChevron)
    } else if c == ')' {
        Some(Token::CloseParen)
    } else if c == ':' {
        Some(Token::Colon)
    } else if c == ',' {
        Some(Token::Comma)
    } else if c == '.' {
        Some(Token::Dot)
    } else if c == '=' {
        Some(Token::Equals)
    } else if c == '*' {
        Some(Token::Asterisk)
    } else if c == '+' {
        Some(Token::Plus)
    } else if c == '-' {
        Some(Token::Minus)
    } else if c == '{' {
        Some(Token::OpenBrace)
    } else if c == '[' {
        Some(Token::OpenBracket)
    } else if c == '<' {
        Some(Token::OpenChevron)
    } else if c == '(' {
        Some(Token::OpenParen)
    } else if c == ';' {
        Some(Token::Semicolon)
    } else if c == '@' {
        Some(Token::AtSymbol)
    } else {
        None
    }
}

// ---------------------------------------------------------------------------
// Integer literals.
// ---------------------------------------------------------------------------

fn find_width_prefix(w: &Vec<char>) -> (r: Option<(usize, usize)>)
    ensures
        r matches Some((p, q)) ==> find_width(w@, 0) == Some((p as int, q as int)) && p < q < w.len()
            && (forall|m: int| p <= m < q ==> is_digit(#[trigger] w@[m])),
        r is None ==> find_width(w@, 0) is None,
{
    let mut p: usize = 0;
    while p < w.len()
        invariant
            p <= w.len(),
            find_width(w@, p as int) == find_width(w@, 0),
        decreases w.len() - p,
    {
        if '0' <= w[p] && w[p] <= '9' {
            let q = scan_digits(w, p);
            if q < w.len() && (w[q] == 'w' || w[q] == 's') {
                return Some((p, q));
            }
            p = q;
        } else {
            p = p + 1;
        }
    }
    None
}

fn find_base_prefix(w: &Vec<char>) -> (r: Option<(usize, u8)>)
    ensures
        r matches Some((p, b)) ==> find_base(w@, 0) == Some((p as int, b)) && p + 2 <= w.len()
            && 2 <= b <= 16,
        r is None ==> find_base(w@, 0) is None,
{
    let mut p: usize = 0;
    while w.len() > 0 && p < w.len() - 1
        invariant
            p <= w.len(),
            find_base(w@, p as int) == find_base(w@, 0),
        decreases w.len() - p,
    {
        if w[p] == '0' && (w[p + 1] == 'b' || w[p + 1] == 'B') {
            return Some((p, 2));
        } else if w[p] == '0' && (w[p + 1] == 'd' || w[p + 1] == 'D') {
            return Some((p, 10));
        } else if w[p] == '0' && (w[p + 1] == 'o' || w[p + 1] == 'O') {
            return Some((p, 8));
        } else if w[p] == '0' && (w[p + 1] == 'x' || w[p + 1] == 'X') {
            return Some((p, 16));
        }
        p = p + 1;
    }
    None
}

fn digit_of(c: char, base: u8) -> (r: bool)
    requires
        2 <= base <= 16,
    ensures
        r == is_digit_of(c, base as int),
        r ==> is_hex_digit_char(c),
{
    let v: u32 = if '0' <= c && c <= '9' {
        c as u32 - '0' as u32
    } else if 'a' <= c && c <= 'z' {
        c as u32 - 'a' as u32 + 10
    } else if 'A' <= c && c <= 'Z' {
        c as u32 - 'A' as u32 + 10
    } else {
        return false;
    };
    v < base as u32
}

pub open spec fn is_hex_digit_char(c: char) -> bool {
    crate::preprocessor::parser::is_hex_digit(c)
}

/// `w` read as `i64::from_str_radix(w, base)` reads an unsigned digit string.
fn radix_value(w: &Vec<char>, base: u8) -> (r: Option<i64>)
    requires
        2 <= base <= 16,
    ensures
        r == spec_radix_value(w@, base as int),
{
    if w.len() == 0 {
        return None;
    }
    let mut k: usize = 0;
    while k < w.len()
        invariant
            k <= w.len(),
            2 <= base <= 16,
            forall|m: int| 0 <= m < k ==> is_digit_of(#[trigger] w@[m], base as int),
        decreases w.len() - k,
    {
        if !digit_of(w[k], base) {
            return None;
        }
        k = k + 1;
    }
    assert forall|m: int| 0 <= m < w.len() implies (crate::preprocessor::parser::is_hex_digit(
        #[trigger] w@[m],
    ) || w@[m] == '_') by {
        assert(is_digit_of(w@[m], base as int));
    }
    digits_to_i64(w, 0, w.len(), base as i64)
}

/// Decodes the text of an integer literal (see [`spec_read_int`]): `None`
/// where decoding does not return, `Some(None)` for a malformed literal.
fn read_int(w: &Vec<char>) -> (r: Option<Option<Literal>>)
    ensures
        match spec_read_int(w@) {
            Decoded::Fault => r is None,
            Decoded::Done(x, _) => r == Some(x),
        },
{
    let mut width: Option<u32> = None;
    let mut signed = false;
    let rest = match find_width_prefix(w) {
        Some((p, q)) => {
            assert forall|m: int| p <= m < q implies (crate::preprocessor::parser::is_hex_digit(
                #[trigger] w@[m],
            ) || w@[m] == '_') by {}
            match digits_to_i64(w, p, q, 10) {
                Some(v) => {
                    if v > 4294967295 {
                        assert(digits_value(w@, p as int, q as int, 10) > u32::MAX);
                        assert(spec_read_int(w@) is Fault);
                        return None;
                    }
                    width = Some(v as u32);
                },
                None => {
                    return None;
                },
            }
            signed = w[q] == 's';
            sub_chars(w, q + 1, w.len())
        },
        None => sub_chars(w, 0, w.len()),
    };
    assert(rest@ == w@ || find_width(w@, 0) is Some);
    proof {
        if find_width(w@, 0) is None {
            assert(w@.subrange(0, w@.len() as int) =~= w@);
        }
    }
    let (base, digits) = match find_base_prefix(&rest) {
        Some((p, b)) => (b, sub_chars(&rest, p + 2, rest.len())),
        None => (10u8, sub_chars(&rest, 0, rest.len())),
    };
    proof {
        if find_base(rest@, 0) is None {
            assert(rest@.subrange(0, rest@.len() as int) =~= rest@);
        }
    }
    match radix_value(&digits, base) {
        Some(v) => Some(Some(Literal { base, signed, width, value: v })),
        None => Some(None),
    }
}


// ---------------------------------------------------------------------------
// Directives.
// ---------------------------------------------------------------------------

/// The model of a list of messages.
pub open spec fn messages_view(v: Seq<String>) -> Seq<Seq<char>> {
    v.map_values(|m: String| m@)
}

fn read_line(s: &Vec<char>, k: usize) -> (r: (Vec<char>, usize))
    requires
        k <= s.len(),
    ensures
        (r.0@, r.1 as int) == spec_read_line(s@, k as int, false, seq![]),
        k <= r.1 <= s.len(),
{
    let mut j = k;
    let mut escape = false;
    let mut acc: Vec<char> = Vec::new();
    while j < s.len()
        invariant
            k <= j <= s.len(),
            spec_read_line(s@, j as int, escape, acc@) == spec_read_line(s@, k as int, false, seq![]),
        decreases s.len() - j,
    {
        let c = s[j];
        if c == '\\' && !escape {
            escape = true;
        } else if c == '\n' && !escape {
            return (acc, j + 1);
        } else {
            acc.push(c);
            escape = false;
        }
        j = j + 1;
    }
    (acc, j)
}

fn parse_include(arg: &Vec<char>) -> (r: (Option<(PreprocessorQuotationStyle, String)>, Vec<String>))
    ensures
        messages_view(r.1@) == spec_parse_include(arg@).1,
        match spec_parse_include(arg@).0 {
            Some((q, p)) => r.0 matches Some((q2, p2)) && q2 == q && p2@ == p,
            None => r.0 is None,
        },
{
    let mut msgs: Vec<String> = Vec::new();
    if arg.len() > 0 && !ascii_whitespace(arg[0]) {
        msgs.push(String::from_str(
            "the include directive and its argument must be separated by whitespace",
        ));
    }
    assert(messages_view(msgs@) =~= (if arg@.len() > 0 && !is_ascii_ws(arg@[0]) {
        seq![msg_include_separator()]
    } else {
        seq![]
    }));
    let ghost sep = messages_view(msgs@);
    let j = scan_ascii_whitespace(arg, 0);
    if j < arg.len() && (arg[j] == '<' || arg[j] == '"') {
        let (style, term) = if arg[j] == '<' {
            (PreprocessorQuotationStyle::AngleBrackets, '>')
        } else {
            (PreprocessorQuotationStyle::DoubleQuotes, '"')
        };
        let k = find_char_from(arg, j + 1, term);
        if k < arg.len() {
            (Some((style, string_of(arg, j + 1, k))), msgs)
        } else {
            if arg[j] == '<' {
                msgs.push(String::from_str("include path must end with a '>'"));
            } else {
                msgs.push(String::from_str("include path must end with a '\"'"));
            }
            assert(messages_view(msgs@) =~= sep.push(
                if arg@[j as int] == '<' {
                    msg_include_close_angle()
                } else {
                    msg_include_close_quote()
                },
            ));
            (None, msgs)
        }
    } else {
        msgs.push(String::from_str(
            "include path must start with an opening angle bracket ('<') or double quote ('\"')",
        ));
        assert(messages_view(msgs@) =~= sep.push(msg_include_open()));
        (None, msgs)
    }
}

fn find_escape_or_newline_from(s: &Vec<char>, i: usize) -> (j: usize)
    requires
        i <= s.len(),
    ensures
        j == find_escape_or_newline(s@, i as int),
        i <= j <= s.len(),
{
    let mut j = i;
    while j < s.len() && s[j] != '\\' && s[j] != '\n'
        invariant
            i <= j <= s.len(),
            find_escape_or_newline(s@, j as int) == find_escape_or_newline(s@, i as int),
        decreases s.len() - j,
    {
        j = j + 1;
    }
    j
}

fn parse_define(arg: &Vec<char>) -> (r: Option<(Option<(String, String)>, Vec<String>)>)
    ensures
        match spec_parse_define(arg@) {
            Decoded::Fault => r is None,
            Decoded::Done(x, msgs) => r matches Some((y, m)) && messages_view(m@) == msgs && match x {
                Some((k, v)) => y matches Some((k2, v2)) && k2@ == k && v2@ == v,
                None => y is None,
            },
        },
{
    let j = scan_ascii_whitespace(arg, 0);
    if j < arg.len() && !(('a' <= arg[j] && arg[j] <= 'z') || ('A' <= arg[j] && arg[j] <= 'Z')
        || arg[j] == '_') {
        let mut msgs: Vec<String> = Vec::new();
        msgs.push(String::from_str(
            "the name of a macro must start with a letter or an underscore ('_')",
        ));
        assert(messages_view(msgs@) =~= seq![msg_macro_name()]);
        return Some((None, msgs));
    }
    let k = scan_word(arg, j);
    let m = scan_ascii_whitespace(arg, k);
    let p = find_escape_or_newline_from(arg, m);
    if p < arg.len() && arg[p] == '\\' {
        return None;
    }
    let msgs: Vec<String> = Vec::new();
    assert(messages_view(msgs@) =~= seq![]);
    Some((Some((string_of(arg, j, k), string_of(arg, m, p))), msgs))
}

fn undef_word(arg: &Vec<char>) -> (r: Option<String>)
    ensures
        match spec_undef_word(arg@) {
            Some(w) => r matches Some(x) && x@ == w,
            None => r is None,
        },
{
    let a = scan_whitespace(arg, 0);
    let mut b = arg.len();
    while b > 0 && unicode_whitespace(arg[b - 1])
        invariant
            b <= arg.len(),
            trim_end(arg@, b as int) == trim_end(arg@, arg.len() as int),
        decreases b,
    {
        b = b - 1;
    }
    assert(trim_end(arg@, b as int) == b as int);
    if a >= b {
        return None;
    }
    let mut k = a;
    while k < b
        invariant
            a <= k <= b <= arg.len(),
            a as int == whitespace_end(arg@, 0),
            b as int == trim_end(arg@, arg.len() as int),
            forall|m: int| a <= m < k ==> !is_ascii_ws(#[trigger] arg@[m]),
        decreases b - k,
    {
        if ascii_whitespace(arg[k]) {
            assert(is_ascii_ws(arg@[k as int]));
            assert(!(forall|m: int| a <= m < b ==> !is_ascii_ws(#[trigger] arg@[m])));
            return None;
        }
        k = k + 1;
    }
    Some(string_of(arg, a, b))
}

fn directive(name: &Vec<char>, arg: Vec<char>) -> (r: Option<(Option<PreprocessorDirective>, Vec<String>)>)
    ensures
        match spec_directive(name@, arg@) {
            Decoded::Fault => r is None,
            Decoded::Done(x, msgs) => r matches Some((y, m)) && messages_view(m@) == msgs && match x {
                Some(d) => y matches Some(d2) && d2@ == d,
                None => y is None,
            },
        },
{
    let n = name.len();
    let empty: Vec<String> = Vec::new();
    assert(messages_view(empty@) =~= seq![]);
    let t = ['i', 'n', 'c', 'l', 'u', 'd', 'e'];
    assert(t@ =~= seq!['i', 'n', 'c', 'l', 'u', 'd', 'e']);
    assert(name@.subrange(0, n as int) =~= name@);
    if chars_equal(name, 0, n, &t) {
        let (inc, msgs) = parse_include(&arg);
        return match inc {
            Some((q, p)) => Some((Some(PreprocessorDirective::Include(q, p)), msgs)),
            None => Some((None, msgs)),
        };
    }
    let t = ['i', 'f'];
    assert(t@ =~= seq!['i', 'f']);
    if chars_equal(name, 0, n, &t) {
        return match parse_expression(&arg) {
            Some((e, _)) => Some((Some(PreprocessorDirective::If(e)), empty)),
            None => Some((None, empty)),
        };
    }
    let t = ['e', 'l', 'i', 'f'];
    assert(t@ =~= seq!['e', 'l', 'i', 'f']);
    if chars_equal(name, 0, n, &t) {
        return match parse_expression(&arg) {
            Some((e, _)) => Some((Some(PreprocessorDirective::ElseIf(e)), empty)),
            None => Some((None, empty)),
        };
    }
    let t = ['e', 'l', 's', 'e'];
    assert(t@ =~= seq!['e', 'l', 's', 'e']);
    if chars_equal(name, 0, n, &t) {
        return Some((Some(PreprocessorDirective::Else), empty));
    }
    let t = ['e', 'n', 'd', 'i', 'f'];
    assert(t@ =~= seq!['e', 'n', 'd', 'i', 'f']);
    if chars_equal(name, 0, n, &t) {
        return Some((Some(PreprocessorDirective::EndIf), empty));
    }
    let t = ['d', 'e', 'f', 'i', 'n', 'e'];
    assert(t@ =~= seq!['d', 'e', 'f', 'i', 'n', 'e']);
    if chars_equal(name, 0, n, &t) {
        return match parse_define(&arg) {
            None => None,
            Some((Some((k, v)), msgs)) => Some((Some(PreprocessorDirective::Define(k, v)), msgs)),
            Some((None, msgs)) => Some((None, msgs)),
        };
    }
    let t = ['u', 'n', 'd', 'e', 'f'];
    assert(t@ =~= seq!['u', 'n', 'd', 'e', 'f']);
    if chars_equal(name, 0, n, &t) {
        return match undef_word(&arg) {
            Some(w) => Some((Some(PreprocessorDirective::Undef(w)), empty)),
            None => Some((None, empty)),
        };
    }
    let t = ['p', 'r', 'a', 'g', 'm', 'a'];
    assert(t@ =~= seq!['p', 'r', 'a', 'g', 'm', 'a']);
    if chars_equal(name, 0, n, &t) {
        let a = scan_ascii_whitespace(&arg, 0);
        return Some((Some(PreprocessorDirective::Pragma(string_of(&arg, a, arg.len()))), empty));
    }
    let name_text = string_of(name, 0, n);
    let arg_text = string_of(&arg, 0, arg.len());
    assert(arg@.subrange(0, arg@.len() as int) =~= arg@);
    Some((Some(PreprocessorDirective::Other(name_text, arg_text)), empty))
}

// ---------------------------------------------------------------------------
// Tokens.
// ---------------------------------------------------------------------------

/// The token at position `i` (see [`spec_token_at`]): `None` where decoding
/// does not return.
fn next_token(s: &Vec<char>, i: usize) -> (r: Option<(Token, usize, Vec<String>)>)
    requires
        i < s.len(),
    ensures
        match spec_token_at(s@, i as int) {
            Decoded::Fault => r is None,
            Decoded::Done((tok, e), msgs) => r matches Some((t, e2, m)) && t@ == tok && e2 == e
                && messages_view(m@) == msgs,
        },
        r matches Some((_, e, _)) ==> i < e <= s.len(),
{
    let c = s[i];
    let empty: Vec<String> = Vec::new();
    assert(messages_view(empty@) =~= seq![]);
    if unicode_whitespace(c) {
        return Some((Token::Whitespace, scan_whitespace(s, i), empty));
    }
    if c == '/' && i + 1 < s.len() && s[i + 1] == '/' {
        let k = find_char_from(s, i + 2, '\n');
        if k < s.len() {
            return Some((Token::Comment, k + 1, empty));
        } else {
            return Some((Token::Slash, i + 1, empty));
        }
    }
    if c == '/' && i + 1 < s.len() && s[i + 1] == '*' {
        return match scan_block_comment(s, i + 2) {
            Some(e) => Some((Token::Comment, e, empty)),
            None => Some((Token::Error, s.len(), empty)),
        };
    }
    if c == '/' {
        return Some((Token::Slash, i + 1, empty));
    }
    if let Some(t) = punctuation(c) {
        return Some((t, i + 1, empty));
    }
    if ('a' <= c && c <= 'z') || ('A' <= c && c <= 'Z') || c == '_' {
        let e = scan_word(s, i + 1);
        return match keyword(s, i, e) {
            Some(k) => Some((k, e, empty)),
            None => Some((Token::Identifier(string_of(s, i, e)), e, empty)),
        };
    }
    if '0' <= c && c <= '9' {
        let e = scan_int(s, i);
        let w = sub_chars(s, i, e);
        return match read_int(&w) {
            None => None,
            Some(Some(l)) => Some((Token::Integer(l), e, empty)),
            Some(None) => {
                let mut msgs: Vec<String> = Vec::new();
                msgs.push(String::from_str("malformed integer literal"));
                assert(messages_view(msgs@) =~= seq![msg_malformed_integer()]);
                Some((Token::Error, e, msgs))
            },
        };
    }
    if c == '#' {
        let j = scan_whitespace(s, i + 1);
        if j < s.len() && is_unicode_word(s[j]) {
            let k = scan_unicode_word(s, j);
            let (arg, e) = read_line(s, k);
            let name = sub_chars(s, j, k);
            return match directive(&name, arg) {
                None => None,
                Some((Some(d), msgs)) => Some((Token::PreprocessorDirective(d), e, msgs)),
                Some((None, msgs)) => Some((Token::Error, e, msgs)),
            };
        }
    }
    Some((Token::Error, i + 1, empty))
}


// ---------------------------------------------------------------------------
// The lexer.
// ---------------------------------------------------------------------------

/// The tokens of a buffer with their byte spans, and the diagnostics reported
/// while lexing it.
pub struct LexedBuffer {
    pub lexemes: Vec<(Token, Span)>,
    pub diagnostics: Vec<Diagnostic>,
}

/// The model of a token stream.
pub open spec fn lexemes_view(v: Seq<(Token, Span)>) -> Seq<(SpecToken, Span)> {
    v.map_values(|p: (Token, Span)| (p.0@, p.1))
}

/// The locations and messages of a list of diagnostics.
pub open spec fn lex_messages_view(v: Seq<Diagnostic>) -> Seq<LexMessage> {
    v.map_values(|d: Diagnostic| (d.location, d.message@))
}

/// Whether every diagnostic of `v` is an error of `file_id`.
pub open spec fn all_errors_of(v: Seq<Diagnostic>, file_id: FileId) -> bool {
    forall|k: int|
        0 <= k < v.len() ==> (#[trigger] v[k]).file == file_id && v[k].severity == Severity::Error
}

/// Appends one error of `file_id` at `location` per message.
fn push_messages(diags: &mut Vec<Diagnostic>, msgs: &Vec<String>, location: Span, file_id: FileId)
    requires
        all_errors_of(old(diags)@, file_id),
    ensures
        lex_messages_view(final(diags)@) == lex_messages_view(old(diags)@) + messages_view(
            msgs@,
        ).map_values(|m: Seq<char>| (location, m)),
        all_errors_of(final(diags)@, file_id),
{
    let ghost d0 = diags@;
    let mut k: usize = 0;
    while k < msgs.len()
        invariant
            k <= msgs.len(),
            diags@.len() == d0.len() + k,
            forall|j: int| 0 <= j < d0.len() ==> #[trigger] diags@[j] == d0[j],
            forall|j: int|
                0 <= j < k ==> (#[trigger] diags@[d0.len() + j]).location == location
                    && diags@[d0.len() + j].message@ == msgs@[j]@,
            all_errors_of(diags@, file_id),
        decreases msgs.len() - k,
    {
        diags.push(
            Diagnostic {
                file: file_id,
                location: location,
                severity: Severity::Error,
                message: msgs[k].clone(),
            },
        );
        k = k + 1;
    }
    assert(lex_messages_view(diags@) =~= lex_messages_view(d0) + messages_view(msgs@).map_values(
        |m: Seq<char>| (location, m),
    )) by {
        assert forall|j: int| 0 <= j < diags@.len() implies lex_messages_view(diags@)[j] == (
        lex_messages_view(d0) + messages_view(msgs@).map_values(|m: Seq<char>| (location, m)))[j] by {
            if j >= d0.len() {
                assert(diags@[d0.len() + (j - d0.len())] == diags@[j]);
            }
        }
    }
}

/// Advances the run of error tokens past a token `tok` spanning `sp`,
/// reporting the run when the token ends it.
fn advance_error_run(diags: &mut Vec<Diagnostic>, run: Option<Span>, tok: &Token, sp: Span, file_id: FileId) -> (r: Option<Span>)
    requires
        all_errors_of(old(diags)@, file_id),
    ensures
        (r, lex_messages_view(final(diags)@).skip(old(diags)@.len() as int)) == next_error_run(run, tok@, sp),
        lex_messages_view(final(diags)@).take(old(diags)@.len() as int) == lex_messages_view(old(diags)@),
        final(diags)@.len() >= old(diags)@.len(),
        all_errors_of(final(diags)@, file_id),
{
    let ghost d0 = diags@;
    let is_error = match tok {
        Token::Error => true,
        _ => false,
    };
    let r = match run {
        None => if is_error {
            Some(sp)
        } else {
            None
        },
        Some(r) => if is_error {
            Some(Span { start: r.start, end: sp.end })
        } else {
            diags.push(
                Diagnostic {
                    file: file_id,
                    location: r,
                    severity: Severity::Error,
                    message: String::from_str("unexpected token"),
                },
            );
            None
        },
    };
    assert(lex_messages_view(diags@).take(d0.len() as int) =~= lex_messages_view(d0));
    assert(lex_messages_view(diags@).skip(d0.len() as int) =~= next_error_run(run, tok@, sp).1);
    r
}

/// Lexes `contents`, the text of the file `file_id`. `None` exactly where
/// decoding a token does not return: a `#define` whose replacement text holds
/// a backslash, or an integer literal whose width does not fit a `u32`.
/// Every diagnostic is an error of `file_id`.
#[verifier::spinoff_prover]
#[verifier::rlimit(40)]
pub fn try_lex(file_id: FileId, contents: &str) -> (r: Option<LexedBuffer>)
    ensures
        match spec_lex(contents@) {
            None => r is None,
            Some((toks, ds)) => r matches Some(b) && lexemes_view(b.lexemes@) == toks
                && lex_messages_view(b.diagnostics@) == ds && all_errors_of(b.diagnostics@, file_id),
        },
{
    utf8_size_fits(contents);
    let s = chars_of(contents);
    let mut i: usize = 0;
    let mut b: usize = 0;
    let mut run: Option<Span> = None;
    let mut toks: Vec<(Token, Span)> = Vec::new();
    let mut diags: Vec<Diagnostic> = Vec::new();
    let ghost target = spec_lex(s@);
    assert(s@.take(0) =~= Seq::<char>::empty());
    assert(lexemes_view(toks@) =~= seq![]);
    assert(lex_messages_view(diags@) =~= seq![]);
    while i < s.len()
        invariant
            s@ == contents@,
            target == spec_lex(s@),
            i <= s.len(),
            b == spec_utf8_size(s@.take(i as int)),
            spec_utf8_size(s@) <= usize::MAX,
            match spec_lex_from(s@, i as int, run) {
                None => target is None,
                Some((t, d)) => target == Some(
                    (lexemes_view(toks@) + t, lex_messages_view(diags@) + d),
                ),
            },
            all_errors_of(diags@, file_id),
        decreases s.len() - i,
    {
        let (tok, e, msgs) = match next_token(&s, i) {
            Some(x) => x,
            None => {
                return None;
            },
        };
        let be = byte_offset(&s, i, b, e);
        proof {
            lemma_utf8_size_prefix(s@, i as int);
            lemma_utf8_size_prefix(s@, e as int);
        }
        let sp = Span { start: b, end: be };
        let ghost tok_v = tok@;
        let ghost d0 = diags@;
        let ghost old_run = run;
        push_messages(&mut diags, &msgs, sp, file_id);
        let ghost d1 = diags@;
        run = advance_error_run(&mut diags, run, &tok, sp, file_id);
        let ghost t0 = toks@;
        toks.push((tok, sp));
        assert(lexemes_view(toks@) =~= lexemes_view(t0) + seq![(tok_v, sp)]);
        i = e;
        b = be;
        proof {
            let closed = next_error_run(old_run, tok_v, sp).1;
            assert(lex_messages_view(diags@) =~= lex_messages_view(d1) + closed) by {
                assert(lex_messages_view(diags@) =~= lex_messages_view(diags@).take(d1.len() as int)
                    + lex_messages_view(diags@).skip(d1.len() as int));
            }
            match spec_lex_from(s@, i as int, run) {
                Some((t, d)) => {
                    assert(lexemes_view(toks@) + t =~= lexemes_view(t0) + (seq![(tok_v, sp)] + t));
                    assert(lex_messages_view(diags@) + d =~= lex_messages_view(d0) + (
                    messages_view(msgs@).map_values(|m: Seq<char>| (sp, m)) + closed + d));
                },
                None => {},
            }
        }
    }
    let ghost d2 = diags@;
    if let Some(r) = run {
        diags.push(
            Diagnostic {
                file: file_id,
                location: r,
                severity: Severity::Error,
                message: String::from_str("unexpected token"),
            },
        );
    }
    proof {
        let d_end: Seq<LexMessage> = match run {
            Some(r) => seq![(r, msg_unexpected_token())],
            None => seq![],
        };
        assert(spec_lex_from(s@, i as int, run) == Some((Seq::<(SpecToken, Span)>::empty(), d_end)));
        assert(lex_messages_view(diags@) =~= lex_messages_view(d2) + d_end);
        assert(lexemes_view(toks@) =~= lexemes_view(toks@) + Seq::<(SpecToken, Span)>::empty());
    }
    Some(LexedBuffer { lexemes: toks, diagnostics: diags })
}

/// The tokens of `s`, without their spans; `None` where [`try_lex`] gives `None`.
pub fn lex_str(s: &str) -> (r: Option<Vec<Token>>)
    ensures
        match spec_lex(s@) {
            None => r is None,
            Some((toks, _)) => r matches Some(v) && v@.map_values(|t: Token| t@) == toks.map_values(
                |p: (SpecToken, Span)| p.0,
            ),
        },
{
    let lexed = match try_lex(FileId { id: 0 }, s) {
        Some(b) => b,
        None => {
            return None;
        },
    };
    let mut v: Vec<Token> = Vec::new();
    let mut k: usize = 0;
    while k < lexed.lexemes.len()
        invariant
            k <= lexed.lexemes.len(),
            v@.map_values(|t: Token| t@) == lexemes_view(lexed.lexemes@).take(k as int).map_values(
                |p: (SpecToken, Span)| p.0,
            ),
        decreases lexed.lexemes.len() - k,
    {
        let ghost before = v@;
        let t = lexed.lexemes[k].0.clone();
        v.push(t);
        proof {
            let lv = lexemes_view(lexed.lexemes@);
            assert(lv.take(k + 1) =~= lv.take(k as int).push(lv[k as int]));
            assert(v@.map_values(|t: Token| t@) =~= before.map_values(|t: Token| t@).push(lv[k as int].0));
            assert(lv.take(k + 1).map_values(|p: (SpecToken, Span)| p.0) =~= lv.take(k as int).map_values(
                |p: (SpecToken, Span)| p.0,
            ).push(lv[k as int].0));
        }
        k = k + 1;
    }
    assert(lexemes_view(lexed.lexemes@).take(k as int) =~= lexemes_view(lexed.lexemes@));
    Some(v)
}

} // verus!
