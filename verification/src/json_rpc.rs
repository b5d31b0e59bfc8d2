//! JSON-RPC framing as the language server protocol uses it: a header of
//! `Name: value` lines, each ended by `\r\n`, then an empty line, then a body
//! of `Content-Length` bytes. Also request ids and error codes.
use vstd::prelude::*;
use vstd::utf8::encode_utf8;

verus! {

/// The decimal digit `d` as a character.
pub open spec fn digit_char(d: int) -> char {
    (d + 48) as char
}

/// The decimal representation of `n`, without leading zeros.
pub open spec fn spec_decimal(n: nat) -> Seq<char>
    decreases n,
{
    if n < 10 {
        seq![digit_char(n as int)]
    } else {
        spec_decimal(n / 10).push(digit_char((n % 10) as int))
    }
}

/// Appends the decimal representation of `n` to `s`.
pub(crate) fn push_decimal(s: &mut String, n: u64)
    ensures
        final(s)@ == old(s)@ + spec_decimal(n as nat),
    decreases n,
{
    if n >= 10 {
        push_decimal(s, n / 10);
    }
    let d = (n % 10) as u8;
    let ghost before = s@;
    s.push((d + 48u8) as char);
    assert(s@ == before.push(digit_char((n % 10) as int)));
}

/// The decimal representation of `n`.
pub fn decimal(n: u64) -> (r: String)
    ensures
        r@ == spec_decimal(n as nat),
{
    let mut s = String::new();
    push_decimal(&mut s, n);
    assert(s@ =~= spec_decimal(n as nat));
    s
}

/// The decimal representation of `n`, with a `-` before a negative number.
pub open spec fn spec_decimal_i32(n: i32) -> Seq<char> {
    if n < 0 {
        seq!['-'] + spec_decimal((-n) as nat)
    } else {
        spec_decimal(n as nat)
    }
}

/// How std writes a string with `{:?}`: quoted, with special characters
/// escaped.
pub uninterp spec fn debug_text(s: Seq<char>) -> Seq<char>;

/// Writes `s` as std's `Debug` for `str` does (`format!("{:?}", s)`); the
/// result is named [`debug_text`], a function of `s` alone.
#[verifier::external_body]
fn debug_quoted(s: &str) -> (r: String)
    ensures
        r@ == debug_text(s@),
{
    format!("{:?}", s)
}

/// How a request id is represented on the wire.
#[derive(Debug, Clone, PartialEq, Eq, PartialOrd, Ord, Hash)]
pub enum IdRepr {
    I32(i32),
    String(String),
}

/// The id of a request: a number or a string.
#[derive(Debug, Clone, PartialEq, Eq, PartialOrd, Ord, Hash)]
pub struct RequestId(pub IdRepr);

impl From<i32> for RequestId {
    fn from(id: i32) -> (r: RequestId) {
        RequestId(IdRepr::I32(id))
    }
}

impl vstd::std_specs::convert::FromSpecImpl<i32> for RequestId {
    open spec fn obeys_from_spec() -> bool {
        true
    }

    open spec fn from_spec(id: i32) -> RequestId {
        RequestId(IdRepr::I32(id))
    }
}

impl From<String> for RequestId {
    fn from(id: String) -> (r: RequestId) {
        RequestId(IdRepr::String(id))
    }
}

impl vstd::std_specs::convert::FromSpecImpl<String> for RequestId {
    open spec fn obeys_from_spec() -> bool {
        true
    }

    open spec fn from_spec(id: String) -> RequestId {
        RequestId(IdRepr::String(id))
    }
}

impl RequestId {
    /// How the id is displayed: a number in decimal, a string as std's
    /// `Debug` writes it, so that `92` and `"92"` differ.
    pub open spec fn spec_display(&self) -> Seq<char> {
        match self.0 {
            IdRepr::I32(n) => spec_decimal_i32(n),
            IdRepr::String(s) => debug_text(s@),
        }
    }

    /// The id as it is displayed (see [`Self::spec_display`]).
    pub fn to_string(&self) -> (r: String)
        ensures
            r@ == self.spec_display(),
    {
        match &self.0 {
            IdRepr::I32(n) => {
                if *n < 0 {
                    let m: u64 = (0i64 - (*n as i64)) as u64;
                    let mut s = String::from_str("-");
                    proof {
                        reveal_strlit("-");
                    }
                    assert(m as nat == (-*n) as nat);
                    push_decimal(&mut s, m);
                    assert(s@ =~= seq!['-'] + spec_decimal((-*n) as nat));
                    s
                } else {
                    decimal(*n as u64)
                }
            },
            IdRepr::String(s) => debug_quoted(s.as_str()),
        }
    }
}

/// The error codes of JSON-RPC responses that the server sends.
#[derive(Clone, Copy, Debug, PartialEq, Eq, Structural)]
pub enum ErrorCode {
    ServerNotInitialized,
    InvalidRequest,
    InvalidParams,
    InternalError,
}

impl ErrorCode {
    /// The number of the code.
    pub open spec fn spec_code(self) -> int {
        match self {
            ErrorCode::ServerNotInitialized => -32002,
            ErrorCode::InvalidRequest => -32600,
            ErrorCode::InvalidParams => -32602,
            ErrorCode::InternalError => -32603,
        }
    }

    /// The number of the code.
    pub fn code(self) -> (r: i32)
        ensures
            r == self.spec_code(),
    {
        match self {
            ErrorCode::ServerNotInitialized => -32002,
            ErrorCode::InvalidRequest => -32600,
            ErrorCode::InvalidParams => -32602,
            ErrorCode::InternalError => -32603,
        }
    }
}

/// A failed attempt to serialize an object into a JSON value.
#[derive(Clone, Copy, Debug)]
pub struct SerializeError;

impl SerializeError {
    /// The message of the error.
    pub fn to_string(&self) -> (r: String)
        ensures
            r@ == "Failed to serialize object into JSON."@,
    {
        String::from_str("Failed to serialize object into JSON.")
    }
}

/// A failed attempt to deserialize a JSON value.
#[derive(Clone, Copy, Debug)]
pub struct DeserializeError;

impl DeserializeError {
    /// The message of the error.
    pub fn to_string(&self) -> (r: String)
        ensures
            r@ == "Failed to deserialize object from JSON."@,
    {
        String::from_str("Failed to deserialize object from JSON.")
    }
}

/// The header that frames a message body of `len` bytes.
pub open spec fn spec_header(len: nat) -> Seq<char> {
    "Content-Length: "@ + spec_decimal(len) + "\r\n\r\n"@
}

/// The framed text of message `msg`: its header, then the message.
pub fn write_msg_text(msg: &str) -> (r: String)
    ensures
        r@ == spec_header(encode_utf8(msg@).len()) + msg@,
{
    let len = msg.as_bytes().len();
    let mut s = String::from_str("Content-Length: ");
    push_decimal(&mut s, len as u64);
    s.append("\r\n\r\n");
    s.append(msg);
    s
}

/// Why a number cannot be read, as std's `ParseIntError` tells.
#[derive(Clone, Copy, Debug, PartialEq, Eq, Structural)]
pub enum ParseIntError {
    Empty,
    InvalidDigit,
    PosOverflow,
}

/// Reads the digits of `s` from `i` on, after the value `acc` of those
/// before: the first character that is not a digit, or the first that makes
/// the value exceed a `usize`, stops it.
pub open spec fn parse_digits(s: Seq<char>, i: int, acc: int) -> Result<int, ParseIntError>
    decreases s.len() - i,
{
    if i >= s.len() || i < 0 {
        Ok(acc)
    } else if !('0' <= s[i] && s[i] <= '9') {
        Err(ParseIntError::InvalidDigit)
    } else if acc * 10 + (s[i] as int - '0' as int) > usize::MAX {
        Err(ParseIntError::PosOverflow)
    } else {
        parse_digits(s, i + 1, acc * 10 + (s[i] as int - '0' as int))
    }
}

/// `s` read as a `usize`, as `str::parse::<usize>` reads it: an optional
/// `+`, then decimal digits.
pub open spec fn spec_parse_usize(s: Seq<char>) -> Result<int, ParseIntError> {
    if s.len() == 0 {
        Err(ParseIntError::Empty)
    } else if (s[0] == '+' || s[0] == '-') && s.len() == 1 {
        Err(ParseIntError::InvalidDigit)
    } else if s[0] == '+' {
        parse_digits(s, 1, 0)
    } else {
        parse_digits(s, 0, 0)
    }
}

/// Reads `s` as a `usize` (see [`spec_parse_usize`]).
pub fn parse_usize(s: &Vec<char>) -> (r: Result<usize, ParseIntError>)
    ensures
        match spec_parse_usize(s@) {
            Ok(v) => r == Ok::<usize, ParseIntError>(v as usize) && 0 <= v <= usize::MAX,
            Err(e) => r == Err::<usize, ParseIntError>(e),
        },
{
    if s.len() == 0 {
        return Err(ParseIntError::Empty);
    }
    if (s[0] == '+' || s[0] == '-') && s.len() == 1 {
        return Err(ParseIntError::InvalidDigit);
    }
    let mut i: usize = if s[0] == '+' {
        1
    } else {
        0
    };
    let ghost i0 = i as int;
    let mut acc: usize = 0;
    while i < s.len()
        invariant
            i <= s.len(),
            spec_parse_usize(s@) == parse_digits(s@, i as int, acc as int),
        decreases s.len() - i,
    {
        let c = s[i];
        if !('0' <= c && c <= '9') {
            return Err(ParseIntError::InvalidDigit);
        }
        let d = (c as u32 - '0' as u32) as usize;
        if acc > (usize::MAX - d) / 10 {
            assert(acc * 10 + d > usize::MAX) by (nonlinear_arith)
                requires
                    acc > (usize::MAX - d) / 10,
                    d <= 9,
            ;
            return Err(ParseIntError::PosOverflow);
        }
        assert(acc * 10 + d <= usize::MAX) by (nonlinear_arith)
            requires
                acc <= (usize::MAX - d) / 10,
                d <= 9,
        ;
        acc = acc * 10 + d;
        i = i + 1;
    }
    Ok(acc)
}

/// Why the header of a message cannot be read.
#[derive(Clone, Debug)]
pub enum HeaderError {
    /// A line that does not end with `\r\n`, or that has no `: `.
    Malformed(String),
    /// A `Content-Length` whose value is not a number.
    InvalidLength(ParseIntError),
    /// The header ended without `Content-Length`.
    NoContentLength,
}

/// What to do after a line of a header.
#[derive(Clone, Debug)]
pub enum HeaderRead {
    /// The input ended: there is no message.
    Eof,
    /// Read the next line, with this `Content-Length` so far.
    Next(Option<usize>),
    /// The header is complete: read a body of this many bytes.
    Body(usize),
    /// The header is invalid.
    Error(HeaderError),
}

/// The model of [`HeaderRead`].
pub enum SpecHeaderRead {
    Eof,
    Next(Option<usize>),
    Body(usize),
    Malformed(Seq<char>),
    InvalidLength(ParseIntError),
    NoContentLength,
}

impl View for HeaderRead {
    type V = SpecHeaderRead;

    open spec fn view(&self) -> SpecHeaderRead {
        match self {
            HeaderRead::Eof => SpecHeaderRead::Eof,
            HeaderRead::Next(s) => SpecHeaderRead::Next(*s),
            HeaderRead::Body(n) => SpecHeaderRead::Body(*n),
            HeaderRead::Error(HeaderError::Malformed(t)) => SpecHeaderRead::Malformed(t@),
            HeaderRead::Error(HeaderError::InvalidLength(e)) => SpecHeaderRead::InvalidLength(*e),
            HeaderRead::Error(HeaderError::NoContentLength) => SpecHeaderRead::NoContentLength,
        }
    }
}

/// Whether `s` ends with `\r\n`.
pub open spec fn ends_with_crlf(s: Seq<char>) -> bool {
    s.len() >= 2 && s[s.len() - 2] == '\r' && s[s.len() - 1] == '\n'
}

/// The index of the first `": "` in `s` at or after `i`.
pub open spec fn find_separator(s: Seq<char>, i: int) -> Option<int>
    decreases s.len() - i,
{
    if i < 0 || i + 1 >= s.len() {
        None
    } else if s[i] == ':' && s[i + 1] == ' ' {
        Some(i)
    } else {
        find_separator(s, i + 1)
    }
}

/// What a line of a header, as `read_line` gives it (the line break
/// included, empty at the end of the input), means after the
/// `Content-Length` `size` so far.
pub open spec fn spec_read_msg_text(line: Seq<char>, size: Option<usize>) -> SpecHeaderRead {
    if line.len() == 0 {
        SpecHeaderRead::Eof
    } else if !ends_with_crlf(line) {
        SpecHeaderRead::Malformed(line)
    } else {
        let text = line.take(line.len() - 2);
        if text.len() == 0 {
            match size {
                Some(n) => SpecHeaderRead::Body(n),
                None => SpecHeaderRead::NoContentLength,
            }
        } else {
            match find_separator(text, 0) {
                None => SpecHeaderRead::Malformed(text),
                Some(k) => if text.take(k) == "Content-Length"@ {
                    match spec_parse_usize(text.skip(k + 2)) {
                        Ok(v) => SpecHeaderRead::Next(Some(v as usize)),
                        Err(e) => SpecHeaderRead::InvalidLength(e),
                    }
                } else {
                    SpecHeaderRead::Next(size)
                },
            }
        }
    }
}

/// Reads one line of a header (see [`spec_read_msg_text`]).
pub fn read_msg_text(line: &str, size: Option<usize>) -> (r: HeaderRead)
    ensures
        r@ == spec_read_msg_text(line@, size),
{
    let s = crate::text::chars_of(line);
    let n = s.len();
    if n == 0 {
        return HeaderRead::Eof;
    }
    if !(n >= 2 && s[n - 2] == '\r' && s[n - 1] == '\n') {
        return HeaderRead::Error(HeaderError::Malformed(line.to_owned()));
    }
    let m = n - 2;
    let ghost text = s@.take(m as int);
    if m == 0 {
        return match size {
            Some(n) => HeaderRead::Body(n),
            None => HeaderRead::Error(HeaderError::NoContentLength),
        };
    }
    let mut k: usize = 0;
    while k + 1 < m && !(s[k] == ':' && s[k + 1] == ' ')
        invariant
            k <= m,
            m + 2 == s.len(),
            text == s@.take(m as int),
            find_separator(text, k as int) == find_separator(text, 0),
        decreases m - k,
    {
        k = k + 1;
    }
    if k + 1 >= m {
        return HeaderRead::Error(HeaderError::Malformed(crate::text::string_of(&s, 0, m)));
    }
    assert(find_separator(text, 0) == Some(k as int));
    let expected = crate::text::chars_of("Content-Length");
    if crate::text::chars_equal(&s, 0, k, expected.as_slice()) {
        assert(text.take(k as int) =~= s@.subrange(0, k as int));
        let value = crate::text::sub_chars(&s, k + 2, m);
        assert(value@ =~= text.skip(k + 2));
        match parse_usize(&value) {
            Ok(v) => HeaderRead::Next(Some(v)),
            Err(e) => HeaderRead::Error(HeaderError::InvalidLength(e)),
        }
    } else {
        assert(text.take(k as int) =~= s@.subrange(0, k as int));
        HeaderRead::Next(size)
    }
}

/// Reading one more digit: the value so far times ten, plus the digit, unless that overflows.
proof fn lemma_parse_digits_push(s: Seq<char>, c: char, i: int, acc: int)
    requires
        0 <= i <= s.len(),
        '0' <= c <= '9',
    ensures
        parse_digits(s.push(c), i, acc) == match parse_digits(s, i, acc) {
            Ok(v) => if v * 10 + (c as int - '0' as int) > usize::MAX {
                Err(ParseIntError::PosOverflow)
            } else {
                Ok(v * 10 + (c as int - '0' as int))
            },
            Err(e) => Err(e),
        },
    decreases s.len() - i,
{
    assert(s.push(c)[s.len() as int] == c);
    if i < s.len() {
        assert(s.push(c)[i] == s[i]);
        if '0' <= s[i] <= '9' {
            let next = acc * 10 + (s[i] as int - '0' as int);
            if next <= usize::MAX {
                lemma_parse_digits_push(s, c, i + 1, next);
            }
        }
    } else {
        assert(parse_digits(s.push(c), i + 1, acc * 10 + (c as int - '0' as int)) == Ok::<
            int,
            ParseIntError,
        >(acc * 10 + (c as int - '0' as int)));
    }
}

/// The decimal representation of a `usize` reads back as the number.
proof fn lemma_parse_decimal(n: nat)
    requires
        n <= usize::MAX,
    ensures
        parse_digits(spec_decimal(n), 0, 0) == Ok::<int, ParseIntError>(n as int),
        spec_decimal(n).len() > 0,
        '0' <= spec_decimal(n)[0] <= '9',
    decreases n,
{
    if n < 10 {
        let d = spec_decimal(n);
        assert(d == seq![digit_char(n as int)]);
        assert(parse_digits(d, 1, n as int) == Ok::<int, ParseIntError>(n as int));
    } else {
        let q = n / 10;
        let c = digit_char((n % 10) as int);
        lemma_parse_decimal(q);
        lemma_parse_digits_push(spec_decimal(q), c, 0, 0);
        assert(q * 10 + (n % 10) == n);
        assert(spec_decimal(n)[0] == spec_decimal(q)[0]);
    }
}

/// `find_separator` passes over a stretch without `:`.
proof fn lemma_find_separator_skip(s: Seq<char>, i: int, j: int)
    requires
        0 <= i <= j,
        j + 1 < s.len(),
        forall|x: int| i <= x < j ==> s[x] != ':',
    ensures
        find_separator(s, i) == find_separator(s, j),
    decreases j - i,
{
    if i < j {
        lemma_find_separator_skip(s, i + 1, j);
    }
}

/// A header that [`write_msg_text`] writes reads back: its `Content-Length` line gives the length,
/// and the empty line after it asks for a body of that length.
pub proof fn lemma_header_round_trip(n: usize)
    ensures
        spec_read_msg_text("Content-Length: "@ + spec_decimal(n as nat) + "\r\n"@, None)
            == SpecHeaderRead::Next(Some(n)),
        spec_read_msg_text("\r\n"@, Some(n)) == SpecHeaderRead::Body(n),
        spec_header(n as nat) == ("Content-Length: "@ + spec_decimal(n as nat) + "\r\n"@) + "\r\n"@,
{
    reveal_strlit("Content-Length: ");
    reveal_strlit("Content-Length");
    reveal_strlit("\r\n");
    reveal_strlit("\r\n\r\n");
    let d = spec_decimal(n as nat);
    lemma_parse_decimal(n as nat);
    let line = "Content-Length: "@ + d + "\r\n"@;
    let text = line.take(line.len() - 2);
    assert(text =~= "Content-Length: "@ + d);
    assert(ends_with_crlf(line));
    lemma_find_separator_skip(text, 0, 14);
    assert(find_separator(text, 14) == Some(14int));
    assert(text.take(14) =~= "Content-Length"@);
    assert(text.skip(16) =~= d);
    assert(spec_parse_usize(d) == parse_digits(d, 0, 0));
    assert(("Content-Length: "@ + d + "\r\n"@) + "\r\n"@ =~= "Content-Length: "@ + d + "\r\n\r\n"@);
}

/// What the lines of a header, read one after the other from the `Content-Length` `size`, come
/// to: the first line that does not ask for the next one decides; `Next` when all of them ask
/// for the next line.
pub open spec fn read_header_lines(lines: Seq<Seq<char>>, size: Option<usize>) -> SpecHeaderRead
    decreases lines.len(),
{
    if lines.len() == 0 {
        SpecHeaderRead::Next(size)
    } else {
        match spec_read_msg_text(lines[0], size) {
            SpecHeaderRead::Next(s) => read_header_lines(lines.drop_first(), s),
            r => r,
        }
    }
}

/// A header line `Name: value` other than `Content-Length`.
pub open spec fn other_header_line(l: Seq<char>) -> bool {
    &&& ends_with_crlf(l)
    &&& l.len() > 2
    &&& match find_separator(l.take(l.len() - 2), 0) {
        Some(k) => l.take(l.len() - 2).take(k) != "Content-Length"@,
        None => false,
    }
}

/// Header lines other than `Content-Length` leave the length as it was.
pub proof fn lemma_other_header_lines(lines: Seq<Seq<char>>, size: Option<usize>, rest: Seq<Seq<char>>)
    requires
        forall|i: int| 0 <= i < lines.len() ==> other_header_line(#[trigger] lines[i]),
    ensures
        read_header_lines(lines + rest, size) == read_header_lines(rest, size),
    decreases lines.len(),
{
    if lines.len() > 0 {
        let l = lines[0];
        assert(other_header_line(l));
        assert(spec_read_msg_text(l, size) == SpecHeaderRead::Next(size));
        assert((lines + rest)[0] == l);
        assert((lines + rest).drop_first() =~= lines.drop_first() + rest);
        lemma_other_header_lines(lines.drop_first(), size, rest);
    }
}

/// The `Content-Length` line that [`write_msg_text`] writes sets the length, whatever came before.
proof fn lemma_length_line(n: usize, size: Option<usize>)
    ensures
        spec_read_msg_text("Content-Length: "@ + spec_decimal(n as nat) + "\r\n"@, size) == SpecHeaderRead::Next(
            Some(n),
        ),
{
    reveal_strlit("Content-Length: ");
    reveal_strlit("Content-Length");
    reveal_strlit("\r\n");
    let d = spec_decimal(n as nat);
    lemma_parse_decimal(n as nat);
    let line = "Content-Length: "@ + d + "\r\n"@;
    let text = line.take(line.len() - 2);
    assert(text =~= "Content-Length: "@ + d);
    assert(ends_with_crlf(line));
    lemma_find_separator_skip(text, 0, 14);
    assert(find_separator(text, 14) == Some(14int));
    assert(text.take(14) =~= "Content-Length"@);
    assert(text.skip(16) =~= d);
    assert(spec_parse_usize(d) == parse_digits(d, 0, 0));
}

/// The header of a message that [`write_msg_text`] writes reads back, line by line, as a body of
/// its length, also with other header lines before or after the `Content-Length` line.
pub proof fn lemma_message_header_reads_back(n: usize, before: Seq<Seq<char>>, after: Seq<Seq<char>>)
    requires
        forall|i: int| 0 <= i < before.len() ==> other_header_line(#[trigger] before[i]),
        forall|i: int| 0 <= i < after.len() ==> other_header_line(#[trigger] after[i]),
    ensures
        read_header_lines(
            before + seq!["Content-Length: "@ + spec_decimal(n as nat) + "\r\n"@] + after + seq!["\r\n"@],
            None,
        ) == SpecHeaderRead::Body(n),
{
    let cl = "Content-Length: "@ + spec_decimal(n as nat) + "\r\n"@;
    let blank = "\r\n"@;
    let tail = seq![cl] + after + seq![blank];
    assert(before + seq![cl] + after + seq![blank] =~= before + tail);
    lemma_other_header_lines(before, None, tail);
    lemma_length_line(n, None);
    assert(tail[0] == cl);
    assert(tail.drop_first() =~= after + seq![blank]);
    lemma_other_header_lines(after, Some(n), seq![blank]);
    lemma_header_round_trip(n);
    assert(seq![blank][0] == blank);
}

} // verus!
