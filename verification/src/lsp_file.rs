//! A file held in full, with its line ends, for converting between byte
//! offsets and line/character positions, where a character is a Unicode
//! scalar value.
//!
//! The file is modelled by its characters. Lines are those of
//! [`crate::lsp_position_struct`] over the characters; offsets into the file
//! are counted in bytes of its UTF-8 encoding.
use vstd::prelude::*;

use crate::lsp_position_struct::{
    count_below, ints, lemma_line_ends, lemma_line_of, lemma_line_of_unique, lemma_lines, lemma_newlines,
    lemma_newlines_concat, lemma_splice_at_breaks, line_count, line_ends, line_of, line_start, newlines,
    shape_of, spec_line_char, splice_offsets,
};
use crate::text::{
    chars_of, lemma_utf8_size_concat, lemma_utf8_size_encoding, spec_utf8_len, spec_utf8_size, utf8_len,
    utf8_size_fits,
};
use vstd::utf8::encode_utf8;
use crate::text_document::{Position, Range, TextDocumentContentChangeEvent};

verus! {

/// Which characters are line breaks.
pub open spec fn char_shape(c: Seq<char>) -> Seq<bool> {
    c.map_values(|ch: char| ch == '\n')
}

/// The byte offset of character `i`.
pub open spec fn byte_offset(c: Seq<char>, i: int) -> int {
    spec_utf8_size(c.take(i)) as int
}

/// The index of the last character of each line.
pub open spec fn char_line_ends(c: Seq<char>) -> Seq<int> {
    line_ends(char_shape(c))
}

/// The byte offsets of the given character line ends: the last byte of each.
pub open spec fn byte_ends_of(c: Seq<char>, ends: Seq<int>) -> Seq<int> {
    ends.map_values(|e: int| byte_offset(c, e + 1) - 1)
}

/// The byte offset of the last byte of each line.
pub open spec fn byte_line_ends(c: Seq<char>) -> Seq<int> {
    byte_ends_of(c, char_line_ends(c))
}

/// The number of lines.
pub open spec fn file_line_count(c: Seq<char>) -> int {
    line_count(char_shape(c))
}

/// The index of the first character of line `k`.
pub open spec fn char_line_start(c: Seq<char>, k: int) -> int {
    line_start(char_shape(c), k)
}

/// The characters of line `k` in which a character offset is counted: all
/// but the last, when the last takes one byte; none when it takes more (the
/// last line of a file that does not end with a line break).
pub open spec fn line_body(c: Seq<char>, k: int) -> Seq<char> {
    let e = char_line_ends(c)[k];
    if spec_utf8_len(c[e]) == 1 {
        c.subrange(char_line_start(c, k), e)
    } else {
        seq![]
    }
}

/// The character that an edit or a conversion reads for position `p`: the
/// `p.character`-th of the body of its line, or the end of the body for a
/// larger offset; the end of the file for a line past the end.
pub open spec fn char_offset(c: Seq<char>, p: Position) -> int {
    if c.len() == 0 {
        0
    } else if p.line >= file_line_count(c) {
        c.len() as int
    } else {
        let body = line_body(c, p.line as int);
        char_line_start(c, p.line as int) + if p.character < body.len() {
            p.character as int
        } else {
            body.len() as int
        }
    }
}

/// The byte at position `p` (see [`char_offset`]).
pub open spec fn file_lsp_to_byte(c: Seq<char>, p: Position) -> int {
    byte_offset(c, char_offset(c, p))
}

/// The index, within `body`, of the character that holds byte `d` of it;
/// the length of `body` when `d` lies past it.
pub open spec fn char_in_body(body: Seq<char>, d: int) -> int
    decreases body.len(),
{
    if body.len() == 0 {
        0
    } else if spec_utf8_len(body[0]) > d {
        0
    } else {
        1 + char_in_body(body.drop_first(), d - spec_utf8_len(body[0]))
    }
}

/// The index of the character that holds byte `b`.
pub open spec fn char_at_byte(c: Seq<char>, b: int) -> int
    decreases c.len(),
{
    if c.len() == 0 {
        0
    } else if byte_offset(c, c.len() - 1) <= b {
        c.len() - 1
    } else {
        char_at_byte(c.drop_last(), b)
    }
}

/// The position of byte `b`: the line that holds it and the index of its
/// character in the body of that line; past the end of the file, the start
/// of the line after the last; `(0, 0)` in an empty file.
pub open spec fn file_byte_to_lsp(c: Seq<char>, b: int) -> (int, int) {
    if c.len() == 0 {
        (0, 0)
    } else if b >= spec_utf8_size(c) {
        (file_line_count(c), 0)
    } else {
        let k = line_of(char_shape(c), char_at_byte(c, b));
        (k, char_in_body(line_body(c, k), b - byte_offset(c, char_line_start(c, k))))
    }
}

/// The characters after edit `ch`: its text replaces the characters of its
/// range, or the whole file when it has no range or the file is empty.
pub open spec fn file_lazy_add(c: Seq<char>, ch: TextDocumentContentChangeEvent) -> Seq<char> {
    if ch.range is None || c.len() == 0 {
        ch.text@
    } else {
        let r = ch.range->0;
        c.take(char_offset(c, r.start)) + ch.text@ + c.skip(char_offset(c, r.end))
    }
}

/// Whether [`LspFile::lazy_add`] takes `ch`: its range does not end before
/// it starts, and the file after the edit has a size that a `usize` counts.
pub open spec fn file_lazy_add_accepts(c: Seq<char>, ch: TextDocumentContentChangeEvent) -> bool {
    ch.range is None || c.len() == 0 || {
        let r = ch.range->0;
        &&& char_offset(c, r.start) <= char_offset(c, r.end)
        &&& spec_utf8_size(file_lazy_add(c, ch)) <= usize::MAX
    }
}

// ---------------------------------------------------------------------------
// Byte offsets.
// ---------------------------------------------------------------------------

/// Each character takes one to four bytes.
pub proof fn lemma_utf8_len_bounds(ch: char)
    ensures
        1 <= spec_utf8_len(ch) <= 4,
        ch == '\n' ==> spec_utf8_len(ch) == 1,
{
}

/// Byte offsets grow with every character.
pub proof fn lemma_byte_offset_step(c: Seq<char>, i: int)
    requires
        0 <= i < c.len(),
    ensures
        byte_offset(c, i + 1) == byte_offset(c, i) + spec_utf8_len(c[i]),
{
    assert(c.take(i + 1).drop_last() =~= c.take(i));
}

/// Byte offsets grow by at least one with every character.
pub proof fn lemma_byte_offset_grows(c: Seq<char>, i: int, j: int)
    requires
        0 <= i <= j <= c.len(),
    ensures
        byte_offset(c, i) + (j - i) <= byte_offset(c, j),
    decreases j - i,
{
    if i < j {
        lemma_byte_offset_grows(c, i, j - 1);
        lemma_byte_offset_step(c, j - 1);
        lemma_utf8_len_bounds(c[j - 1]);
    }
}

/// Byte offsets are increasing, from 0 to the size of the file.
pub proof fn lemma_byte_offset_mono(c: Seq<char>, i: int, j: int)
    requires
        0 <= i <= j <= c.len(),
    ensures
        byte_offset(c, i) + (j - i) <= byte_offset(c, j) <= spec_utf8_size(c),
        byte_offset(c, 0) == 0,
        byte_offset(c, c.len() as int) == spec_utf8_size(c),
{
    assert(c.take(0) =~= Seq::<char>::empty());
    assert(c.take(c.len() as int) =~= c);
    lemma_byte_offset_grows(c, i, j);
    lemma_byte_offset_grows(c, j, c.len() as int);
}

/// The byte offsets of a spliced file: before the splice they are those of
/// the old file, within it they are shifted offsets of the new text, and
/// after it they are shifted offsets of the old file.
pub proof fn lemma_byte_offset_splice(c: Seq<char>, t: Seq<char>, a: int, b: int, i: int)
    requires
        0 <= a <= b <= c.len(),
        0 <= i <= a + t.len() + (c.len() - b),
    ensures
        ({
            let n = c.take(a) + t + c.skip(b);
            &&& i <= a ==> byte_offset(n, i) == byte_offset(c, i)
            &&& a <= i <= a + t.len() ==> byte_offset(n, i) == byte_offset(c, a) + byte_offset(t, i - a)
            &&& a + t.len() <= i ==> byte_offset(n, i) == byte_offset(c, a) + spec_utf8_size(t) + byte_offset(
                c,
                i - a - t.len() + b,
            ) - byte_offset(c, b)
        }),
{
    let n = c.take(a) + t + c.skip(b);
    if i <= a {
        assert(n.take(i) =~= c.take(i));
    }
    if a <= i <= a + t.len() {
        assert(n.take(i) =~= c.take(a) + t.take(i - a));
        lemma_utf8_size_concat(c.take(a), t.take(i - a));
    }
    if a + t.len() <= i {
        let y = i - a - t.len();
        assert(n.take(i) =~= (c.take(a) + t) + c.skip(b).take(y));
        lemma_utf8_size_concat(c.take(a) + t, c.skip(b).take(y));
        lemma_utf8_size_concat(c.take(a), t);
        assert(c.take(b + y) =~= c.take(b) + c.skip(b).take(y));
        lemma_utf8_size_concat(c.take(b), c.skip(b).take(y));
        assert(t.take(t.len() as int) =~= t);
    }
}

/// The shape of a spliced file is the splice of the shapes.
pub proof fn lemma_char_shape_splice(c: Seq<char>, t: Seq<char>, a: int, b: int)
    requires
        0 <= a <= b <= c.len(),
    ensures
        char_shape(c.take(a) + t + c.skip(b)) == char_shape(c).take(a) + char_shape(t) + char_shape(c).skip(b),
{
    assert(char_shape(c.take(a) + t + c.skip(b)) =~= char_shape(c).take(a) + char_shape(t) + char_shape(c).skip(b));
}

/// The byte line ends after a splice: the old ones before it, those of the
/// new text moved to its start, and the old ones after it moved by the
/// change in size.
pub proof fn lemma_byte_ends_splice(c: Seq<char>, t: Seq<char>, a: int, b: int, k1: int, k2: int)
    requires
        0 <= a <= b <= c.len(),
        0 <= k1 <= newlines(char_shape(c)).len(),
        0 <= k2 <= newlines(char_shape(c)).len(),
        forall|i: int| 0 <= i < k1 ==> #[trigger] newlines(char_shape(c))[i] < a,
        forall|i: int| k2 <= i < newlines(char_shape(c)).len() ==> #[trigger] newlines(char_shape(c))[i] >= b,
    ensures
        ({
            let n = c.take(a) + t + c.skip(b);
            let nl = newlines(char_shape(c));
            let tn = newlines(char_shape(t));
            let ba = byte_offset(c, a);
            let bb = byte_offset(c, b);
            byte_ends_of(n, nl.take(k1) + tn.map_values(|p: int| p + a) + nl.skip(k2).map_values(
                |p: int| p - b + (a + t.len()),
            )) == byte_ends_of(c, nl).take(k1) + byte_ends_of(t, tn).map_values(|p: int| p + ba)
                + byte_ends_of(c, nl).skip(k2).map_values(|p: int| p - bb + (ba + spec_utf8_size(t)))
        }),
{
    let n = c.take(a) + t + c.skip(b);
    let nl = newlines(char_shape(c));
    let tn = newlines(char_shape(t));
    let ba = byte_offset(c, a);
    let bb = byte_offset(c, b);
    lemma_newlines(char_shape(c));
    lemma_newlines(char_shape(t));
    let ends = nl.take(k1) + tn.map_values(|p: int| p + a) + nl.skip(k2).map_values(|p: int| p - b + (a + t.len()));
    let lhs = byte_ends_of(n, ends);
    let rhs = byte_ends_of(c, nl).take(k1) + byte_ends_of(t, tn).map_values(|p: int| p + ba) + byte_ends_of(
        c,
        nl,
    ).skip(k2).map_values(|p: int| p - bb + (ba + spec_utf8_size(t)));
    assert(lhs.len() == rhs.len());
    assert forall|i: int| 0 <= i < lhs.len() implies lhs[i] == rhs[i] by {
        if i < k1 {
            lemma_byte_offset_splice(c, t, a, b, nl[i] + 1);
        } else if i < k1 + tn.len() {
            let q = i - k1;
            lemma_byte_offset_splice(c, t, a, b, tn[q] + a + 1);
        } else {
            let j = i - k1 - tn.len() + k2;
            lemma_byte_offset_splice(c, t, a, b, nl[j] - b + (a + t.len()) + 1);
        }
    }
    assert(lhs =~= rhs);
}

/// The character that holds a byte: its offset is at most the byte, and the
/// offset of the next character is past it.
pub proof fn lemma_char_at_byte(c: Seq<char>, b: int)
    requires
        0 <= b < spec_utf8_size(c),
    ensures
        0 <= char_at_byte(c, b) < c.len(),
        byte_offset(c, char_at_byte(c, b)) <= b < byte_offset(c, char_at_byte(c, b) + 1),
    decreases c.len(),
{
    lemma_byte_offset_mono(c, 0, c.len() as int);
    let n = c.len() as int;
    if byte_offset(c, n - 1) <= b {
        lemma_byte_offset_mono(c, n - 1, n);
    } else {
        let d = c.drop_last();
        assert(d =~= c.take(n - 1));
        assert(spec_utf8_size(d) == byte_offset(c, n - 1));
        lemma_char_at_byte(d, b);
        let k = char_at_byte(d, b);
        assert(c.take(k) =~= d.take(k));
        assert(c.take(k + 1) =~= d.take(k + 1));
    }
}

/// The byte offset of a character of a line's body, counted from the start
/// of the line.
pub proof fn lemma_body_offset(c: Seq<char>, s: int, e: int, i: int)
    requires
        0 <= s <= s + i <= e <= c.len(),
    ensures
        byte_offset(c, s + i) == byte_offset(c, s) + spec_utf8_size(c.subrange(s, e).take(i)),
{
    assert(c.take(s + i) =~= c.take(s) + c.subrange(s, e).take(i));
    lemma_utf8_size_concat(c.take(s), c.subrange(s, e).take(i));
}

/// The size of a spliced file.
pub proof fn lemma_splice_size(c: Seq<char>, t: Seq<char>, a: int, b: int)
    requires
        0 <= a <= b <= c.len(),
    ensures
        spec_utf8_size(c.take(a) + t + c.skip(b)) == byte_offset(c, a) + spec_utf8_size(t) + spec_utf8_size(c)
            - byte_offset(c, b),
{
    lemma_utf8_size_concat(c.take(a) + t, c.skip(b));
    lemma_utf8_size_concat(c.take(a), t);
    assert(c =~= c.take(b) + c.skip(b));
    lemma_utf8_size_concat(c.take(b), c.skip(b));
}

/// A file has at most as many characters as bytes.
pub proof fn lemma_chars_le_bytes(c: Seq<char>)
    ensures
        c.len() <= spec_utf8_size(c),
{
    lemma_byte_offset_mono(c, 0, c.len() as int);
}

/// Line breaks lie before the end of the file, and the byte of a line break
/// lies before the end of the bytes.
pub proof fn lemma_break_bytes(c: Seq<char>)
    ensures
        forall|i: int|
            0 <= i < newlines(char_shape(c)).len() ==> 0 <= #[trigger] newlines(char_shape(c))[i] < c.len()
                && 0 <= byte_ends_of(c, newlines(char_shape(c)))[i] < spec_utf8_size(c),
{
    lemma_newlines(char_shape(c));
    assert forall|i: int| 0 <= i < newlines(char_shape(c)).len() implies 0 <= #[trigger] newlines(char_shape(c))[i]
        < c.len() && 0 <= byte_ends_of(c, newlines(char_shape(c)))[i] < spec_utf8_size(c) by {
        let e = newlines(char_shape(c))[i];
        lemma_byte_offset_mono(c, e + 1, c.len() as int);
        lemma_byte_offset_mono(c, 0, e + 1);
    }
}

/// The tables of line ends after a splice, built from the old tables and
/// those of the new text, are the tables of the spliced file.
pub proof fn lemma_spliced_tables(
    c: Seq<char>,
    t: Seq<char>,
    cs: int,
    ce: int,
    k1: int,
    k2: int,
    old_ce: Seq<usize>,
    old_r: Seq<usize>,
    tcn: Seq<usize>,
    tbn: Seq<usize>,
    new_ce: Seq<usize>,
    new_r: Seq<usize>,
)
    requires
        0 <= cs <= ce <= c.len(),
        ints(old_ce) == char_line_ends(c),
        ints(old_r) == byte_line_ends(c),
        0 <= k1 <= newlines(char_shape(c)).len(),
        0 <= k2 <= newlines(char_shape(c)).len(),
        forall|i: int| 0 <= i < k1 ==> #[trigger] old_ce[i] < cs,
        forall|i: int| k1 <= i < newlines(char_shape(c)).len() ==> #[trigger] old_ce[i] >= cs,
        forall|i: int| 0 <= i < k2 ==> #[trigger] old_ce[i] < ce,
        forall|i: int| k2 <= i < newlines(char_shape(c)).len() ==> #[trigger] old_ce[i] >= ce,
        ints(tcn) == newlines(char_shape(t)),
        ints(tbn) == byte_ends_of(t, newlines(char_shape(t))),
        ints(new_ce) == ints(old_ce).take(k1) + ints(tcn).map_values(|p: int| p + cs) + ints(old_ce).subrange(
            k2,
            newlines(char_shape(c)).len() as int,
        ).map_values(|p: int| p - ce + (cs + t.len())),
        ints(new_r) == ints(old_r).take(k1) + ints(tbn).map_values(|p: int| p + byte_offset(c, cs)) + ints(
            old_r,
        ).subrange(k2, newlines(char_shape(c)).len() as int).map_values(
            |p: int| p - byte_offset(c, ce) + (byte_offset(c, cs) + spec_utf8_size(t)),
        ),
    ensures
        ints(new_ce) == newlines(char_shape(c.take(cs) + t + c.skip(ce))),
        ints(new_r) == byte_ends_of(
            c.take(cs) + t + c.skip(ce),
            newlines(char_shape(c.take(cs) + t + c.skip(ce))),
        ),
{
    let sh = char_shape(c);
    let nl = newlines(sh);
    let m = nl.len() as int;
    let ns = c.take(cs) + t + c.skip(ce);
    lemma_line_ends(sh);
    assert forall|i: int| 0 <= i < m implies old_ce[i] as int == #[trigger] nl[i] by {
        assert(ints(old_ce)[i] == old_ce[i] as int);
    }
    assert forall|i: int| 0 <= i < k1 implies #[trigger] nl[i] < cs by {
        assert(old_ce[i] as int == nl[i]);
    }
    assert forall|i: int| k1 <= i < m implies #[trigger] nl[i] >= cs by {
        assert(old_ce[i] as int == nl[i]);
    }
    assert forall|i: int| 0 <= i < k2 implies #[trigger] nl[i] < ce by {
        assert(old_ce[i] as int == nl[i]);
    }
    assert forall|i: int| k2 <= i < m implies #[trigger] nl[i] >= ce by {
        assert(old_ce[i] as int == nl[i]);
    }
    lemma_char_shape_splice(c, t, cs, ce);
    lemma_splice_at_breaks(sh, char_shape(t), cs, ce, k1, k2);
    lemma_byte_ends_splice(c, t, cs, ce, k1, k2);
    assert(ints(old_ce).take(k1) =~= nl.take(k1));
    assert(ints(old_ce).subrange(k2, m) =~= nl.skip(k2));
    assert(ints(new_ce) =~= newlines(char_shape(ns)));
    assert(byte_line_ends(c).take(m) =~= byte_ends_of(c, nl));
    assert(ints(old_r).take(k1) =~= byte_ends_of(c, nl).take(k1));
    assert(ints(old_r).subrange(k2, m) =~= byte_ends_of(c, nl).skip(k2));
    assert(ints(new_r) =~= byte_ends_of(ns, newlines(char_shape(ns))));
}

/// The encoding of a concatenation is the concatenation of the encodings.
pub proof fn lemma_encode_concat(a: Seq<char>, b: Seq<char>)
    ensures
        encode_utf8(a + b) == encode_utf8(a) + encode_utf8(b),
    decreases a.len(),
{
    if a.len() == 0 {
        assert(a + b =~= b);
        assert(encode_utf8(a) + encode_utf8(b) =~= encode_utf8(b));
    } else {
        lemma_encode_concat(a.drop_first(), b);
        assert((a + b).drop_first() =~= a.drop_first() + b);
        assert((a + b)[0] == a[0]);
        assert(encode_utf8(a + b) =~= encode_utf8(a) + encode_utf8(b));
    }
}

/// Splitting the characters at `i` splits the bytes at their offset.
pub proof fn lemma_encode_split(c: Seq<char>, i: int)
    requires
        0 <= i <= c.len(),
    ensures
        encode_utf8(c).take(byte_offset(c, i)) == encode_utf8(c.take(i)),
        encode_utf8(c).skip(byte_offset(c, i)) == encode_utf8(c.skip(i)),
{
    assert(c =~= c.take(i) + c.skip(i));
    lemma_encode_concat(c.take(i), c.skip(i));
    lemma_utf8_size_encoding(c.take(i));
    assert(encode_utf8(c).take(byte_offset(c, i)) =~= encode_utf8(c.take(i)));
    assert(encode_utf8(c).skip(byte_offset(c, i)) =~= encode_utf8(c.skip(i)));
}

/// An edit replaces the bytes from the byte of the start of its range up to
/// the byte of its end by the bytes of its text.
pub proof fn lemma_file_lazy_add_bytes(c: Seq<char>, ch: TextDocumentContentChangeEvent)
    requires
        file_lazy_add_accepts(c, ch),
        ch.range is Some,
        c.len() > 0,
    ensures
        encode_utf8(file_lazy_add(c, ch)) == encode_utf8(c).take(file_lsp_to_byte(c, ch.range->0.start))
            + encode_utf8(ch.text@) + encode_utf8(c).skip(file_lsp_to_byte(c, ch.range->0.end)),
{
    let r = ch.range->0;
    let a = char_offset(c, r.start);
    let b = char_offset(c, r.end);
    lemma_char_offset_bounds(c, r.start);
    lemma_char_offset_bounds(c, r.end);
    lemma_encode_split(c, a);
    lemma_encode_split(c, b);
    lemma_encode_concat(c.take(a) + ch.text@, c.skip(b));
    lemma_encode_concat(c.take(a), ch.text@);
}

/// A character offset lies within the file or at its end.
pub proof fn lemma_char_offset_bounds(c: Seq<char>, p: Position)
    ensures
        0 <= char_offset(c, p) <= c.len(),
{
    if c.len() > 0 && p.line < file_line_count(c) {
        let k = p.line as int;
        lemma_lines(char_shape(c), k);
        lemma_line_ends(char_shape(c));
    }
}

/// In a file whose last character takes one byte, every line's body is all
/// of it but its last character.
pub proof fn lemma_body_all_but_last(c: Seq<char>, k: int)
    requires
        c.len() > 0,
        spec_utf8_len(c.last()) == 1,
        0 <= k < file_line_count(c),
    ensures
        line_body(c, k) == c.subrange(char_line_start(c, k), char_line_ends(c)[k]),
{
    let sh = char_shape(c);
    lemma_line_ends(sh);
    lemma_lines(sh, k);
    let e = char_line_ends(c)[k];
    if e < c.len() - 1 {
        assert(newlines(sh)[k] == e);
        lemma_newlines(sh);
        assert(c[e] == '\n');
    }
}

/// The body index of the character that holds a byte of the body's `j`-th
/// character is `j`.
pub proof fn lemma_char_in_body(body: Seq<char>, j: int, d: int)
    requires
        0 <= j <= body.len(),
        spec_utf8_size(body.take(j)) <= d,
        j < body.len() ==> d < spec_utf8_size(body.take(j + 1)),
    ensures
        char_in_body(body, d) == j,
    decreases j,
{
    if body.len() > 0 {
        assert(body.take(1) =~= seq![body[0]]);
        assert(seq![body[0]].drop_last() =~= Seq::<char>::empty());
        assert(spec_utf8_size(seq![body[0]]) == spec_utf8_size(Seq::<char>::empty()) + spec_utf8_len(body[0]));
        if j > 0 {
            let rest = body.drop_first();
            lemma_utf8_size_concat(seq![body[0]], rest.take(j - 1));
            assert(seq![body[0]] + rest.take(j - 1) =~= body.take(j));
            if j < body.len() {
                lemma_utf8_size_concat(seq![body[0]], rest.take(j));
                assert(seq![body[0]] + rest.take(j) =~= body.take(j + 1));
            }
            lemma_char_in_body(rest, j - 1, d - spec_utf8_len(body[0]));
        } else {
            assert(body.take(0) =~= Seq::<char>::empty());
        }
    }
}

/// The position of the byte of character `i`, in a file whose last
/// character takes one byte: its line, and its index in that line.
pub proof fn lemma_position_of_char(c: Seq<char>, i: int)
    requires
        0 <= i < c.len(),
        spec_utf8_len(c.last()) == 1,
    ensures
        file_byte_to_lsp(c, byte_offset(c, i)) == (
            line_of(char_shape(c), i),
            i - char_line_start(c, line_of(char_shape(c), i)),
        ),
        0 <= line_of(char_shape(c), i) < file_line_count(c),
        char_line_start(c, line_of(char_shape(c), i)) <= i <= char_line_ends(c)[line_of(char_shape(c), i)],
{
    let b = byte_offset(c, i);
    lemma_byte_offset_mono(c, 0, c.len() as int);
    lemma_byte_offset_mono(c, i + 1, c.len() as int);
    lemma_byte_offset_step(c, i);
    lemma_utf8_len_bounds(c[i]);
    lemma_char_at_byte(c, b);
    let ci = char_at_byte(c, b);
    if ci < i {
        lemma_byte_offset_mono(c, ci + 1, i);
    }
    if ci > i {
        lemma_byte_offset_mono(c, i + 1, ci);
    }
    assert(ci == i);
    let sh = char_shape(c);
    lemma_line_of(sh, i);
    lemma_line_ends(sh);
    let k = line_of(sh, i);
    let ls = char_line_start(c, k);
    let e = char_line_ends(c)[k];
    lemma_body_all_but_last(c, k);
    let body = c.subrange(ls, e);
    let j = i - ls;
    lemma_body_offset(c, ls, e, j);
    if j < body.len() {
        lemma_body_offset(c, ls, e, j + 1);
        lemma_byte_offset_step(c, i);
    } else {
        assert(body.take(j) =~= body);
    }
    lemma_char_in_body(body, j, b - byte_offset(c, ls));
}

/// Going from the byte of a character to its position and back gives the
/// byte, in a file whose last character takes one byte.
pub proof fn lemma_file_byte_round_trip(c: Seq<char>, i: int)
    requires
        0 <= i < c.len() <= u32::MAX,
        spec_utf8_len(c.last()) == 1,
    ensures
        ({
            let p = file_byte_to_lsp(c, byte_offset(c, i));
            file_lsp_to_byte(c, Position { line: p.0 as u32, character: p.1 as u32 }) == byte_offset(c, i)
        }),
{
    lemma_position_of_char(c, i);
    let k = line_of(char_shape(c), i);
    lemma_body_all_but_last(c, k);
    lemma_line_ends(char_shape(c));
}

/// A byte inside a character's encoding, taken to its position and back,
/// gives the first byte of that character, in a file whose last character
/// takes one byte.
pub proof fn lemma_file_byte_round_trip_within(c: Seq<char>, b: int)
    requires
        0 <= b < spec_utf8_size(c),
        c.len() <= u32::MAX,
        spec_utf8_len(c.last()) == 1,
    ensures
        byte_offset(c, char_at_byte(c, b)) <= b < byte_offset(c, char_at_byte(c, b) + 1),
        ({
            let p = file_byte_to_lsp(c, b);
            file_lsp_to_byte(c, Position { line: p.0 as u32, character: p.1 as u32 }) == byte_offset(
                c,
                char_at_byte(c, b),
            )
        }),
{
    lemma_char_at_byte(c, b);
    let i = char_at_byte(c, b);
    lemma_position_of_char(c, i);
    let sh = char_shape(c);
    let k = line_of(sh, i);
    let ls = char_line_start(c, k);
    let e = char_line_ends(c)[k];
    lemma_body_all_but_last(c, k);
    lemma_line_ends(sh);
    lemma_lines(sh, k);
    let body = c.subrange(ls, e);
    let j = i - ls;
    lemma_body_offset(c, ls, e, j);
    if j < body.len() {
        lemma_body_offset(c, ls, e, j + 1);
    } else {
        assert(body.take(j) =~= body);
    }
    lemma_char_in_body(body, j, b - byte_offset(c, ls));
    assert(file_byte_to_lsp(c, b) == file_byte_to_lsp(c, byte_offset(c, i)));
    lemma_file_byte_round_trip(c, i);
}

/// The bytes of a character: one line break byte for a line break, and
/// otherwise as many bytes as it takes, none of them a line break.
pub proof fn lemma_char_bytes_shape(ch: char)
    ensures
        shape_of(encode_utf8(seq![ch])).len() == spec_utf8_len(ch),
        forall|i: int|
            0 <= i < spec_utf8_len(ch) ==> #[trigger] shape_of(encode_utf8(seq![ch]))[i] == (ch == '\n'),
{
    let u = ch as u32;
    vstd::utf8::char_is_scalar(ch);
    lemma_utf8_size_encoding(seq![ch]);
    assert(seq![ch].drop_last() =~= Seq::<char>::empty());
    assert(spec_utf8_size(seq![ch]) == spec_utf8_size(Seq::<char>::empty()) + spec_utf8_len(ch));
    assert(seq![ch].drop_first() =~= Seq::<char>::empty());
    let bytes = encode_utf8(seq![ch]);
    assert(bytes =~= vstd::utf8::encode_scalar(u));
    if u <= 0x7F {
        let x: u8 = (u & 0x7F) as u8;
        assert(u <= 0x7F ==> (((u & 0x7F) as u8 == 10u8) <==> u == 10u32)) by (bit_vector);
        assert(bytes[0] == x);
    } else {
        assert((0xC0u8 | ((u >> 6u32) & 0x1Fu32) as u8) != 10u8) by (bit_vector);
        assert((0xE0u8 | ((u >> 12u32) & 0x0Fu32) as u8) != 10u8) by (bit_vector);
        assert((0xF0u8 | ((u >> 18u32) & 0x7u32) as u8) != 10u8) by (bit_vector);
        assert((0x80u8 | (u & 0x3Fu32) as u8) != 10u8) by (bit_vector);
        assert((0x80u8 | ((u >> 6u32) & 0x3Fu32) as u8) != 10u8) by (bit_vector);
        assert((0x80u8 | ((u >> 12u32) & 0x3Fu32) as u8) != 10u8) by (bit_vector);
        assert(ch != '\n');
        assert forall|i: int| 0 <= i < bytes.len() implies bytes[i] != 10u8 by {}
    }
}

/// The line breaks of the bytes of a text are the last bytes of its line
/// break characters.
pub proof fn lemma_byte_newlines(c: Seq<char>)
    ensures
        newlines(shape_of(encode_utf8(c))) == byte_ends_of(c, newlines(char_shape(c))),
        shape_of(encode_utf8(c)).len() == spec_utf8_size(c),
    decreases c.len(),
{
    lemma_utf8_size_encoding(c);
    if c.len() == 0 {
        assert(encode_utf8(c) =~= Seq::<u8>::empty());
        assert(shape_of(encode_utf8(c)) =~= Seq::<bool>::empty());
        assert(byte_ends_of(c, newlines(char_shape(c))) =~= Seq::<int>::empty());
    } else {
        let d = c.drop_last();
        let ch = c.last();
        lemma_byte_newlines(d);
        assert(c =~= d + seq![ch]);
        lemma_encode_concat(d, seq![ch]);
        lemma_utf8_size_encoding(d);
        let a = shape_of(encode_utf8(d));
        let t = shape_of(encode_utf8(seq![ch]));
        assert(shape_of(encode_utf8(c)) =~= a + t);
        lemma_newlines_concat(a, t);
        lemma_char_bytes_shape(ch);
        lemma_utf8_len_bounds(ch);
        assert(char_shape(c).drop_last() =~= char_shape(d));
        lemma_newlines(char_shape(d));
        let nd = newlines(char_shape(d));
        assert forall|x: int| 0 <= x < nd.len() implies #[trigger] byte_ends_of(c, nd)[x] == byte_ends_of(
            d,
            nd,
        )[x] by {
            assert(c.take(nd[x] + 1) =~= d.take(nd[x] + 1));
        }
        assert(byte_ends_of(c, nd) =~= byte_ends_of(d, nd));
        assert(c.take(c.len() as int) =~= c);
        assert(c.drop_last() == d);
        if ch == '\n' {
            assert(t =~= seq![true]);
            assert(seq![true].drop_last() =~= Seq::<bool>::empty());
            assert(newlines(Seq::<bool>::empty()) =~= Seq::<int>::empty());
            assert(newlines(t) =~= seq![0int]);
            assert(newlines(t).map_values(|p: int| p + a.len()) =~= seq![a.len() as int]);
            assert(byte_ends_of(c, nd.push(c.len() - 1)) =~= byte_ends_of(c, nd).push(
                byte_offset(c, c.len() as int) - 1,
            ));
        } else {
            lemma_no_newlines(t);
            assert(newlines(t).map_values(|p: int| p + a.len()) =~= Seq::<int>::empty());
        }
        assert(newlines(shape_of(encode_utf8(c))) =~= byte_ends_of(c, newlines(char_shape(c))));
    }
}

/// A shape without line breaks has none.
pub proof fn lemma_no_newlines(s: Seq<bool>)
    requires
        forall|i: int| 0 <= i < s.len() ==> !#[trigger] s[i],
    ensures
        newlines(s) == Seq::<int>::empty(),
    decreases s.len(),
{
    if s.len() > 0 {
        lemma_no_newlines(s.drop_last());
    }
}

/// The line ends of a text counted in bytes are the line ends of its bytes:
/// the tables of [`LspFile`] and of [`crate::lsp_position_struct::LspPos`]
/// agree for every text.
pub proof fn lemma_line_tables_agree(c: Seq<char>)
    ensures
        byte_line_ends(c) == line_ends(shape_of(encode_utf8(c))),
{
    lemma_byte_newlines(c);
    let bs = shape_of(encode_utf8(c));
    if c.len() > 0 {
        let d = c.drop_last();
        let ch = c.last();
        assert(c =~= d + seq![ch]);
        lemma_encode_concat(d, seq![ch]);
        lemma_byte_newlines(d);
        lemma_char_bytes_shape(ch);
        lemma_utf8_len_bounds(ch);
        assert(bs =~= shape_of(encode_utf8(d)) + shape_of(encode_utf8(seq![ch])));
        assert(bs.last() == (ch == '\n'));
        assert(char_shape(c).last() == (ch == '\n'));
        assert(c.take(c.len() as int) =~= c);
        assert(byte_ends_of(c, newlines(char_shape(c)).push(c.len() - 1)) =~= byte_ends_of(
            c,
            newlines(char_shape(c)),
        ).push(byte_offset(c, c.len() as int) - 1));
    }
}

/// Going from a position of the file to its byte and back gives the
/// position, in a file whose last character takes one byte.
pub proof fn lemma_file_position_round_trip(c: Seq<char>, p: Position)
    requires
        c.len() > 0,
        spec_utf8_len(c.last()) == 1,
        p.line < file_line_count(c),
        p.character < spec_line_char(char_shape(c), p.line as int),
    ensures
        file_byte_to_lsp(c, file_lsp_to_byte(c, p)) == (p.line as int, p.character as int),
{
    let k = p.line as int;
    let sh = char_shape(c);
    lemma_lines(sh, k);
    lemma_body_all_but_last(c, k);
    let i = char_line_start(c, k) + p.character;
    assert(char_offset(c, p) == i);
    lemma_position_of_char(c, i);
    lemma_line_of_unique(sh, i, k);
}

// ---------------------------------------------------------------------------
// The executable structure.
// ---------------------------------------------------------------------------

/// The characters of `c` with those from `a` up to `b` replaced by `t`.
fn splice_chars(c: &Vec<char>, a: usize, b: usize, t: &Vec<char>) -> (r: Vec<char>)
    requires
        a <= b <= c.len(),
    ensures
        r@ == c@.take(a as int) + t@ + c@.skip(b as int),
{
    let mut r: Vec<char> = Vec::new();
    let mut i: usize = 0;
    while i < a
        invariant
            i <= a <= b <= c.len(),
            r@ == c@.take(i as int),
        decreases a - i,
    {
        r.push(c[i]);
        assert(r@ =~= c@.take(i + 1));
        i = i + 1;
    }
    let mut j: usize = 0;
    while j < t.len()
        invariant
            j <= t.len(),
            r@ == c@.take(a as int) + t@.take(j as int),
        decreases t.len() - j,
    {
        r.push(t[j]);
        assert(r@ =~= c@.take(a as int) + t@.take(j + 1));
        j = j + 1;
    }
    let mut k: usize = b;
    while k < c.len()
        invariant
            b <= k <= c.len(),
            r@ == c@.take(a as int) + t@ + c@.subrange(b as int, k as int),
        decreases c.len() - k,
    {
        r.push(c[k]);
        assert(r@ =~= c@.take(a as int) + t@ + c@.subrange(b as int, k + 1));
        k = k + 1;
    }
    assert(t@.take(t.len() as int) =~= t@);
    assert(c@.subrange(b as int, k as int) =~= c@.skip(b as int));
    r
}

/// The line breaks of `c`: their indices, the offsets of their bytes, and the
/// size of `c`.
fn line_breaks(c: &Vec<char>) -> (r: (Vec<usize>, Vec<usize>, usize))
    requires
        spec_utf8_size(c@) <= usize::MAX,
    ensures
        ints(r.0@) == newlines(char_shape(c@)),
        ints(r.1@) == byte_ends_of(c@, newlines(char_shape(c@))),
        r.2 == spec_utf8_size(c@),
{
    let mut cn: Vec<usize> = Vec::new();
    let mut bn: Vec<usize> = Vec::new();
    let mut b: usize = 0;
    let mut i: usize = 0;
    proof {
        lemma_byte_offset_mono(c@, 0, c@.len() as int);
    }
    while i < c.len()
        invariant
            i <= c.len(),
            spec_utf8_size(c@) <= usize::MAX,
            b == byte_offset(c@, i as int),
            ints(cn@) == newlines(char_shape(c@).take(i as int)),
            ints(bn@) == byte_ends_of(c@, newlines(char_shape(c@).take(i as int))),
        decreases c.len() - i,
    {
        let ghost sh = char_shape(c@);
        let ghost cn0 = cn@;
        let ghost bn0 = bn@;
        proof {
            assert(sh.take(i + 1).drop_last() =~= sh.take(i as int));
            lemma_byte_offset_step(c@, i as int);
            lemma_byte_offset_mono(c@, i + 1, c@.len() as int);
        }
        let l = utf8_len(c[i]);
        if c[i] == '\n' {
            cn.push(i);
            bn.push(b);
            assert(ints(cn@) =~= ints(cn0).push(i as int));
            assert(byte_ends_of(c@, newlines(sh.take(i + 1))) =~= byte_ends_of(c@, newlines(sh.take(i as int))).push(
                b as int,
            ));
            assert(ints(bn@) =~= ints(bn0).push(b as int));
        }
        b = b + l;
        i = i + 1;
    }
    proof {
        assert(char_shape(c@).take(i as int) =~= char_shape(c@));
        lemma_byte_offset_mono(c@, 0, c@.len() as int);
    }
    (cn, bn, b)
}

/// A file held in full, with the character and byte offsets of the last
/// character of each line.
pub struct LspFile {
    file: String,
    chars: Vec<char>,
    /// The byte offset of the last byte of each line.
    ranges: Vec<usize>,
    /// The index of the last character of each line.
    char_ends: Vec<usize>,
}

impl View for LspFile {
    type V = Seq<char>;

    closed spec fn view(&self) -> Seq<char> {
        self.chars@
    }
}

impl LspFile {
    #[verifier::type_invariant]
    closed spec fn wf(self) -> bool {
        &&& self.file@ == self.chars@
        &&& ints(self.char_ends@) == char_line_ends(self.chars@)
        &&& ints(self.ranges@) == byte_line_ends(self.chars@)
        &&& spec_utf8_size(self.chars@) <= usize::MAX
    }

    /// The line ends of the two tables, entry by entry.
    fn check_tables(&self)
        ensures
            self.ranges@.len() == self.char_ends@.len() == file_line_count(self@),
            forall|i: int|
                0 <= i < self.ranges@.len() ==> #[trigger] self.ranges@[i] as int == byte_line_ends(self@)[i],
            forall|i: int|
                0 <= i < self.char_ends@.len() ==> #[trigger] self.char_ends@[i] as int == char_line_ends(
                    self@,
                )[i],
            spec_utf8_size(self@) <= usize::MAX,
            self.file@ == self@,
    {
        proof {
            use_type_invariant(self);
        }
        assert(ints(self.ranges@).len() == self.ranges@.len());
        assert(ints(self.char_ends@).len() == self.char_ends@.len());
        assert forall|i: int| 0 <= i < self.ranges@.len() implies #[trigger] self.ranges@[i] as int == byte_line_ends(
            self@,
        )[i] by {
            assert(ints(self.ranges@)[i] == self.ranges@[i] as int);
        }
        assert forall|i: int| 0 <= i < self.char_ends@.len() implies #[trigger] self.char_ends@[i] as int
            == char_line_ends(self@)[i] by {
            assert(ints(self.char_ends@)[i] == self.char_ends@[i] as int);
        }
    }

    /// Builds the structure for the characters `chars`, which `file` holds.
    fn from_chars(file: String, chars: Vec<char>) -> (r: Self)
        requires
            file@ == chars@,
            spec_utf8_size(chars@) <= usize::MAX,
        ensures
            r@ == chars@,
    {
        let ghost c = chars@;
        let (mut char_ends, mut ranges, total) = line_breaks(&chars);
        let n = chars.len();
        proof {
            lemma_byte_offset_mono(c, 0, n as int);
            lemma_line_ends(char_shape(c));
        }
        if n > 0 && chars[n - 1] != '\n' {
            let ghost ce0 = char_ends@;
            let ghost r0 = ranges@;
            char_ends.push(n - 1);
            ranges.push(total - 1);
            assert(ints(char_ends@) =~= ints(ce0).push(n - 1));
            assert(ints(ranges@) =~= ints(r0).push(total - 1));
            assert(byte_ends_of(c, newlines(char_shape(c)).push(n - 1)) =~= byte_ends_of(c, newlines(char_shape(c))).push(
                total - 1,
            ));
        }
        LspFile { file, chars, ranges, char_ends }
    }

    /// The line ends of `file`.
    pub fn new(file: &String) -> (r: Self)
        ensures
            r@ == file@,
    {
        utf8_size_fits(file.as_str());
        let chars = chars_of(file.as_str());
        LspFile::from_chars(file.clone(), chars)
    }

    /// The content of the file.
    pub fn get_file_content(&self) -> (r: &String)
        ensures
            r@ == self@,
    {
        proof {
            use_type_invariant(self);
        }
        &self.file
    }

    /// The content of the file.
    pub fn get_file(&self) -> (r: &String)
        ensures
            r@ == self@,
    {
        self.get_file_content()
    }

    /// The byte offset of the last byte of each line.
    pub fn get_ranges(&self) -> (r: &Vec<usize>)
        ensures
            ints(r@) == byte_line_ends(self@),
    {
        proof {
            use_type_invariant(self);
        }
        &self.ranges
    }

    /// Whether the file ends with a line break.
    pub fn get_eof(&self) -> (r: bool)
        ensures
            r == (self@.len() > 0 && self@.last() == '\n'),
    {
        proof {
            use_type_invariant(self);
        }
        self.chars.len() > 0 && self.chars[self.chars.len() - 1] == '\n'
    }

    /// The number of characters of line `line`, its line break included; 0
    /// for a line that does not exist.
    pub fn line_char(&self, line: usize) -> (r: usize)
        ensures
            r == spec_line_char(char_shape(self@), line as int),
    {
        self.check_tables();
        proof {
            lemma_line_ends(char_shape(self@));
        }
        if line >= self.char_ends.len() {
            return 0;
        }
        proof {
            lemma_lines(char_shape(self@), line as int);
            assert(ints(self.char_ends@)[line as int] == self.char_ends@[line as int] as int);
            if line > 0 {
                assert(ints(self.char_ends@)[line - 1] == self.char_ends@[line - 1] as int);
            }
        }
        assert(self.char_ends@[line as int] as int == char_line_ends(self@)[line as int]);
        let start = if line == 0 {
            0
        } else {
            assert(self.char_ends@[line - 1] as int == char_line_ends(self@)[line - 1]);
            self.char_ends[line - 1] + 1
        };
        assert(start as int == line_start(char_shape(self@), line as int));
        assert(line_start(char_shape(self@), line as int) <= line_ends(char_shape(self@))[line as int]);
        assert(line_ends(char_shape(self@))[line as int] < char_shape(self@).len());
        let n = self.chars.len();
        self.char_ends[line] - start + 1
    }

    /// The first character of line `line`, the end of its body, and the byte
    /// offset of its first character.
    fn body_bounds(&self, line: usize) -> (r: (usize, usize, usize))
        requires
            line < file_line_count(self@),
        ensures
            r.0 == char_line_start(self@, line as int),
            self@.subrange(r.0 as int, r.1 as int) == line_body(self@, line as int),
            r.0 <= r.1 <= self@.len(),
            r.2 == byte_offset(self@, r.0 as int),
    {
        self.check_tables();
        proof {
            lemma_line_ends(char_shape(self@));
            lemma_lines(char_shape(self@), line as int);
            if line > 0 {
                lemma_byte_offset_mono(self@, self.char_ends@[line - 1] + 1, self@.len() as int);
            }
            lemma_byte_offset_mono(self@, 0, self@.len() as int);
        }
        let (start, start_byte) = if line == 0 {
            (0, 0)
        } else {
            (self.char_ends[line - 1] + 1, self.ranges[line - 1] + 1)
        };
        let e = self.char_ends[line];
        if utf8_len(self.chars[e]) == 1 {
            (start, e, start_byte)
        } else {
            assert(self@.subrange(start as int, start as int) =~= Seq::<char>::empty());
            (start, start, start_byte)
        }
    }

    /// The character and the byte that position `p` stands for (see
    /// [`char_offset`]).
    fn offsets(&self, p: &Position) -> (r: (usize, usize))
        ensures
            r.0 == char_offset(self@, *p),
            r.1 == byte_offset(self@, r.0 as int),
            r.0 <= self@.len(),
    {
        self.check_tables();
        proof {
            lemma_line_ends(char_shape(self@));
            lemma_byte_offset_mono(self@, 0, self@.len() as int);
        }
        let n = self.chars.len();
        if n == 0 {
            return (0, 0);
        }
        let line = p.line as usize;
        if line >= self.char_ends.len() {
            let last = self.ranges.len() - 1;
            proof {
                assert(char_line_ends(self@).last() == n - 1);
            }
            return (n, self.ranges[last] + 1);
        }
        let (start, body_end, start_byte) = self.body_bounds(line);
        let ghost body = self@.subrange(start as int, body_end as int);
        let want = p.character as usize;
        let mut j: usize = 0;
        let mut b = start_byte;
        assert(line_body(self@, line as int).len() == body_end - start);
        while j < body_end - start && j < want
            invariant
                start <= body_end <= self@.len() == self.chars@.len(),
                j <= body_end - start,
                j <= want,
                b == byte_offset(self@, start + j),
                spec_utf8_size(self@) <= usize::MAX,
            decreases body_end - start - j,
        {
            proof {
                lemma_byte_offset_step(self@, start + j);
                lemma_byte_offset_mono(self@, start + j + 1, self@.len() as int);
            }
            b = b + utf8_len(self.chars[start + j]);
            j = j + 1;
        }
        (start + j, b)
    }

    /// The byte at `lsp_pos` (see [`file_lsp_to_byte`]).
    pub fn lsp_to_byte(&self, lsp_pos: &Position) -> (r: usize)
        ensures
            r == file_lsp_to_byte(self@, *lsp_pos),
    {
        self.offsets(lsp_pos).1
    }

    /// The bytes from the start of `lsp_range` to its end.
    pub fn lsp_range_to_byte_range(&self, lsp_range: &Range) -> (r: std::ops::Range<usize>)
        ensures
            r.start == file_lsp_to_byte(self@, lsp_range.start),
            r.end == file_lsp_to_byte(self@, lsp_range.end),
    {
        let start = self.lsp_to_byte(&lsp_range.start);
        let end = self.lsp_to_byte(&lsp_range.end);
        start..end
    }

    /// The index within the body `self@[start..body_end]` of the character
    /// that holds byte `b`, which lies at or after `start_byte`.
    fn char_in_line(&self, start: usize, body_end: usize, start_byte: usize, b: usize) -> (r: usize)
        requires
            start <= body_end <= self@.len(),
            start_byte == byte_offset(self@, start as int),
            start_byte <= b,
        ensures
            r == char_in_body(self@.subrange(start as int, body_end as int), b - start_byte),
            r <= body_end - start,
    {
        proof {
            use_type_invariant(self);
        }
        let ghost body = self@.subrange(start as int, body_end as int);
        let ghost d = b - start_byte;
        let mut count = start_byte;
        let mut i: usize = 0;
        assert(body.skip(0) =~= body);
        assert(body.take(0) =~= Seq::<char>::empty());
        while i < body_end - start
            invariant
                start <= body_end <= self@.len() == self.chars@.len(),
                body == self@.subrange(start as int, body_end as int),
                body.len() == body_end - start,
                i <= body_end - start,
                count == byte_offset(self@, start + i),
                start_byte == byte_offset(self@, start as int),
                d == b - start_byte,
                count <= b,
                count - start_byte == spec_utf8_size(body.take(i as int)),
                char_in_body(body, d) == i + char_in_body(body.skip(i as int), b - count),
                spec_utf8_size(self@) <= usize::MAX,
            decreases body_end - start - i,
        {
            proof {
                lemma_byte_offset_step(self@, start + i);
                lemma_byte_offset_mono(self@, start + i + 1, self@.len() as int);
                assert(body.skip(i as int)[0] == self@[start + i]);
                assert(body.skip(i as int).drop_first() =~= body.skip(i + 1));
                lemma_body_offset(self@, start as int, body_end as int, i + 1);
            }
            count = count + utf8_len(self.chars[start + i]);
            if count > b {
                return i;
            }
            i = i + 1;
        }
        assert(body.skip(i as int) =~= Seq::<char>::empty());
        i
    }

    /// The position of byte `byte_pos` (see [`file_byte_to_lsp`]).
    pub fn byte_to_lsp(&self, byte_pos: usize) -> (r: Position)
        requires
            self@.len() <= u32::MAX,
        ensures
            (r.line as int, r.character as int) == file_byte_to_lsp(self@, byte_pos as int),
    {
        self.check_tables();
        proof {
            lemma_line_ends(char_shape(self@));
            lemma_byte_offset_mono(self@, 0, self@.len() as int);
        }
        let nl = self.ranges.len();
        if self.chars.len() == 0 {
            return Position { line: 0, character: 0 };
        }
        let last = self.ranges[nl - 1];
        proof {
            assert(char_line_ends(self@).last() == self@.len() - 1);
        }
        if byte_pos > last {
            return Position { line: nl as u32, character: 0 };
        }
        let ghost cs = char_shape(self@);
        let ghost ci = char_at_byte(self@, byte_pos as int);
        proof {
            lemma_char_at_byte(self@, byte_pos as int);
            lemma_line_of(cs, ci);
        }
        assert forall|i: int, j: int| 0 <= i < j < nl implies self.ranges@[i] < self.ranges@[j] by {
            lemma_byte_offset_mono(self@, char_line_ends(self@)[i] + 1, char_line_ends(self@)[j] + 1);
        }
        let k = count_below(&self.ranges, nl, byte_pos);
        proof {
            let l = line_of(cs, ci);
            if k < nl {
                assert(self.ranges@[k as int] as int == byte_line_ends(self@)[k as int]);
            }
            if 0 <= l < nl {
                assert(self.ranges@[l] as int == byte_line_ends(self@)[l]);
            }
            if k < l {
                lemma_byte_offset_mono(self@, char_line_ends(self@)[k as int] + 1, ci);
            }
            if k > l {
                lemma_byte_offset_mono(self@, ci + 1, char_line_ends(self@)[l] + 1);
            }
            assert(k == l);
            lemma_byte_offset_mono(self@, char_line_start(self@, l), ci);
        }
        let (start, body_end, start_byte) = self.body_bounds(k);
        let ch = self.char_in_line(start, body_end, start_byte, byte_pos);
        Position { line: k as u32, character: ch as u32 }
    }

    /// The positions of the start and the end of `byte_range`.
    pub fn byte_range_to_lsp_range(&self, byte_range: &std::ops::Range<usize>) -> (r: Range)
        requires
            self@.len() <= u32::MAX,
        ensures
            (r.start.line as int, r.start.character as int) == file_byte_to_lsp(self@, byte_range.start as int),
            (r.end.line as int, r.end.character as int) == file_byte_to_lsp(self@, byte_range.end as int),
    {
        let start = self.byte_to_lsp(byte_range.start);
        let end = self.byte_to_lsp(byte_range.end);
        Range::new(start, end)
    }
}

impl LspFile {
    /// The number of bytes of the file.
    fn size(&self) -> (r: usize)
        ensures
            r == spec_utf8_size(self@),
    {
        self.check_tables();
        proof {
            lemma_line_ends(char_shape(self@));
            lemma_byte_offset_mono(self@, 0, self@.len() as int);
        }
        let nl = self.ranges.len();
        if nl == 0 {
            0
        } else {
            assert(char_line_ends(self@).last() == self@.len() - 1);
            self.ranges[nl - 1] + 1
        }
    }

    /// Whether [`Self::lazy_add`] takes `changes` (see [`file_lazy_add_accepts`]).
    pub fn can_lazy_add(&self, changes: &TextDocumentContentChangeEvent) -> (r: bool)
        ensures
            r == file_lazy_add_accepts(self@, *changes),
    {
        let range = match changes.range {
            Some(range) => range,
            None => {
                return true;
            },
        };
        if self.chars.len() == 0 {
            return true;
        }
        let (cs, sb) = self.offsets(&range.start);
        let (ce, eb) = self.offsets(&range.end);
        if cs > ce {
            return false;
        }
        let total = self.size();
        let tsize = changes.text.as_str().as_bytes().len();
        proof {
            crate::text::lemma_utf8_size_encoding(changes.text@);
            lemma_splice_size(self@, changes.text@, cs as int, ce as int);
            lemma_byte_offset_mono(self@, cs as int, ce as int);
            lemma_byte_offset_mono(self@, ce as int, self@.len() as int);
        }
        tsize <= usize::MAX - (total - (eb - sb))
    }

    /// Applies `changes`: its text replaces the characters of its range, or
    /// the whole file when it has no range or the file is empty. Only the new
    /// text is scanned for line breaks.
    #[verifier::spinoff_prover]
    #[verifier::rlimit(30)]
    pub fn lazy_add(&mut self, changes: &TextDocumentContentChangeEvent)
        requires
            file_lazy_add_accepts(old(self)@, *changes),
        ensures
            final(self)@ == file_lazy_add(old(self)@, *changes),
    {
        self.check_tables();
        proof {
            use_type_invariant(&*self);
        }
        let range = match changes.range {
            Some(range) => range,
            None => {
                *self = LspFile::new(&changes.text);
                return;
            },
        };
        let n = self.chars.len();
        if n == 0 {
            *self = LspFile::new(&changes.text);
            return;
        }
        let ghost c = self@;
        let (cs, sb) = self.offsets(&range.start);
        let (ce, eb) = self.offsets(&range.end);
        let total = self.size();
        utf8_size_fits(changes.text.as_str());
        let tc = chars_of(changes.text.as_str());
        let (tcn, tbn, tsize) = line_breaks(&tc);
        let ghost t = tc@;
        let ghost sh = char_shape(c);
        let ghost nl = newlines(sh);
        let m = if self.chars[n - 1] == '\n' {
            self.char_ends.len()
        } else {
            self.char_ends.len() - 1
        };
        proof {
            lemma_line_ends(sh);
            lemma_newlines(sh);
            lemma_break_bytes(c);
            lemma_break_bytes(t);
            lemma_splice_size(c, t, cs as int, ce as int);
            lemma_chars_le_bytes(c.take(cs as int) + t + c.skip(ce as int));
            lemma_byte_offset_mono(c, cs as int, ce as int);
            lemma_byte_offset_mono(c, ce as int, c.len() as int);
            assert(nl.len() == m);
        }
        assert forall|i: int, j: int| 0 <= i < j < m implies self.char_ends@[i] < self.char_ends@[j] by {
            assert(self.char_ends@[i] as int == nl[i]);
            assert(self.char_ends@[j] as int == nl[j]);
        }
        let k1 = count_below(&self.char_ends, m, cs);
        let k2 = count_below(&self.char_ends, m, ce);
        proof {
            assert forall|i: int| k2 <= i < m implies self.ranges@[i] >= eb && self.ranges@[i] < total by {
                assert(self.char_ends@[i] as int == nl[i]);
                assert(self.ranges@[i] as int == byte_line_ends(c)[i]);
                lemma_byte_offset_mono(c, ce as int, nl[i] + 1);
            }
            assert forall|i: int| k2 <= i < m implies self.char_ends@[i] >= ce && self.char_ends@[i] < n by {
                assert(self.char_ends@[i] as int == nl[i]);
            }
            assert forall|i: int| 0 <= i < tcn@.len() implies tcn@[i] < t.len() by {
                assert(ints(tcn@)[i] == tcn@[i] as int);
            }
            assert(ints(tbn@).len() == tbn@.len());
            assert forall|i: int| 0 <= i < tbn@.len() implies tbn@[i] < tsize by {
                assert(ints(tbn@)[i] == tbn@[i] as int);
                assert(0 <= newlines(char_shape(t))[i] < t.len());
            }
        }
        let mut new_ce = splice_offsets(&self.char_ends, m, k1, k2, cs, ce, tc.len(), &tcn);
        let mut new_r = splice_offsets(&self.ranges, m, k1, k2, sb, eb, tsize, &tbn);
        let nc = splice_chars(&self.chars, cs, ce, &tc);
        let ghost ns = c.take(cs as int) + t + c.skip(ce as int);
        proof {
            lemma_spliced_tables(
                c,
                t,
                cs as int,
                ce as int,
                k1 as int,
                k2 as int,
                self.char_ends@,
                self.ranges@,
                tcn@,
                tbn@,
                new_ce@,
                new_r@,
            );
        }
        let nn = nc.len();
        let new_total = (total - eb) + sb + tsize;
        if nn > 0 && nc[nn - 1] != '\n' {
            let ghost ce0 = new_ce@;
            let ghost r0 = new_r@;
            new_ce.push(nn - 1);
            new_r.push(new_total - 1);
            proof {
                lemma_byte_offset_mono(ns, 0, nn as int);
                assert(ints(new_ce@) =~= ints(ce0).push(nn - 1));
                assert(ints(new_r@) =~= ints(r0).push(new_total - 1));
                assert(byte_ends_of(ns, newlines(char_shape(ns)).push(nn - 1)) =~= byte_ends_of(
                    ns,
                    newlines(char_shape(ns)),
                ).push(new_total - 1));
            }
        }
        proof {
            lemma_line_ends(char_shape(ns));
        }
        let file = crate::text::string_of(&nc, 0, nn);
        assert(nc@.subrange(0, nn as int) =~= nc@);
        *self = LspFile { file, chars: nc, ranges: new_r, char_ends: new_ce };
    }
}

impl Clone for LspFile {
    fn clone(&self) -> (r: Self)
        ensures
            r@ == self@,
    {
        proof {
            use_type_invariant(self);
        }
        let chars = self.chars.clone();
        let ranges = self.ranges.clone();
        let char_ends = self.char_ends.clone();
        assert(chars@ =~= self.chars@);
        assert(ranges@ =~= self.ranges@);
        assert(char_ends@ =~= self.char_ends@);
        LspFile { file: self.file.clone(), chars, ranges, char_ends }
    }
}

} // verus!
