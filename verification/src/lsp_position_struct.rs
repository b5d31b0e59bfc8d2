//! Conversion between byte offsets and line/character positions of a file,
//! where a character is one byte.
//!
//! A file is modelled by its shape: for each byte, whether it is a line
//! break. Line `k` runs from the byte after the `k`-th line break (or from
//! the start) up to and including its own line break, or up to the last byte
//! of the file for a last line without one.
use vstd::prelude::*;
use vstd::utf8::encode_utf8;

use crate::text_document::{Position, Range, TextDocumentContentChangeEvent};

verus! {

/// The shape of a byte string: which bytes are line breaks.
pub open spec fn shape_of(bytes: Seq<u8>) -> Seq<bool> {
    bytes.map_values(|b: u8| b == 10u8)
}

/// The offsets of the line breaks, in increasing order.
pub open spec fn newlines(s: Seq<bool>) -> Seq<int>
    decreases s.len(),
{
    if s.len() == 0 {
        seq![]
    } else if s.last() {
        newlines(s.drop_last()).push(s.len() - 1)
    } else {
        newlines(s.drop_last())
    }
}

/// The offset of the last byte of each line.
pub open spec fn line_ends(s: Seq<bool>) -> Seq<int> {
    if s.len() > 0 && !s.last() {
        newlines(s).push(s.len() - 1)
    } else {
        newlines(s)
    }
}

/// The number of lines.
pub open spec fn line_count(s: Seq<bool>) -> int {
    line_ends(s).len() as int
}

/// The offset of the first byte of line `k`.
pub open spec fn line_start(s: Seq<bool>, k: int) -> int {
    if k <= 0 {
        0
    } else {
        line_ends(s)[k - 1] + 1
    }
}

/// The number of bytes of line `line`, its line break included; 0 for a
/// line that does not exist.
pub open spec fn spec_line_char(s: Seq<bool>, line: int) -> int {
    if 0 <= line < line_count(s) {
        line_ends(s)[line] - line_start(s, line) + 1
    } else {
        0
    }
}

/// The line that holds byte `b`: the number of line breaks before it.
pub open spec fn line_of(s: Seq<bool>, b: int) -> int {
    newlines(s.take(b)).len() as int
}

/// Whether the last byte is a line break.
pub open spec fn ends_with_newline(s: Seq<bool>) -> bool {
    s.len() > 0 && s.last()
}

/// The byte at `(line, character)`: a character past the end of its line
/// stands for the last byte of the line, a line past the end of the file for
/// the last byte of the file; 0 in an empty file.
pub open spec fn spec_lsp_to_byte(s: Seq<bool>, line: int, character: int) -> int {
    if s.len() == 0 {
        0
    } else if line >= line_count(s) {
        s.len() - 1
    } else if character < spec_line_char(s, line) - 1 {
        line_start(s, line) + character
    } else {
        line_ends(s)[line]
    }
}

/// The position of byte `b`; a byte past the end of the file stands for the
/// last byte, and an empty file has only `(0, 0)`.
pub open spec fn spec_byte_to_lsp(s: Seq<bool>, b: int) -> (int, int) {
    if s.len() == 0 {
        (0, 0)
    } else {
        let c = if b < s.len() { b } else { s.len() - 1 };
        (line_of(s, c), c - line_start(s, line_of(s, c)))
    }
}

/// The offset at which an edit places `(line, character)`: like
/// [`spec_lsp_to_byte`], but a line past the end of the file stands for the
/// end of the file.
pub open spec fn edit_offset(s: Seq<bool>, p: Position) -> int {
    if p.line >= line_count(s) {
        s.len() as int
    } else {
        spec_lsp_to_byte(s, p.line as int, p.character as int)
    }
}

/// The bytes of the text of an edit.
pub open spec fn text_bytes(c: TextDocumentContentChangeEvent) -> Seq<u8> {
    encode_utf8(c.text@)
}

/// Whether `c` replaces the whole file: it has no range, or the file is empty.
pub open spec fn replaces_all(s: Seq<bool>, c: TextDocumentContentChangeEvent) -> bool {
    c.range is None || s.len() == 0
}

/// The shape after edit `c`: the bytes from the start of its range up to its
/// end are replaced by its text.
pub open spec fn spec_lazy_add(s: Seq<bool>, c: TextDocumentContentChangeEvent) -> Seq<bool> {
    if replaces_all(s, c) {
        shape_of(text_bytes(c))
    } else {
        let r = c.range->0;
        s.take(edit_offset(s, r.start)) + shape_of(text_bytes(c)) + s.skip(edit_offset(s, r.end))
    }
}

/// Whether [`LspPos::lazy_add`] takes `c`: its range does not end before it
/// starts, and the file after the edit is not longer than a `usize` counts.
pub open spec fn lazy_add_accepts(s: Seq<bool>, c: TextDocumentContentChangeEvent) -> bool {
    replaces_all(s, c) || {
        let r = c.range->0;
        let a = edit_offset(s, r.start);
        let b = edit_offset(s, r.end);
        a <= b && s.len() - (b - a) + text_bytes(c).len() <= usize::MAX
    }
}

// ---------------------------------------------------------------------------
// Facts about line breaks and lines.
// ---------------------------------------------------------------------------

/// The line breaks are increasing offsets of line-break bytes.
pub proof fn lemma_newlines(s: Seq<bool>)
    ensures
        forall|i: int| 0 <= i < newlines(s).len() ==> 0 <= #[trigger] newlines(s)[i] < s.len() && s[newlines(s)[i]],
        forall|i: int, j: int| 0 <= i < j < newlines(s).len() ==> newlines(s)[i] < newlines(s)[j],
        newlines(s).len() <= s.len(),
    decreases s.len(),
{
    if s.len() > 0 {
        lemma_newlines(s.drop_last());
    }
}

/// Every line-break byte is among the line breaks.
pub proof fn lemma_newlines_complete(s: Seq<bool>, p: int)
    requires
        0 <= p < s.len(),
        s[p],
    ensures
        newlines(s).contains(p),
    decreases s.len(),
{
    if p < s.len() - 1 {
        lemma_newlines_complete(s.drop_last(), p);
        let k = choose|k: int| 0 <= k < newlines(s.drop_last()).len() && newlines(s.drop_last())[k] == p;
        assert(newlines(s)[k] == p);
    } else {
        assert(newlines(s)[newlines(s).len() - 1] == p);
    }
}

/// The line breaks of a concatenation.
pub proof fn lemma_newlines_concat(a: Seq<bool>, b: Seq<bool>)
    ensures
        newlines(a + b) == newlines(a) + newlines(b).map_values(|p: int| p + a.len()),
    decreases b.len(),
{
    if b.len() == 0 {
        assert(a + b =~= a);
        assert(newlines(b).map_values(|p: int| p + a.len()) =~= Seq::<int>::empty());
        assert(newlines(a) + Seq::<int>::empty() =~= newlines(a));
    } else {
        lemma_newlines_concat(a, b.drop_last());
        assert((a + b).drop_last() =~= a + b.drop_last());
        if b.last() {
            assert(newlines(b).map_values(|p: int| p + a.len()) =~= newlines(b.drop_last()).map_values(
                |p: int| p + a.len(),
            ).push(b.len() - 1 + a.len()));
        }
        assert(newlines(a + b) =~= newlines(a) + newlines(b).map_values(|p: int| p + a.len()));
    }
}

/// Splitting at `k`: the line breaks before `k` come first, the others are
/// those of the rest shifted by `k`.
pub proof fn lemma_newlines_split(s: Seq<bool>, k: int)
    requires
        0 <= k <= s.len(),
    ensures
        newlines(s) == newlines(s.take(k)) + newlines(s.skip(k)).map_values(|p: int| p + k),
        forall|i: int| 0 <= i < newlines(s.take(k)).len() ==> #[trigger] newlines(s)[i] < k,
        forall|i: int| newlines(s.take(k)).len() <= i < newlines(s).len() ==> #[trigger] newlines(s)[i] >= k,
{
    assert(s =~= s.take(k) + s.skip(k));
    lemma_newlines_concat(s.take(k), s.skip(k));
    lemma_newlines(s.take(k));
    lemma_newlines(s.skip(k));
    assert forall|i: int| newlines(s.take(k)).len() <= i < newlines(s).len() implies #[trigger] newlines(s)[i] >= k by {
        let j = i - newlines(s.take(k)).len();
        assert(newlines(s)[i] == newlines(s.skip(k))[j] + k);
    }
}

/// The line ends are increasing offsets into the file, the last one is the
/// last byte, and every line but a last one without line break ends with one.
pub proof fn lemma_line_ends(s: Seq<bool>)
    ensures
        forall|i: int| 0 <= i < line_ends(s).len() ==> 0 <= #[trigger] line_ends(s)[i] < s.len(),
        forall|i: int, j: int| 0 <= i < j < line_ends(s).len() ==> line_ends(s)[i] < line_ends(s)[j],
        s.len() > 0 <==> line_ends(s).len() > 0,
        s.len() > 0 ==> line_ends(s).last() == s.len() - 1,
        line_ends(s).len() <= s.len(),
        newlines(s).len() <= line_ends(s).len() <= newlines(s).len() + 1,
        forall|i: int| 0 <= i < newlines(s).len() ==> #[trigger] line_ends(s)[i] == newlines(s)[i],
        ends_with_newline(s) || s.len() == 0 <==> line_ends(s) == newlines(s),
{
    lemma_newlines(s);
    if s.len() > 0 && s.last() {
        assert(newlines(s).last() == s.len() - 1);
    }
    if s.len() > 0 && !s.last() {
        lemma_newlines(s.drop_last());
        assert(line_ends(s).len() == newlines(s).len() + 1);
        assert(line_ends(s) != newlines(s));
    }
}

/// Lines are not empty and follow each other.
pub proof fn lemma_lines(s: Seq<bool>, k: int)
    requires
        0 <= k < line_count(s),
    ensures
        0 <= line_start(s, k) <= line_ends(s)[k] < s.len(),
        spec_line_char(s, k) >= 1,
        k + 1 < line_count(s) ==> line_start(s, k + 1) == line_ends(s)[k] + 1,
{
    lemma_line_ends(s);
}

/// Byte `c` lies on line [`line_of`]: between its start and its end.
pub proof fn lemma_line_of(s: Seq<bool>, c: int)
    requires
        0 <= c < s.len(),
    ensures
        0 <= line_of(s, c) < line_count(s),
        line_start(s, line_of(s, c)) <= c <= line_ends(s)[line_of(s, c)],
        forall|i: int| 0 <= i < line_of(s, c) ==> #[trigger] line_ends(s)[i] < c,
{
    lemma_newlines_split(s, c);
    lemma_line_ends(s);
    let k = line_of(s, c);
    // the byte c lies before the next line end: either a line break at or
    // after c, or the last byte of the file
    if k < newlines(s).len() {
        assert(line_ends(s)[k] == newlines(s)[k]);
    } else {
        if ends_with_newline(s) {
            lemma_newlines_complete(s, s.len() - 1);
            let j = choose|j: int| 0 <= j < newlines(s).len() && newlines(s)[j] == s.len() - 1;
            assert(newlines(s)[j] >= c);
            assert(false);
        }
        assert(line_ends(s)[k] == s.len() - 1);
    }
    if k > 0 {
        assert(line_ends(s)[k - 1] == newlines(s)[k - 1]);
    }
}

/// The line of a byte is the only one whose bounds hold it.
pub proof fn lemma_line_of_unique(s: Seq<bool>, c: int, k: int)
    requires
        0 <= c < s.len(),
        0 <= k < line_count(s),
        line_start(s, k) <= c <= line_ends(s)[k],
    ensures
        line_of(s, c) == k,
{
    lemma_line_of(s, c);
    lemma_line_ends(s);
    let j = line_of(s, c);
    if j < k {
        assert(line_ends(s)[j] <= line_ends(s)[k - 1]);
    } else if j > k {
        assert(line_ends(s)[k] <= line_ends(s)[j - 1]);
    }
}


/// The line breaks after replacing the bytes from `a` up to `b` by `t`.
pub proof fn lemma_splice_newlines(s: Seq<bool>, t: Seq<bool>, a: int, b: int)
    requires
        0 <= a <= b <= s.len(),
    ensures
        newlines(s.take(a) + t + s.skip(b)) == newlines(s.take(a)) + newlines(t).map_values(|p: int| p + a)
            + newlines(s.skip(b)).map_values(|p: int| p + (a + t.len())),
{
    lemma_newlines_concat(s.take(a), t);
    lemma_newlines_concat(s.take(a) + t, s.skip(b));
    assert((s.take(a) + t).len() == a + t.len());
}

/// Where the first `k` line breaks are those before `x`: they are the line
/// breaks of the bytes before `x`, and the others are those of the rest.
pub proof fn lemma_breaks_at(s: Seq<bool>, x: int, k: int)
    requires
        0 <= x <= s.len(),
        0 <= k <= newlines(s).len(),
        forall|i: int| 0 <= i < k ==> #[trigger] newlines(s)[i] < x,
        forall|i: int| k <= i < newlines(s).len() ==> #[trigger] newlines(s)[i] >= x,
    ensures
        newlines(s.take(x)) == newlines(s).take(k),
        newlines(s.skip(x)).map_values(|p: int| p + x) == newlines(s).skip(k),
{
    lemma_newlines_split(s, x);
    let l = newlines(s.take(x)).len() as int;
    if k < l {
        assert(newlines(s)[k] < x);
    }
    if k > l {
        assert(newlines(s)[l] >= x);
    }
    assert(newlines(s.take(x)) =~= newlines(s).take(k));
    assert(newlines(s.skip(x)).map_values(|p: int| p + x) =~= newlines(s).skip(k));
}

/// The line breaks after replacing the bytes from `a` up to `b` by `t`, where
/// the first `k1` line breaks lie before `a` and the first `k2` before `b`.
pub proof fn lemma_splice_at_breaks(s: Seq<bool>, t: Seq<bool>, a: int, b: int, k1: int, k2: int)
    requires
        0 <= a <= b <= s.len(),
        0 <= k1 <= newlines(s).len(),
        0 <= k2 <= newlines(s).len(),
        forall|i: int| 0 <= i < k1 ==> #[trigger] newlines(s)[i] < a,
        forall|i: int| k1 <= i < newlines(s).len() ==> #[trigger] newlines(s)[i] >= a,
        forall|i: int| 0 <= i < k2 ==> #[trigger] newlines(s)[i] < b,
        forall|i: int| k2 <= i < newlines(s).len() ==> #[trigger] newlines(s)[i] >= b,
    ensures
        newlines(s.take(a) + t + s.skip(b)) == newlines(s).take(k1) + newlines(t).map_values(|p: int| p + a)
            + newlines(s).skip(k2).map_values(|p: int| p - b + (a + t.len())),
{
    lemma_breaks_at(s, a, k1);
    lemma_breaks_at(s, b, k2);
    lemma_splice_newlines(s, t, a, b);
    let tail = newlines(s.skip(b));
    assert(tail.map_values(|p: int| p + (a + t.len())) =~= newlines(s).skip(k2).map_values(
        |p: int| p - b + (a + t.len()),
    )) by {
        assert(newlines(s).skip(k2) =~= tail.map_values(|p: int| p + b));
    }
}

/// The last byte is a line break exactly when it is the last line break.
pub proof fn lemma_last_break(s: Seq<bool>)
    ensures
        s.len() > 0 ==> (ends_with_newline(s) <==> newlines(s).len() > 0 && newlines(s).last() == s.len() - 1),
{
    lemma_newlines(s);
    if s.len() > 0 && newlines(s).len() > 0 && newlines(s).last() == s.len() - 1 {
        assert(s[newlines(s)[newlines(s).len() - 1]]);
    }
}

/// The bytes of a file after edit `c`, with the offsets of its range read
/// from the file itself.
pub open spec fn edited_bytes(bytes: Seq<u8>, c: TextDocumentContentChangeEvent) -> Seq<u8> {
    let s = shape_of(bytes);
    if replaces_all(s, c) {
        text_bytes(c)
    } else {
        let r = c.range->0;
        bytes.take(edit_offset(s, r.start)) + text_bytes(c) + bytes.skip(edit_offset(s, r.end))
    }
}

/// Going from a byte of the file to its position and back gives the byte.
pub proof fn lemma_byte_round_trip(s: Seq<bool>, b: int)
    requires
        0 <= b < s.len(),
    ensures
        spec_lsp_to_byte(s, spec_byte_to_lsp(s, b).0, spec_byte_to_lsp(s, b).1) == b,
{
    lemma_line_of(s, b);
}

/// Going from a position of the file to its byte and back gives the position.
pub proof fn lemma_position_round_trip(s: Seq<bool>, line: int, character: int)
    requires
        0 <= line < line_count(s),
        0 <= character < spec_line_char(s, line),
    ensures
        spec_byte_to_lsp(s, spec_lsp_to_byte(s, line, character)) == (line, character),
{
    lemma_lines(s, line);
    let b = spec_lsp_to_byte(s, line, character);
    assert(b == line_start(s, line) + character);
    lemma_line_of_unique(s, b, line);
}

/// Going from a range of bytes of the file to its positions and back gives the range.
pub proof fn lemma_byte_range_round_trip(s: Seq<bool>, a: int, b: int)
    requires
        0 <= a < s.len(),
        0 <= b < s.len(),
    ensures
        spec_lsp_to_byte(s, spec_byte_to_lsp(s, a).0, spec_byte_to_lsp(s, a).1) == a,
        spec_lsp_to_byte(s, spec_byte_to_lsp(s, b).0, spec_byte_to_lsp(s, b).1) == b,
{
    lemma_byte_round_trip(s, a);
    lemma_byte_round_trip(s, b);
}

/// An edit gives the line structure of the edited text: the shape after
/// [`spec_lazy_add`] is the shape of the bytes with the edit applied.
pub proof fn lemma_lazy_add_reparses(bytes: Seq<u8>, c: TextDocumentContentChangeEvent)
    requires
        lazy_add_accepts(shape_of(bytes), c),
    ensures
        spec_lazy_add(shape_of(bytes), c) == shape_of(edited_bytes(bytes, c)),
{
    let s = shape_of(bytes);
    if !replaces_all(s, c) {
        let r = c.range->0;
        let a = edit_offset(s, r.start);
        let b = edit_offset(s, r.end);
        lemma_edit_offset_bounds(s, r.start);
        lemma_edit_offset_bounds(s, r.end);
        assert(shape_of(bytes.take(a) + text_bytes(c) + bytes.skip(b)) =~= s.take(a) + shape_of(text_bytes(c))
            + s.skip(b));
    }
}

/// An edit offset lies within the file or at its end.
pub proof fn lemma_edit_offset_bounds(s: Seq<bool>, p: Position)
    ensures
        0 <= edit_offset(s, p) <= s.len(),
{
    if s.len() > 0 && p.line < line_count(s) {
        lemma_lines(s, p.line as int);
    }
    lemma_line_ends(s);
}

// ---------------------------------------------------------------------------
// The executable structure.
// ---------------------------------------------------------------------------

/// A sequence of `usize` read as integers.
pub open spec fn ints(v: Seq<usize>) -> Seq<int> {
    v.map_values(|x: usize| x as int)
}

/// The line ends of a file, for converting between byte offsets and
/// line/character positions.
pub struct LspPos {
    /// Whether the last byte is a line break.
    eof: bool,
    /// The offset of the last byte of each line.
    ranges: Vec<usize>,
    shape: Ghost<Seq<bool>>,
}

impl View for LspPos {
    type V = Seq<bool>;

    closed spec fn view(&self) -> Seq<bool> {
        self.shape@
    }
}

/// The offsets of the line breaks in `bytes`.
fn newline_offsets(bytes: &[u8]) -> (r: Vec<usize>)
    ensures
        ints(r@) == newlines(shape_of(bytes@)),
{
    let mut r: Vec<usize> = Vec::new();
    let mut i: usize = 0;
    while i < bytes.len()
        invariant
            i <= bytes@.len(),
            ints(r@) == newlines(shape_of(bytes@).take(i as int)),
        decreases bytes.len() - i,
    {
        let ghost before = r@;
        proof {
            let sh = shape_of(bytes@);
            assert(sh.take(i + 1).drop_last() =~= sh.take(i as int));
        }
        if bytes[i] == 10u8 {
            r.push(i);
            assert(ints(r@) =~= ints(before).push(i as int));
        }
        i = i + 1;
    }
    assert(shape_of(bytes@).take(i as int) =~= shape_of(bytes@));
    r
}

/// The number of the first `m` entries of the increasing `v` that are below `x`.
pub(crate) fn count_below(v: &Vec<usize>, m: usize, x: usize) -> (k: usize)
    requires
        m <= v.len(),
        forall|i: int, j: int| 0 <= i < j < m ==> v@[i] < v@[j],
    ensures
        k <= m,
        forall|i: int| 0 <= i < k ==> #[trigger] v@[i] < x,
        forall|i: int| k <= i < m ==> #[trigger] v@[i] >= x,
{
    let mut low: usize = 0;
    let mut high: usize = m;
    while low < high
        invariant
            low <= high <= m <= v.len(),
            forall|i: int, j: int| 0 <= i < j < m ==> v@[i] < v@[j],
            forall|i: int| 0 <= i < low ==> #[trigger] v@[i] < x,
            forall|i: int| high <= i < m ==> #[trigger] v@[i] >= x,
        decreases high - low,
    {
        let mid = low + (high - low) / 2;
        if v[mid] < x {
            low = mid + 1;
        } else {
            high = mid;
        }
    }
    low
}

/// The line ends and the final line break of the bytes of `string`.
fn parse_string(string: &String) -> (r: (Vec<usize>, bool))
    ensures
        ints(r.0@) == line_ends(shape_of(encode_utf8(string@))),
        r.1 == ends_with_newline(shape_of(encode_utf8(string@))),
        encode_utf8(string@).len() <= usize::MAX,
{
    let bytes = string.as_str().as_bytes();
    let ghost sh = shape_of(bytes@);
    let mut result = newline_offsets(bytes);
    let n = bytes.len();
    proof {
        lemma_line_ends(sh);
        lemma_newlines(sh);
    }
    if n == 0 {
        return (result, false);
    }
    let eof = bytes[n - 1] == 10u8;
    if !eof {
        let ghost before = result@;
        result.push(n - 1);
        assert(ints(result@) =~= ints(before).push(n - 1));
    }
    (result, eof)
}

impl LspPos {
    #[verifier::type_invariant]
    closed spec fn wf(self) -> bool {
        &&& ints(self.ranges@) == line_ends(self.shape@)
        &&& self.eof == ends_with_newline(self.shape@)
        &&& self.shape@.len() <= usize::MAX
    }

    /// The line ends of the bytes of `file`.
    pub fn parse_file(file: &String) -> (r: Self)
        ensures
            r@ == shape_of(encode_utf8(file@)),
    {
        let (ranges, eof) = parse_string(file);
        LspPos { ranges, eof, shape: Ghost(shape_of(encode_utf8(file@))) }
    }

    /// The bytes of each line: from its first byte to its last, both included.
    pub fn get_ranges(&self) -> (r: Vec<std::ops::Range<usize>>)
        ensures
            r@.len() == line_count(self@),
            forall|k: int|
                #![trigger r@[k]]
                0 <= k < r@.len() ==> r@[k].start == line_start(self@, k) && r@[k].end == line_ends(self@)[k],
    {
        proof {
            use_type_invariant(self);
            lemma_line_ends(self@);
        }
        let mut r: Vec<std::ops::Range<usize>> = Vec::new();
        let mut k: usize = 0;
        while k < self.ranges.len()
            invariant
                k <= self.ranges.len(),
                ints(self.ranges@) == line_ends(self@),
                r@.len() == k,
                forall|j: int|
                    #![trigger r@[j]]
                    0 <= j < k ==> r@[j].start == line_start(self@, j) && r@[j].end == line_ends(self@)[j],
                forall|i: int| 0 <= i < line_ends(self@).len() ==> 0 <= #[trigger] line_ends(self@)[i] < self@.len(),
                self@.len() <= usize::MAX,
            decreases self.ranges.len() - k,
        {
            assert(ints(self.ranges@)[k as int] == self.ranges@[k as int] as int);
            let start = if k == 0 {
                0
            } else {
                assert(ints(self.ranges@)[k - 1] == self.ranges@[k - 1] as int);
                self.ranges[k - 1] + 1
            };
            r.push(start..self.ranges[k]);
            k = k + 1;
        }
        r
    }

    /// Whether the last byte is a line break.
    pub fn get_eof(&self) -> (r: bool)
        ensures
            r == ends_with_newline(self@),
    {
        proof {
            use_type_invariant(self);
        }
        self.eof
    }

    /// The number of bytes of line `line`, its line break included; 0 for a
    /// line that does not exist.
    pub fn line_char(&self, line: usize) -> (r: usize)
        ensures
            r == spec_line_char(self@, line as int),
    {
        proof {
            use_type_invariant(self);
            lemma_line_ends(self@);
        }
        if line >= self.ranges.len() {
            return 0;
        }
        proof {
            lemma_lines(self@, line as int);
        }
        let upper = self.ranges[line];
        if line == 0 {
            return upper + 1;
        }
        let lower = self.ranges[line - 1];
        upper - lower
    }

    /// The byte at `lsp_pos` (see [`spec_lsp_to_byte`]).
    pub fn lsp_to_byte(&self, lsp_pos: &Position) -> (r: usize)
        ensures
            r == spec_lsp_to_byte(self@, lsp_pos.line as int, lsp_pos.character as int),
    {
        proof {
            use_type_invariant(self);
            lemma_line_ends(self@);
        }
        if self.ranges.len() == 0 {
            return 0;
        }
        let line = lsp_pos.line as usize;
        if line >= self.ranges.len() {
            return self.ranges[self.ranges.len() - 1];
        }
        proof {
            lemma_lines(self@, line as int);
        }
        let line_char = self.line_char(line);
        let upper = self.ranges[line];
        let character = lsp_pos.character as usize;
        if character < line_char - 1 {
            upper - (line_char - 1 - character)
        } else {
            upper
        }
    }

    /// The bytes from the start of `lsp_range` to its end.
    pub fn lsp_range_to_byte_range(&self, lsp_range: &Range) -> (r: std::ops::Range<usize>)
        ensures
            r.start == spec_lsp_to_byte(self@, lsp_range.start.line as int, lsp_range.start.character as int),
            r.end == spec_lsp_to_byte(self@, lsp_range.end.line as int, lsp_range.end.character as int),
    {
        let start = self.lsp_to_byte(&lsp_range.start);
        let end = self.lsp_to_byte(&lsp_range.end);
        start..end
    }

    /// The position of byte `byte_pos` (see [`spec_byte_to_lsp`]).
    pub fn byte_to_lsp(&self, byte_pos: usize) -> (r: Position)
        requires
            self@.len() <= u32::MAX,
        ensures
            (r.line as int, r.character as int) == spec_byte_to_lsp(self@, byte_pos as int),
    {
        proof {
            use_type_invariant(self);
            lemma_line_ends(self@);
        }
        let n = self.ranges.len();
        if n == 0 {
            return Position { line: 0, character: 0 };
        }
        let last = self.ranges[n - 1];
        let c = if byte_pos <= last {
            byte_pos
        } else {
            last
        };
        assert forall|i: int, j: int| 0 <= i < j < n implies self.ranges@[i] < self.ranges@[j] by {
            assert(ints(self.ranges@)[i] == self.ranges@[i] as int);
            assert(ints(self.ranges@)[j] == self.ranges@[j] as int);
        }
        let k = count_below(&self.ranges, n, c);
        proof {
            lemma_line_of(self@, c as int);
            let j = line_of(self@, c as int);
            if k < j {
                assert(self.ranges@[k as int] == line_ends(self@)[k as int]);
            }
            if k > j {
                assert(self.ranges@[j] == line_ends(self@)[j]);
            }
            assert(k == j);
        }
        let lower = if k == 0 {
            0
        } else {
            self.ranges[k - 1] + 1
        };
        Position { line: k as u32, character: (c - lower) as u32 }
    }

    /// The positions of the start and the end of `byte_range`.
    pub fn byte_range_to_lsp_range(&self, byte_range: &std::ops::Range<usize>) -> (r: Range)
        requires
            self@.len() <= u32::MAX,
        ensures
            (r.start.line as int, r.start.character as int) == spec_byte_to_lsp(self@, byte_range.start as int),
            (r.end.line as int, r.end.character as int) == spec_byte_to_lsp(self@, byte_range.end as int),
    {
        let start = self.byte_to_lsp(byte_range.start);
        let end = self.byte_to_lsp(byte_range.end);
        Range::new(start, end)
    }
}

/// The line breaks of a file in which the bytes from `sb` up to `eb` were
/// replaced by a text of `tl` bytes: the first `k1` of the `m` old ones, those
/// of the text moved to `sb`, and the old ones from `k2` on moved by the change
/// in length.
pub(crate) fn splice_offsets(
    old: &Vec<usize>,
    m: usize,
    k1: usize,
    k2: usize,
    sb: usize,
    eb: usize,
    tl: usize,
    text_nl: &Vec<usize>,
) -> (v: Vec<usize>)
    requires
        k1 <= m,
        k2 <= m,
        m <= old.len(),
        sb <= eb,
        forall|i: int| k2 <= i < m ==> eb <= #[trigger] old@[i],
        forall|i: int| k2 <= i < m ==> #[trigger] old@[i] - eb + sb + tl <= usize::MAX,
        forall|i: int| 0 <= i < text_nl.len() ==> #[trigger] text_nl@[i] < tl,
        sb + tl <= usize::MAX,
    ensures
        ints(v@) == ints(old@).take(k1 as int) + ints(text_nl@).map_values(|p: int| p + sb) + ints(
            old@,
        ).subrange(k2 as int, m as int).map_values(|p: int| p - eb + (sb + tl)),
{
    let mut v: Vec<usize> = Vec::new();
    let mut j: usize = 0;
    while j < k1
        invariant
            j <= k1 <= m <= old.len(),
            ints(v@) == ints(old@).take(j as int),
        decreases k1 - j,
    {
        let ghost before = v@;
        v.push(old[j]);
        assert(ints(v@) =~= ints(before).push(old@[j as int] as int));
        assert(ints(old@).take(j + 1) =~= ints(old@).take(j as int).push(old@[j as int] as int));
        j = j + 1;
    }
    let ghost part1 = ints(v@);
    let mut q: usize = 0;
    while q < text_nl.len()
        invariant
            q <= text_nl.len(),
            forall|i: int| 0 <= i < text_nl.len() ==> #[trigger] text_nl@[i] < tl,
            sb + tl <= usize::MAX,
            ints(v@) == part1 + ints(text_nl@).take(q as int).map_values(|p: int| p + sb),
        decreases text_nl.len() - q,
    {
        let ghost before = v@;
        v.push(sb + text_nl[q]);
        let ghost x = text_nl@[q as int] as int;
        assert(ints(v@) =~= ints(before).push(x + sb));
        assert(ints(text_nl@).take(q + 1) =~= ints(text_nl@).take(q as int).push(x));
        assert(ints(text_nl@).take(q + 1).map_values(|p: int| p + sb) =~= ints(text_nl@).take(q as int).map_values(
            |p: int| p + sb,
        ).push(x + sb));
        q = q + 1;
    }
    assert(ints(text_nl@).take(q as int) =~= ints(text_nl@));
    let ghost part2 = ints(v@);
    let mut j: usize = k2;
    while j < m
        invariant
            k2 <= j <= m <= old.len(),
            forall|i: int| k2 <= i < m ==> eb <= #[trigger] old@[i],
            forall|i: int| k2 <= i < m ==> #[trigger] old@[i] - eb + sb + tl <= usize::MAX,
            ints(v@) == part2 + ints(old@).subrange(k2 as int, j as int).map_values(|p: int| p - eb + (sb + tl)),
        decreases m - j,
    {
        let ghost before = v@;
        let x = old[j];
        v.push(x - eb + (sb + tl));
        assert(ints(v@) =~= ints(before).push(x - eb + (sb + tl)));
        assert(ints(old@).subrange(k2 as int, j + 1) =~= ints(old@).subrange(k2 as int, j as int).push(x as int));
        assert(ints(old@).subrange(k2 as int, j + 1).map_values(|p: int| p - eb + (sb + tl)) =~= ints(
            old@,
        ).subrange(k2 as int, j as int).map_values(|p: int| p - eb + (sb + tl)).push(x - eb + (sb + tl)));
        j = j + 1;
    }
    v
}

impl LspPos {
    /// The offset at which an edit places `p` (see [`edit_offset`]).
    fn edit_offset(&self, p: &Position) -> (r: usize)
        requires
            self@.len() > 0,
        ensures
            r == edit_offset(self@, *p),
            r <= self@.len(),
    {
        proof {
            use_type_invariant(self);
            lemma_line_ends(self@);
        }
        let n = self.ranges.len();
        if p.line as usize >= n {
            assert(ints(self.ranges@)[n - 1] == self.ranges@[n - 1] as int);
            self.ranges[n - 1] + 1
        } else {
            proof {
                lemma_lines(self@, p.line as int);
            }
            self.lsp_to_byte(p)
        }
    }

    /// The length of the file.
    fn len(&self) -> (r: usize)
        ensures
            r == self@.len(),
    {
        proof {
            use_type_invariant(self);
            lemma_line_ends(self@);
        }
        let n = self.ranges.len();
        if n == 0 {
            0
        } else {
            assert(ints(self.ranges@)[n - 1] == self.ranges@[n - 1] as int);
            self.ranges[n - 1] + 1
        }
    }

    /// Whether [`Self::lazy_add`] takes `changes` (see [`lazy_add_accepts`]).
    pub fn can_lazy_add(&self, changes: &TextDocumentContentChangeEvent) -> (r: bool)
        ensures
            r == lazy_add_accepts(self@, *changes),
    {
        let n = self.len();
        let range = match changes.range {
            Some(range) => range,
            None => {
                return true;
            },
        };
        if n == 0 {
            return true;
        }
        let a = self.edit_offset(&range.start);
        let b = self.edit_offset(&range.end);
        if a > b {
            return false;
        }
        let tl = changes.text.as_str().as_bytes().len();
        tl <= usize::MAX - (n - (b - a))
    }

    /// Applies `changes`: its text replaces the bytes of its range, or the
    /// whole file when it has no range or the file is empty. Only the new text
    /// is scanned for line breaks.
    #[verifier::spinoff_prover]
    pub fn lazy_add(&mut self, changes: &TextDocumentContentChangeEvent)
        requires
            lazy_add_accepts(old(self)@, *changes),
        ensures
            final(self)@ == spec_lazy_add(old(self)@, *changes),
    {
        proof {
            use_type_invariant(&*self);
            lemma_line_ends(self@);
        }
        let n = self.len();
        let range = match changes.range {
            Some(range) => range,
            None => {
                *self = LspPos::parse_file(&changes.text);
                return;
            },
        };
        if n == 0 {
            *self = LspPos::parse_file(&changes.text);
            return;
        }
        let ghost s = self@;
        let sb = self.edit_offset(&range.start);
        let eb = self.edit_offset(&range.end);
        let bytes = changes.text.as_str().as_bytes();
        let ghost t = shape_of(bytes@);
        let tl = bytes.len();
        let m = if self.eof {
            self.ranges.len()
        } else {
            self.ranges.len() - 1
        };
        let ghost nl = newlines(s);
        proof {
            lemma_newlines(s);
            assert(nl.len() == m);
            assert forall|i: int| 0 <= i < m implies self.ranges@[i] as int == #[trigger] nl[i] by {
                assert(ints(self.ranges@)[i] == self.ranges@[i] as int);
            }
        }
        assert forall|i: int, j: int| 0 <= i < j < m implies self.ranges@[i] < self.ranges@[j] by {
            assert(self.ranges@[i] as int == nl[i]);
            assert(self.ranges@[j] as int == nl[j]);
        }
        let k1 = count_below(&self.ranges, m, sb);
        let k2 = count_below(&self.ranges, m, eb);
        let text_nl = newline_offsets(bytes);
        proof {
            assert forall|i: int| 0 <= i < k1 implies #[trigger] nl[i] < sb by {
                assert(self.ranges@[i] as int == nl[i]);
            }
            assert forall|i: int| k1 <= i < m implies #[trigger] nl[i] >= sb by {
                assert(self.ranges@[i] as int == nl[i]);
            }
            assert forall|i: int| 0 <= i < k2 implies #[trigger] nl[i] < eb by {
                assert(self.ranges@[i] as int == nl[i]);
            }
            assert forall|i: int| k2 <= i < m implies #[trigger] nl[i] >= eb by {
                assert(self.ranges@[i] as int == nl[i]);
            }
            lemma_splice_at_breaks(s, t, sb as int, eb as int, k1 as int, k2 as int);
            lemma_newlines(t);
            assert forall|i: int| 0 <= i < text_nl@.len() implies text_nl@[i] < tl by {
                assert(ints(text_nl@)[i] == text_nl@[i] as int);
            }
            assert forall|i: int| k2 <= i < m implies self.ranges@[i] >= eb && self.ranges@[i] < n by {
                assert(self.ranges@[i] as int == nl[i]);
            }
        }
        let mut v = splice_offsets(&self.ranges, m, k1, k2, sb, eb, tl, &text_nl);
        let ghost ns = s.take(sb as int) + t + s.skip(eb as int);
        proof {
            assert(ints(self.ranges@).take(k1 as int) =~= nl.take(k1 as int));
            assert(ints(self.ranges@).subrange(k2 as int, m as int) =~= nl.skip(k2 as int));
            assert(ints(v@) =~= newlines(ns));
            lemma_last_break(ns);
        }
        let new_len = (n - eb) + sb + tl;
        let new_eof = new_len > 0 && v.len() > 0 && v[v.len() - 1] == new_len - 1;
        proof {
            if v.len() > 0 {
                assert(ints(v@)[v@.len() - 1] == v@[v@.len() - 1] as int);
            }
        }
        if new_len > 0 && !new_eof {
            let ghost before = v@;
            v.push(new_len - 1);
            assert(ints(v@) =~= ints(before).push(new_len - 1));
        }
        *self = LspPos { eof: new_eof, ranges: v, shape: Ghost(ns) };
    }
}

impl Clone for LspPos {
    fn clone(&self) -> (r: Self)
        ensures
            r@ == self@,
    {
        proof {
            use_type_invariant(self);
        }
        let ranges = self.ranges.clone();
        assert(ranges@ =~= self.ranges@);
        LspPos { eof: self.eof, ranges, shape: Ghost(self.shape@) }
    }
}

} // verus!
