//! Character-level helpers shared by the lexer and the position tables.
use vstd::prelude::*;

verus! {

/// The number of bytes that the UTF-8 encoding of `c` takes.
pub open spec fn spec_utf8_len(c: char) -> nat {
    if (c as u32) < 0x80 {
        1
    } else if (c as u32) < 0x800 {
        2
    } else if (c as u32) < 0x10000 {
        3
    } else {
        4
    }
}

/// The number of bytes that the UTF-8 encoding of `s` takes.
pub open spec fn spec_utf8_size(s: Seq<char>) -> nat
    decreases s.len(),
{
    if s.len() == 0 {
        0
    } else {
        spec_utf8_size(s.drop_last()) + spec_utf8_len(s.last())
    }
}

/// Unicode `White_Space` characters.
pub open spec fn is_unicode_whitespace(c: char) -> bool {
    let u = c as u32;
    (0x09 <= u && u <= 0x0D) || u == 0x20 || u == 0x85 || u == 0xA0 || u == 0x1680 || (0x2000 <= u
        && u <= 0x200A) || u == 0x2028 || u == 0x2029 || u == 0x202F || u == 0x205F || u == 0x3000
}

/// ASCII whitespace as `char::is_ascii_whitespace` defines it (no vertical tab).
pub open spec fn is_ascii_ws(c: char) -> bool {
    c == ' ' || c == '\t' || c == '\n' || c == '\x0C' || c == '\r'
}

/// Whether `c` is Unicode whitespace.
pub fn unicode_whitespace(c: char) -> (r: bool)
    ensures
        r == is_unicode_whitespace(c),
{
    let u = c as u32;
    (0x09 <= u && u <= 0x0D) || u == 0x20 || u == 0x85 || u == 0xA0 || u == 0x1680 || (0x2000 <= u
        && u <= 0x200A) || u == 0x2028 || u == 0x2029 || u == 0x202F || u == 0x205F || u == 0x3000
}

/// Whether `c` is ASCII whitespace.
pub fn ascii_whitespace(c: char) -> (r: bool)
    ensures
        r == is_ascii_ws(c),
{
    c == ' ' || c == '\t' || c == '\n' || c == '\x0C' || c == '\r'
}

/// Byte length of the UTF-8 encoding of one character.
pub fn utf8_len(c: char) -> (n: usize)
    ensures
        n == spec_utf8_len(c),
{
    let u = c as u32;
    if u < 0x80 {
        1
    } else if u < 0x800 {
        2
    } else if u < 0x10000 {
        3
    } else {
        4
    }
}

/// `String::push` appends one character to the end of the string.
pub assume_specification[ std::string::String::push ](s: &mut std::string::String, ch: char)
    ensures
        final(s)@ == old(s)@.push(ch),
;

/// The string made of the characters `s[start..end]`.
pub fn string_of(s: &Vec<char>, start: usize, end: usize) -> (r: String)
    requires
        start <= end <= s.len(),
    ensures
        r@ == s@.subrange(start as int, end as int),
{
    let mut r = String::new();
    let mut k = start;
    while k < end
        invariant
            start <= k <= end <= s.len(),
            r@ == s@.subrange(start as int, k as int),
        decreases end - k,
    {
        r.push(s[k]);
        k = k + 1;
        assert(r@ =~= s@.subrange(start as int, k as int));
    }
    r
}

/// A prefix never takes more bytes than the whole sequence.
pub proof fn lemma_utf8_size_prefix(s: Seq<char>, k: int)
    requires
        0 <= k <= s.len(),
    ensures
        spec_utf8_size(s.take(k)) <= spec_utf8_size(s),
    decreases s.len() - k,
{
    if k < s.len() {
        lemma_utf8_size_prefix(s, k + 1);
        assert(s.take(k + 1).drop_last() =~= s.take(k));
    } else {
        assert(s.take(k) =~= s);
    }
}

/// The byte offset of position `e`, given the byte offset `b` of position `i <= e`.
pub fn byte_offset(s: &Vec<char>, i: usize, b: usize, e: usize) -> (r: usize)
    requires
        i <= e <= s.len(),
        b == spec_utf8_size(s@.take(i as int)),
        spec_utf8_size(s@) <= usize::MAX,
    ensures
        r == spec_utf8_size(s@.take(e as int)),
{
    let mut k = i;
    let mut r = b;
    while k < e
        invariant
            i <= k <= e <= s.len(),
            r == spec_utf8_size(s@.take(k as int)),
            spec_utf8_size(s@) <= usize::MAX,
        decreases e - k,
    {
        proof {
            assert(s@.take(k + 1).drop_last() =~= s@.take(k as int));
            lemma_utf8_size_prefix(s@, k + 1);
        }
        r = r + utf8_len(s[k]);
        k = k + 1;
    }
    r
}

/// Whether `s[i..e]` holds exactly the characters of `t`.
pub fn chars_equal(s: &Vec<char>, i: usize, e: usize, t: &[char]) -> (r: bool)
    requires
        i <= e <= s.len(),
    ensures
        r == (s@.subrange(i as int, e as int) == t@),
{
    if e - i != t.len() {
        return false;
    }
    let mut k: usize = 0;
    while k < t.len()
        invariant
            0 <= k <= t.len(),
            e - i == t.len(),
            i <= e <= s.len(),
            forall|m: int| 0 <= m < k ==> s@[i + m] == t@[m],
        decreases t.len() - k,
    {
        if s[i + k] != t[k] {
            assert(s@.subrange(i as int, e as int)[k as int] != t@[k as int]);
            return false;
        }
        k = k + 1;
    }
    assert(s@.subrange(i as int, e as int) =~= t@);
    true
}

/// A copy of `s[a..b]`.
pub fn sub_chars(s: &Vec<char>, a: usize, b: usize) -> (r: Vec<char>)
    requires
        a <= b <= s.len(),
    ensures
        r@ == s@.subrange(a as int, b as int),
{
    let mut r: Vec<char> = Vec::new();
    let mut k = a;
    while k < b
        invariant
            a <= k <= b <= s.len(),
            r@ == s@.subrange(a as int, k as int),
        decreases b - k,
    {
        r.push(s[k]);
        k = k + 1;
        assert(r@ =~= s@.subrange(a as int, k as int));
    }
    r
}

/// The characters of `s`, in order.
pub fn chars_of(s: &str) -> (v: Vec<char>)
    ensures
        v@ == s@,
{
    let mut v: Vec<char> = Vec::new();
    for c in it: s.chars()
        invariant
            v@ == it.seq().take(it.index() as int),
            it.seq() == s@,
    {
        v.push(c);
    }
    v
}

/// The size of a concatenation is the sum of the sizes.
pub proof fn lemma_utf8_size_concat(a: Seq<char>, b: Seq<char>)
    ensures
        spec_utf8_size(a + b) == spec_utf8_size(a) + spec_utf8_size(b),
    decreases b.len(),
{
    if b.len() == 0 {
        assert(a + b =~= a);
    } else {
        lemma_utf8_size_concat(a, b.drop_last());
        assert((a + b).drop_last() =~= a + b.drop_last());
    }
}

/// [`spec_utf8_size`] is the length of the UTF-8 encoding.
pub proof fn lemma_utf8_size_encoding(s: Seq<char>)
    ensures
        spec_utf8_size(s) == vstd::utf8::encode_utf8(s).len(),
    decreases s.len(),
{
    if s.len() > 0 {
        lemma_utf8_size_encoding(s.drop_first());
        lemma_utf8_size_concat(seq![s[0]], s.drop_first());
        assert(seq![s[0]] + s.drop_first() =~= s);
        assert(seq![s[0]].drop_last() =~= Seq::<char>::empty());
        let u = s[0] as u32;
        vstd::utf8::char_is_scalar(s[0]);
        assert(vstd::utf8::encode_scalar(u).len() == spec_utf8_len(s[0]));
        assert(spec_utf8_size(seq![s[0]]) == spec_utf8_size(Seq::<char>::empty()) + spec_utf8_len(s[0]));
        assert(vstd::utf8::encode_utf8(s) == vstd::utf8::encode_scalar(u) + vstd::utf8::encode_utf8(s.drop_first()));
    }
}

/// The size of the characters of `s` fits a `usize`.
pub fn utf8_size_fits(s: &str)
    ensures
        spec_utf8_size(s@) <= usize::MAX,
{
    let n = s.as_bytes().len();
    proof {
        lemma_utf8_size_encoding(s@);
    }
}

/// Whether `a` and `b` hold the same characters.
pub fn same_text(a: &str, b: &str) -> (r: bool)
    ensures
        r == (a@ == b@),
{
    let x = chars_of(a);
    let y = chars_of(b);
    let r = chars_equal(&x, 0, x.len(), y.as_slice());
    assert(x@.subrange(0, x@.len() as int) =~= x@);
    r
}

} // verus!
