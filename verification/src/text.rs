//! Character classification and string building shared by the other modules.

use vstd::prelude::*;

verus! {

/// Unicode `White_Space`, the property that `char::is_whitespace` tests.
pub open spec fn spec_is_whitespace(c: char) -> bool {
    let u = c as u32;
    ||| (0x09 <= u && u <= 0x0D)
    ||| u == 0x20
    ||| u == 0x85
    ||| u == 0xA0
    ||| u == 0x1680
    ||| (0x2000 <= u && u <= 0x200A)
    ||| u == 0x2028
    ||| u == 0x2029
    ||| u == 0x202F
    ||| u == 0x205F
    ||| u == 0x3000
}

/// Unicode general category `Cc`, the property that `char::is_control` tests.
pub open spec fn spec_is_control(c: char) -> bool {
    let u = c as u32;
    u <= 0x1F || (0x7F <= u && u <= 0x9F)
}

/// Whether `c` is a white-space character (same answer as `char::is_whitespace`).
#[verifier::when_used_as_spec(spec_is_whitespace)]
pub fn is_whitespace(c: char) -> (r: bool)
    ensures
        r == spec_is_whitespace(c),
{
    let u = c as u32;
    (0x09 <= u && u <= 0x0D) || u == 0x20 || u == 0x85 || u == 0xA0 || u == 0x1680 || (0x2000
        <= u && u <= 0x200A) || u == 0x2028 || u == 0x2029 || u == 0x202F || u == 0x205F || u
        == 0x3000
}

/// Whether `c` is a control character (same answer as `char::is_control`).
#[verifier::when_used_as_spec(spec_is_control)]
pub fn is_control(c: char) -> (r: bool)
    ensures
        r == spec_is_control(c),
{
    let u = c as u32;
    u <= 0x1F || (0x7F <= u && u <= 0x9F)
}

/// Whether a code point is a Unicode scalar value, i.e. a valid `char`.
pub open spec fn is_scalar_value(code: u32) -> bool {
    code < 0xD800 || (0xE000 <= code && code <= 0x10FFFF)
}

/// `char::from_u32`: the character with code point `code`, if there is one.
#[verifier::external_body]
pub(crate) fn char_from_code(code: u32) -> (r: Option<char>)
    ensures
        is_scalar_value(code) ==> r == Some(code as char),
        !is_scalar_value(code) ==> r is None,
{
    char::from_u32(code)
}

/// `String::push`: appends one character.
#[verifier::external_body]
pub(crate) fn push_char(s: &mut String, c: char)
    ensures
        final(s)@ == old(s)@.push(c),
{
    s.push(c);
}

/// The characters of a string slice, in order.
pub fn chars_of(s: &str) -> (r: Vec<char>)
    ensures
        r@ == s@,
{
    let mut r: Vec<char> = Vec::new();
    for c in it: s.chars()
        invariant
            r@ == it.seq().take(it.index() as int),
    {
        r.push(c);
    }
    r
}

/// Appends the characters of `s`.
pub fn push_str(out: &mut String, s: &str)
    ensures
        final(out)@ == old(out)@ + s@,
{
    let chars = chars_of(s);
    let mut k: usize = 0;
    while k < chars.len()
        invariant
            chars@ == s@,
            k <= chars@.len(),
            out@ == old(out)@ + s@.take(k as int),
        decreases chars@.len() - k,
    {
        push_char(out, chars[k]);
        assert(s@.take(k + 1) =~= s@.take(k as int).push(s@[k as int]));
        k = k + 1;
    }
    assert(s@.take(chars@.len() as int) =~= s@);
}

/// The first position at or after `i` that is not white space.
pub open spec fn trim_start_index(s: Seq<char>, i: int) -> int
    decreases s.len() - i,
{
    if 0 <= i < s.len() && spec_is_whitespace(s[i]) {
        trim_start_index(s, i + 1)
    } else {
        i
    }
}

/// The end of `s.take(j)` once white space at its end is dropped.
pub open spec fn trim_end_index(s: Seq<char>, j: int) -> int
    decreases j,
{
    if 0 < j <= s.len() && spec_is_whitespace(s[j - 1]) {
        trim_end_index(s, j - 1)
    } else {
        j
    }
}

/// `s` without white space at either end, as `str::trim` gives it.
pub open spec fn trimmed(s: Seq<char>) -> Seq<char> {
    let a = trim_start_index(s, 0);
    let b = trim_end_index(s, s.len() as int);
    if a < b {
        s.subrange(a, b)
    } else {
        Seq::empty()
    }
}

pub proof fn lemma_trim_start(s: Seq<char>, i: int)
    requires
        0 <= i <= s.len(),
    ensures
        i <= trim_start_index(s, i) <= s.len(),
        forall|k: int| i <= k < trim_start_index(s, i) ==> spec_is_whitespace(#[trigger] s[k]),
        trim_start_index(s, i) < s.len() ==> !spec_is_whitespace(s[trim_start_index(s, i)]),
    decreases s.len() - i,
{
    if i < s.len() && spec_is_whitespace(s[i]) {
        lemma_trim_start(s, i + 1);
    }
}

pub proof fn lemma_trim_end(s: Seq<char>, j: int)
    requires
        0 <= j <= s.len(),
    ensures
        0 <= trim_end_index(s, j) <= j,
        forall|k: int| trim_end_index(s, j) <= k < j ==> spec_is_whitespace(#[trigger] s[k]),
        trim_end_index(s, j) > 0 ==> !spec_is_whitespace(s[trim_end_index(s, j) - 1]),
    decreases j,
{
    if 0 < j && spec_is_whitespace(s[j - 1]) {
        lemma_trim_end(s, j - 1);
    }
}

/// `trimmed(s)` is `s` without the white space at its two ends: a piece
/// of `s` with only white space before and after it, that neither starts
/// nor ends with white space.
pub proof fn lemma_trimmed_is_trim(s: Seq<char>)
    ensures
        exists|a: int, b: int|
            0 <= a <= b <= s.len() && trimmed(s) == s.subrange(a, b) && (forall|k: int|
                0 <= k < a ==> spec_is_whitespace(#[trigger] s[k])) && (forall|k: int|
                b <= k < s.len() ==> spec_is_whitespace(#[trigger] s[k])),
        trimmed(s).len() > 0 ==> !spec_is_whitespace(trimmed(s)[0]) && !spec_is_whitespace(
            trimmed(s)[trimmed(s).len() - 1],
        ),
{
    lemma_trim_start(s, 0);
    lemma_trim_end(s, s.len() as int);
    let a = trim_start_index(s, 0);
    let b = trim_end_index(s, s.len() as int);
    if a < b {
        assert(trimmed(s) == s.subrange(a, b));
    } else {
        assert(s.subrange(a, a) =~= trimmed(s));
        assert forall|k: int| a <= k < s.len() implies spec_is_whitespace(#[trigger] s[k]) by {
            if k < b {
            }
        }
        assert(0 <= a <= a <= s.len() && trimmed(s) == s.subrange(a, a));
    }
}

/// The characters of `c` without white space at either end.
pub fn trim_chars(c: &Vec<char>) -> (r: Vec<char>)
    ensures
        r@ == trimmed(c@),
{
    let n = c.len();
    let mut a: usize = 0;
    while a < n && is_whitespace(c[a])
        invariant
            n == c@.len(),
            a <= n,
            trim_start_index(c@, a as int) == trim_start_index(c@, 0),
        decreases n - a,
    {
        a = a + 1;
    }
    let mut b: usize = n;
    while b > 0 && is_whitespace(c[b - 1])
        invariant
            n == c@.len(),
            b <= n,
            trim_end_index(c@, b as int) == trim_end_index(c@, n as int),
        decreases b,
    {
        b = b - 1;
    }
    proof {
        lemma_trim_start(c@, 0);
        lemma_trim_end(c@, n as int);
        assert(trim_start_index(c@, a as int) == a);
        assert(trim_end_index(c@, b as int) == b);
    }
    let mut r: Vec<char> = Vec::new();
    if a < b {
        let mut k = a;
        while k < b
            invariant
                a <= k <= b <= n,
                n == c@.len(),
                r@ == c@.subrange(a as int, k as int),
            decreases b - k,
        {
            r.push(c[k]);
            assert(r@ =~= c@.subrange(a as int, k + 1));
            k = k + 1;
        }
    }
    assert(r@ =~= trimmed(c@));
    r
}

/// `c` with ASCII lowercase letters made uppercase, as `char::to_ascii_uppercase` does.
pub open spec fn ascii_upper(c: char) -> char {
    if 'a' <= c && c <= 'z' {
        ((c as u32) - 32) as char
    } else {
        c
    }
}

/// `s` with ASCII letters made uppercase, as `str::to_ascii_uppercase` does.
pub open spec fn upper(s: Seq<char>) -> Seq<char> {
    s.map_values(|c: char| ascii_upper(c))
}

/// The uppercase form of an ASCII lowercase letter; other characters stay.
pub fn to_ascii_upper(c: char) -> (r: char)
    ensures
        r == ascii_upper(c),
{
    if 'a' <= c && c <= 'z' {
        match char_from_code(c as u32 - 32) {
            Some(u) => u,
            None => c,
        }
    } else {
        c
    }
}

/// `c` with ASCII letters made uppercase.
pub fn upper_chars(c: &Vec<char>) -> (r: Vec<char>)
    ensures
        r@ == upper(c@),
{
    let mut r: Vec<char> = Vec::new();
    let mut k: usize = 0;
    while k < c.len()
        invariant
            k <= c@.len(),
            r@ == upper(c@.take(k as int)),
        decreases c@.len() - k,
    {
        r.push(to_ascii_upper(c[k]));
        assert(upper(c@.take(k + 1)) =~= upper(c@.take(k as int)).push(ascii_upper(c@[k as int])));
        k = k + 1;
    }
    assert(c@.take(c@.len() as int) =~= c@);
    r
}

/// Whether the characters `c` spell `lit`.
pub fn chars_equal(c: &Vec<char>, lit: &str) -> (r: bool)
    ensures
        r == (c@ == lit@),
{
    let l = chars_of(lit);
    if c.len() != l.len() {
        return false;
    }
    let mut k: usize = 0;
    while k < c.len()
        invariant
            l@ == lit@,
            c@.len() == l@.len(),
            k <= c@.len(),
            forall|i: int| 0 <= i < k ==> c@[i] == l@[i],
        decreases c@.len() - k,
    {
        if c[k] != l[k] {
            return false;
        }
        k = k + 1;
    }
    assert(c@ =~= l@);
    true
}

} // verus!

verus! {

/// The UTF-16 code units of one character.
pub open spec fn utf16_char(c: char) -> Seq<u16> {
    let u = c as u32;
    if u < 0x10000 {
        seq![u as u16]
    } else {
        let v = (u - 0x10000) as u32;
        seq![(0xD800 + v / 0x400) as u16, (0xDC00 + v % 0x400) as u16]
    }
}

/// The UTF-16 encoding of a sequence of characters.
pub open spec fn utf16(s: Seq<char>) -> Seq<u16>
    decreases s.len(),
{
    if s.len() == 0 {
        Seq::empty()
    } else {
        utf16(s.drop_last()) + utf16_char(s.last())
    }
}

/// Each character's UTF-16 units decode back to it: a character below
/// `0x10000` is its own unit, any other a high surrogate then a low one
/// that together spell it.
pub proof fn lemma_utf16_char_decodes(c: char)
    ensures
        (c as u32) < 0x10000 ==> utf16_char(c) == seq![c as u32 as u16] && utf16_char(c)[0] == c as u32,
        (c as u32) >= 0x10000 ==> {
            let hi = utf16_char(c)[0];
            let lo = utf16_char(c)[1];
            &&& utf16_char(c).len() == 2
            &&& 0xD800 <= hi < 0xDC00
            &&& 0xDC00 <= lo < 0xE000
            &&& (hi - 0xD800) * 0x400 + (lo - 0xDC00) + 0x10000 == c as u32
        },
{
    let u = c as u32;
    if u >= 0x10000 {
        assert(u <= 0x10FFFF);
        let v = (u - 0x10000) as u32;
        assert(v / 0x400 < 0x400);
        assert(v % 0x400 < 0x400);
        assert((v / 0x400) * 0x400 + v % 0x400 == v);
    }
}

/// The UTF-16 encoding of two texts one after the other is their encodings
/// one after the other.
pub proof fn lemma_utf16_concat(a: Seq<char>, b: Seq<char>)
    ensures
        utf16(a + b) == utf16(a) + utf16(b),
    decreases b.len(),
{
    if b.len() == 0 {
        assert(a + b =~= a);
        assert(utf16(a) + utf16(b) =~= utf16(a));
    } else {
        lemma_utf16_concat(a, b.drop_last());
        assert((a + b).drop_last() =~= a + b.drop_last());
        assert((a + b).last() == b.last());
        assert(utf16(a) + utf16(b.drop_last()) + utf16_char(b.last()) =~= utf16(a) + (utf16(
            b.drop_last(),
        ) + utf16_char(b.last())));
    }
}

/// The UTF-16 encoding of `s`, as `str::encode_utf16` gives it.
pub fn utf16_units(s: &str) -> (r: Vec<u16>)
    ensures
        r@ == utf16(s@),
{
    let chars = chars_of(s);
    let mut r: Vec<u16> = Vec::new();
    let mut k: usize = 0;
    while k < chars.len()
        invariant
            chars@ == s@,
            k <= chars@.len(),
            r@ == utf16(s@.take(k as int)),
        decreases chars@.len() - k,
    {
        let c = chars[k];
        let u = c as u32;
        assert(s@.take(k + 1).drop_last() =~= s@.take(k as int));
        if u < 0x10000 {
            r.push(u as u16);
        } else {
            let v = u - 0x10000;
            r.push((0xD800 + v / 0x400) as u16);
            r.push((0xDC00 + v % 0x400) as u16);
        }
        assert(r@ =~= utf16(s@.take(k + 1)));
        k = k + 1;
    }
    assert(s@.take(chars@.len() as int) =~= s@);
    r
}

/// `s` in UTF-16 with a terminating zero, as the system's wide-string
/// functions take it.
pub fn wide(s: &str) -> (r: Vec<u16>)
    ensures
        r@ == utf16(s@).push(0),
{
    let mut r = utf16_units(s);
    r.push(0);
    r
}

/// `std::str::from_utf8`: the text that `bytes` encode, when they are
/// valid UTF-8 (as vstd's `valid_utf8` and `decode_utf8` describe it).
#[verifier::external_body]
pub(crate) fn text_of_utf8(bytes: &[u8]) -> (r: Option<&str>)
    ensures
        vstd::utf8::valid_utf8(bytes@) ==> r is Some && r->0@ == vstd::utf8::decode_utf8(bytes@),
        !vstd::utf8::valid_utf8(bytes@) ==> r is None,
{
    std::str::from_utf8(bytes).ok()
}

} // verus!
