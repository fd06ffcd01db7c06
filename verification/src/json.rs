//! A small JSON reader and string quoting, as used for the settings file.

use vstd::prelude::*;
use crate::text::{chars_of, char_from_code, push_char, is_scalar_value};

verus! {

broadcast use vstd::std_specs::vec::group_vec_axioms;

/// How deeply arrays and objects may nest before the text is refused.
pub const MAX_NESTING_DEPTH: usize = 64;

/// The mathematical model of a JSON value.
///
/// A number is kept as the text that spelled it; an object as its members in
/// the order their keys first appeared (a key that comes again keeps its
/// place and takes the later value).
pub enum JsonValue {
    Null,
    Bool(bool),
    Number(Seq<char>),
    Str(Seq<char>),
    Array(Seq<JsonValue>),
    Object(Seq<(Seq<char>, JsonValue)>),
}

/// A parsed JSON value.
pub enum Json {
    Null,
    Bool(bool),
    /// A number, held as the text that spelled it.
    Number(String),
    String(String),
    Array(Vec<Json>),
    Object(Vec<(String, Json)>),
}


/// Blanks that may stand between tokens.
pub open spec fn is_ws(c: char) -> bool {
    c == ' ' || c == '\t' || c == '\n' || c == '\r'
}

pub open spec fn is_digit(c: char) -> bool {
    '0' <= c && c <= '9'
}

/// The first position at or after `i` that does not hold a blank.
pub open spec fn skip_ws(s: Seq<char>, i: int) -> int
    decreases s.len() - i,
{
    if 0 <= i < s.len() && is_ws(s[i]) {
        skip_ws(s, i + 1)
    } else {
        i
    }
}

/// The first position at or after `i` that does not hold a decimal digit.
pub open spec fn skip_digits(s: Seq<char>, i: int) -> int
    decreases s.len() - i,
{
    if 0 <= i < s.len() && is_digit(s[i]) {
        skip_digits(s, i + 1)
    } else {
        i
    }
}

/// The value of a hexadecimal digit (either case), as `char::to_digit(16)` gives it.
pub open spec fn hex_value(c: char) -> Option<u32> {
    if '0' <= c && c <= '9' {
        Some((c as u32 - '0' as u32) as u32)
    } else if 'a' <= c && c <= 'f' {
        Some((c as u32 - 'a' as u32 + 10) as u32)
    } else if 'A' <= c && c <= 'F' {
        Some((c as u32 - 'A' as u32 + 10) as u32)
    } else {
        None
    }
}

/// Four hexadecimal digits starting at `i`, read as a number.
pub open spec fn hex4(s: Seq<char>, i: int) -> Option<u32> {
    if 0 <= i && i + 4 <= s.len() && hex_value(s[i]) is Some && hex_value(s[i + 1]) is Some
        && hex_value(s[i + 2]) is Some && hex_value(s[i + 3]) is Some {
        Some(
            (hex_value(s[i])->0 * 4096 + hex_value(s[i + 1])->0 * 256 + hex_value(s[i + 2])->0 * 16
                + hex_value(s[i + 3])->0) as u32,
        )
    } else {
        None
    }
}

/// The character that a one-letter escape (after a backslash) stands for.
pub open spec fn simple_escape(e: char) -> Option<char> {
    if e == '"' {
        Some('"')
    } else if e == '\\' {
        Some('\\')
    } else if e == '/' {
        Some('/')
    } else if e == 'b' {
        Some('\u{8}')
    } else if e == 'f' {
        Some('\u{c}')
    } else if e == 'n' {
        Some('\n')
    } else if e == 'r' {
        Some('\r')
    } else if e == 't' {
        Some('\t')
    } else {
        None
    }
}

pub open spec fn is_high_surrogate(u: u32) -> bool {
    0xD800 <= u && u <= 0xDBFF
}

pub open spec fn is_low_surrogate(u: u32) -> bool {
    0xDC00 <= u && u <= 0xDFFF
}

/// The code point that a UTF-16 surrogate pair encodes.
pub open spec fn pair_code(hi: u32, lo: u32) -> u32 {
    (0x10000 + (hi - 0xD800) * 1024 + (lo - 0xDC00)) as u32
}

/// The rest of a string literal from position `i` (after its opening quote),
/// with `acc` the characters read so far: the string and the position after
/// the closing quote.
pub open spec fn string_body(s: Seq<char>, i: int, acc: Seq<char>) -> Option<(Seq<char>, int)>
    decreases s.len() - i,
{
    if i < 0 || i >= s.len() {
        None
    } else if s[i] == '"' {
        Some((acc, i + 1))
    } else if s[i] == '\\' {
        if i + 1 >= s.len() {
            None
        } else if simple_escape(s[i + 1]) is Some {
            string_body(s, i + 2, acc.push(simple_escape(s[i + 1])->0))
        } else if s[i + 1] == 'u' {
            match hex4(s, i + 2) {
                None => None,
                Some(hi) => {
                    if is_high_surrogate(hi) {
                        if i + 8 <= s.len() && s[i + 6] == '\\' && s[i + 7] == 'u' {
                            match hex4(s, i + 8) {
                                Some(lo) => {
                                    if is_low_surrogate(lo) {
                                        string_body(s, i + 12, acc.push(pair_code(hi, lo) as char))
                                    } else {
                                        None
                                    }
                                },
                                None => None,
                            }
                        } else {
                            None
                        }
                    } else if is_scalar_value(hi) {
                        string_body(s, i + 6, acc.push(hi as char))
                    } else {
                        None
                    }
                },
            }
        } else {
            None
        }
    } else {
        string_body(s, i + 1, acc.push(s[i]))
    }
}

/// A string literal at position `i`: its characters and the position after it.
pub open spec fn string_lit(s: Seq<char>, i: int) -> Option<(Seq<char>, int)> {
    if 0 <= i < s.len() && s[i] == '"' {
        string_body(s, i + 1, Seq::empty())
    } else {
        None
    }
}

/// Where the mantissa digits of a number at `i` start (after an optional minus).
pub open spec fn num_int_start(s: Seq<char>, i: int) -> int {
    if 0 <= i < s.len() && s[i] == '-' {
        i + 1
    } else {
        i
    }
}

pub open spec fn num_int_end(s: Seq<char>, i: int) -> int {
    skip_digits(s, num_int_start(s, i))
}

pub open spec fn num_has_dot(s: Seq<char>, i: int) -> bool {
    let b = num_int_end(s, i);
    0 <= b < s.len() && s[b] == '.'
}

pub open spec fn num_frac_end(s: Seq<char>, i: int) -> int {
    let b = num_int_end(s, i);
    if num_has_dot(s, i) {
        skip_digits(s, b + 1)
    } else {
        b
    }
}

pub open spec fn num_has_exp(s: Seq<char>, i: int) -> bool {
    let c = num_frac_end(s, i);
    0 <= c < s.len() && (s[c] == 'e' || s[c] == 'E')
}

pub open spec fn num_exp_digits_start(s: Seq<char>, i: int) -> int {
    let c = num_frac_end(s, i);
    if 0 <= c + 1 < s.len() && (s[c + 1] == '+' || s[c + 1] == '-') {
        c + 2
    } else {
        c + 1
    }
}

/// Where the text of a number that starts at `i` ends: an optional minus,
/// digits, an optional fraction, an optional exponent.
pub open spec fn number_end(s: Seq<char>, i: int) -> int {
    if num_has_exp(s, i) {
        skip_digits(s, num_exp_digits_start(s, i))
    } else {
        num_frac_end(s, i)
    }
}

/// Whether the text of the number at `i` is a decimal floating-point literal:
/// at least one mantissa digit, and at least one exponent digit after an `e`.
pub open spec fn number_is_valid(s: Seq<char>, i: int) -> bool {
    let a = num_int_start(s, i);
    let b = num_int_end(s, i);
    &&& (b > a || (num_has_dot(s, i) && num_frac_end(s, i) > b + 1))
    &&& (num_has_exp(s, i) ==> number_end(s, i) > num_exp_digits_start(s, i))
}

/// A number at position `i`: its text and the position after it.
pub open spec fn number_at(s: Seq<char>, i: int) -> Option<(JsonValue, int)> {
    if number_is_valid(s, i) {
        Some((JsonValue::Number(s.subrange(i, number_end(s, i))), number_end(s, i)))
    } else {
        None
    }
}

/// Whether the word `w` is spelled at position `i`.
pub open spec fn word_at(s: Seq<char>, i: int, w: Seq<char>) -> bool {
    0 <= i && i + w.len() <= s.len() && s.subrange(i, i + w.len()) == w
}

pub open spec fn word_true() -> Seq<char> {
    seq!['t', 'r', 'u', 'e']
}

pub open spec fn word_false() -> Seq<char> {
    seq!['f', 'a', 'l', 's', 'e']
}

pub open spec fn word_null() -> Seq<char> {
    seq!['n', 'u', 'l', 'l']
}

/// The index of the member with key `k`, if there is one.
pub open spec fn find_key(m: Seq<(Seq<char>, JsonValue)>, k: Seq<char>) -> Option<int>
    decreases m.len(),
{
    if m.len() == 0 {
        None
    } else if m.last().0 == k {
        Some(m.len() - 1)
    } else {
        find_key(m.drop_last(), k)
    }
}

/// The value of the member with key `k`, if there is one.
pub open spec fn member_value(m: Seq<(Seq<char>, JsonValue)>, k: Seq<char>) -> Option<JsonValue> {
    match find_key(m, k) {
        Some(i) => Some(m[i].1),
        None => None,
    }
}

/// Sets member `k` to `v`: a key that is already there keeps its place and
/// takes the new value, a new key goes last.
pub open spec fn insert_member(m: Seq<(Seq<char>, JsonValue)>, k: Seq<char>, v: JsonValue) -> Seq<
    (Seq<char>, JsonValue),
> {
    match find_key(m, k) {
        Some(i) => m.update(i, (k, v)),
        None => m.push((k, v)),
    }
}

/// A value at position `i` (blanks first) at nesting depth `d`: the value and
/// the position after it.
pub open spec fn value_at(s: Seq<char>, i: int, d: int) -> Option<(JsonValue, int)>
    decreases 65 - d, 0int, 0int,
{
    let j = skip_ws(s, i);
    if j < 0 || j >= s.len() {
        None
    } else if s[j] == '{' || s[j] == '[' {
        if d + 1 > MAX_NESTING_DEPTH as int {
            None
        } else if s[j] == '{' {
            object_at(s, j, d + 1)
        } else {
            array_at(s, j, d + 1)
        }
    } else if s[j] == '"' {
        match string_lit(s, j) {
            Some((t, k)) => Some((JsonValue::Str(t), k)),
            None => None,
        }
    } else if s[j] == 't' {
        if word_at(s, j, word_true()) {
            Some((JsonValue::Bool(true), j + 4))
        } else {
            None
        }
    } else if s[j] == 'f' {
        if word_at(s, j, word_false()) {
            Some((JsonValue::Bool(false), j + 5))
        } else {
            None
        }
    } else if s[j] == 'n' {
        if word_at(s, j, word_null()) {
            Some((JsonValue::Null, j + 4))
        } else {
            None
        }
    } else if s[j] == '-' || is_digit(s[j]) {
        number_at(s, j)
    } else {
        None
    }
}

/// An object whose opening brace is at `j`, at depth `d`.
pub open spec fn object_at(s: Seq<char>, j: int, d: int) -> Option<(JsonValue, int)>
    decreases 65 - d, 2int, 0int,
{
    if !(0 <= j < s.len() && s[j] == '{') {
        None
    } else {
        let k = skip_ws(s, j + 1);
        if 0 <= k < s.len() && s[k] == '}' {
            Some((JsonValue::Object(Seq::empty()), k + 1))
        } else {
            members_at(s, k, d, Seq::empty())
        }
    }
}

/// The members of an object from position `i` on, `acc` those read so far.
pub open spec fn members_at(s: Seq<char>, i: int, d: int, acc: Seq<(Seq<char>, JsonValue)>) -> Option<
    (JsonValue, int),
>
    decreases 65 - d, 1int, s.len() - i,
{
    let k = skip_ws(s, i);
    match string_lit(s, k) {
        None => None,
        Some((key, k2)) => {
            let k3 = skip_ws(s, k2);
            if !(0 <= k3 < s.len() && s[k3] == ':') {
                None
            } else {
                match value_at(s, k3 + 1, d) {
                    None => None,
                    Some((v, k4)) => {
                        let k5 = skip_ws(s, k4);
                        let m = insert_member(acc, key, v);
                        if !(0 <= k5 < s.len()) {
                            None
                        } else if s[k5] == ',' {
                            if k5 < i {
                                None
                            } else {
                                members_at(s, k5 + 1, d, m)
                            }
                        } else if s[k5] == '}' {
                            Some((JsonValue::Object(m), k5 + 1))
                        } else {
                            None
                        }
                    },
                }
            }
        },
    }
}

/// An array whose opening bracket is at `j`, at depth `d`.
pub open spec fn array_at(s: Seq<char>, j: int, d: int) -> Option<(JsonValue, int)>
    decreases 65 - d, 2int, 0int,
{
    if !(0 <= j < s.len() && s[j] == '[') {
        None
    } else {
        let k = skip_ws(s, j + 1);
        if 0 <= k < s.len() && s[k] == ']' {
            Some((JsonValue::Array(Seq::empty()), k + 1))
        } else {
            elements_at(s, k, d, Seq::empty())
        }
    }
}

/// The elements of an array from position `i` on, `acc` those read so far.
pub open spec fn elements_at(s: Seq<char>, i: int, d: int, acc: Seq<JsonValue>) -> Option<
    (JsonValue, int),
>
    decreases 65 - d, 1int, s.len() - i,
{
    match value_at(s, i, d) {
        None => None,
        Some((v, k)) => {
            let k2 = skip_ws(s, k);
            if !(0 <= k2 < s.len()) {
                None
            } else if s[k2] == ',' {
                if k2 < i {
                    None
                } else {
                    elements_at(s, k2 + 1, d, acc.push(v))
                }
            } else if s[k2] == ']' {
                Some((JsonValue::Array(acc.push(v)), k2 + 1))
            } else {
                None
            }
        },
    }
}

/// The text after a leading byte-order mark, if there is one.
pub open spec fn strip_bom(t: Seq<char>) -> Seq<char> {
    if t.len() > 0 && t[0] == '\u{feff}' {
        t.drop_first()
    } else {
        t
    }
}

/// The value that a whole text spells: one value, blanks around it, and
/// nothing else, with an optional byte-order mark in front.
pub open spec fn parse_text(t: Seq<char>) -> Option<JsonValue> {
    let s = strip_bom(t);
    match value_at(s, 0, 0) {
        Some((v, k)) => if skip_ws(s, k) == s.len() {
            Some(v)
        } else {
            None
        },
        None => None,
    }
}

impl Json {
    /// The model of this value.
    pub open spec fn model(self) -> JsonValue
        decreases self,
    {
        match self {
            Json::Null => JsonValue::Null,
            Json::Bool(b) => JsonValue::Bool(b),
            Json::Number(n) => JsonValue::Number(n@),
            Json::String(s) => JsonValue::Str(s@),
            Json::Array(v) => JsonValue::Array(
                Seq::new(v@.len(), |i: int| if 0 <= i < v@.len() { v@[i].model() } else { JsonValue::Null }),
            ),
            Json::Object(m) => JsonValue::Object(
                Seq::new(
                    m@.len(),
                    |i: int|
                        if 0 <= i < m@.len() {
                            (m@[i].0@, m@[i].1.model())
                        } else {
                            (Seq::empty(), JsonValue::Null)
                        },
                ),
            ),
        }
    }
}

/// `skip_ws` steps over exactly the JSON blanks (space, tab, line feed,
/// carriage return): each character it passes is one of them, and it stops
/// at the end or at a character that is none of them.
pub proof fn lemma_skip_ws_steps_over_blanks(s: Seq<char>, i: int)
    requires
        0 <= i <= s.len(),
    ensures
        i <= skip_ws(s, i) <= s.len(),
        forall|k: int|
            i <= k < skip_ws(s, i) ==> {
                let c = #[trigger] s[k];
                c == ' ' || c == '\t' || c == '\n' || c == '\r'
            },
        skip_ws(s, i) < s.len() ==> {
            let c = s[skip_ws(s, i)];
            c != ' ' && c != '\t' && c != '\n' && c != '\r'
        },
    decreases s.len() - i,
{
    if i < s.len() && is_ws(s[i]) {
        lemma_skip_ws_steps_over_blanks(s, i + 1);
    }
}

/// Any JSON blank may stand for any other between tokens: putting a tab,
/// a line feed or a carriage return where a space is (or the other way
/// round) changes nothing to where the blanks end.
pub proof fn lemma_skip_ws_any_blank(s: Seq<char>, k: int, c: char, i: int)
    requires
        0 <= k < s.len(),
        s[k] == ' ' || s[k] == '\t' || s[k] == '\n' || s[k] == '\r',
        c == ' ' || c == '\t' || c == '\n' || c == '\r',
    ensures
        skip_ws(s.update(k, c), i) == skip_ws(s, i),
    decreases s.len() - i,
{
    if 0 <= i < s.len() && is_ws(s[i]) {
        lemma_skip_ws_any_blank(s, k, c, i + 1);
    }
}

} // verus!

verus! {

/// The error of a text that is not a JSON value.
#[derive(Debug)]
pub struct ParseError;

/// A reader over the characters of a JSON text: where it stands, and how
/// many arrays and objects enclose that place.
pub struct Parser {
    pub text: Vec<char>,
    pub pos: usize,
    pub depth: usize,
}

/// The value of a hexadecimal digit (same answer as `char::to_digit(16)`).
pub fn hex_digit(c: char) -> (r: Option<u32>)
    ensures
        r == hex_value(c),
{
    if '0' <= c && c <= '9' {
        Some(c as u32 - '0' as u32)
    } else if 'a' <= c && c <= 'f' {
        Some(c as u32 - 'a' as u32 + 10)
    } else if 'A' <= c && c <= 'F' {
        Some(c as u32 - 'A' as u32 + 10)
    } else {
        None
    }
}


/// The characters of `v` from `from` up to `to`, as a string.
pub fn string_from_range(v: &Vec<char>, from: usize, to: usize) -> (r: String)
    requires
        from <= to <= v@.len(),
    ensures
        r@ == v@.subrange(from as int, to as int),
{
    let mut out = String::new();
    let mut k = from;
    while k < to
        invariant
            from <= k <= to <= v@.len(),
            out@ == v@.subrange(from as int, k as int),
        decreases to - k,
    {
        push_char(&mut out, v[k]);
        assert(v@.subrange(from as int, k + 1) =~= v@.subrange(from as int, k as int).push(v@[k as int]));
        k = k + 1;
    }
    out
}


/// The model of a list of object members.
pub open spec fn members_model(m: Seq<(String, Json)>) -> Seq<(Seq<char>, JsonValue)> {
    Seq::new(
        m.len(),
        |i: int|
            if 0 <= i < m.len() {
                (m[i].0@, m[i].1.model())
            } else {
                (Seq::empty(), JsonValue::Null)
            },
    )
}

/// The model of a list of array elements.
pub open spec fn elements_model(v: Seq<Json>) -> Seq<JsonValue> {
    Seq::new(v.len(), |i: int| if 0 <= i < v.len() { v[i].model() } else { JsonValue::Null })
}


/// The model of an object is the model of its members.
pub proof fn lemma_object_model(m: Vec<(String, Json)>)
    ensures
        Json::Object(m).model() == JsonValue::Object(members_model(m@)),
{
    assert(Json::Object(m).model()->Object_0 =~= members_model(m@));
}

/// The model of an array is the model of its elements.
pub proof fn lemma_array_model(v: Vec<Json>)
    ensures
        Json::Array(v).model() == JsonValue::Array(elements_model(v@)),
{
    assert(Json::Array(v).model()->Array_0 =~= elements_model(v@));
}

/// `find_key` finds the last member with the key, or none when no member has it.
pub proof fn lemma_find_key(m: Seq<(Seq<char>, JsonValue)>, k: Seq<char>)
    ensures
        match find_key(m, k) {
            Some(i) => 0 <= i < m.len() && m[i].0 == k && forall|j: int|
                i < j < m.len() ==> m[j].0 != k,
            None => forall|j: int| 0 <= j < m.len() ==> m[j].0 != k,
        },
    decreases m.len(),
{
    if m.len() > 0 && m.last().0 != k {
        lemma_find_key(m.drop_last(), k);
        assert forall|j: int| 0 <= j < m.len() - 1 implies m.drop_last()[j] == m[j] by {}
    }
}

/// No key occurs twice among the members.
pub open spec fn keys_distinct(m: Seq<(Seq<char>, JsonValue)>) -> bool {
    forall|i: int, j: int| 0 <= i < j < m.len() ==> m[i].0 != m[j].0
}

/// Members read as a map: after setting `k` to `v`, `k` gives `v` (a
/// repeated key keeps the last value), every other key gives what it gave
/// before, and no key occurs twice if none did before.
pub proof fn lemma_insert_member(m: Seq<(Seq<char>, JsonValue)>, k: Seq<char>, v: JsonValue, other: Seq<char>)
    requires
        other != k,
    ensures
        member_value(insert_member(m, k, v), k) == Some(v),
        member_value(insert_member(m, k, v), other) == member_value(m, other),
        keys_distinct(m) ==> keys_distinct(insert_member(m, k, v)),
{
    let n = insert_member(m, k, v);
    lemma_find_key(m, k);
    lemma_find_key(m, other);
    lemma_find_key(n, k);
    lemma_find_key(n, other);
    match find_key(m, k) {
        Some(i) => {
            assert(n == m.update(i, (k, v)));
            assert(find_key(n, k) == Some(i)) by {
                match find_key(n, k) {
                    Some(x) => {
                        if x != i {
                            assert(n[x] == m[x]);
                        }
                    },
                    None => {
                        assert(n[i].0 == k);
                    },
                }
            }
            assert(find_key(n, other) == find_key(m, other)) by {
                match find_key(m, other) {
                    Some(y) => {
                        assert(n[y] == m[y]);
                        match find_key(n, other) {
                            Some(x) => {
                                assert(n[x] == m[x]);
                            },
                            None => {},
                        }
                    },
                    None => {
                        match find_key(n, other) {
                            Some(x) => {
                                assert(n[x] == m[x]);
                            },
                            None => {},
                        }
                    },
                }
            }
        },
        None => {
            assert(n == m.push((k, v)));
            assert(n.drop_last() =~= m);
            assert(find_key(n, other) == find_key(m, other));
        },
    }
}

/// Sets member `key` of `map` to `value`, as a map insertion does.
pub fn insert_into(map: &mut Vec<(String, Json)>, key: String, value: Json)
    ensures
        members_model(final(map)@) == insert_member(
            members_model(old(map)@),
            key@,
            value.model(),
        ),
{
    let ghost m = members_model(map@);
    proof {
        lemma_find_key(m, key@);
    }
    let mut i = map.len();
    while i > 0
        invariant
            i <= map@.len(),
            map@ == old(map)@,
            m == members_model(map@),
            forall|j: int| i <= j < map@.len() ==> map@[j].0@ != key@,
        decreases i,
    {
        if map[i - 1].0 == key {
            assert(find_key(m, key@) == Some(i - 1)) by {
                lemma_find_key(m, key@);
                assert(m[i - 1].0 == key@);
                match find_key(m, key@) {
                    Some(x) => {
                        if x > i - 1 {
                            assert(m[x].0 == map@[x].0@);
                        }
                    },
                    None => {},
                }
            }
            let ghost km = key@;
            let ghost vm = value.model();
            map.set(i - 1, (key, value));
            assert(members_model(map@) =~= m.update(i - 1, (km, vm)));
            return;
        }
        i = i - 1;
    }
    assert(find_key(m, key@) is None) by {
        lemma_find_key(m, key@);
        match find_key(m, key@) {
            Some(x) => {
                assert(m[x].0 == map@[x].0@);
            },
            None => {},
        }
    }
    let ghost km = key@;
    let ghost vm = value.model();
    map.push((key, value));
    assert(members_model(map@) =~= m.push((km, vm)));
}

impl Parser {
    /// The reader's text, position and depth are all it has; these hold of every reader.
    pub open spec fn wf(self) -> bool {
        self.pos <= self.text@.len() <= usize::MAX
    }

    /// The character at the current position.
    pub fn peek(&self) -> (r: Option<char>)
        ensures
            r == (if self.pos < self.text@.len() {
                Some(self.text@[self.pos as int])
            } else {
                None
            }),
    {
        if self.pos < self.text.len() {
            Some(self.text[self.pos])
        } else {
            None
        }
    }

    /// Whether the current character is `c`.
    fn at(&self, c: char) -> (r: bool)
        ensures
            r == (self.pos < self.text@.len() && self.text@[self.pos as int] == c),
    {
        self.pos < self.text.len() && self.text[self.pos] == c
    }

    /// The current character, stepping past it.
    pub fn bump(&mut self) -> (r: Option<char>)
        requires
            old(self).wf(),
        ensures
            final(self).wf(),
            final(self).text@ == old(self).text@,
            final(self).depth == old(self).depth,
            r == (if old(self).pos < old(self).text@.len() {
                Some(old(self).text@[old(self).pos as int])
            } else {
                None
            }),
            final(self).pos == (if r is Some {
                old(self).pos + 1
            } else {
                old(self).pos as int
            }),
    {
        if self.pos < self.text.len() {
            let c = self.text[self.pos];
            self.pos = self.pos + 1;
            Some(c)
        } else {
            None
        }
    }

    /// The next character of the text, stepping past it.
    pub fn next_char(&mut self) -> (r: Option<char>)
        requires
            old(self).wf(),
        ensures
            final(self).wf(),
            final(self).text@ == old(self).text@,
            final(self).depth == old(self).depth,
            r == (if old(self).pos < old(self).text@.len() {
                Some(old(self).text@[old(self).pos as int])
            } else {
                None
            }),
            final(self).pos == (if r is Some {
                old(self).pos + 1
            } else {
                old(self).pos as int
            }),
    {
        self.bump()
    }

    /// Steps past blanks.
    pub fn skip_ws(&mut self)
        requires
            old(self).wf(),
        ensures
            final(self).wf(),
            final(self).text@ == old(self).text@,
            final(self).depth == old(self).depth,
            final(self).pos == skip_ws(old(self).text@, old(self).pos as int),
            final(self).pos >= old(self).pos,
            forall|k: int|
                old(self).pos <= k < final(self).pos ==> {
                    let c = #[trigger] old(self).text@[k];
                    c == ' ' || c == '\t' || c == '\n' || c == '\r'
                },
            final(self).pos < old(self).text@.len() ==> {
                let c = old(self).text@[final(self).pos as int];
                c != ' ' && c != '\t' && c != '\n' && c != '\r'
            },
    {
        proof {
            lemma_skip_ws_steps_over_blanks(self.text@, self.pos as int);
        }
        while self.pos < self.text.len() && (self.text[self.pos] == ' ' || self.text[self.pos]
            == '\t' || self.text[self.pos] == '\n' || self.text[self.pos] == '\r')
            invariant
                self.wf(),
                self.text@ == old(self).text@,
                self.depth == old(self).depth,
                skip_ws(self.text@, self.pos as int) == skip_ws(old(self).text@, old(self).pos as int),
                self.pos >= old(self).pos,
            decreases self.text@.len() - self.pos,
        {
            self.pos = self.pos + 1;
        }
    }

    /// Steps past decimal digits.
    pub fn skip_digits(&mut self)
        requires
            old(self).wf(),
        ensures
            final(self).wf(),
            final(self).text@ == old(self).text@,
            final(self).depth == old(self).depth,
            final(self).pos == skip_digits(old(self).text@, old(self).pos as int),
            final(self).pos >= old(self).pos,
    {
        while self.pos < self.text.len() && '0' <= self.text[self.pos] && self.text[self.pos]
            <= '9'
            invariant
                self.wf(),
                self.text@ == old(self).text@,
                self.depth == old(self).depth,
                skip_digits(self.text@, self.pos as int) == skip_digits(
                    old(self).text@,
                    old(self).pos as int,
                ),
                self.pos >= old(self).pos,
            decreases self.text@.len() - self.pos,
        {
            self.pos = self.pos + 1;
        }
    }

    /// Steps past the next character, which must be `c` (it is stepped past
    /// whether or not it is).
    pub fn expect(&mut self, c: char) -> (r: Result<(), ParseError>)
        requires
            old(self).wf(),
        ensures
            final(self).wf(),
            final(self).text@ == old(self).text@,
            final(self).depth == old(self).depth,
            final(self).pos >= old(self).pos,
            r is Ok <==> (old(self).pos < old(self).text@.len() && old(self).text@[old(
                self,
            ).pos as int] == c),
            final(self).pos == if old(self).pos < old(self).text@.len() {
                old(self).pos + 1
            } else {
                old(self).pos as int
            },
    {
        match self.bump() {
            Some(b) => if b == c {
                Ok(())
            } else {
                Err(ParseError)
            },
            None => Err(ParseError),
        }
    }

    /// One hexadecimal digit, stepping past it.
    fn hex_char(&mut self) -> (r: Result<u32, ParseError>)
        requires
            old(self).wf(),
        ensures
            final(self).wf(),
            final(self).text@ == old(self).text@,
            final(self).depth == old(self).depth,
            final(self).pos >= old(self).pos,
            match r {
                Ok(v) => {
                    &&& old(self).pos < old(self).text@.len()
                    &&& hex_value(old(self).text@[old(self).pos as int]) == Some(v)
                    &&& final(self).pos == old(self).pos + 1
                },
                Err(_) => !(old(self).pos < old(self).text@.len() && hex_value(
                    old(self).text@[old(self).pos as int],
                ) is Some),
            },
    {
        match self.next_char() {
            Some(c) => match hex_digit(c) {
                Some(v) => Ok(v),
                None => Err(ParseError),
            },
            None => Err(ParseError),
        }
    }

    /// Four hexadecimal digits, read as a number.
    pub fn parse_hex4(&mut self) -> (r: Result<u32, ParseError>)
        requires
            old(self).wf(),
        ensures
            final(self).wf(),
            final(self).text@ == old(self).text@,
            final(self).depth == old(self).depth,
            final(self).pos >= old(self).pos,
            match r {
                Ok(v) => hex4(old(self).text@, old(self).pos as int) == Some(v) && final(self).pos
                    == old(self).pos + 4,
                Err(_) => hex4(old(self).text@, old(self).pos as int) is None,
            },
    {
        let d0 = self.hex_char()?;
        let d1 = self.hex_char()?;
        let d2 = self.hex_char()?;
        let d3 = self.hex_char()?;
        Ok(d0 * 4096 + d1 * 256 + d2 * 16 + d3)
    }


    /// The word `lit`, which stands for `value`.
    pub fn literal(&mut self, lit: &str, value: Json) -> (r: Result<Json, ParseError>)
        requires
            old(self).wf(),
        ensures
            final(self).wf(),
            final(self).text@ == old(self).text@,
            final(self).depth == old(self).depth,
            final(self).pos >= old(self).pos,
            match r {
                Ok(v) => v == value && word_at(old(self).text@, old(self).pos as int, lit@)
                    && final(self).pos == old(self).pos + lit@.len(),
                Err(_) => !word_at(old(self).text@, old(self).pos as int, lit@),
            },
    {
        let w = chars_of(lit);
        if w.len() > self.text.len() - self.pos {
            return Err(ParseError);
        }
        let mut k: usize = 0;
        while k < w.len()
            invariant
                self.wf(),
                w@ == lit@,
                k <= w@.len(),
                self.pos + w@.len() <= self.text@.len(),
                forall|j: int| 0 <= j < k ==> self.text@[self.pos + j] == w@[j],
            decreases w@.len() - k,
        {
            if self.text[self.pos + k] != w[k] {
                assert(self.text@.subrange(self.pos as int, self.pos + w@.len())[k as int] != w@[k as int]);
                return Err(ParseError);
            }
            k = k + 1;
        }
        assert(self.text@.subrange(self.pos as int, self.pos + w@.len()) =~= w@);
        self.pos = self.pos + w.len();
        Ok(value)
    }

    /// A number: its text, checked to be a decimal floating-point literal.
    pub fn parse_number(&mut self) -> (r: Result<Json, ParseError>)
        requires
            old(self).wf(),
        ensures
            final(self).wf(),
            final(self).text@ == old(self).text@,
            final(self).depth == old(self).depth,
            final(self).pos >= old(self).pos,
            match r {
                Ok(v) => number_at(old(self).text@, old(self).pos as int) == Some(
                    (v.model(), final(self).pos as int),
                ),
                Err(_) => number_at(old(self).text@, old(self).pos as int) is None,
            },
    {
        let ghost s = self.text@;
        let ghost i = self.pos as int;
        let start = self.pos;
        if self.at('-') {
            self.pos = self.pos + 1;
        }
        let int_start = self.pos;
        assert(int_start == num_int_start(s, i));
        self.skip_digits();
        let int_end = self.pos;
        if self.at('.') {
            self.pos = self.pos + 1;
            self.skip_digits();
        }
        let frac_end = self.pos;
        assert(frac_end == num_frac_end(s, i));
        let mut valid = int_end > int_start || frac_end - int_end > 1;
        if self.at('e') || self.at('E') {
            self.pos = self.pos + 1;
            if self.at('+') || self.at('-') {
                self.pos = self.pos + 1;
            }
            let digits_start = self.pos;
            assert(digits_start == num_exp_digits_start(s, i));
            self.skip_digits();
            if self.pos == digits_start {
                valid = false;
            }
        }
        assert(self.pos == number_end(s, i));
        if !valid {
            return Err(ParseError);
        }
        let lexeme = string_from_range(&self.text, start, self.pos);
        Ok(Json::Number(lexeme))
    }


    /// A value (blanks first): an object, an array, a string, a word or a number.
    pub fn parse_value(&mut self) -> (r: Result<Json, ParseError>)
        requires
            old(self).wf(),
            old(self).depth <= MAX_NESTING_DEPTH,
        ensures
            final(self).wf(),
            final(self).text@ == old(self).text@,
            final(self).pos >= old(self).pos,
            final(self).depth >= old(self).depth,
            r is Ok ==> final(self).depth == old(self).depth,
            match r {
                Ok(v) => value_at(old(self).text@, old(self).pos as int, old(self).depth as int)
                    == Some((v.model(), final(self).pos as int)),
                Err(_) => value_at(old(self).text@, old(self).pos as int, old(self).depth as int) is None,
            },
        decreases 65 - old(self).depth, 0int,
    {
        self.skip_ws();
        let c = match self.peek() {
            Some(c) => c,
            None => return Err(ParseError),
        };
        if c == '{' || c == '[' {
            self.depth = self.depth + 1;
            if self.depth > MAX_NESTING_DEPTH {
                return Err(ParseError);
            }
            let result = if c == '{' {
                self.parse_object()
            } else {
                self.parse_array()
            };
            self.depth = self.depth - 1;
            result
        } else if c == '"' {
            match self.parse_string() {
                Ok(t) => Ok(Json::String(t)),
                Err(e) => Err(e),
            }
        } else if c == 't' {
            proof {
                reveal_strlit("true");
                assert("true"@ =~= word_true());
            }
            self.literal("true", Json::Bool(true))
        } else if c == 'f' {
            proof {
                reveal_strlit("false");
                assert("false"@ =~= word_false());
            }
            self.literal("false", Json::Bool(false))
        } else if c == 'n' {
            proof {
                reveal_strlit("null");
                assert("null"@ =~= word_null());
            }
            self.literal("null", Json::Null)
        } else if c == '-' || ('0' <= c && c <= '9') {
            self.parse_number()
        } else {
            Err(ParseError)
        }
    }

    /// An object: members `"key": value` between braces, separated by commas.
    pub fn parse_object(&mut self) -> (r: Result<Json, ParseError>)
        requires
            old(self).wf(),
            1 <= old(self).depth <= MAX_NESTING_DEPTH,
        ensures
            final(self).wf(),
            final(self).text@ == old(self).text@,
            final(self).pos >= old(self).pos,
            final(self).depth >= old(self).depth,
            r is Ok ==> final(self).depth == old(self).depth,
            match r {
                Ok(v) => object_at(old(self).text@, old(self).pos as int, old(self).depth as int)
                    == Some((v.model(), final(self).pos as int)),
                Err(_) => object_at(old(self).text@, old(self).pos as int, old(self).depth as int)
                    is None,
            },
        decreases 65 - old(self).depth, 1int,
    {
        let ghost s = self.text@;
        let ghost d = self.depth as int;
        let ghost start = self.pos as int;
        self.expect('{')?;
        let mut map: Vec<(String, Json)> = Vec::new();
        self.skip_ws();
        if self.at('}') {
            self.pos = self.pos + 1;
            assert(members_model(map@) =~= Seq::empty());
            proof {
                            lemma_object_model(map);
                        }
                        return Ok(Json::Object(map));
        }
        assert(members_model(map@) =~= Seq::empty());
        loop
            invariant
                self.wf(),
                self.text@ == s,
                self.depth == d,
                1 <= d <= MAX_NESTING_DEPTH,
                self.pos > start,
                s == old(self).text@,
                d == old(self).depth,
                start == old(self).pos,
                object_at(s, start, d) == members_at(s, self.pos as int, d, members_model(map@)),
            decreases self.text@.len() - self.pos,
        {
            let ghost p = self.pos as int;
            self.skip_ws();
            let key = self.parse_string()?;
            self.skip_ws();
            self.expect(':')?;
            let value = self.parse_value()?;
            insert_into(&mut map, key, value);
            self.skip_ws();
            match self.bump() {
                Some(c) => {
                    if c == ',' {
                    } else if c == '}' {
                        proof {
                            lemma_object_model(map);
                        }
                        return Ok(Json::Object(map));
                    } else {
                        return Err(ParseError);
                    }
                },
                None => return Err(ParseError),
            }
        }
    }

    /// An array: values between brackets, separated by commas.
    pub fn parse_array(&mut self) -> (r: Result<Json, ParseError>)
        requires
            old(self).wf(),
            1 <= old(self).depth <= MAX_NESTING_DEPTH,
        ensures
            final(self).wf(),
            final(self).text@ == old(self).text@,
            final(self).pos >= old(self).pos,
            final(self).depth >= old(self).depth,
            r is Ok ==> final(self).depth == old(self).depth,
            match r {
                Ok(v) => array_at(old(self).text@, old(self).pos as int, old(self).depth as int)
                    == Some((v.model(), final(self).pos as int)),
                Err(_) => array_at(old(self).text@, old(self).pos as int, old(self).depth as int)
                    is None,
            },
        decreases 65 - old(self).depth, 1int,
    {
        let ghost s = self.text@;
        let ghost d = self.depth as int;
        let ghost start = self.pos as int;
        self.expect('[')?;
        let mut items: Vec<Json> = Vec::new();
        self.skip_ws();
        if self.at(']') {
            self.pos = self.pos + 1;
            assert(elements_model(items@) =~= Seq::empty());
            proof {
                            lemma_array_model(items);
                        }
                        return Ok(Json::Array(items));
        }
        assert(elements_model(items@) =~= Seq::empty());
        loop
            invariant
                self.wf(),
                self.text@ == s,
                self.depth == d,
                1 <= d <= MAX_NESTING_DEPTH,
                self.pos > start,
                s == old(self).text@,
                d == old(self).depth,
                start == old(self).pos,
                array_at(s, start, d) == elements_at(s, self.pos as int, d, elements_model(items@)),
            decreases self.text@.len() - self.pos,
        {
            let ghost p = self.pos as int;
            let value = self.parse_value()?;
            let ghost old_items = items@;
            let ghost vm = value.model();
            items.push(value);
            assert(elements_model(items@) =~= elements_model(old_items).push(vm));
            self.skip_ws();
            match self.bump() {
                Some(c) => {
                    if c == ',' {
                    } else if c == ']' {
                        proof {
                            lemma_array_model(items);
                        }
                        return Ok(Json::Array(items));
                    } else {
                        return Err(ParseError);
                    }
                },
                None => return Err(ParseError),
            }
        }
    }

    /// A string literal: its characters, with escapes read.
    pub fn parse_string(&mut self) -> (r: Result<String, ParseError>)
        requires
            old(self).wf(),
        ensures
            final(self).wf(),
            final(self).text@ == old(self).text@,
            final(self).depth == old(self).depth,
            final(self).pos >= old(self).pos,
            match r {
                Ok(out) => string_lit(old(self).text@, old(self).pos as int) == Some(
                    (out@, final(self).pos as int),
                ),
                Err(_) => string_lit(old(self).text@, old(self).pos as int) is None,
            },
    {
        self.expect('"')?;
        let mut out = String::new();
        loop
            invariant
                self.wf(),
                self.text@ == old(self).text@,
                self.depth == old(self).depth,
                self.pos > old(self).pos,
                string_lit(old(self).text@, old(self).pos as int) == string_body(
                    self.text@,
                    self.pos as int,
                    out@,
                ),
            decreases self.text@.len() - self.pos,
        {
            let ghost i = self.pos as int;
            let c = match self.next_char() {
                Some(c) => c,
                None => return Err(ParseError),
            };
            if c == '"' {
                return Ok(out);
            } else if c == '\\' {
                let e = match self.next_char() {
                    Some(e) => e,
                    None => return Err(ParseError),
                };
                if e == '"' {
                    push_char(&mut out, '"');
                } else if e == '\\' {
                    push_char(&mut out, '\\');
                } else if e == '/' {
                    push_char(&mut out, '/');
                } else if e == 'b' {
                    push_char(&mut out, '\u{8}');
                } else if e == 'f' {
                    push_char(&mut out, '\u{c}');
                } else if e == 'n' {
                    push_char(&mut out, '\n');
                } else if e == 'r' {
                    push_char(&mut out, '\r');
                } else if e == 't' {
                    push_char(&mut out, '\t');
                } else if e == 'u' {
                    let hi = self.parse_hex4()?;
                    let code = if 0xD800 <= hi && hi <= 0xDBFF {
                        match self.next_char() {
                            Some(b) => if b != '\\' {
                                return Err(ParseError);
                            },
                            None => return Err(ParseError),
                        }
                        match self.next_char() {
                            Some(b) => if b != 'u' {
                                return Err(ParseError);
                            },
                            None => return Err(ParseError),
                        }
                        let lo = self.parse_hex4()?;
                        if !(0xDC00 <= lo && lo <= 0xDFFF) {
                            return Err(ParseError);
                        }
                        let off = hi - 0xD800;
                        assert(off << 10u32 == off * 1024) by (bit_vector)
                            requires
                                off < 1024,
                        ;
                        0x10000 + (off << 10) + (lo - 0xDC00)
                    } else {
                        hi
                    };
                    match char_from_code(code) {
                        Some(ch) => push_char(&mut out, ch),
                        None => return Err(ParseError),
                    }
                } else {
                    return Err(ParseError);
                }
            } else {
                push_char(&mut out, c);
            }
        }
    }
}


impl Json {
    /// The characters of a string value.
    pub fn as_str(&self) -> (r: Option<&str>)
        ensures
            match self.model() {
                JsonValue::Str(t) => r is Some && r->0@ == t,
                _ => r is None,
            },
    {
        match self {
            Json::String(s) => Some(s.as_str()),
            _ => None,
        }
    }

    /// The text of a number value.
    pub fn as_number(&self) -> (r: Option<&str>)
        ensures
            match self.model() {
                JsonValue::Number(t) => r is Some && r->0@ == t,
                _ => r is None,
            },
    {
        match self {
            Json::Number(s) => Some(s.as_str()),
            _ => None,
        }
    }

    /// The value of member `key` of an object.
    pub fn get(&self, key: &str) -> (r: Option<&Json>)
        ensures
            match self.model() {
                JsonValue::Object(m) => match member_value(m, key@) {
                    Some(v) => r is Some && r->0.model() == v,
                    None => r is None,
                },
                _ => r is None,
            },
    {
        match self {
            Json::Object(map) => {
                proof {
                    lemma_object_model(*map);
                    lemma_find_key(members_model(map@), key@);
                }
                let k = key.to_owned();
                let ghost m = members_model(map@);
                let mut i = map.len();
                while i > 0
                    invariant
                        i <= map@.len(),
                        k@ == key@,
                        m == members_model(map@),
                        self.model() == JsonValue::Object(m),
                        forall|j: int| i <= j < map@.len() ==> map@[j].0@ != key@,
                    decreases i,
                {
                    if map[i - 1].0 == k {
                        assert(find_key(m, key@) == Some(i - 1)) by {
                            lemma_find_key(m, key@);
                            assert(m[i - 1].0 == key@);
                            match find_key(m, key@) {
                                Some(x) => {
                                    if x > i - 1 {
                                        assert(m[x].0 == map@[x].0@);
                                    }
                                },
                                None => {},
                            }
                        }
                        assert(m[i - 1].1 == map@[i - 1].1.model());
                        assert(self.model() == JsonValue::Object(m));
                        assert(member_value(m, key@) == Some(m[i - 1].1));
                        let r = &map[i - 1].1;
                        assert(r.model() == m[i - 1].1);
                        return Some(r);
                    }
                    i = i - 1;
                }
                assert(find_key(m, key@) is None) by {
                    lemma_find_key(m, key@);
                    match find_key(m, key@) {
                        Some(x) => {
                            assert(m[x].0 == map@[x].0@);
                        },
                        None => {},
                    }
                }
                None
            },
            _ => None,
        }
    }
}

impl Json {
    /// Reads a whole text as one JSON value; a leading byte-order mark is skipped.
    pub fn parse(text: &str) -> (r: Result<Json, ParseError>)
        ensures
            match r {
                Ok(v) => parse_text(text@) == Some(v.model()),
                Err(_) => parse_text(text@) is None,
            },
    {
        let mut chars = chars_of(text);
        if chars.len() > 0 && chars[0] == '\u{feff}' {
            chars.remove(0);
            assert(chars@ =~= text@.drop_first());
        }
        let mut p = Parser { text: chars, pos: 0, depth: 0 };
        let _ = p.text.len();
        let value = p.parse_value()?;
        p.skip_ws();
        if p.pos != p.text.len() {
            return Err(ParseError);
        }
        Ok(value)
    }
}

} // verus!

verus! {

/// A lowercase hexadecimal digit for `n < 16`.
pub open spec fn hex_char(n: u32) -> char {
    if n < 10 {
        ('0' as u32 + n) as char
    } else {
        ('a' as u32 + n - 10) as char
    }
}

/// How `quote` spells one character inside the quotes.
pub open spec fn quote_char(c: char) -> Seq<char> {
    if c == '"' {
        seq!['\\', '"']
    } else if c == '\\' {
        seq!['\\', '\\']
    } else if c == '\n' {
        seq!['\\', 'n']
    } else if c == '\r' {
        seq!['\\', 'r']
    } else if c == '\t' {
        seq!['\\', 't']
    } else if (c as u32) < 0x20 {
        seq!['\\', 'u', '0', '0', hex_char((c as u32) / 16), hex_char((c as u32) % 16)]
    } else {
        seq![c]
    }
}

/// How `quote` spells a sequence of characters inside the quotes.
pub open spec fn quote_body(s: Seq<char>) -> Seq<char>
    decreases s.len(),
{
    if s.len() == 0 {
        Seq::empty()
    } else {
        quote_body(s.drop_last()) + quote_char(s.last())
    }
}

/// A JSON string literal that spells `s`.
pub open spec fn quoted(s: Seq<char>) -> Seq<char> {
    seq!['"'] + quote_body(s) + seq!['"']
}

/// The lowercase hexadecimal digit for `n`.
fn lower_hex_digit(n: u32) -> (r: char)
    requires
        n < 16,
    ensures
        r == hex_char(n),
{
    let code = if n < 10 {
        '0' as u32 + n
    } else {
        'a' as u32 + n - 10
    };
    match char_from_code(code) {
        Some(c) => c,
        None => '0',
    }
}

/// A JSON string literal that spells `s`: quotes around it, with quotes,
/// backslashes and control characters escaped.
pub fn quote(s: &str) -> (r: String)
    ensures
        r@ == quoted(s@),
{
    let chars = chars_of(s);
    let mut out = String::new();
    push_char(&mut out, '"');
    let mut k: usize = 0;
    while k < chars.len()
        invariant
            chars@ == s@,
            k <= chars@.len(),
            out@ == seq!['"'] + quote_body(s@.take(k as int)),
        decreases chars@.len() - k,
    {
        let c = chars[k];
        let ghost before = out@;
        if c == '"' {
            push_char(&mut out, '\\');
            push_char(&mut out, '"');
        } else if c == '\\' {
            push_char(&mut out, '\\');
            push_char(&mut out, '\\');
        } else if c == '\n' {
            push_char(&mut out, '\\');
            push_char(&mut out, 'n');
        } else if c == '\r' {
            push_char(&mut out, '\\');
            push_char(&mut out, 'r');
        } else if c == '\t' {
            push_char(&mut out, '\\');
            push_char(&mut out, 't');
        } else if (c as u32) < 0x20 {
            let u = c as u32;
            push_char(&mut out, '\\');
            push_char(&mut out, 'u');
            push_char(&mut out, '0');
            push_char(&mut out, '0');
            push_char(&mut out, lower_hex_digit(u / 16));
            push_char(&mut out, lower_hex_digit(u % 16));
        } else {
            push_char(&mut out, c);
        }
        assert(out@ =~= before + quote_char(c));
        assert(s@.take(k + 1).drop_last() =~= s@.take(k as int));
        k = k + 1;
    }
    push_char(&mut out, '"');
    assert(s@.take(chars@.len() as int) =~= s@);
    out
}

/// Spelling a character and then the rest is spelling the whole.
proof fn lemma_quote_body_first(s: Seq<char>)
    requires
        s.len() > 0,
    ensures
        quote_body(s) == quote_char(s[0]) + quote_body(s.drop_first()),
    decreases s.len(),
{
    if s.len() == 1 {
        assert(s.drop_last() =~= Seq::empty());
        assert(s.drop_first() =~= Seq::empty());
        assert(quote_body(s.drop_first()) =~= Seq::empty());
        assert(quote_body(s) =~= quote_char(s[0]));
    } else {
        lemma_quote_body_first(s.drop_last());
        assert(s.drop_last().drop_first() =~= s.drop_first().drop_last());
        assert(s.drop_first().last() == s.last());
        assert(quote_body(s) =~= quote_char(s[0]) + quote_body(s.drop_first()));
    }
}

/// Reading one quoted character steps over its spelling and yields it.
proof fn lemma_read_quoted_char(t: Seq<char>, i: int, acc: Seq<char>, c: char)
    requires
        0 <= i,
        i + quote_char(c).len() < t.len(),
        t.subrange(i, i + quote_char(c).len()) == quote_char(c),
    ensures
        string_body(t, i, acc) == string_body(t, i + quote_char(c).len(), acc.push(c)),
{
    let q = quote_char(c);
    assert forall|j: int| 0 <= j < q.len() implies t[i + j] == q[j] by {
        assert(t.subrange(i, i + q.len())[j] == t[i + j]);
    }
    if c == '"' || c == '\\' || c == '\n' || c == '\r' || c == '\t' {
        assert(t[i] == '\\');
        assert(t[i + 1] == q[1]);
    } else if (c as u32) < 0x20 {
        let u = c as u32;
        assert(t[i] == '\\');
        assert(t[i + 1] == 'u');
        assert(t[i + 2] == '0');
        assert(t[i + 3] == '0');
        assert(t[i + 4] == hex_char(u / 16));
        assert(t[i + 5] == hex_char(u % 16));
        assert(hex_value(t[i + 2]) == Some(0u32));
        assert(hex_value(t[i + 3]) == Some(0u32));
        assert(hex_value(t[i + 4]) == Some(u / 16));
        assert(hex_value(t[i + 5]) == Some(u % 16));
        assert(hex4(t, i + 2) == Some(u));
        assert((u as char) == c);
    } else {
        assert(q =~= seq![c]);
        assert(t.subrange(i, i + q.len())[0] == t[i]);
        assert(t[i] == c);
    }
}

/// Reading a quoted body followed by a closing quote yields the characters it spells.
proof fn lemma_read_quote_body(pre: Seq<char>, s: Seq<char>, post: Seq<char>, acc: Seq<char>)
    ensures
        string_body(pre + quote_body(s) + seq!['"'] + post, pre.len() as int, acc) == Some(
            (acc + s, (pre.len() + quote_body(s).len() + 1) as int),
        ),
    decreases s.len(),
{
    let t = pre + quote_body(s) + seq!['"'] + post;
    if s.len() == 0 {
        assert(quote_body(s) =~= Seq::empty());
        assert(t[pre.len() as int] == '"');
        assert(acc + s =~= acc);
    } else {
        let c = s[0];
        let r = s.drop_first();
        let q = quote_char(c);
        lemma_quote_body_first(s);
        let pre2 = pre + q;
        assert(t =~= pre2 + quote_body(r) + seq!['"'] + post);
        assert(t.subrange(pre.len() as int, (pre.len() + q.len()) as int) =~= q);
        lemma_read_quoted_char(t, pre.len() as int, acc, c);
        lemma_read_quote_body(pre2, r, post, acc.push(c));
        assert(acc.push(c) + r =~= acc + s);
    }
}

/// Reading back what `quote` wrote gives the string that was quoted.
pub proof fn lemma_quote_round_trip(s: Seq<char>)
    ensures
        parse_text(quoted(s)) == Some(JsonValue::Str(s)),
{
    let q = quoted(s);
    lemma_read_quote_body(seq!['"'], s, Seq::empty(), Seq::empty());
    assert(q =~= seq!['"'] + quote_body(s) + seq!['"'] + Seq::<char>::empty());
    assert(strip_bom(q) == q);
    assert(skip_ws(q, 0) == 0);
    assert(Seq::<char>::empty() + s =~= s);
    assert(skip_ws(q, q.len() as int) == q.len());
}

} // verus!

verus! {

/// A quoted string at position `p` reads as that string.
pub proof fn lemma_string_lit_quoted(t: Seq<char>, p: int, s: Seq<char>)
    requires
        0 <= p,
        p + quoted(s).len() <= t.len(),
        t.subrange(p, p + quoted(s).len()) == quoted(s),
    ensures
        string_lit(t, p) == Some((s, p + quoted(s).len())),
{
    let q = quoted(s);
    let pre = t.take(p);
    let post = t.skip(p + q.len());
    assert(t =~= (pre + seq!['"']) + quote_body(s) + seq!['"'] + post) by {
        assert(t =~= pre + t.subrange(p, p + q.len()) + post);
    }
    assert(t[p] == q[0]);
    lemma_read_quote_body(pre + seq!['"'], s, post, Seq::empty());
    assert(Seq::<char>::empty() + s =~= s);
}

/// A blank and then a quoted string read as a string value.
pub proof fn lemma_value_quoted(t: Seq<char>, j: int, s: Seq<char>, d: int)
    requires
        0 <= j,
        j + 1 + quoted(s).len() <= t.len(),
        is_ws(t[j]),
        t.subrange(j + 1, j + 1 + quoted(s).len()) == quoted(s),
    ensures
        value_at(t, j, d) == Some((JsonValue::Str(s), j + 1 + quoted(s).len())),
{
    lemma_string_lit_quoted(t, j + 1, s);
    assert(t[j + 1] == t.subrange(j + 1, j + 1 + quoted(s).len())[0]);
    assert(skip_ws(t, j + 1) == j + 1);
}

/// One member of an object, followed by a comma or the closing brace.
pub proof fn lemma_member_step(
    t: Seq<char>,
    p: int,
    qpos: int,
    d: int,
    acc: Seq<(Seq<char>, JsonValue)>,
    key: Seq<char>,
    v: JsonValue,
    e: int,
    c: int,
)
    requires
        0 <= p <= qpos,
        skip_ws(t, p) == qpos,
        string_lit(t, qpos) == Some((key, qpos + quoted(key).len())),
        0 <= qpos + quoted(key).len() < t.len(),
        t[qpos + quoted(key).len()] == ':',
        value_at(t, qpos + quoted(key).len() + 1, d) == Some((v, e)),
        skip_ws(t, e) == c,
        p <= c < t.len(),
    ensures
        t[c] == ',' ==> members_at(t, p, d, acc) == members_at(t, c + 1, d, insert_member(acc, key, v)),
        t[c] == '}' ==> members_at(t, p, d, acc) == Some(
            (JsonValue::Object(insert_member(acc, key, v)), c + 1),
        ),
{
    let k2 = qpos + quoted(key).len();
    assert(skip_ws(t, k2) == k2);
}

} // verus!

verus! {

proof fn lemma_members_distinct(s: Seq<char>, i: int, d: int, acc: Seq<(Seq<char>, JsonValue)>)
    requires
        keys_distinct(acc),
    ensures
        members_at(s, i, d, acc) matches Some((JsonValue::Object(m), _)) ==> keys_distinct(m),
    decreases s.len() - i,
{
    let k = skip_ws(s, i);
    match string_lit(s, k) {
        None => {},
        Some((key, k2)) => {
            let k3 = skip_ws(s, k2);
            if 0 <= k3 < s.len() && s[k3] == ':' {
                match value_at(s, k3 + 1, d) {
                    None => {},
                    Some((v, k4)) => {
                        let k5 = skip_ws(s, k4);
                        let m = insert_member(acc, key, v);
                        lemma_insert_member(acc, key, v, seq!['x'] + key);
                        assert(seq!['x'] + key != key) by {
                            assert((seq!['x'] + key).len() != key.len());
                        }
                        if 0 <= k5 < s.len() && s[k5] == ',' && k5 >= i {
                            lemma_members_distinct(s, k5 + 1, d, m);
                        }
                    },
                }
            }
        },
    }
}

proof fn lemma_elements_is_array(s: Seq<char>, i: int, d: int, acc: Seq<JsonValue>)
    ensures
        elements_at(s, i, d, acc) matches Some((v, _)) ==> v is Array,
    decreases s.len() - i,
{
    match value_at(s, i, d) {
        None => {},
        Some((v, k)) => {
            let k2 = skip_ws(s, k);
            if 0 <= k2 < s.len() && s[k2] == ',' && k2 >= i {
                lemma_elements_is_array(s, k2 + 1, d, acc.push(v));
            }
        },
    }
}

/// An object that a text spells holds each key at most once: a key that
/// comes again takes the place of the first, with the later value.
pub proof fn lemma_parsed_object_keys_distinct(t: Seq<char>)
    ensures
        parse_text(t) matches Some(JsonValue::Object(m)) ==> keys_distinct(m),
{
    let s = strip_bom(t);
    let j = skip_ws(s, 0);
    if 0 <= j < s.len() && s[j] == '{' {
        let k = skip_ws(s, j + 1);
        lemma_members_distinct(s, k, 1, Seq::empty());
        assert(value_at(s, 0, 0) == object_at(s, j, 1));
    } else if 0 <= j < s.len() && s[j] == '[' {
        let k = skip_ws(s, j + 1);
        lemma_elements_is_array(s, k, 1, Seq::empty());
        assert(value_at(s, 0, 0) == array_at(s, j, 1));
    }
}

} // verus!
