//! File names for captures: a cleaned-up window title, the dated name built
//! from it, and a free variant when the name is already taken.

use vstd::prelude::*;
use crate::text::{
    spec_is_whitespace, spec_is_control, is_whitespace, is_control, chars_of, push_char, push_str,
    trim_start_index, trim_end_index, trimmed, lemma_trim_start, lemma_trim_end,
};
use crate::decimal::{decimal, two_digits, push_decimal, push_two_digits, all_digits, digits_value, lemma_decimal, lemma_two_digits};

verus! {

/// The name used when the title leaves nothing to name a file after.
pub const FALLBACK_NAME: &'static str = "Desktop";

/// The longest title kept, in characters.
pub const MAX_TITLE_CHARS: usize = 60;

/// Characters that Windows refuses in file names, and control characters.
pub open spec fn is_forbidden(c: char) -> bool {
    ||| c == '<'
    ||| c == '>'
    ||| c == ':'
    ||| c == '"'
    ||| c == '/'
    ||| c == '\\'
    ||| c == '|'
    ||| c == '?'
    ||| c == '*'
    ||| spec_is_control(c)
}

/// A character as it stands in a file name: forbidden ones become `_`.
pub open spec fn clean_char(c: char) -> char {
    if is_forbidden(c) {
        '_'
    } else {
        c
    }
}

/// The trimmed title with forbidden characters replaced, cut to
/// `MAX_TITLE_CHARS` characters.
pub open spec fn cleaned_title(s: Seq<char>) -> Seq<char> {
    let t = trimmed(s).map_values(|c: char| clean_char(c));
    if t.len() > MAX_TITLE_CHARS {
        t.take(MAX_TITLE_CHARS as int)
    } else {
        t
    }
}

/// Whether every character of `s` is white space (so also when it is empty).
pub open spec fn is_blank(s: Seq<char>) -> bool {
    forall|i: int| 0 <= i < s.len() ==> spec_is_whitespace(#[trigger] s[i])
}

/// The file-name component made from a window title.
pub open spec fn sanitized(s: Seq<char>) -> Seq<char> {
    if is_blank(cleaned_title(s)) {
        FALLBACK_NAME@
    } else {
        cleaned_title(s)
    }
}

/// Whether `c` must not stand in a file name.
pub fn is_forbidden_char(c: char) -> (r: bool)
    ensures
        r == is_forbidden(c),
{
    c == '<' || c == '>' || c == ':' || c == '"' || c == '/' || c == '\\' || c == '|' || c == '?'
        || c == '*' || is_control(c)
}

/// A window title made fit to stand in a file name: trimmed, with the
/// characters that Windows refuses and control characters replaced by `_`,
/// cut to `MAX_TITLE_CHARS` characters, and `FALLBACK_NAME` when that leaves
/// nothing but blanks.
pub fn sanitize_component(s: &str) -> (r: String)
    ensures
        r@ == sanitized(s@),
{
    let chars = chars_of(s);
    let n = chars.len();
    let mut a: usize = 0;
    while a < n && is_whitespace(chars[a])
        invariant
            chars@ == s@,
            n == chars@.len(),
            a <= n,
            trim_start_index(s@, a as int) == trim_start_index(s@, 0),
        decreases n - a,
    {
        a = a + 1;
    }
    let mut b: usize = n;
    while b > 0 && is_whitespace(chars[b - 1])
        invariant
            chars@ == s@,
            n == chars@.len(),
            b <= n,
            trim_end_index(s@, b as int) == trim_end_index(s@, n as int),
        decreases b,
    {
        b = b - 1;
    }
    proof {
        lemma_trim_start(s@, 0);
        lemma_trim_end(s@, n as int);
        assert(trim_start_index(s@, a as int) == a);
        assert(trim_end_index(s@, b as int) == b);
    }
    let ghost t = trimmed(s@).map_values(|c: char| clean_char(c));
    let end: usize = if a < b {
        if b - a > MAX_TITLE_CHARS {
            a + MAX_TITLE_CHARS
        } else {
            b
        }
    } else {
        a
    };
    assert(end - a == cleaned_title(s@).len());
    let mut out = String::new();
    let mut blank = true;
    let mut k: usize = a;
    while k < end
        invariant
            chars@ == s@,
            n == chars@.len(),
            b <= n,
            a <= k <= end <= n,
            a < b ==> end <= b,
            a >= b ==> end == a,
            a < b ==> trimmed(s@) == s@.subrange(a as int, b as int),
            t == trimmed(s@).map_values(|c: char| clean_char(c)),
            end - a == cleaned_title(s@).len(),
            out@ == cleaned_title(s@).take(k - a),
            blank == is_blank(out@),
        decreases end - k,
    {
        let c = chars[k];
        let d = if is_forbidden_char(c) {
            '_'
        } else {
            c
        };
        proof {
            assert(t[k - a] == clean_char(s@[k as int]));
            assert(cleaned_title(s@)[k - a] == t[k - a]);
        }
        let ghost before = out@;
        push_char(&mut out, d);
        proof {
            if is_blank(before) && spec_is_whitespace(d) {
                assert forall|i: int| 0 <= i < out@.len() implies spec_is_whitespace(
                    #[trigger] out@[i],
                ) by {
                    if i < before.len() {
                        assert(out@[i] == before[i]);
                    }
                }
            } else if !is_blank(before) {
                let i = choose|i: int| 0 <= i < before.len() && !spec_is_whitespace(#[trigger] before[i]);
                assert(out@[i] == before[i]);
            } else {
                assert(out@[before.len() as int] == d);
            }
        }
        blank = blank && is_whitespace(d);
        assert(out@ =~= cleaned_title(s@).take(k + 1 - a));
        k = k + 1;
    }
    assert(out@ =~= cleaned_title(s@));
    if blank {
        FALLBACK_NAME.to_owned()
    } else {
        out
    }
}

} // verus!

verus! {

/// `stem.ext`: the file name asked for.
pub open spec fn plain_name(stem: Seq<char>, ext: Seq<char>) -> Seq<char> {
    stem + seq!['.'] + ext
}

/// `stem (n).ext`: the `n`-th variant of a taken name.
pub open spec fn numbered_name(stem: Seq<char>, n: nat, ext: Seq<char>) -> Seq<char> {
    stem + seq![' ', '('] + decimal(n) + seq![')', '.'] + ext
}

/// Builds `stem (n).ext`.
pub fn numbered_file_name(stem: &str, n: u32, ext: &str) -> (r: String)
    ensures
        r@ == numbered_name(stem@, n as nat, ext@),
{
    let mut out = String::new();
    push_str(&mut out, stem);
    push_char(&mut out, ' ');
    push_char(&mut out, '(');
    push_decimal(&mut out, n as u64);
    push_char(&mut out, ')');
    push_char(&mut out, '.');
    push_str(&mut out, ext);
    assert(out@ =~= numbered_name(stem@, n as nat, ext@));
    out
}

/// Builds `stem.ext`.
pub fn plain_file_name(stem: &str, ext: &str) -> (r: String)
    ensures
        r@ == plain_name(stem@, ext@),
{
    let mut out = String::new();
    push_str(&mut out, stem);
    push_char(&mut out, '.');
    push_str(&mut out, ext);
    assert(out@ =~= plain_name(stem@, ext@));
    out
}

/// Whether a call of `taken` on a string spelling `name` answered `answer`.
pub open spec fn answered<F: Fn(&str) -> bool>(taken: F, name: Seq<char>, answer: bool) -> bool {
    exists|s: &str| #[trigger] call_ensures(taken, (s,), answer) && s@ == name
}

/// A free file name for `stem.ext`: that name if `taken` says it is free,
/// else the first of `stem (1).ext`, `stem (2).ext`, … that it says is free.
/// If every variant up to `u32::MAX` is taken, the name asked for is
/// returned as it is. `taken` is asked about each name once, in that order.
pub fn unique_path<F: Fn(&str) -> bool>(stem: &str, ext: &str, taken: F) -> (r: String)
    requires
        forall|name: &str| taken.requires((name,)),
    ensures
        ({
            let plain = plain_name(stem@, ext@);
            ||| answered(taken, plain, false) && r@ == plain
            ||| answered(taken, plain, true) && exists|n: nat|
                1 <= n <= u32::MAX && r@ == numbered_name(stem@, n, ext@) && answered(
                    taken,
                    numbered_name(stem@, n, ext@),
                    false,
                ) && forall|m: nat|
                    1 <= m < n ==> answered(taken, #[trigger] numbered_name(stem@, m, ext@), true)
            ||| answered(taken, plain, true) && r@ == plain && forall|m: nat|
                1 <= m <= u32::MAX ==> answered(taken, #[trigger] numbered_name(stem@, m, ext@), true)
        }),
{
    let name = plain_file_name(stem, ext);
    let name_str = name.as_str();
    let first = taken(name_str);
    assert(call_ensures(taken, (name_str,), first));
    if !first {
        return name;
    }
    let mut n: u32 = 1;
    loop
        invariant
            1 <= n,
            forall|name: &str| taken.requires((name,)),
            name@ == plain_name(stem@, ext@),
            answered(taken, plain_name(stem@, ext@), true),
            forall|m: nat|
                1 <= m < n ==> answered(taken, #[trigger] numbered_name(stem@, m, ext@), true),
        decreases u32::MAX - n,
    {
        let candidate = numbered_file_name(stem, n, ext);
        let candidate_str = candidate.as_str();
        let hit = taken(candidate_str);
        assert(call_ensures(taken, (candidate_str,), hit));
        assert(answered(taken, numbered_name(stem@, n as nat, ext@), hit));
        if !hit {
            return candidate;
        }
        if n == u32::MAX {
            return name;
        }
        n = n + 1;
    }
}

} // verus!

verus! {

/// The extension of saved captures.
pub const CAPTURE_EXTENSION: &'static str = "webp";

/// `title_MM-DD-YYYY_qQ`: the name of a capture before its extension, with
/// month and day on two digits.
pub open spec fn capture_stem(title: Seq<char>, month: nat, day: nat, year: nat, quality: nat) -> Seq<
    char,
> {
    title + seq!['_'] + two_digits(month) + seq!['-'] + two_digits(day) + seq!['-'] + decimal(year)
        + seq!['_', 'q'] + decimal(quality)
}

/// `YYYY-MM`: the folder of a month's captures.
pub open spec fn month_dir(year: nat, month: nat) -> Seq<char> {
    decimal(year) + seq!['-'] + two_digits(month)
}

/// The name of a capture taken on the given date, before its extension.
pub fn capture_file_stem(title: &str, month: u16, day: u16, year: u16, quality: u8) -> (r: String)
    ensures
        r@ == capture_stem(title@, month as nat, day as nat, year as nat, quality as nat),
{
    let mut out = String::new();
    push_str(&mut out, title);
    push_char(&mut out, '_');
    push_two_digits(&mut out, month as u64);
    push_char(&mut out, '-');
    push_two_digits(&mut out, day as u64);
    push_char(&mut out, '-');
    push_decimal(&mut out, year as u64);
    push_char(&mut out, '_');
    push_char(&mut out, 'q');
    push_decimal(&mut out, quality as u64);
    assert(out@ =~= capture_stem(title@, month as nat, day as nat, year as nat, quality as nat));
    out
}

/// The name of the folder of the month's captures.
pub fn month_dir_name(year: u16, month: u16) -> (r: String)
    ensures
        r@ == month_dir(year as nat, month as nat),
{
    let mut out = String::new();
    push_decimal(&mut out, year as u64);
    push_char(&mut out, '-');
    push_two_digits(&mut out, month as u64);
    assert(out@ =~= month_dir(year as nat, month as nat));
    out
}

} // verus!

verus! {

/// Whatever the title, the component made from it can stand in a file
/// name: it holds no forbidden or control character, is not blank, and has
/// at most `MAX_TITLE_CHARS` characters.
pub proof fn lemma_sanitized_is_safe(s: Seq<char>)
    ensures
        forall|i: int| 0 <= i < sanitized(s).len() ==> !is_forbidden(#[trigger] sanitized(s)[i]),
        !is_blank(sanitized(s)),
        1 <= sanitized(s).len() <= MAX_TITLE_CHARS,
{
    reveal_strlit("Desktop");
    let c = cleaned_title(s);
    let t = trimmed(s).map_values(|ch: char| clean_char(ch));
    assert forall|i: int| 0 <= i < c.len() implies !is_forbidden(#[trigger] c[i]) by {
        assert(c[i] == t[i]);
        assert(t[i] == clean_char(trimmed(s)[i]));
    }
    if is_blank(c) {
        assert(!spec_is_whitespace(FALLBACK_NAME@[0]));
        assert forall|i: int| 0 <= i < FALLBACK_NAME@.len() implies !is_forbidden(
            #[trigger] FALLBACK_NAME@[i],
        ) by {
            assert(FALLBACK_NAME@ == seq!['D', 'e', 's', 'k', 't', 'o', 'p']);
        }
    } else {
        assert(c.len() >= 1);
    }
}

/// The component keeps the beginning of the title: when the first
/// `MAX_TITLE_CHARS` characters of the trimmed title are not all blank, the
/// component is those characters (fewer when the title is shorter), each
/// as it stands in a file name; otherwise it is `FALLBACK_NAME`.
pub proof fn lemma_sanitized_keeps_beginning(s: Seq<char>)
    ensures
        ({
            let t = trimmed(s);
            let k = if t.len() > MAX_TITLE_CHARS { MAX_TITLE_CHARS as int } else { t.len() as int };
            if exists|i: int| 0 <= i < k && !spec_is_whitespace(#[trigger] clean_char(t[i])) {
                &&& sanitized(s).len() == k
                &&& forall|i: int| 0 <= i < k ==> #[trigger] sanitized(s)[i] == clean_char(t[i])
            } else {
                sanitized(s) == FALLBACK_NAME@
            }
        }),
{
    let t = trimmed(s);
    let k = if t.len() > MAX_TITLE_CHARS { MAX_TITLE_CHARS as int } else { t.len() as int };
    let m = t.map_values(|ch: char| clean_char(ch));
    let c = cleaned_title(s);
    assert(c.len() == k);
    assert forall|i: int| 0 <= i < k implies c[i] == clean_char(t[i]) by {
        assert(c[i] == m[i]);
    }
    if exists|i: int| 0 <= i < k && !spec_is_whitespace(#[trigger] clean_char(t[i])) {
        let i = choose|i: int| 0 <= i < k && !spec_is_whitespace(#[trigger] clean_char(t[i]));
        assert(!spec_is_whitespace(c[i]));
        assert(!is_blank(c));
    } else {
        assert forall|i: int| 0 <= i < c.len() implies spec_is_whitespace(#[trigger] c[i]) by {
            assert(c[i] == clean_char(t[i]));
        }
    }
}

/// The name of a capture reads back as what it was made from: the title,
/// `_`, the month and the day on two digits each, the year, then `_q` and
/// the quality, with `-` between the parts of the date.
pub proof fn lemma_capture_stem_reads_back(title: Seq<char>, month: nat, day: nat, year: nat, quality: nat)
    requires
        month < 100,
        day < 100,
    ensures
        ({
            let s = capture_stem(title, month, day, year, quality);
            let l = title.len() as int;
            let ly = decimal(year).len() as int;
            &&& s.take(l) == title
            &&& s[l] == '_' && s[l + 3] == '-' && s[l + 6] == '-'
            &&& all_digits(s.subrange(l + 1, l + 3)) && digits_value(s.subrange(l + 1, l + 3)) == month
            &&& all_digits(s.subrange(l + 4, l + 6)) && digits_value(s.subrange(l + 4, l + 6)) == day
            &&& all_digits(s.subrange(l + 7, l + 7 + ly)) && digits_value(s.subrange(l + 7, l + 7 + ly))
                == year
            &&& s[l + 7 + ly] == '_' && s[l + 8 + ly] == 'q'
            &&& all_digits(s.skip(l + 9 + ly)) && digits_value(s.skip(l + 9 + ly)) == quality
        }),
{
    let s = capture_stem(title, month, day, year, quality);
    let l = title.len() as int;
    let ly = decimal(year).len() as int;
    lemma_two_digits(month);
    lemma_two_digits(day);
    lemma_decimal(year);
    lemma_decimal(quality);
    assert(s.take(l) =~= title);
    assert(s.subrange(l + 1, l + 3) =~= two_digits(month));
    assert(s.subrange(l + 4, l + 6) =~= two_digits(day));
    assert(s.subrange(l + 7, l + 7 + ly) =~= decimal(year));
    assert(s.skip(l + 9 + ly) =~= decimal(quality));
}

/// The folder of a month's captures reads back as the year, `-` and the
/// month on two digits.
pub proof fn lemma_month_dir_reads_back(year: nat, month: nat)
    requires
        month < 100,
    ensures
        ({
            let s = month_dir(year, month);
            let ly = decimal(year).len() as int;
            &&& all_digits(s.take(ly)) && digits_value(s.take(ly)) == year
            &&& s[ly] == '-'
            &&& s.len() == ly + 3
            &&& all_digits(s.skip(ly + 1)) && digits_value(s.skip(ly + 1)) == month
        }),
{
    let s = month_dir(year, month);
    let ly = decimal(year).len() as int;
    lemma_two_digits(month);
    lemma_decimal(year);
    assert(s.take(ly) =~= decimal(year));
    assert(s.skip(ly + 1) =~= two_digits(month));
}

} // verus!
