//! Hotkey specifications such as `Ctrl+Alt+S`: the modifier flags and the
//! virtual-key code that the system registers for them.

use vstd::prelude::*;
use crate::text::{trimmed, upper, trim_chars, upper_chars, chars_equal, chars_of};
use crate::decimal::{all_digits, digits_value, capped_digits_value, decimal, lemma_decimal};

verus! {

/// Modifier flag of the Alt key (`MOD_ALT` of `RegisterHotKey`).
pub const MOD_ALT: u32 = 1;
/// Modifier flag of the Ctrl key (`MOD_CONTROL`).
pub const MOD_CONTROL: u32 = 2;
/// Modifier flag of the Shift key (`MOD_SHIFT`).
pub const MOD_SHIFT: u32 = 4;
/// Modifier flag of the Windows key (`MOD_WIN`).
pub const MOD_WIN: u32 = 8;
/// Virtual-key code of the Print Screen key (`VK_SNAPSHOT`).
pub const VK_SNAPSHOT: u32 = 0x2C;
/// Virtual-key code of F1 (`VK_F1`); F2 to F12 follow it.
pub const VK_F1: u32 = 0x70;

/// `s` cut at each `+`, as `str::split('+')` cuts it (empty pieces kept).
pub open spec fn split_plus(s: Seq<char>) -> Seq<Seq<char>>
    decreases s.len(),
{
    if s.len() == 0 {
        seq![Seq::empty()]
    } else {
        let p = split_plus(s.drop_last());
        if s.last() == '+' {
            p.push(Seq::empty())
        } else {
            p.update(p.len() - 1, p.last().push(s.last()))
        }
    }
}

/// The number that `t` spells as `u32::from_str` reads it: an optional `+`,
/// then at least one decimal digit, and a value that fits in a `u32`.
pub open spec fn u32_text_value(t: Seq<char>) -> Option<u32> {
    let d = if t.len() > 0 && t[0] == '+' {
        t.drop_first()
    } else {
        t
    };
    if d.len() > 0 && all_digits(d) && digits_value(d) <= u32::MAX {
        Some(digits_value(d) as u32)
    } else {
        None
    }
}

/// The names of the Print Screen key.
pub open spec fn is_print_screen_name(name: Seq<char>) -> bool {
    ||| name == "PRINTSCREEN"@
    ||| name == "PRTSC"@
    ||| name == "PRTSCN"@
    ||| name == "IMPR"@
    ||| name == "IMPRECR"@
}

pub open spec fn is_ascii_alphanumeric(c: char) -> bool {
    ||| ('0' <= c && c <= '9')
    ||| ('A' <= c && c <= 'Z')
    ||| ('a' <= c && c <= 'z')
}

/// The virtual-key code of an (uppercase) key name: Print Screen, `F1` to
/// `F12`, or one ASCII letter or digit, which is its own code. A name made
/// of `F` and a number out of 1 to 12 has none.
pub open spec fn key_code_of(name: Seq<char>) -> Option<u32> {
    if is_print_screen_name(name) {
        Some(VK_SNAPSHOT)
    } else if name.len() > 0 && name[0] == 'F' && u32_text_value(name.drop_first()) is Some {
        let n = u32_text_value(name.drop_first())->0;
        if 1 <= n <= 12 {
            Some((VK_F1 + n - 1) as u32)
        } else {
            None
        }
    } else if name.len() == 1 && is_ascii_alphanumeric(name[0]) {
        Some(name[0] as u32)
    } else {
        None
    }
}

/// The reading after one more piece of a specification: the modifiers so
/// far and the key, if one was named; `None` once the text is refused.
pub open spec fn read_piece(mods: u32, key: Option<u32>, piece: Seq<char>) -> Option<(u32, Option<u32>)> {
    let t = upper(trimmed(piece));
    if t.len() == 0 {
        Some((mods, key))
    } else if t == "CTRL"@ || t == "CONTROL"@ {
        Some((mods | MOD_CONTROL, key))
    } else if t == "ALT"@ {
        Some((mods | MOD_ALT, key))
    } else if t == "SHIFT"@ {
        Some((mods | MOD_SHIFT, key))
    } else if t == "WIN"@ || t == "WINDOWS"@ {
        Some((mods | MOD_WIN, key))
    } else if key is None {
        match key_code_of(t) {
            Some(code) => Some((mods, Some(code))),
            None => None,
        }
    } else {
        None
    }
}

/// The reading after the pieces `parts`, starting from `start`.
pub open spec fn read_from(start: Option<(u32, Option<u32>)>, parts: Seq<Seq<char>>) -> Option<
    (u32, Option<u32>),
>
    decreases parts.len(),
{
    if parts.len() == 0 {
        start
    } else {
        match read_from(start, parts.drop_last()) {
            Some((mods, key)) => read_piece(mods, key, parts.last()),
            None => None,
        }
    }
}

/// The reading after the pieces `parts`, from no modifier and no key.
pub open spec fn read_pieces(parts: Seq<Seq<char>>) -> Option<(u32, Option<u32>)> {
    read_from(Some((0, None)), parts)
}

/// The modifiers and key code that a specification names: pieces between
/// `+` signs, blanks around them ignored, letters in any case; each
/// modifier any number of times and exactly one key.
pub open spec fn hotkey_of(spec: Seq<char>) -> Option<(u32, u32)> {
    match read_pieces(split_plus(spec)) {
        Some((mods, Some(key))) => Some((mods, key)),
        _ => None,
    }
}

/// Reads `u32::from_str` on the characters `c`.
fn u32_of_chars(c: &Vec<char>, from: usize) -> (r: Option<u32>)
    requires
        from <= c@.len(),
    ensures
        r == u32_text_value(c@.skip(from as int)),
{
    let ghost t = c@.skip(from as int);
    let start = if from < c.len() && c[from] == '+' {
        from + 1
    } else {
        from
    };
    let ghost d = if t.len() > 0 && t[0] == '+' {
        t.drop_first()
    } else {
        t
    };
    assert(d =~= c@.subrange(start as int, c@.len() as int));
    if start == c.len() {
        return None;
    }
    let mut k = start;
    while k < c.len()
        invariant
            start <= k <= c@.len(),
            d == c@.subrange(start as int, c@.len() as int),
            t == c@.skip(from as int),
            d == (if t.len() > 0 && t[0] == '+' {
                t.drop_first()
            } else {
                t
            }),
            forall|i: int| start <= i < k ==> '0' <= #[trigger] c@[i] && c@[i] <= '9',
        decreases c@.len() - k,
    {
        if !('0' <= c[k] && c[k] <= '9') {
            assert(d[k - start] == c@[k as int]);
            assert(!all_digits(d));
            return None;
        }
        k = k + 1;
    }
    assert(all_digits(d)) by {
        assert forall|i: int| 0 <= i < d.len() implies '0' <= #[trigger] d[i] && d[i] <= '9' by {
            assert(d[i] == c@[start + i]);
        }
    }
    let v = capped_digits_value(c, start, c.len(), u32::MAX as u128 + 1);
    if v <= u32::MAX as u128 {
        Some(v as u32)
    } else {
        None
    }
}

/// The virtual-key code of the characters of an (uppercase) key name.
fn key_code_of_chars(name: &Vec<char>) -> (r: Option<u32>)
    ensures
        r == key_code_of(name@),
{
    if chars_equal(name, "PRINTSCREEN") || chars_equal(name, "PRTSC") || chars_equal(name, "PRTSCN")
        || chars_equal(name, "IMPR") || chars_equal(name, "IMPRECR") {
        return Some(VK_SNAPSHOT);
    }
    if name.len() > 0 && name[0] == 'F' {
        assert(name@.drop_first() =~= name@.skip(1));
        match u32_of_chars(name, 1) {
            Some(n) => {
                if 1 <= n && n <= 12 {
                    return Some(VK_F1 + n - 1);
                } else {
                    return None;
                }
            },
            None => {},
        }
    }
    if name.len() == 1 {
        let c = name[0];
        if ('0' <= c && c <= '9') || ('A' <= c && c <= 'Z') || ('a' <= c && c <= 'z') {
            return Some(c as u32);
        }
    }
    None
}

/// The virtual-key code of an (uppercase) key name: Print Screen
/// (`PRINTSCREEN`, `PRTSC`, `PRTSCN`, `IMPR`, `IMPRECR`), `F1` to `F12`, or
/// one ASCII letter or digit.
pub fn key_code(name: &str) -> (r: Option<u32>)
    ensures
        r == key_code_of(name@),
{
    let c = chars_of(name);
    key_code_of_chars(&c)
}

/// One step of `read_pieces`.
fn read_piece_exec(mods: u32, key: Option<u32>, piece: &Vec<char>) -> (r: Option<(u32, Option<u32>)>)
    ensures
        r == read_piece(mods, key, piece@),
{
    let t = upper_chars(&trim_chars(piece));
    if t.len() == 0 {
        Some((mods, key))
    } else if chars_equal(&t, "CTRL") || chars_equal(&t, "CONTROL") {
        Some((mods | MOD_CONTROL, key))
    } else if chars_equal(&t, "ALT") {
        Some((mods | MOD_ALT, key))
    } else if chars_equal(&t, "SHIFT") {
        Some((mods | MOD_SHIFT, key))
    } else if chars_equal(&t, "WIN") || chars_equal(&t, "WINDOWS") {
        Some((mods | MOD_WIN, key))
    } else if key.is_none() {
        match key_code_of_chars(&t) {
            Some(code) => Some((mods, Some(code))),
            None => None,
        }
    } else {
        None
    }
}

/// The modifier flags and virtual-key code that a hotkey specification such
/// as `Ctrl+Alt+S` names, or `None` if it names no key, more than one, or
/// something that is neither a modifier nor a key.
pub fn parse(spec: &str) -> (r: Option<(u32, u32)>)
    ensures
        r == hotkey_of(spec@),
{
    let c = chars_of(spec);
    let mut state: Option<(u32, Option<u32>)> = Some((0, None));
    let mut cur: Vec<char> = Vec::new();
    let ghost mut done: Seq<Seq<char>> = Seq::empty();
    let mut k: usize = 0;
    assert(c@.take(0) =~= Seq::<char>::empty());
    while k < c.len()
        invariant
            k <= c@.len(),
            c@ == spec@,
            split_plus(c@.take(k as int)) == done.push(cur@),
            state == read_pieces(done),
        decreases c@.len() - k,
    {
        let ch = c[k];
        assert(c@.take(k + 1).drop_last() =~= c@.take(k as int));
        if ch == '+' {
            state = match state {
                Some((m, key)) => read_piece_exec(m, key, &cur),
                None => None,
            };
            proof {
                assert(done.push(cur@).drop_last() =~= done);
                done = done.push(cur@);
            }
            cur = Vec::new();
            assert(split_plus(c@.take(k + 1)) =~= done.push(cur@));
        } else {
            let ghost before = cur@;
            cur.push(ch);
            assert(split_plus(c@.take(k + 1)) =~= done.push(cur@));
        }
        k = k + 1;
    }
    assert(c@.take(c@.len() as int) =~= c@);
    let last = match state {
        Some((m, key)) => read_piece_exec(m, key, &cur),
        None => None,
    };
    assert(done.push(cur@).drop_last() =~= done);
    assert(read_pieces(done.push(cur@)) == last);
    match last {
        Some((mods, Some(key))) => Some((mods, key)),
        _ => None,
    }
}

} // verus!

verus! {

/// Flag that keeps a held-down hotkey from repeating (`MOD_NOREPEAT`).
pub const MOD_NOREPEAT: u32 = 0x4000;

/// The identifier under which the full-screen hotkey is registered.
pub const ID_FULLSCREEN: i32 = 1;
/// The identifier under which the region hotkey is registered.
pub const ID_REGION: i32 = 2;

/// The two hotkeys of the tool.
#[derive(Clone, Copy, PartialEq, Eq, Structural, Debug)]
pub enum Hotkey {
    Fullscreen,
    Region,
}

/// The hotkey that a `WM_HOTKEY` message with identifier `id` reports.
pub fn hotkey_for_id(id: i32) -> (r: Option<Hotkey>)
    ensures
        id == ID_FULLSCREEN ==> r == Some(Hotkey::Fullscreen),
        id == ID_REGION ==> r == Some(Hotkey::Region),
        id != ID_FULLSCREEN && id != ID_REGION ==> r is None,
{
    if id == ID_FULLSCREEN {
        Some(Hotkey::Fullscreen)
    } else if id == ID_REGION {
        Some(Hotkey::Region)
    } else {
        None
    }
}

/// What is handed to the system for a parsed hotkey: its modifiers with
/// `MOD_NOREPEAT`, and its key.
pub open spec fn registered_as(h: (u32, u32)) -> (u32, u32) {
    (h.0 | MOD_NOREPEAT, h.1)
}

/// The modifiers (with `MOD_NOREPEAT`) and keys to register for the two
/// hotkey specifications, or `None` (and nothing is registered) unless both
/// are valid.
pub fn registrations(fullscreen: &str, region: &str) -> (r: Option<((u32, u32), (u32, u32))>)
    ensures
        match (hotkey_of(fullscreen@), hotkey_of(region@)) {
            (Some(f), Some(g)) => r == Some((registered_as(f), registered_as(g))),
            _ => r is None,
        },
{
    match (parse(fullscreen), parse(region)) {
        (Some((fs_mods, fs_key)), Some((rg_mods, rg_key))) => Some(
            ((fs_mods | MOD_NOREPEAT, fs_key), (rg_mods | MOD_NOREPEAT, rg_key)),
        ),
        _ => None,
    }
}

} // verus!

verus! {

/// The names of the modifiers are not empty.
proof fn lemma_modifier_names()
    ensures
        "CTRL"@.len() == 4,
        "CONTROL"@.len() == 7,
        "ALT"@.len() == 3,
        "SHIFT"@.len() == 5,
        "WIN"@.len() == 3,
        "WINDOWS"@.len() == 7,
{
    reveal_strlit("CTRL");
    reveal_strlit("CONTROL");
    reveal_strlit("ALT");
    reveal_strlit("SHIFT");
    reveal_strlit("WIN");
    reveal_strlit("WINDOWS");
}

/// The flag of a modifier's (uppercase) name.
pub open spec fn modifier_flag(t: Seq<char>) -> Option<u32> {
    if t == "CTRL"@ || t == "CONTROL"@ {
        Some(MOD_CONTROL)
    } else if t == "ALT"@ {
        Some(MOD_ALT)
    } else if t == "SHIFT"@ {
        Some(MOD_SHIFT)
    } else if t == "WIN"@ || t == "WINDOWS"@ {
        Some(MOD_WIN)
    } else {
        None
    }
}

proof fn lemma_split_plus_len(s: Seq<char>)
    ensures
        split_plus(s).len() >= 1,
    decreases s.len(),
{
    if s.len() > 0 {
        lemma_split_plus_len(s.drop_last());
    }
}

proof fn lemma_split_plus_single(s: Seq<char>)
    requires
        forall|i: int| 0 <= i < s.len() ==> s[i] != '+',
    ensures
        split_plus(s) == seq![s],
    decreases s.len(),
{
    if s.len() > 0 {
        lemma_split_plus_single(s.drop_last());
        assert(s.drop_last().push(s.last()) =~= s);
        assert(seq![s.drop_last()].update(0, s.drop_last().push(s.last())) =~= seq![s]);
    } else {
        assert(s =~= Seq::<char>::empty());
    }
}

/// Cutting `a + "+" + b` gives the pieces of `a`, then those of `b`.
proof fn lemma_split_plus_concat(a: Seq<char>, b: Seq<char>)
    ensures
        split_plus(a + seq!['+'] + b) == split_plus(a) + split_plus(b),
    decreases b.len(),
{
    let s = a + seq!['+'] + b;
    if b.len() == 0 {
        assert(s.drop_last() =~= a);
        assert(s =~= a + seq!['+']);
        assert(split_plus(a).push(Seq::empty()) =~= split_plus(a) + seq![Seq::<char>::empty()]);
    } else {
        let b2 = b.drop_last();
        assert(s.drop_last() =~= a + seq!['+'] + b2);
        lemma_split_plus_concat(a, b2);
        lemma_split_plus_len(b2);
        let p = split_plus(a) + split_plus(b2);
        assert(s.last() == b.last());
        if b.last() == '+' {
            assert(p.push(Seq::empty()) =~= split_plus(a) + split_plus(b2).push(Seq::empty()));
        } else {
            let q = split_plus(b2);
            assert(p.update(p.len() - 1, p.last().push(b.last())) =~= split_plus(a) + q.update(
                q.len() - 1,
                q.last().push(b.last()),
            ));
        }
    }
}

/// Reading `p + q` is reading `q` after `p`.
proof fn lemma_read_from_concat(start: Option<(u32, Option<u32>)>, p: Seq<Seq<char>>, q: Seq<Seq<char>>)
    ensures
        read_from(start, p + q) == read_from(read_from(start, p), q),
    decreases q.len(),
{
    if q.len() == 0 {
        assert(p + q =~= p);
    } else {
        assert((p + q).drop_last() =~= p + q.drop_last());
        assert((p + q).last() == q.last());
        lemma_read_from_concat(start, p, q.drop_last());
    }
}

/// Starting with modifiers `m` instead of none adds `m` to what is read.
proof fn lemma_read_from_shift(m: u32, q: Seq<Seq<char>>)
    ensures
        match read_from(Some((0, None)), q) {
            Some((mq, kq)) => read_from(Some((m, None)), q) == Some((m | mq, kq)),
            None => read_from(Some((m, None)), q) is None,
        },
    decreases q.len(),
{
    if q.len() == 0 {
        assert(m | 0u32 == m) by (bit_vector);
    } else {
        lemma_read_from_shift(m, q.drop_last());
        match read_from(Some((0, None)), q.drop_last()) {
            Some((mq, kq)) => {
                assert(m | (mq | MOD_CONTROL) == (m | mq) | MOD_CONTROL) by (bit_vector);
                assert(m | (mq | MOD_ALT) == (m | mq) | MOD_ALT) by (bit_vector);
                assert(m | (mq | MOD_SHIFT) == (m | mq) | MOD_SHIFT) by (bit_vector);
                assert(m | (mq | MOD_WIN) == (m | mq) | MOD_WIN) by (bit_vector);
            },
            None => {},
        }
    }
}

/// A modifier written in front of a specification, with a `+`, adds its
/// flag and changes nothing else: so any combination of `Ctrl`, `Alt`,
/// `Shift` and `Win` (any case, blanks around) goes in front of a key.
pub proof fn lemma_modifier_prefix(w: Seq<char>, s: Seq<char>)
    requires
        forall|i: int| 0 <= i < w.len() ==> w[i] != '+',
        modifier_flag(upper(trimmed(w))) is Some,
    ensures
        hotkey_of(w + seq!['+'] + s) == match hotkey_of(s) {
            Some((m, k)) => Some((modifier_flag(upper(trimmed(w)))->0 | m, k)),
            None => None,
        },
{
    let f = modifier_flag(upper(trimmed(w)))->0;
    lemma_modifier_names();
    lemma_split_plus_concat(w, s);
    lemma_split_plus_single(w);
    lemma_read_from_concat(Some((0, None)), seq![w], split_plus(s));
    assert(seq![w].drop_last() =~= Seq::<Seq<char>>::empty());
    assert(0u32 | MOD_CONTROL == MOD_CONTROL) by (bit_vector);
    assert(0u32 | MOD_ALT == MOD_ALT) by (bit_vector);
    assert(0u32 | MOD_SHIFT == MOD_SHIFT) by (bit_vector);
    assert(0u32 | MOD_WIN == MOD_WIN) by (bit_vector);
    assert(read_from(Some((0, None)), seq![w]) == Some((f, None::<u32>))) by {
        reveal_with_fuel(read_from, 2);
        assert(seq![w].last() == w);
    }
    lemma_read_from_shift(f, split_plus(s));
}

/// `F1` to `F12` name the function keys, in order from `VK_F1`: `F` then
/// a number `n` from 1 to 12 is the key code `VK_F1 + n - 1`.
pub proof fn lemma_function_keys(n: nat)
    requires
        1 <= n <= 12,
    ensures
        key_code_of(seq!['F'] + decimal(n)) == Some((VK_F1 + n - 1) as u32),
{
    let name = seq!['F'] + decimal(n);
    lemma_decimal(n);
    lemma_not_print_screen(name);
    assert(name.drop_first() =~= decimal(n));
    assert('0' <= decimal(n)[0] <= '9');
}

/// A single ASCII letter or digit is its own key code.
pub proof fn lemma_single_key(c: char)
    requires
        is_ascii_alphanumeric(c),
    ensures
        key_code_of(seq![c]) == Some(c as u32),
{
    let name = seq![c];
    lemma_not_print_screen(name);
    if c == 'F' {
        assert(name.drop_first() =~= Seq::<char>::empty());
    }
}

/// No name of the Print Screen key starts with `F`, and none is one
/// character long.
proof fn lemma_not_print_screen(name: Seq<char>)
    requires
        name.len() == 1 || (name.len() > 0 && name[0] == 'F'),
    ensures
        !is_print_screen_name(name),
{
    reveal_strlit("PRINTSCREEN");
    reveal_strlit("PRTSC");
    reveal_strlit("PRTSCN");
    reveal_strlit("IMPR");
    reveal_strlit("IMPRECR");
    if name == "PRINTSCREEN"@ || name == "PRTSC"@ || name == "PRTSCN"@ || name == "IMPR"@ || name
        == "IMPRECR"@ {
        assert(name[0] == 'P' || name[0] == 'I');
    }
}

/// A key name alone (any case, blanks around, no `+`) is a hotkey without
/// modifiers.
pub proof fn lemma_key_alone(s: Seq<char>)
    requires
        forall|i: int| 0 <= i < s.len() ==> s[i] != '+',
        upper(trimmed(s)).len() > 0,
        modifier_flag(upper(trimmed(s))) is None,
        key_code_of(upper(trimmed(s))) is Some,
    ensures
        hotkey_of(s) == Some((0u32, key_code_of(upper(trimmed(s)))->0)),
{
    lemma_split_plus_single(s);
    assert(seq![s].drop_last() =~= Seq::<Seq<char>>::empty());
    assert(read_from(Some((0, None)), seq![s]) == read_piece(0, None, s)) by {
        reveal_with_fuel(read_from, 2);
        assert(seq![s].last() == s);
    }
}

} // verus!

verus! {

/// What follows an answer of the system while the two hotkeys are
/// registered: the full-screen one first, then the region one.
#[derive(Clone, Copy, PartialEq, Eq, Structural, Debug)]
pub enum RegistrationStep {
    /// Register the region hotkey next.
    RegisterRegion,
    /// Let go of the full-screen hotkey, which was taken; nothing stays
    /// registered and registering failed.
    UndoFullscreen,
    /// Registering is over: whether both hotkeys are held.
    Finished(bool),
}

/// The step after the system answered `accepted` for `hotkey`: a refused
/// full-screen hotkey ends it, a refused region hotkey has the full-screen
/// one let go, and both accepted end it with success.
pub fn after_registering(hotkey: Hotkey, accepted: bool) -> (r: RegistrationStep)
    ensures
        hotkey == Hotkey::Fullscreen && accepted ==> r == RegistrationStep::RegisterRegion,
        hotkey == Hotkey::Fullscreen && !accepted ==> r == RegistrationStep::Finished(false),
        hotkey == Hotkey::Region && accepted ==> r == RegistrationStep::Finished(true),
        hotkey == Hotkey::Region && !accepted ==> r == RegistrationStep::UndoFullscreen,
{
    match hotkey {
        Hotkey::Fullscreen => if accepted {
            RegistrationStep::RegisterRegion
        } else {
            RegistrationStep::Finished(false)
        },
        Hotkey::Region => if accepted {
            RegistrationStep::Finished(true)
        } else {
            RegistrationStep::UndoFullscreen
        },
    }
}

} // verus!
