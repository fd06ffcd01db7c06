//! The settings of the tool: their defaults, how they are read from the
//! JSON settings file, and the text that is written back to it.

use vstd::prelude::*;
use crate::json::{
    Json, JsonValue, member_value, parse_text, quote, quoted, value_at, members_at, object_at,
    skip_ws, string_lit, insert_member, find_key, strip_bom, lemma_string_lit_quoted, is_ws,
    lemma_value_quoted, lemma_member_step,
};
use crate::decimal::{clamped_integer, integer_of_number, decimal, push_decimal, lemma_value_decimal, lemma_clamped_decimal};
use crate::text::{push_char, push_str, text_of_utf8};
use vstd::utf8::{valid_utf8, decode_utf8};

verus! {

/// The settings.
pub struct State {
    /// WebP quality: 0 to 99 is lossy, 100 is lossless.
    pub quality: u8,
    pub hotkey_fullscreen: String,
    pub hotkey_region: String,
    pub save_path: String,
    /// Width of the preview, in percent of the screen width; 0 turns it off.
    pub preview_percent: u8,
    pub preview_duration_ms: u32,
}

/// The model of the settings.
pub struct StateModel {
    pub quality: u8,
    pub hotkey_fullscreen: Seq<char>,
    pub hotkey_region: Seq<char>,
    pub save_path: Seq<char>,
    pub preview_percent: u8,
    pub preview_duration_ms: u32,
}

impl View for State {
    type V = StateModel;

    open spec fn view(&self) -> StateModel {
        StateModel {
            quality: self.quality,
            hotkey_fullscreen: self.hotkey_fullscreen@,
            hotkey_region: self.hotkey_region@,
            save_path: self.save_path@,
            preview_percent: self.preview_percent,
            preview_duration_ms: self.preview_duration_ms,
        }
    }
}

/// The settings used where the file does not give one.
pub open spec fn default_model() -> StateModel {
    StateModel {
        quality: 90,
        hotkey_fullscreen: "PrintScreen"@,
        hotkey_region: "Shift+PrintScreen"@,
        save_path: "%USERPROFILE%\\Pictures\\Screenshots"@,
        preview_percent: 40,
        preview_duration_ms: 2500,
    }
}

impl Default for State {
    fn default() -> (r: State)
        ensures
            r@ == default_model(),
    {
        State {
            quality: 90,
            hotkey_fullscreen: "PrintScreen".to_owned(),
            hotkey_region: "Shift+PrintScreen".to_owned(),
            save_path: "%USERPROFILE%\\Pictures\\Screenshots".to_owned(),
            preview_percent: 40,
            preview_duration_ms: 2500,
        }
    }
}

/// The text of number member `k` of an object, if it has one that is a number.
pub open spec fn number_member(v: JsonValue, k: Seq<char>) -> Option<Seq<char>> {
    match v {
        JsonValue::Object(m) => match member_value(m, k) {
            Some(JsonValue::Number(t)) => Some(t),
            _ => None,
        },
        _ => None,
    }
}

/// String member `k` of an object, if it has one that is a string.
pub open spec fn string_member(v: JsonValue, k: Seq<char>) -> Option<Seq<char>> {
    match v {
        JsonValue::Object(m) => match member_value(m, k) {
            Some(JsonValue::Str(t)) => Some(t),
            _ => None,
        },
        _ => None,
    }
}

/// The settings that a JSON value gives: each member that is there with the
/// right type, numbers read as the nearest double, limited to their range and
/// rounded toward zero, and the default for the rest.
pub open spec fn model_from_json(v: JsonValue) -> StateModel {
    let d = default_model();
    StateModel {
        quality: match number_member(v, "quality"@) {
            Some(t) => clamped_integer(t, 100) as u8,
            None => d.quality,
        },
        hotkey_fullscreen: match string_member(v, "hotkey_fullscreen"@) {
            Some(t) => t,
            None => d.hotkey_fullscreen,
        },
        hotkey_region: match string_member(v, "hotkey_region"@) {
            Some(t) => t,
            None => d.hotkey_region,
        },
        save_path: match string_member(v, "save_path"@) {
            Some(t) => t,
            None => d.save_path,
        },
        preview_percent: match number_member(v, "preview_percent"@) {
            Some(t) => clamped_integer(t, 100) as u8,
            None => d.preview_percent,
        },
        preview_duration_ms: match number_member(v, "preview_duration_ms"@) {
            Some(t) => clamped_integer(t, u32::MAX as nat) as u32,
            None => d.preview_duration_ms,
        },
    }
}

/// Number member `key` of `data`, limited to `0..=max`.
fn number_field(data: &Json, key: &str, max: u32) -> (r: Option<u32>)
    ensures
        match number_member(data.model(), key@) {
            Some(t) => r == Some(clamped_integer(t, max as nat) as u32),
            None => r is None,
        },
{
    match data.get(key) {
        Some(v) => match v.as_number() {
            Some(t) => Some(integer_of_number(t, max)),
            None => None,
        },
        None => None,
    }
}

/// String member `key` of `data`.
fn string_field(data: &Json, key: &str) -> (r: Option<String>)
    ensures
        match string_member(data.model(), key@) {
            Some(t) => r is Some && r->0@ == t,
            None => r is None,
        },
{
    match data.get(key) {
        Some(v) => match v.as_str() {
            Some(t) => Some(t.to_owned()),
            None => None,
        },
        None => None,
    }
}

/// The settings that a parsed settings file gives.
pub fn parse(data: &Json) -> (r: State)
    ensures
        r@ == model_from_json(data.model()),
{
    let default = State::default();
    let quality = match number_field(data, "quality", 100) {
        Some(n) => n as u8,
        None => default.quality,
    };
    let hotkey_fullscreen = match string_field(data, "hotkey_fullscreen") {
        Some(s) => s,
        None => default.hotkey_fullscreen,
    };
    let hotkey_region = match string_field(data, "hotkey_region") {
        Some(s) => s,
        None => default.hotkey_region,
    };
    let save_path = match string_field(data, "save_path") {
        Some(s) => s,
        None => default.save_path,
    };
    let preview_percent = match number_field(data, "preview_percent", 100) {
        Some(n) => n as u8,
        None => default.preview_percent,
    };
    let preview_duration_ms = match number_field(data, "preview_duration_ms", u32::MAX) {
        Some(n) => n,
        None => default.preview_duration_ms,
    };
    State {
        quality,
        hotkey_fullscreen,
        hotkey_region,
        save_path,
        preview_percent,
        preview_duration_ms,
    }
}

/// The settings that the text of the settings file gives (`None` when there
/// is no file), and whether the file should be written back: it is, unless
/// its text is not JSON, so that a broken file is left for its owner to mend.
pub fn load_text(text: Option<&str>) -> (r: (State, bool))
    ensures
        match text {
            None => r.0@ == default_model() && r.1,
            Some(t) => match parse_text(t@) {
                Some(v) => r.0@ == model_from_json(v) && r.1,
                None => r.0@ == default_model() && !r.1,
            },
        },
{
    match text {
        None => (State::default(), true),
        Some(t) => match Json::parse(t) {
            Ok(data) => (parse(&data), true),
            Err(_) => (State::default(), false),
        },
    }
}

/// The settings that the bytes of the settings file give (`None` when there
/// is no file), and whether the file should be written back. Bytes that are
/// not UTF-8 are not JSON: the defaults are used and the file is left as it is.
pub fn load_file(contents: Option<&[u8]>) -> (r: (State, bool))
    ensures
        match contents {
            None => r.0@ == default_model() && r.1,
            Some(b) => if !valid_utf8(b@) {
                r.0@ == default_model() && !r.1
            } else {
                match parse_text(decode_utf8(b@)) {
                    Some(v) => r.0@ == model_from_json(v) && r.1,
                    None => r.0@ == default_model() && !r.1,
                }
            },
        },
{
    match contents {
        None => load_text(None),
        Some(b) => match text_of_utf8(b) {
            Some(t) => load_text(Some(t)),
            None => (State::default(), false),
        },
    }
}

/// One member line of the settings file: an indented key, a colon, a value.
pub open spec fn member_chunk(key: Seq<char>, value: Seq<char>) -> Seq<char> {
    seq!['\n', ' ', ' '] + quoted(key) + seq![':', ' '] + value
}

/// The text that `to_text` writes for the settings `m`.
pub open spec fn state_text(m: StateModel) -> Seq<char> {
    seq!['{'] + member_chunk("quality"@, decimal(m.quality as nat)) + seq![','] + member_chunk(
        "hotkey_fullscreen"@,
        quoted(m.hotkey_fullscreen),
    ) + seq![','] + member_chunk("hotkey_region"@, quoted(m.hotkey_region)) + seq![',']
        + member_chunk("save_path"@, quoted(m.save_path)) + seq![','] + member_chunk(
        "preview_percent"@,
        decimal(m.preview_percent as nat),
    ) + seq![','] + member_chunk(
        "preview_duration_ms"@,
        decimal(m.preview_duration_ms as nat),
    ) + seq!['\n', '}', '\n']
}

/// Appends a member line whose value is a number.
fn push_number_member(out: &mut String, key: &str, n: u64)
    ensures
        final(out)@ == old(out)@ + member_chunk(key@, decimal(n as nat)),
{
    let ghost start = out@;
    push_char(out, '\n');
    push_char(out, ' ');
    push_char(out, ' ');
    let q = quote(key);
    push_str(out, q.as_str());
    push_char(out, ':');
    push_char(out, ' ');
    push_decimal(out, n);
    assert(out@ =~= start + member_chunk(key@, decimal(n as nat)));
}

/// Appends a member line whose value is a string.
fn push_string_member(out: &mut String, key: &str, value: &str)
    ensures
        final(out)@ == old(out)@ + member_chunk(key@, quoted(value@)),
{
    let ghost start = out@;
    push_char(out, '\n');
    push_char(out, ' ');
    push_char(out, ' ');
    let q = quote(key);
    push_str(out, q.as_str());
    push_char(out, ':');
    push_char(out, ' ');
    let v = quote(value);
    push_str(out, v.as_str());
    assert(out@ =~= start + member_chunk(key@, quoted(value@)));
}

/// The text of the settings file for `state`: one member per line, strings
/// quoted, numbers in decimal.
pub fn to_text(state: &State) -> (r: String)
    ensures
        r@ == state_text(state@),
{
    let mut out = String::new();
    push_char(&mut out, '{');
    assert(out@ =~= seq!['{']);
    push_number_member(&mut out, "quality", state.quality as u64);
    push_char(&mut out, ',');
    push_string_member(&mut out, "hotkey_fullscreen", state.hotkey_fullscreen.as_str());
    push_char(&mut out, ',');
    push_string_member(&mut out, "hotkey_region", state.hotkey_region.as_str());
    push_char(&mut out, ',');
    push_string_member(&mut out, "save_path", state.save_path.as_str());
    push_char(&mut out, ',');
    push_number_member(&mut out, "preview_percent", state.preview_percent as u64);
    push_char(&mut out, ',');
    push_number_member(&mut out, "preview_duration_ms", state.preview_duration_ms as u64);
    let ghost before = out@;
    push_char(&mut out, '\n');
    push_char(&mut out, '}');
    push_char(&mut out, '\n');
    assert(out@ =~= before + seq!['\n', '}', '\n']);
    out
}

/// The characters of a piece of `t`, one by one.
proof fn lemma_piece_at(t: Seq<char>, p: int, piece: Seq<char>)
    requires
        0 <= p,
        p + piece.len() <= t.len(),
        t.subrange(p, p + piece.len()) == piece,
    ensures
        forall|i: int| 0 <= i < piece.len() ==> t[p + i] == #[trigger] piece[i],
{
    assert forall|i: int| 0 <= i < piece.len() implies t[p + i] == #[trigger] piece[i] by {
        assert(t.subrange(p, p + piece.len())[i] == t[p + i]);
    }
}

/// The head of a member line: its blanks, quoted key, colon and blank all
/// read as they should, and the value starts right after them.
proof fn lemma_chunk_head(t: Seq<char>, p: int, key: Seq<char>, value: Seq<char>)
    requires
        0 <= p,
        p + member_chunk(key, value).len() <= t.len(),
        t.subrange(p, p + member_chunk(key, value).len()) == member_chunk(key, value),
    ensures
        skip_ws(t, p) == p + 3,
        string_lit(t, p + 3) == Some((key, p + 3 + quoted(key).len())),
        t[p + 3 + quoted(key).len()] == ':',
        is_ws(t[p + 4 + quoted(key).len()]),
        t.subrange(p + 5 + quoted(key).len(), p + member_chunk(key, value).len()) == value,
        member_chunk(key, value).len() == 5 + quoted(key).len() + value.len(),
{
    let ch = member_chunk(key, value);
    let qk = quoted(key);
    let lk = qk.len() as int;
    lemma_piece_at(t, p, ch);
    assert(ch[0] == '\n');
    assert(ch[1] == ' ');
    assert(ch[2] == ' ');
    assert(ch[3] == qk[0]);
    assert(qk[0] == '"');
    assert(t[p + 3] == ch[3]);
    reveal_with_fuel(skip_ws, 4);
    assert(skip_ws(t, p) == p + 3);
    assert(t.subrange(p + 3, p + 3 + lk) =~= qk) by {
        assert forall|i: int| 0 <= i < lk implies t.subrange(p + 3, p + 3 + lk)[i]
            == qk[i] by {
            assert(ch[3 + i] == qk[i]);
            assert(t[p + (3 + i)] == ch[3 + i]);
        }
    }
    lemma_string_lit_quoted(t, p + 3, key);
    assert(ch[3 + lk] == ':');
    assert(t[p + (3 + lk)] == ch[3 + lk]);
    assert(ch[4 + lk] == ' ');
    assert(t[p + (4 + lk)] == ch[4 + lk]);
    assert(t.subrange(p + 5 + lk, p + ch.len()) =~= value) by {
        assert forall|i: int| 0 <= i < value.len() implies t.subrange(
            p + 5 + lk,
            p + ch.len(),
        )[i] == value[i] by {
            assert(ch[5 + lk + i] == value[i]);
            assert(t[p + (5 + lk + i)] == ch[5 + lk + i]);
        }
    }
}

/// A member line whose value is a quoted string reads as that member.
proof fn lemma_string_chunk(
    t: Seq<char>,
    p: int,
    key: Seq<char>,
    s: Seq<char>,
    d: int,
    acc: Seq<(Seq<char>, JsonValue)>,
    c: int,
)
    requires
        0 <= p,
        p + member_chunk(key, quoted(s)).len() <= c < t.len(),
        t.subrange(p, p + member_chunk(key, quoted(s)).len()) == member_chunk(key, quoted(s)),
        skip_ws(t, p + member_chunk(key, quoted(s)).len()) == c,
    ensures
        t[c] == ',' ==> members_at(t, p, d, acc) == members_at(
            t,
            c + 1,
            d,
            insert_member(acc, key, JsonValue::Str(s)),
        ),
        t[c] == '}' ==> members_at(t, p, d, acc) == Some(
            (JsonValue::Object(insert_member(acc, key, JsonValue::Str(s))), c + 1),
        ),
{
    let qk = quoted(key);
    lemma_chunk_head(t, p, key, quoted(s));
    let j = p + 4 + qk.len();
    lemma_value_quoted(t, j, s, d);
    lemma_member_step(t, p, p + 3, d, acc, key, JsonValue::Str(s), j + 1 + quoted(s).len(), c);
}

/// A member line whose value is a decimal number reads as that member.
proof fn lemma_number_chunk(
    t: Seq<char>,
    p: int,
    key: Seq<char>,
    n: nat,
    d: int,
    acc: Seq<(Seq<char>, JsonValue)>,
    c: int,
)
    requires
        0 <= p,
        p + member_chunk(key, decimal(n)).len() <= c < t.len(),
        t.subrange(p, p + member_chunk(key, decimal(n)).len()) == member_chunk(key, decimal(n)),
        t[p + member_chunk(key, decimal(n)).len()] == ','
            || t[p + member_chunk(key, decimal(n)).len()] == '\n',
        skip_ws(t, p + member_chunk(key, decimal(n)).len()) == c,
    ensures
        t[c] == ',' ==> members_at(t, p, d, acc) == members_at(
            t,
            c + 1,
            d,
            insert_member(acc, key, JsonValue::Number(decimal(n))),
        ),
        t[c] == '}' ==> members_at(t, p, d, acc) == Some(
            (JsonValue::Object(insert_member(acc, key, JsonValue::Number(decimal(n)))), c + 1),
        ),
        members_at(t, p + 3, d, acc) == members_at(t, p, d, acc),
        skip_ws(t, p) == p + 3,
        t[p + 3] == '"',
{
    let qk = quoted(key);
    lemma_chunk_head(t, p, key, decimal(n));
    let j = p + 4 + qk.len();
    lemma_value_decimal(t, j, n, d);
    lemma_member_step(
        t,
        p,
        p + 3,
        d,
        acc,
        key,
        JsonValue::Number(decimal(n)),
        j + 1 + decimal(n).len(),
        c,
    );
    assert(t[p + 3] == '"');
    assert(skip_ws(t, p + 3) == p + 3);
    lemma_member_step(
        t,
        p + 3,
        p + 3,
        d,
        acc,
        key,
        JsonValue::Number(decimal(n)),
        j + 1 + decimal(n).len(),
        c,
    );
}

/// Where `x + y` starts `t`, `y` stands in `t` right after `x`.
proof fn lemma_prefix_piece(t: Seq<char>, x: Seq<char>, y: Seq<char>)
    requires
        x.len() + y.len() <= t.len(),
        t.take(x.len() + y.len() as int) == x + y,
    ensures
        t.take(x.len() as int) == x,
        t.subrange(x.len() as int, x.len() + y.len() as int) == y,
{
    let lx = x.len() as int;
    let ly = y.len() as int;
    assert forall|i: int| 0 <= i < lx implies t.take(lx)[i] == x[i] by {
        assert(t.take(lx + ly)[i] == (x + y)[i]);
    }
    assert(t.take(lx) =~= x);
    assert forall|i: int| 0 <= i < ly implies t.subrange(lx, lx + ly)[i] == y[i] by {
        assert(t.take(lx + ly)[lx + i] == (x + y)[lx + i]);
    }
    assert(t.subrange(lx, lx + ly) =~= y);
}

/// The keys of the settings file are told apart by their lengths.
proof fn lemma_key_lengths()
    ensures
        "quality"@.len() == 7,
        "hotkey_fullscreen"@.len() == 17,
        "hotkey_region"@.len() == 13,
        "save_path"@.len() == 9,
        "preview_percent"@.len() == 15,
        "preview_duration_ms"@.len() == 19,
{
    reveal_strlit("quality");
    reveal_strlit("hotkey_fullscreen");
    reveal_strlit("hotkey_region");
    reveal_strlit("save_path");
    reveal_strlit("preview_percent");
    reveal_strlit("preview_duration_ms");
}

/// The members of the settings file for `m`, in the order it writes them.
pub open spec fn state_members(m: StateModel) -> Seq<(Seq<char>, JsonValue)> {
    seq![
        ("quality"@, JsonValue::Number(decimal(m.quality as nat))),
        ("hotkey_fullscreen"@, JsonValue::Str(m.hotkey_fullscreen)),
        ("hotkey_region"@, JsonValue::Str(m.hotkey_region)),
        ("save_path"@, JsonValue::Str(m.save_path)),
        ("preview_percent"@, JsonValue::Number(decimal(m.preview_percent as nat))),
        ("preview_duration_ms"@, JsonValue::Number(decimal(m.preview_duration_ms as nat))),
    ]
}

/// Reading the members one after the other builds `state_members`: no key
/// comes twice.
proof fn lemma_state_members(m: StateModel)
    ensures
        insert_member(
            insert_member(
                insert_member(
                    insert_member(
                        insert_member(
                            insert_member(
                                Seq::empty(),
                                "quality"@,
                                JsonValue::Number(decimal(m.quality as nat)),
                            ),
                            "hotkey_fullscreen"@,
                            JsonValue::Str(m.hotkey_fullscreen),
                        ),
                        "hotkey_region"@,
                        JsonValue::Str(m.hotkey_region),
                    ),
                    "save_path"@,
                    JsonValue::Str(m.save_path),
                ),
                "preview_percent"@,
                JsonValue::Number(decimal(m.preview_percent as nat)),
            ),
            "preview_duration_ms"@,
            JsonValue::Number(decimal(m.preview_duration_ms as nat)),
        ) == state_members(m),
{
    lemma_key_lengths();
    let sm = state_members(m);
    reveal_with_fuel(find_key, 7);
    let m0: Seq<(Seq<char>, JsonValue)> = Seq::empty();
    let m1 = m0.push(sm[0]);
    assert(insert_member(m0, sm[0].0, sm[0].1) == m1);
    let m2 = m1.push(sm[1]);
    assert(find_key(m1, sm[1].0) is None);
    assert(insert_member(m1, sm[1].0, sm[1].1) == m2);
    let m3 = m2.push(sm[2]);
    assert(find_key(m2.drop_last(), sm[2].0) is None);
    assert(find_key(m2, sm[2].0) is None);
    let m4 = m3.push(sm[3]);
    assert(find_key(m3.drop_last().drop_last(), sm[3].0) is None);
    assert(find_key(m3.drop_last(), sm[3].0) is None);
    assert(find_key(m3, sm[3].0) is None);
    let m5 = m4.push(sm[4]);
    assert(find_key(m4.drop_last().drop_last().drop_last(), sm[4].0) is None);
    assert(find_key(m4.drop_last().drop_last(), sm[4].0) is None);
    assert(find_key(m4.drop_last(), sm[4].0) is None);
    assert(find_key(m4, sm[4].0) is None);
    assert(find_key(m5.drop_last().drop_last().drop_last().drop_last(), sm[5].0) is None);
    assert(find_key(m5.drop_last().drop_last().drop_last(), sm[5].0) is None);
    assert(find_key(m5.drop_last().drop_last(), sm[5].0) is None);
    assert(find_key(m5.drop_last(), sm[5].0) is None);
    assert(find_key(m5, sm[5].0) is None);
    assert(m5.push(sm[5]) =~= sm);
}

/// The settings that the members written for `m` give are `m` again.
proof fn lemma_state_model(m: StateModel)
    requires
        m.quality <= 100,
        m.preview_percent <= 100,
    ensures
        model_from_json(JsonValue::Object(state_members(m))) == m,
{
    lemma_key_lengths();
    let sm = state_members(m);
    reveal_with_fuel(find_key, 7);
    assert(member_value(sm, "quality"@) == Some(sm[0].1));
    assert(member_value(sm, "hotkey_fullscreen"@) == Some(sm[1].1));
    assert(member_value(sm, "hotkey_region"@) == Some(sm[2].1));
    assert(member_value(sm, "save_path"@) == Some(sm[3].1));
    assert(member_value(sm, "preview_percent"@) == Some(sm[4].1));
    assert(member_value(sm, "preview_duration_ms"@) == Some(sm[5].1));
    lemma_clamped_decimal(m.quality as nat, 100);
    lemma_clamped_decimal(m.preview_percent as nat, 100);
    lemma_clamped_decimal(m.preview_duration_ms as nat, u32::MAX as nat);
}

/// The text written for `m` reads as the object of `state_members(m)`.
#[verifier::rlimit(40)]
proof fn lemma_state_text_parses(m: StateModel)
    ensures
        parse_text(state_text(m)) == Some(JsonValue::Object(state_members(m))),
{
    let t = state_text(m);
    let dq = decimal(m.quality as nat);
    let dp = decimal(m.preview_percent as nat);
    let dd = decimal(m.preview_duration_ms as nat);
    let c1 = member_chunk("quality"@, dq);
    let c2 = member_chunk("hotkey_fullscreen"@, quoted(m.hotkey_fullscreen));
    let c3 = member_chunk("hotkey_region"@, quoted(m.hotkey_region));
    let c4 = member_chunk("save_path"@, quoted(m.save_path));
    let c5 = member_chunk("preview_percent"@, dp);
    let c6 = member_chunk("preview_duration_ms"@, dd);
    let comma = seq![','];
    let tail = seq!['\n', '}', '\n'];
    let b0 = seq!['{'];
    let a1 = b0 + c1;
    let b1 = a1 + comma;
    let a2 = b1 + c2;
    let b2 = a2 + comma;
    let a3 = b2 + c3;
    let b3 = a3 + comma;
    let a4 = b3 + c4;
    let b4 = a4 + comma;
    let a5 = b4 + c5;
    let b5 = a5 + comma;
    let a6 = b5 + c6;
    assert(t == a6 + tail);
    assert(t.take(t.len() as int) =~= t);
    lemma_prefix_piece(t, a6, tail);
    lemma_prefix_piece(t, b5, c6);
    lemma_prefix_piece(t, a5, comma);
    lemma_prefix_piece(t, b4, c5);
    lemma_prefix_piece(t, a4, comma);
    lemma_prefix_piece(t, b3, c4);
    lemma_prefix_piece(t, a3, comma);
    lemma_prefix_piece(t, b2, c3);
    lemma_prefix_piece(t, a2, comma);
    lemma_prefix_piece(t, b1, c2);
    lemma_prefix_piece(t, a1, comma);
    lemma_prefix_piece(t, b0, c1);
    let e6 = a6.len() as int;
    assert(t[e6] == '\n' && t[e6 + 1] == '}' && t[e6 + 2] == '\n') by {
        assert(t.subrange(e6, e6 + 3) == tail);
        assert(t.subrange(e6, e6 + 3)[0] == t[e6]);
        assert(t.subrange(e6, e6 + 3)[1] == t[e6 + 1]);
        assert(t.subrange(e6, e6 + 3)[2] == t[e6 + 2]);
    }
    assert forall|n: int| 0 <= n < t.len() && #[trigger] t.subrange(n, n + 1) == comma implies t[n]
        == ',' by {
        assert(t.subrange(n, n + 1)[0] == t[n]);
    }
    assert(t[a1.len() as int] == ',');
    assert(t[a2.len() as int] == ',');
    assert(t[a3.len() as int] == ',');
    assert(t[a4.len() as int] == ',');
    assert(t[a5.len() as int] == ',');
    assert(skip_ws(t, a1.len() as int) == a1.len());
    assert(skip_ws(t, a2.len() as int) == a2.len());
    assert(skip_ws(t, a3.len() as int) == a3.len());
    assert(skip_ws(t, a4.len() as int) == a4.len());
    assert(skip_ws(t, a5.len() as int) == a5.len());
    assert(skip_ws(t, e6 + 1) == e6 + 1);
    assert(skip_ws(t, e6) == e6 + 1);
    let acc0: Seq<(Seq<char>, JsonValue)> = Seq::empty();
    let acc1 = insert_member(acc0, "quality"@, JsonValue::Number(dq));
    let acc2 = insert_member(acc1, "hotkey_fullscreen"@, JsonValue::Str(m.hotkey_fullscreen));
    let acc3 = insert_member(acc2, "hotkey_region"@, JsonValue::Str(m.hotkey_region));
    let acc4 = insert_member(acc3, "save_path"@, JsonValue::Str(m.save_path));
    let acc5 = insert_member(acc4, "preview_percent"@, JsonValue::Number(dp));
    let acc6 = insert_member(acc5, "preview_duration_ms"@, JsonValue::Number(dd));
    lemma_number_chunk(t, 1, "quality"@, m.quality as nat, 1, acc0, a1.len() as int);
    lemma_string_chunk(
        t,
        b1.len() as int,
        "hotkey_fullscreen"@,
        m.hotkey_fullscreen,
        1,
        acc1,
        a2.len() as int,
    );
    lemma_string_chunk(
        t,
        b2.len() as int,
        "hotkey_region"@,
        m.hotkey_region,
        1,
        acc2,
        a3.len() as int,
    );
    lemma_string_chunk(t, b3.len() as int, "save_path"@, m.save_path, 1, acc3, a4.len() as int);
    lemma_number_chunk(
        t,
        b4.len() as int,
        "preview_percent"@,
        m.preview_percent as nat,
        1,
        acc4,
        a5.len() as int,
    );
    lemma_number_chunk(
        t,
        b5.len() as int,
        "preview_duration_ms"@,
        m.preview_duration_ms as nat,
        1,
        acc5,
        e6 + 1,
    );
    lemma_state_members(m);
    assert(members_at(t, 4, 1, acc0) == Some((JsonValue::Object(acc6), e6 + 2)));
    assert(t[0] == '{');
    assert(skip_ws(t, 0) == 0);
    assert(object_at(t, 0, 1) == Some((JsonValue::Object(acc6), e6 + 2)));
    assert(value_at(t, 0, 0) == Some((JsonValue::Object(acc6), e6 + 2)));
    assert(strip_bom(t) == t);
    reveal_with_fuel(skip_ws, 2);
    assert(skip_ws(t, e6 + 2) == t.len());
}

/// What `to_text` writes, read back by `load_text`, gives the same settings:
/// the text parses, as the object of the six members in order, and yields
/// `m` again, for every `m` whose quality and preview width are at most 100
/// (reading limits both to 100).
pub proof fn lemma_state_round_trip(m: StateModel)
    requires
        m.quality <= 100,
        m.preview_percent <= 100,
    ensures
        parse_text(state_text(m)) == Some(JsonValue::Object(state_members(m))),
        model_from_json(JsonValue::Object(state_members(m))) == m,
{
    lemma_state_text_parses(m);
    lemma_state_model(m);
}

} // verus!

verus! {

/// `std::path::PathBuf`, carried through as it is.
#[verifier::external_type_specification]
#[verifier::external_body]
pub struct ExPathBuf(std::path::PathBuf);

/// The folder that holds `path`, if any, as `Path::parent` gives it.
pub uninterp spec fn path_parent(path: std::path::PathBuf) -> Option<std::path::PathBuf>;

/// `name` taken from the folder `dir`, as `Path::join` gives it.
pub uninterp spec fn path_joined(dir: std::path::PathBuf, name: Seq<char>) -> std::path::PathBuf;

/// `Path::parent` (as an owned path): the folder that holds `path`, if any
/// (its result is named `path_parent`).
#[verifier::external_body]
pub(crate) fn parent_dir(path: &std::path::PathBuf) -> (r: Option<std::path::PathBuf>)
    ensures
        r == path_parent(*path),
{
    path.parent().map(std::path::Path::to_path_buf)
}

/// `Path::join`: `name` taken from the folder `dir` (a `name` that is an
/// absolute path stands for itself).
/// Its result is named `path_joined`.
#[verifier::external_body]
fn join_path(dir: &std::path::PathBuf, name: &str) -> (r: std::path::PathBuf)
    ensures
        r == path_joined(*dir, name@),
{
    dir.join(name)
}

/// The path that the text `name` spells, as `PathBuf::from` makes it.
pub uninterp spec fn path_spelled(name: Seq<char>) -> std::path::PathBuf;

/// `PathBuf::from`: the path spelled by `name` (its result is named
/// `path_spelled`; it only holds the text as it is).
#[verifier::external_body]
fn path_of(name: &str) -> (r: std::path::PathBuf)
    ensures
        r == path_spelled(name@),
{
    std::path::PathBuf::from(name)
}

/// The path of `name` next to the program, whose path is `exe`: `name`
/// joined to the program's folder (so a relative `name` resolves there and
/// an absolute one stands for itself); `name` alone when the program's path
/// is not known or has no folder.
pub open spec fn beside_program(exe: Option<std::path::PathBuf>, name: Seq<char>) -> std::path::PathBuf {
    match exe {
        Some(e) => match path_parent(e) {
            Some(d) => path_joined(d, name),
            None => path_spelled(name),
        },
        None => path_spelled(name),
    }
}

/// `name` taken from the folder of the program, whose path is `exe` (when
/// it is known); `name` alone when the program's path is not known, or has
/// no folder.
pub fn exe_dir_join(exe: Option<&std::path::PathBuf>, name: &str) -> (r: std::path::PathBuf)
    ensures
        r == beside_program(
            match exe {
                Some(e) => Some(*e),
                None => None,
            },
            name@,
        ),
{
    match exe {
        Some(exe) => match parent_dir(exe) {
            Some(dir) => join_path(&dir, name),
            None => path_of(name),
        },
        None => path_of(name),
    }
}

/// The settings file: `state.json` in the folder of the program, whose
/// path is `exe` (when it is known); `state.json` alone when it is not.
pub fn state_path(exe: Option<&std::path::PathBuf>) -> (r: std::path::PathBuf)
    ensures
        r == beside_program(
            match exe {
                Some(e) => Some(*e),
                None => None,
            },
            "state.json"@,
        ),
{
    exe_dir_join(exe, "state.json")
}

} // verus!
