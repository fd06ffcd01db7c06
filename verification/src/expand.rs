//! The save path of the settings: `%NAME%` variables replaced by their
//! values, and `%USERPROFILE%` followed by one of the user's known folders
//! replaced by where that folder really is (it may have been moved).

use vstd::prelude::*;
use crate::text::{upper, chars_of, push_char, push_str, upper_chars};

verus! {

broadcast use vstd::std_specs::vec::group_vec_axioms;

/// The number of known folders.
pub const KNOWN_FOLDER_COUNT: usize = 6;

/// The name of the `k`-th known folder, as it is written after
/// `%USERPROFILE%`.
pub open spec fn folder_name(k: int) -> Seq<char> {
    if k == 0 {
        "Desktop"@
    } else if k == 1 {
        "Documents"@
    } else if k == 2 {
        "Downloads"@
    } else if k == 3 {
        "Music"@
    } else if k == 4 {
        "Pictures"@
    } else {
        "Videos"@
    }
}

/// The name of the `k`-th known folder: Desktop, Documents, Downloads,
/// Music, Pictures, Videos.
pub fn known_folder_name(k: usize) -> (r: &'static str)
    requires
        k < KNOWN_FOLDER_COUNT,
    ensures
        r@ == folder_name(k as int),
{
    if k == 0 {
        "Desktop"
    } else if k == 1 {
        "Documents"
    } else if k == 2 {
        "Downloads"
    } else if k == 3 {
        "Music"
    } else if k == 4 {
        "Pictures"
    } else {
        "Videos"
    }
}

/// The names of the known folders are short.
pub proof fn lemma_folder_name_len(k: int)
    ensures
        1 <= folder_name(k).len() <= 9,
{
    reveal_strlit("Desktop");
    reveal_strlit("Documents");
    reveal_strlit("Downloads");
    reveal_strlit("Music");
    reveal_strlit("Pictures");
    reveal_strlit("Videos");
}

pub open spec fn is_separator(c: char) -> bool {
    c == '\\' || c == '/'
}

/// Whether `a` and `b` are equal but for the case of ASCII letters.
pub open spec fn same_ignoring_ascii_case(a: Seq<char>, b: Seq<char>) -> bool {
    upper(a) == upper(b)
}

/// Whether known folder `k` is named at position `i` of `s`: its name, in
/// any case, then the end or a separator.
pub open spec fn folder_named_at(s: Seq<char>, i: int, k: int) -> bool {
    let name = folder_name(k);
    &&& 0 <= i
    &&& i + name.len() <= s.len()
    &&& same_ignoring_ascii_case(s.subrange(i, i + name.len()), name)
    &&& (i + name.len() == s.len() || is_separator(s[i + name.len()]))
}

/// The first known folder from the `k`-th on that is named at position
/// `i` of `s` and whose place is known (`folders[k]`): its place, and how
/// many characters its name takes with the separator before it.
pub open spec fn folder_from(s: Seq<char>, i: int, folders: Seq<Option<String>>, k: int) -> Option<
    (Seq<char>, int),
>
    decreases KNOWN_FOLDER_COUNT - k,
{
    if k < 0 || k >= KNOWN_FOLDER_COUNT {
        None
    } else if folder_named_at(s, i, k) && k < folders.len() && folders[k] is Some {
        Some((folders[k]->0@, 1 + folder_name(k).len() as int))
    } else {
        folder_from(s, i, folders, k + 1)
    }
}

/// A known folder right after position `i` of `s` (which must hold a
/// separator): its place and how many characters it takes.
pub open spec fn folder_after(s: Seq<char>, i: int, folders: Seq<Option<String>>) -> Option<(Seq<char>, int)> {
    if 0 <= i < s.len() && is_separator(s[i]) {
        folder_from(s, i + 1, folders, 0)
    } else {
        None
    }
}

/// The value given for variable `name` in `env`: the first entry with
/// that name.
pub open spec fn env_lookup(env: Seq<(String, Option<String>)>, name: Seq<char>) -> Option<Seq<char>>
    decreases env.len(),
{
    if env.len() == 0 {
        None
    } else if env[0].0@ == name {
        match env[0].1 {
            Some(v) => Some(v@),
            None => None,
        }
    } else {
        env_lookup(env.drop_first(), name)
    }
}

/// The first position at or after `i` that holds `%`.
pub open spec fn find_percent(s: Seq<char>, i: int) -> Option<int>
    decreases s.len() - i,
{
    if i < 0 || i >= s.len() {
        None
    } else if s[i] == '%' {
        Some(i)
    } else {
        find_percent(s, i + 1)
    }
}

pub proof fn lemma_find_percent(s: Seq<char>, i: int)
    requires
        0 <= i,
    ensures
        find_percent(s, i) matches Some(k) ==> i <= k < s.len() && s[k] == '%',
    decreases s.len() - i,
{
    if i < s.len() && s[i] != '%' {
        lemma_find_percent(s, i + 1);
    }
}

pub proof fn lemma_folder_from(s: Seq<char>, i: int, folders: Seq<Option<String>>, k: int)
    requires
        0 <= k,
    ensures
        folder_from(s, i, folders, k) matches Some((p, t)) ==> 1 <= t && i + t - 1 <= s.len(),
    decreases KNOWN_FOLDER_COUNT - k,
{
    if k < KNOWN_FOLDER_COUNT && !(folder_named_at(s, i, k) && k < folders.len() && folders[k] is Some) {
        lemma_folder_from(s, i, folders, k + 1);
    }
}

pub proof fn lemma_folder_after(s: Seq<char>, i: int, folders: Seq<Option<String>>)
    ensures
        folder_after(s, i, folders) matches Some((p, t)) ==> 1 <= t && i + t <= s.len(),
{
    lemma_folder_from(s, i + 1, folders, 0);
}

/// `s` from position `i` on with its variables expanded: each `%NAME%`
/// becomes the value of `NAME` in `env`, or stays as it is when `env` has
/// none; `%USERPROFILE%` (any case) followed by a separator and a known
/// folder whose place is known becomes that place instead; a `%` without a
/// closing one ends the expansion.
pub open spec fn expand_from(s: Seq<char>, env: Seq<(String, Option<String>)>, folders: Seq<Option<String>>, i: int) -> Seq<
    char,
>
    decreases s.len() - i,
{
    if i < 0 || i > s.len() {
        Seq::empty()
    } else {
        match find_percent(s, i) {
            None => s.subrange(i, s.len() as int),
            Some(start) => match find_percent(s, start + 1) {
                None => s.subrange(i, s.len() as int),
                Some(end) => {
                    proof {
                        lemma_find_percent(s, i);
                        lemma_find_percent(s, start + 1);
                    }
                    let name = s.subrange(start + 1, end);
                    let prefix = s.subrange(i, start);
                    if same_ignoring_ascii_case(name, "USERPROFILE"@) && folder_after(
                        s,
                        end + 1,
                        folders,
                    ) is Some {
                        let (place, taken) = folder_after(s, end + 1, folders)->0;
                        proof {
                            lemma_folder_after(s, end + 1, folders);
                        }
                        prefix + place + expand_from(s, env, folders, end + 1 + taken)
                    } else {
                        let value = match env_lookup(env, name) {
                            Some(v) => v,
                            None => seq!['%'] + name + seq!['%'],
                        };
                        prefix + value + expand_from(s, env, folders, end + 1)
                    }
                },
            },
        }
    }
}

/// The position of the first `%` at or after `i`.
fn find_percent_exec(c: &Vec<char>, i: usize) -> (r: Option<usize>)
    requires
        i <= c@.len(),
    ensures
        match find_percent(c@, i as int) {
            Some(k) => r == Some(k as usize),
            None => r is None,
        },
{
    let mut k = i;
    while k < c.len()
        invariant
            i <= k <= c@.len(),
            find_percent(c@, k as int) == find_percent(c@, i as int),
        decreases c@.len() - k,
    {
        if c[k] == '%' {
            return Some(k);
        }
        k = k + 1;
    }
    None
}

/// The characters `c[from..to]`.
fn chars_range(c: &Vec<char>, from: usize, to: usize) -> (r: Vec<char>)
    requires
        from <= to <= c@.len(),
    ensures
        r@ == c@.subrange(from as int, to as int),
{
    let mut r: Vec<char> = Vec::new();
    let mut k = from;
    while k < to
        invariant
            from <= k <= to <= c@.len(),
            r@ == c@.subrange(from as int, k as int),
        decreases to - k,
    {
        r.push(c[k]);
        assert(r@ =~= c@.subrange(from as int, k + 1));
        k = k + 1;
    }
    r
}

/// Appends the characters `c[from..to]`.
fn push_range(out: &mut String, c: &Vec<char>, from: usize, to: usize)
    requires
        from <= to <= c@.len(),
    ensures
        final(out)@ == old(out)@ + c@.subrange(from as int, to as int),
{
    let mut k = from;
    while k < to
        invariant
            from <= k <= to <= c@.len(),
            out@ == old(out)@ + c@.subrange(from as int, k as int),
        decreases to - k,
    {
        push_char(out, c[k]);
        assert(out@ =~= old(out)@ + c@.subrange(from as int, k + 1));
        k = k + 1;
    }
}

/// Whether the characters `c` equal `lit` but for the case of ASCII letters.
fn same_ignoring_case_exec(c: &Vec<char>, lit: &str) -> (r: bool)
    ensures
        r == same_ignoring_ascii_case(c@, lit@),
{
    let a = upper_chars(c);
    let l = chars_of(lit);
    let b = upper_chars(&l);
    if a.len() != b.len() {
        return false;
    }
    let mut k: usize = 0;
    while k < a.len()
        invariant
            a@ == upper(c@),
            b@ == upper(lit@),
            a@.len() == b@.len(),
            k <= a@.len(),
            forall|i: int| 0 <= i < k ==> a@[i] == b@[i],
        decreases a@.len() - k,
    {
        if a[k] != b[k] {
            assert(a@[k as int] != b@[k as int]);
            return false;
        }
        k = k + 1;
    }
    assert(a@ =~= b@);
    true
}

/// Whether known folder `k` is named at position `i` of `c`.
fn folder_named_at_exec(c: &Vec<char>, i: usize, k: usize) -> (r: bool)
    requires
        k < KNOWN_FOLDER_COUNT,
        i <= c@.len(),
    ensures
        r == folder_named_at(c@, i as int, k as int),
{
    let name = known_folder_name(k);
    let len = chars_of(name).len();
    if c.len() - i < len {
        return false;
    }
    let head = chars_range(c, i, i + len);
    if !same_ignoring_case_exec(&head, name) {
        return false;
    }
    i + len == c.len() || c[i + len] == '\\' || c[i + len] == '/'
}

/// The known folder named right after the separator at position `i` of
/// `c`, if its place is known: the place, and the characters it takes.
fn folder_after_exec(c: &Vec<char>, i: usize, folders: &Vec<Option<String>>) -> (r: Option<(String, usize)>)
    requires
        i <= c@.len(),
    ensures
        match folder_after(c@, i as int, folders@) {
            Some((place, taken)) => r matches Some((p, t)) && p@ == place && t == taken,
            None => r is None,
        },
{
    let n = c.len();
    if !(i < n && (c[i] == '\\' || c[i] == '/')) {
        return None;
    }
    let mut k: usize = 0;
    while k < KNOWN_FOLDER_COUNT
        invariant
            n == c@.len(),
            i < c@.len(),
            0 <= i < c@.len() && is_separator(c@[i as int]),
            k <= KNOWN_FOLDER_COUNT,
            folder_from(c@, i + 1, folders@, k as int) == folder_from(c@, i + 1, folders@, 0),
        decreases KNOWN_FOLDER_COUNT - k,
    {
        if folder_named_at_exec(c, i + 1, k) && k < folders.len() {
            match &folders[k] {
                Some(place) => {
                    proof {
                        lemma_folder_name_len(k as int);
                    }
                    let len = chars_of(known_folder_name(k)).len();
                    assert(folder_from(c@, i + 1, folders@, k as int) == Some((place@, 1 + len as int)));
                    return Some((place.clone(), 1 + len));
                },
                None => {},
            }
        }
        k = k + 1;
    }
    None
}

/// The place of the known folder named in `rest` after its first
/// character, a separator (as in `\Pictures\…` after `%USERPROFILE%`), and
/// how many characters that separator and the folder's name take.
/// `folders[k]` is where the `k`-th known folder is, when that is known.
pub fn known_folder_after_userprofile(rest: &str, folders: &Vec<Option<String>>) -> (r: Option<(String, usize)>)
    ensures
        match folder_after(rest@, 0, folders@) {
            Some((place, taken)) => r matches Some((p, t)) && p@ == place && t == taken,
            None => r is None,
        },
{
    let c = chars_of(rest);
    folder_after_exec(&c, 0, folders)
}

/// The value given for `name` in `env`.
fn env_lookup_exec(env: &Vec<(String, Option<String>)>, name: &Vec<char>) -> (r: Option<String>)
    ensures
        match env_lookup(env@, name@) {
            Some(v) => r matches Some(s) && s@ == v,
            None => r is None,
        },
{
    let mut j: usize = 0;
    assert(env@.skip(0) =~= env@);
    while j < env.len()
        invariant
            j <= env@.len(),
            env_lookup(env@.skip(j as int), name@) == env_lookup(env@, name@),
        decreases env@.len() - j,
    {
        assert(env@.skip(j as int).drop_first() =~= env@.skip(j + 1));
        assert(env@.skip(j as int)[0] == env@[j as int]);
        let key_chars = chars_of(env[j].0.as_str());
        if key_chars.len() == name.len() {
            let mut k: usize = 0;
            let mut same = true;
            while k < name.len()
                invariant
                    key_chars@.len() == name@.len(),
                    k <= name@.len(),
                    same == (forall|i: int| 0 <= i < k ==> key_chars@[i] == name@[i]),
                decreases name@.len() - k,
            {
                same = same && key_chars[k] == name[k];
                k = k + 1;
            }
            if same {
                assert(key_chars@ =~= name@);
                return match &env[j].1 {
                    Some(v) => Some(v.clone()),
                    None => None,
                };
            }
            assert(key_chars@ != name@) by {
                let i = choose|i: int| 0 <= i < name@.len() && key_chars@[i] != name@[i];
            }
        }
        j = j + 1;
    }
    assert(env@.skip(env@.len() as int) =~= Seq::empty());
    None
}

/// `path` with its variables expanded (see `expand_from`): `env` gives the
/// value of each variable named in it (`None`: not set), and `folders[k]`
/// where the `k`-th known folder is, when that is known.
pub fn expand_env(path: &str, env: &Vec<(String, Option<String>)>, folders: &Vec<Option<String>>) -> (r: String)
    ensures
        r@ == expand_from(path@, env@, folders@, 0),
{
    let c = chars_of(path);
    let n = c.len();
    let mut out = String::new();
    let mut i: usize = 0;
    loop
        invariant
            c@ == path@,
            n == c@.len(),
            i <= n,
            expand_from(c@, env@, folders@, 0) == out@ + expand_from(c@, env@, folders@, i as int),
        decreases n - i,
    {
        proof {
            lemma_find_percent(c@, i as int);
        }
        let start = match find_percent_exec(&c, i) {
            Some(k) => k,
            None => {
                push_range(&mut out, &c, i, n);
                return out;
            },
        };
        proof {
            lemma_find_percent(c@, start + 1);
        }
        let end = match find_percent_exec(&c, start + 1) {
            Some(k) => k,
            None => {
                push_range(&mut out, &c, i, n);
                return out;
            },
        };
        let name = chars_range(&c, start + 1, end);
        push_range(&mut out, &c, i, start);
        if same_ignoring_case_exec(&name, "USERPROFILE") {
            match folder_after_exec(&c, end + 1, folders) {
                Some((place, taken)) => {
                    proof {
                        lemma_folder_after(c@, end + 1, folders@);
                    }
                    push_str(&mut out, place.as_str());
                    i = end + 1 + taken;
                    continue;
                },
                None => {},
            }
        }
        match env_lookup_exec(env, &name) {
            Some(v) => push_str(&mut out, v.as_str()),
            None => {
                push_char(&mut out, '%');
                push_range(&mut out, &c, start + 1, end);
                push_char(&mut out, '%');
            },
        }
        i = end + 1;
    }
}

} // verus!

verus! {

/// The variables whose values `expand_from` looks up in `env`, in order:
/// those of each `%NAME%` pair, except a `%USERPROFILE%` that a known
/// folder replaces.
pub open spec fn names_from(s: Seq<char>, folders: Seq<Option<String>>, i: int) -> Seq<Seq<char>>
    decreases s.len() - i,
{
    if i < 0 || i > s.len() {
        Seq::empty()
    } else {
        match find_percent(s, i) {
            None => Seq::empty(),
            Some(start) => match find_percent(s, start + 1) {
                None => Seq::empty(),
                Some(end) => {
                    proof {
                        lemma_find_percent(s, i);
                        lemma_find_percent(s, start + 1);
                    }
                    let name = s.subrange(start + 1, end);
                    if same_ignoring_ascii_case(name, "USERPROFILE"@) && folder_after(
                        s,
                        end + 1,
                        folders,
                    ) is Some {
                        let (_, taken) = folder_after(s, end + 1, folders)->0;
                        proof {
                            lemma_folder_after(s, end + 1, folders);
                        }
                        names_from(s, folders, end + 1 + taken)
                    } else {
                        seq![name] + names_from(s, folders, end + 1)
                    }
                },
            },
        }
    }
}

/// The names of the variables that expanding `path` looks up, in order
/// (see `names_from`), given where the known folders are.
pub fn variable_names(path: &str, folders: &Vec<Option<String>>) -> (r: Vec<String>)
    ensures
        r@.len() == names_from(path@, folders@, 0).len(),
        forall|k: int| 0 <= k < r@.len() ==> #[trigger] r@[k]@ == names_from(path@, folders@, 0)[k],
{
    let c = chars_of(path);
    let n = c.len();
    let mut out: Vec<String> = Vec::new();
    let ghost mut seen: Seq<Seq<char>> = Seq::empty();
    let mut i: usize = 0;
    loop
        invariant
            c@ == path@,
            n == c@.len(),
            i <= n,
            names_from(c@, folders@, 0) == seen + names_from(c@, folders@, i as int),
            out@.len() == seen.len(),
            forall|k: int| 0 <= k < out@.len() ==> #[trigger] out@[k]@ == seen[k],
        decreases n - i,
    {
        proof {
            lemma_find_percent(c@, i as int);
        }
        let start = match find_percent_exec(&c, i) {
            Some(k) => k,
            None => {
                assert(seen + Seq::<Seq<char>>::empty() =~= seen);
                return out;
            },
        };
        proof {
            lemma_find_percent(c@, start + 1);
        }
        let end = match find_percent_exec(&c, start + 1) {
            Some(k) => k,
            None => {
                assert(seen + Seq::<Seq<char>>::empty() =~= seen);
                return out;
            },
        };
        let name = chars_range(&c, start + 1, end);
        if same_ignoring_case_exec(&name, "USERPROFILE") {
            match folder_after_exec(&c, end + 1, folders) {
                Some((_place, taken)) => {
                    proof {
                        lemma_folder_after(c@, end + 1, folders@);
                    }
                    i = end + 1 + taken;
                    continue;
                },
                None => {},
            }
        }
        let mut text = String::new();
        push_range(&mut text, &c, start + 1, end);
        out.push(text);
        proof {
            assert(seen + (seq![name@] + names_from(c@, folders@, end + 1)) =~= seen.push(name@)
                + names_from(c@, folders@, end + 1));
            seen = seen.push(name@);
        }
        i = end + 1;
    }
}

/// Expanding a path depends on the variables only through the values of
/// the names that `names_from` lists: two environments that agree on
/// those give the same expansion.
pub proof fn lemma_expansion_reads_only_named(
    s: Seq<char>,
    env1: Seq<(String, Option<String>)>,
    env2: Seq<(String, Option<String>)>,
    folders: Seq<Option<String>>,
    i: int,
)
    requires
        forall|k: int|
            0 <= k < names_from(s, folders, i).len() ==> env_lookup(env1, #[trigger] names_from(s, folders, i)[k])
                == env_lookup(env2, names_from(s, folders, i)[k]),
    ensures
        expand_from(s, env1, folders, i) == expand_from(s, env2, folders, i),
    decreases s.len() - i,
{
    if 0 <= i <= s.len() {
        lemma_find_percent(s, i);
        match find_percent(s, i) {
            None => {},
            Some(start) => {
                lemma_find_percent(s, start + 1);
                match find_percent(s, start + 1) {
                    None => {},
                    Some(end) => {
                        let name = s.subrange(start + 1, end);
                        if same_ignoring_ascii_case(name, "USERPROFILE"@) && folder_after(
                            s,
                            end + 1,
                            folders,
                        ) is Some {
                            let (_, taken) = folder_after(s, end + 1, folders)->0;
                            lemma_folder_after(s, end + 1, folders);
                            assert(names_from(s, folders, i) == names_from(s, folders, end + 1 + taken));
                            lemma_expansion_reads_only_named(s, env1, env2, folders, end + 1 + taken);
                        } else {
                            let rest = names_from(s, folders, end + 1);
                            assert(names_from(s, folders, i) == seq![name] + rest);
                            assert(env_lookup(env1, name) == env_lookup(env2, name)) by {
                                assert(names_from(s, folders, i)[0] == name);
                            }
                            assert forall|k: int| 0 <= k < rest.len() implies env_lookup(env1, #[trigger] rest[k])
                                == env_lookup(env2, rest[k]) by {
                                assert(names_from(s, folders, i)[k + 1] == rest[k]);
                            }
                            lemma_expansion_reads_only_named(s, env1, env2, folders, end + 1);
                        }
                    },
                }
            },
        }
    }
}

} // verus!

verus! {

/// A path whose variables all have no value, and where no known folder's
/// place is known, is left as it is: unknown variables keep their `%`
/// signs, and a `%` without a closing one stays.
pub proof fn lemma_expansion_keeps_unknown(
    s: Seq<char>,
    env: Seq<(String, Option<String>)>,
    folders: Seq<Option<String>>,
    i: int,
)
    requires
        0 <= i <= s.len(),
        forall|name: Seq<char>| env_lookup(env, name) is None,
        forall|k: int| 0 <= k < folders.len() ==> folders[k] is None,
    ensures
        expand_from(s, env, folders, i) == s.subrange(i, s.len() as int),
    decreases s.len() - i,
{
    lemma_find_percent(s, i);
    match find_percent(s, i) {
        None => {},
        Some(start) => {
            lemma_find_percent(s, start + 1);
            match find_percent(s, start + 1) {
                None => {},
                Some(end) => {
                    assert(folder_after(s, end + 1, folders) is None) by {
                        lemma_no_folder(s, end + 2, folders, 0);
                    }
                    let name = s.subrange(start + 1, end);
                    assert(env_lookup(env, name) is None);
                    lemma_expansion_keeps_unknown(s, env, folders, end + 1);
                    assert(s.subrange(i, s.len() as int) =~= s.subrange(i, start) + (seq!['%'] + name
                        + seq!['%']) + s.subrange(end + 1, s.len() as int));
                },
            }
        },
    }
}

proof fn lemma_no_folder(s: Seq<char>, i: int, folders: Seq<Option<String>>, k: int)
    requires
        0 <= k,
        forall|j: int| 0 <= j < folders.len() ==> folders[j] is None,
    ensures
        folder_from(s, i, folders, k) is None,
    decreases KNOWN_FOLDER_COUNT - k,
{
    if k < KNOWN_FOLDER_COUNT {
        lemma_no_folder(s, i, folders, k + 1);
    }
}

} // verus!

verus! {

/// Looking for `%` in `a + b` from inside `b` finds what looking in `b` finds.
proof fn lemma_find_percent_shift(a: Seq<char>, b: Seq<char>, j: int)
    requires
        0 <= j,
    ensures
        find_percent(a + b, a.len() + j) == match find_percent(b, j) {
            Some(k) => Some(k + a.len()),
            None => None,
        },
    decreases b.len() - j,
{
    if j < b.len() {
        assert((a + b)[a.len() + j] == b[j]);
        lemma_find_percent_shift(a, b, j + 1);
    }
}

/// The first `%` from `i` on is at `k` when `k` holds one and none stands
/// between.
proof fn lemma_find_percent_at(s: Seq<char>, i: int, k: int)
    requires
        0 <= i <= k < s.len(),
        s[k] == '%',
        forall|m: int| i <= m < k ==> s[m] != '%',
    ensures
        find_percent(s, i) == Some(k),
    decreases k - i,
{
    if i < k {
        lemma_find_percent_at(s, i + 1, k);
    }
}

/// Without `%` from `i` on, there is none to find.
proof fn lemma_find_percent_none(s: Seq<char>, i: int)
    requires
        0 <= i,
        forall|m: int| i <= m < s.len() ==> s[m] != '%',
    ensures
        find_percent(s, i) is None,
    decreases s.len() - i,
{
    if i < s.len() {
        lemma_find_percent_none(s, i + 1);
    }
}

proof fn lemma_folder_from_shift(a: Seq<char>, b: Seq<char>, j: int, folders: Seq<Option<String>>, k: int)
    requires
        0 <= j,
    ensures
        folder_from(a + b, a.len() + j, folders, k) == folder_from(b, j, folders, k),
    decreases KNOWN_FOLDER_COUNT - k,
{
    let s = a + b;
    let i = a.len() + j;
    let name = folder_name(k);
    if j + name.len() <= b.len() {
        assert(s.subrange(i, i + name.len()) =~= b.subrange(j, j + name.len()));
        if j + name.len() < b.len() {
            assert(s[i + name.len()] == b[j + name.len()]);
        }
    }
    assert(folder_named_at(s, i, k) == folder_named_at(b, j, k));
    if 0 <= k < KNOWN_FOLDER_COUNT {
        lemma_folder_from_shift(a, b, j, folders, k + 1);
    }
}

proof fn lemma_folder_after_shift(a: Seq<char>, b: Seq<char>, j: int, folders: Seq<Option<String>>)
    requires
        0 <= j,
    ensures
        folder_after(a + b, a.len() + j, folders) == folder_after(b, j, folders),
{
    if j < b.len() {
        assert((a + b)[a.len() + j] == b[j]);
        lemma_folder_from_shift(a, b, j + 1, folders, 0);
    }
}

/// Expanding `a + b` from a position inside `b` expands `b` from there.
pub proof fn lemma_expand_shift(
    a: Seq<char>,
    b: Seq<char>,
    env: Seq<(String, Option<String>)>,
    folders: Seq<Option<String>>,
    j: int,
)
    requires
        0 <= j,
    ensures
        expand_from(a + b, env, folders, a.len() + j) == expand_from(b, env, folders, j),
    decreases b.len() - j,
{
    let s = a + b;
    let n = a.len() as int;
    let i = n + j;
    if j <= b.len() {
        lemma_find_percent_shift(a, b, j);
        lemma_find_percent(b, j);
        match find_percent(b, j) {
            None => {
                assert(s.subrange(i, s.len() as int) =~= b.subrange(j, b.len() as int));
            },
            Some(start) => {
                lemma_find_percent_shift(a, b, start + 1);
                lemma_find_percent(b, start + 1);
                match find_percent(b, start + 1) {
                    None => {
                        assert(s.subrange(i, s.len() as int) =~= b.subrange(j, b.len() as int));
                    },
                    Some(end) => {
                        assert(s.subrange(n + start + 1, n + end) =~= b.subrange(start + 1, end));
                        assert(s.subrange(i, n + start) =~= b.subrange(j, start));
                        lemma_folder_after_shift(a, b, end + 1, folders);
                        let name = b.subrange(start + 1, end);
                        if same_ignoring_ascii_case(name, "USERPROFILE"@) && folder_after(b, end + 1, folders) is Some {
                            let (_, taken) = folder_after(b, end + 1, folders)->0;
                            lemma_folder_after(b, end + 1, folders);
                            lemma_expand_shift(a, b, env, folders, end + 1 + taken);
                        } else {
                            lemma_expand_shift(a, b, env, folders, end + 1);
                        }
                    },
                }
            },
        }
    }
}

/// Text without `%` is left as it is.
pub proof fn lemma_expand_plain(s: Seq<char>, env: Seq<(String, Option<String>)>, folders: Seq<Option<String>>)
    requires
        forall|m: int| 0 <= m < s.len() ==> s[m] != '%',
    ensures
        expand_from(s, env, folders, 0) == s,
{
    lemma_find_percent_none(s, 0);
    assert(s.subrange(0, s.len() as int) =~= s);
}

/// Expansion goes variable by variable: in `p%NAME%rest`, with no `%` in
/// `p` or `NAME` and `NAME` other than `USERPROFILE`, the variable becomes
/// its value (or stays as written when it has none), `p` stays, and `rest`
/// is expanded in turn, every variable in it too.
pub proof fn lemma_expand_one_variable(
    p: Seq<char>,
    name: Seq<char>,
    rest: Seq<char>,
    env: Seq<(String, Option<String>)>,
    folders: Seq<Option<String>>,
)
    requires
        forall|m: int| 0 <= m < p.len() ==> p[m] != '%',
        forall|m: int| 0 <= m < name.len() ==> name[m] != '%',
        !same_ignoring_ascii_case(name, "USERPROFILE"@),
    ensures
        expand_from(p + seq!['%'] + name + seq!['%'] + rest, env, folders, 0) == p + match env_lookup(
            env,
            name,
        ) {
            Some(v) => v,
            None => seq!['%'] + name + seq!['%'],
        } + expand_from(rest, env, folders, 0),
{
    let a = p + seq!['%'] + name + seq!['%'];
    let s = a + rest;
    assert(p + seq!['%'] + name + seq!['%'] + rest == s);
    let start = p.len() as int;
    let end = start + 1 + name.len();
    assert(s[start] == '%');
    assert forall|m: int| 0 <= m < start implies s[m] != '%' by {
        assert(s[m] == p[m]);
    }
    lemma_find_percent_at(s, 0, start);
    assert(s[end] == '%');
    assert forall|m: int| start + 1 <= m < end implies s[m] != '%' by {
        assert(s[m] == name[m - start - 1]);
    }
    lemma_find_percent_at(s, start + 1, end);
    assert(s.subrange(start + 1, end) =~= name);
    assert(s.subrange(0, start) =~= p);
    assert(a.len() == end + 1);
    lemma_expand_shift(a, rest, env, folders, 0);
}

/// `%USERPROFILE%` (any case) right before a separator and a known folder
/// whose place is known becomes that place, and what follows the folder's
/// name is expanded in turn.
pub proof fn lemma_expand_known_folder(
    p: Seq<char>,
    name: Seq<char>,
    rest: Seq<char>,
    env: Seq<(String, Option<String>)>,
    folders: Seq<Option<String>>,
)
    requires
        forall|m: int| 0 <= m < p.len() ==> p[m] != '%',
        forall|m: int| 0 <= m < name.len() ==> name[m] != '%',
        same_ignoring_ascii_case(name, "USERPROFILE"@),
        folder_after(rest, 0, folders) is Some,
    ensures
        ({
            let (place, taken) = folder_after(rest, 0, folders)->0;
            expand_from(p + seq!['%'] + name + seq!['%'] + rest, env, folders, 0) == p + place
                + expand_from(rest.skip(taken), env, folders, 0)
        }),
{
    let a = p + seq!['%'] + name + seq!['%'];
    let s = a + rest;
    assert(p + seq!['%'] + name + seq!['%'] + rest == s);
    let start = p.len() as int;
    let end = start + 1 + name.len();
    assert(s[start] == '%');
    assert forall|m: int| 0 <= m < start implies s[m] != '%' by {
        assert(s[m] == p[m]);
    }
    lemma_find_percent_at(s, 0, start);
    assert(s[end] == '%');
    assert forall|m: int| start + 1 <= m < end implies s[m] != '%' by {
        assert(s[m] == name[m - start - 1]);
    }
    lemma_find_percent_at(s, start + 1, end);
    assert(s.subrange(start + 1, end) =~= name);
    assert(s.subrange(0, start) =~= p);
    assert(a.len() == end + 1);
    lemma_folder_after_shift(a, rest, 0, folders);
    lemma_folder_after(rest, 0, folders);
    let (place, taken) = folder_after(rest, 0, folders)->0;
    lemma_expand_shift(a, rest, env, folders, taken);
    let b = rest.subrange(0, taken);
    let c = rest.skip(taken);
    assert(rest =~= b + c);
    lemma_expand_shift(b, c, env, folders, 0);
}

} // verus!
