//! The config file that marks a directory as an archive.
//!
//! Lines of the form `key = value`. Blank lines and lines that start with `#` say nothing, and of
//! several lines with one key the first one counts.

use crate::text;
use crate::text::{characters, decimal_text, trim_range};
use vstd::prelude::*;

verus! {

/// The version of the archive format that this library writes, and the newest that it reads.
pub const FORMAT_VERSION: u32 = 1;

/// Where the line that holds position `i` ends: at the next line feed, or at the end of the text.
pub open spec fn line_end(t: Seq<char>, i: int) -> int
    decreases t.len() - i,
{
    if i >= t.len() {
        t.len() as int
    } else if t[i] == '\n' {
        i
    } else {
        line_end(t, i + 1)
    }
}

/// A line ends at a line feed or at the end of the text, and holds no line feed.
pub proof fn lemma_line_end(t: Seq<char>, i: int)
    requires
        0 <= i <= t.len(),
    ensures
        i <= line_end(t, i) <= t.len(),
        forall|k: int| i <= k < line_end(t, i) ==> t[k] != '\n',
        line_end(t, i) < t.len() ==> t[line_end(t, i)] == '\n',
    decreases t.len() - i,
{
    if i < t.len() && t[i] != '\n' {
        lemma_line_end(t, i + 1);
    }
}

/// The first position from `i` on with an equals sign, or the length of the line.
pub open spec fn equals_sign(line: Seq<char>, i: int) -> int
    decreases line.len() - i,
{
    if i >= line.len() {
        line.len() as int
    } else if line[i] == '=' {
        i
    } else {
        equals_sign(line, i + 1)
    }
}

/// The value that a line gives to a key, if it is about that key.
pub open spec fn line_value(line: Seq<char>, key: Seq<char>) -> Option<Seq<char>> {
    let l = text::trim(line);
    let e = equals_sign(l, 0);
    if l.len() == 0 || l[0] == '#' || e >= l.len() {
        None
    } else if text::trim(l.subrange(0, e)) == key {
        Some(text::trim(l.subrange(e + 1, l.len() as int)))
    } else {
        None
    }
}

/// The value of a key in the lines from position `i` on.
pub open spec fn field_from(t: Seq<char>, i: int, key: Seq<char>) -> Option<Seq<char>>
    decreases t.len() - i,
{
    if i < 0 || i >= t.len() {
        None
    } else {
        let e = line_end(t, i);
        proof {
            lemma_line_end(t, i);
        }
        match line_value(t.subrange(i, e), key) {
            Some(v) => Some(v),
            None => if e < t.len() {
                field_from(t, e + 1, key)
            } else {
                None
            },
        }
    }
}

/// The value of a key in a config text.
pub open spec fn field_value(t: Seq<char>, key: Seq<char>) -> Option<Seq<char>> {
    field_from(t, 0, key)
}

/// The text of a fresh config file for the archive with this id.
pub open spec fn config_text(id: Seq<char>) -> Seq<char> {
    "version = "@ + text::decimal(FORMAT_VERSION as nat) + "\nid = "@ + id
        + "\nhash = sha256\n"@
}

/// Does a range of the characters spell this word?
fn spells(chars: &[char], start: usize, end: usize, word: &[char]) -> (same: bool)
    requires
        start <= end <= chars@.len(),
    ensures
        same == (chars@.subrange(start as int, end as int) == word@),
{
    let ghost part = chars@.subrange(start as int, end as int);
    if end - start != word.len() {
        return false;
    }
    let mut i: usize = 0;
    while i < word.len()
        invariant
            start <= end <= chars@.len(),
            end - start == word@.len(),
            part == chars@.subrange(start as int, end as int),
            i <= word.len(),
            forall|k: int| 0 <= k < i ==> part[k] == word@[k],
        decreases word.len() - i,
    {
        assert(part[i as int] == chars@[start + i]);
        if chars[start + i] != word[i] {
            return false;
        }
        i += 1;
    }
    assert(part =~= word@);
    true
}

/// The range of the value that a line gives to a key.
fn value_range(chars: &[char], start: usize, end: usize, key: &[char]) -> (range: Option<
    (usize, usize),
>)
    requires
        start <= end <= chars@.len(),
    ensures
        match range {
            Some(r) => r.0 <= r.1 <= chars@.len() && line_value(
                chars@.subrange(start as int, end as int),
                key@,
            ) == Some(chars@.subrange(r.0 as int, r.1 as int)),
            None => line_value(chars@.subrange(start as int, end as int), key@) is None,
        },
{
    let (a, z) = trim_range(chars, start, end);
    let ghost l = chars@.subrange(a as int, z as int);
    if a == z || chars[a] == '#' {
        return None;
    }
    let mut e = a;
    while e < z && chars[e] != '='
        invariant
            a <= e <= z <= chars@.len(),
            l == chars@.subrange(a as int, z as int),
            equals_sign(l, e - a) == equals_sign(l, 0),
        decreases z - e,
    {
        assert(l[e - a] == chars@[e as int]);
        e += 1;
    }
    if e == z {
        return None;
    }
    assert(l[e - a] == chars@[e as int]);
    assert(equals_sign(l, 0) == e - a);
    assert(l.subrange(0, e - a) =~= chars@.subrange(a as int, e as int));
    assert(l.subrange(e - a + 1, l.len() as int) =~= chars@.subrange(e + 1, z as int));
    let (ka, kz) = trim_range(chars, a, e);
    if spells(chars, ka, kz, key) {
        Some(trim_range(chars, e + 1, z))
    } else {
        None
    }
}

/// The range of the value of a key in a config text.
pub fn field_range(chars: &[char], key: &[char]) -> (range: Option<(usize, usize)>)
    ensures
        match range {
            Some(r) => r.0 <= r.1 <= chars@.len() && field_value(chars@, key@) == Some(
                chars@.subrange(r.0 as int, r.1 as int),
            ),
            None => field_value(chars@, key@) is None,
        },
{
    let n = chars.len();
    let mut i: usize = 0;
    while i < n
        invariant
            n == chars@.len(),
            i <= n,
            field_from(chars@, i as int, key@) == field_value(chars@, key@),
        decreases n - i,
    {
        let mut e = i;
        proof {
            lemma_line_end(chars@, i as int);
        }
        while e < n && chars[e] != '\n'
            invariant
                n == chars@.len(),
                i <= e <= n,
                line_end(chars@, e as int) == line_end(chars@, i as int),
            decreases n - e,
        {
            e += 1;
        }
        match value_range(chars, i, e, key) {
            Some(r) => {
                return Some(r);
            },
            None => {},
        }
        assert(e == line_end(chars@, i as int));
        if e == n {
            return None;
        }
        i = e + 1;
    }
    None
}

/// The config file of a new archive.
pub fn render(id: &str) -> (text: String)
    ensures
        text@ == config_text(id@),
{
    let mut text = "version = ".to_owned();
    let version = decimal_text(FORMAT_VERSION as u64);
    text.append(version.as_str());
    text.append("\nid = ");
    text.append(id);
    text.append("\nhash = sha256\n");
    text
}

// ---------------------------------------------------------------------------------------------
// What is read back of what was written.
// ---------------------------------------------------------------------------------------------

/// Is there something to read, with no white space at either end?
pub open spec fn is_tight(t: Seq<char>) -> bool {
    t.len() > 0 && !text::is_space(t[0]) && !text::is_space(t.last())
}

proof fn lemma_line_end_at(t: Seq<char>, i: int, e: int)
    requires
        0 <= i <= e <= t.len(),
        forall|k: int| i <= k < e ==> t[k] != '\n',
        e < t.len() ==> t[e] == '\n',
    ensures
        line_end(t, i) == e,
    decreases e - i,
{
    if i < e {
        lemma_line_end_at(t, i + 1, e);
    }
}

proof fn lemma_equals_sign_at(l: Seq<char>, i: int, e: int)
    requires
        0 <= i <= e < l.len(),
        forall|k: int| i <= k < e ==> l[k] != '=',
        l[e] == '=',
    ensures
        equals_sign(l, i) == e,
    decreases e - i,
{
    if i < e {
        lemma_equals_sign_at(l, i + 1, e);
    }
}

/// What a line of the form `key = value` says.
proof fn lemma_assignment(key: Seq<char>, v: Seq<char>, other: Seq<char>)
    requires
        is_tight(key),
        is_tight(v),
        key[0] != '#',
        forall|k: int| 0 <= k < key.len() ==> key[k] != '=',
    ensures
        line_value(key + seq![' ', '=', ' '] + v, other) == (if other == key {
            Some(v)
        } else {
            None::<Seq<char>>
        }),
{
    reveal_with_fuel(text::trim_start, 2);
    reveal_with_fuel(text::trim_end, 2);
    let l = key + seq![' ', '=', ' '] + v;
    let n = key.len() as int;
    assert(l[0] == key[0] && l.last() == v.last());
    assert(text::trim(l) == l);
    assert forall|k: int| 0 <= k < n + 1 implies l[k] != '=' by {
        if k < n {
            assert(l[k] == key[k]);
        }
    }
    lemma_equals_sign_at(l, 0, n + 1);
    let front = l.subrange(0, n + 1);
    assert(front[0] == key[0]);
    assert(front.last() == ' ');
    assert(front.drop_last() =~= key);
    assert(text::trim(front) == key);
    let back = l.subrange(n + 2, l.len() as int);
    assert(back[0] == ' ');
    assert(back.skip(1) =~= v);
    assert(text::trim(back) == v);
}

/// A config file gives back the version and the id that it was written with.
pub proof fn law_config_round_trip(id: Seq<char>)
    requires
        is_tight(id),
        forall|k: int| 0 <= k < id.len() ==> id[k] != '\n',
    ensures
        field_value(config_text(id), "version"@) == Some(
            text::decimal(FORMAT_VERSION as nat),
        ),
        field_value(config_text(id), "id"@) == Some(id),
{
    reveal_strlit("version = ");
    reveal_strlit("\nid = ");
    reveal_strlit("\nhash = sha256\n");
    reveal_strlit("version");
    reveal_strlit("id");
    let t = config_text(id);
    let one = text::decimal(FORMAT_VERSION as nat);
    assert(one =~= seq!['1']);
    let gap = seq![' ', '=', ' '];

    assert(t.subrange(0, 11) =~= "version"@ + gap + one);
    lemma_line_end_at(t, 0, 11);
    lemma_assignment("version"@, one, "version"@);
    lemma_assignment("version"@, one, "id"@);
    assert("version"@.len() != "id"@.len());

    let e = 17 + id.len() as int;
    assert forall|k: int| 12 <= k < e implies t[k] != '\n' by {
        if k >= 17 {
            assert(t[k] == id[k - 17]);
        }
    }
    assert(t.subrange(12, e) =~= "id"@ + gap + id);
    lemma_line_end_at(t, 12, e);
    lemma_assignment("id"@, id, "id"@);
    assert(field_from(t, 12, "id"@) == Some(id));
    assert(field_from(t, 0, "id"@) == field_from(t, 12, "id"@));
}

/// Of several lines with one key the first one counts: a text that begins with a line `key = value` gives
/// that value to the key, whatever follows.
pub proof fn law_the_first_line_counts(key: Seq<char>, v: Seq<char>, others: Seq<char>)
    requires
        is_tight(key),
        is_tight(v),
        key[0] != '#',
        forall|k: int| 0 <= k < key.len() ==> key[k] != '=' && key[k] != '\n',
        forall|k: int| 0 <= k < v.len() ==> v[k] != '\n',
    ensures
        field_value(key + seq![' ', '=', ' '] + v + seq!['\n'] + others, key) == Some(v),
{
    let line = key + seq![' ', '=', ' '] + v;
    let t = line + seq!['\n'] + others;
    let e = line.len() as int;
    assert forall|k: int| 0 <= k < e implies t[k] != '\n' by {
        assert(t[k] == line[k]);
        if k < key.len() {
            assert(line[k] == key[k]);
        } else if k >= key.len() + 3 {
            assert(line[k] == v[k - key.len() - 3]);
        }
    }
    assert(t[e] == '\n');
    lemma_line_end_at(t, 0, e);
    assert(t.subrange(0, e) =~= line);
    lemma_assignment(key, v, key);
}

/// Lines about other keys, blank lines, lines that start with `#` and lines without an equals sign say
/// nothing of a key: what follows them does.
pub proof fn law_other_lines_say_nothing(line: Seq<char>, others: Seq<char>, key: Seq<char>)
    requires
        forall|k: int| 0 <= k < line.len() ==> line[k] != '\n',
        ({
            ||| line.len() == 0
            ||| line[0] == '#'
            ||| forall|k: int| 0 <= k < line.len() ==> line[k] != '='
        }),
    ensures
        field_value(line + seq!['\n'] + others, key) == field_value(others, key),
        field_value(line, key) is None,
{
    let t = line + seq!['\n'] + others;
    let e = line.len() as int;
    assert forall|k: int| 0 <= k < e implies t[k] != '\n' by {
        assert(t[k] == line[k]);
    }
    assert(t[e] == '\n');
    lemma_line_end_at(t, 0, e);
    lemma_line_end_at(line, 0, e);
    assert(t.subrange(0, e) =~= line);
    assert(line.subrange(0, e) =~= line);
    lemma_says_nothing(line, key);
    assert(t.skip(e + 1) =~= others);
    lemma_field_shift(t, others, e + 1, 0, key);
}

proof fn lemma_says_nothing(line: Seq<char>, key: Seq<char>)
    requires
        line.len() == 0 || line[0] == '#' || forall|k: int|
            0 <= k < line.len() ==> line[k] != '=',
    ensures
        line_value(line, key) is None,
{
    let l = text::trim(line);
    text::law_trimming_takes_space_only(line);
    let a = text::leading(line);
    if l.len() > 0 {
        assert(l[0] == line[a]);
        if line[0] == '#' {
            assert(!text::is_space('#'));
            assert(a == 0);
        } else {
            let e = equals_sign(l, 0);
            lemma_equals_sign(l, 0);
            if e < l.len() {
                assert(l[e] == line[a + e]);
            }
        }
    }
}

proof fn lemma_equals_sign(l: Seq<char>, i: int)
    requires
        0 <= i <= l.len(),
    ensures
        i <= equals_sign(l, i) <= l.len(),
        equals_sign(l, i) < l.len() ==> l[equals_sign(l, i)] == '=',
    decreases l.len() - i,
{
    if i < l.len() && l[i] != '=' {
        lemma_equals_sign(l, i + 1);
    }
}

/// What a key is given from some position on depends on the text from there on.
proof fn lemma_field_shift(t: Seq<char>, u: Seq<char>, d: int, i: int, key: Seq<char>)
    requires
        0 <= d <= t.len(),
        u == t.skip(d),
        0 <= i <= u.len(),
    ensures
        field_from(t, i + d, key) == field_from(u, i, key),
    decreases u.len() - i,
{
    if i < u.len() {
        let e = line_end(u, i);
        lemma_line_end(u, i);
        assert forall|k: int| i + d <= k < e + d implies t[k] != '\n' by {
            assert(t[k] == u[k - d]);
        }
        if e < u.len() {
            assert(t[e + d] == u[e]);
        }
        lemma_line_end_at(t, i + d, e + d);
        assert(t.subrange(i + d, e + d) =~= u.subrange(i, e));
        if e < u.len() {
            lemma_field_shift(t, u, d, e + 1, key);
        }
    }
}

/// A line `key = value` says nothing of another key: what follows it does.
pub proof fn law_a_line_is_about_its_key(
    key: Seq<char>,
    v: Seq<char>,
    others: Seq<char>,
    other: Seq<char>,
)
    requires
        is_tight(key),
        is_tight(v),
        key[0] != '#',
        forall|k: int| 0 <= k < key.len() ==> key[k] != '=' && key[k] != '\n',
        forall|k: int| 0 <= k < v.len() ==> v[k] != '\n',
        other != key,
    ensures
        field_value(key + seq![' ', '=', ' '] + v + seq!['\n'] + others, other) == field_value(
            others,
            other,
        ),
{
    let line = key + seq![' ', '=', ' '] + v;
    let t = line + seq!['\n'] + others;
    let e = line.len() as int;
    assert forall|k: int| 0 <= k < e implies t[k] != '\n' by {
        assert(t[k] == line[k]);
        if k < key.len() {
            assert(line[k] == key[k]);
        } else if k >= key.len() + 3 {
            assert(line[k] == v[k - key.len() - 3]);
        }
    }
    assert(t[e] == '\n');
    lemma_line_end_at(t, 0, e);
    assert(t.subrange(0, e) =~= line);
    lemma_assignment(key, v, other);
    assert(t.skip(e + 1) =~= others);
    lemma_field_shift(t, others, e + 1, 0, other);
}

/// The config file of a new archive says its format, its id and how its contents are hashed, each in a
/// line of its own.
pub proof fn law_what_a_config_file_says(id: &str, text: String)
    requires
        call_ensures(render, (id,), text),
    ensures
        text@ == "version = "@ + seq!['1'] + "\nid = "@ + id@ + "\nhash = sha256\n"@,
{
    assert(text::decimal(1) =~= seq!['1']);
}

} // verus!
