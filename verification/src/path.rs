//! Unix file paths as byte strings.
//!
//! A path is a string of arbitrary bytes in which `/` separates the components. A leading `/` is
//! a component of its own (the root directory), repeated separators and `.` segments are not
//! components, and a `.` at the very start is one. Names need not be UTF-8.

use crate::hash;
use crate::hash::hex_text;
use crate::text::decode;
use vstd::prelude::*;
use vstd::utf8::*;

verus! {

pub const SLASH: u8 = 47;

pub const DOT: u8 = 46;

/// A file path: bytes in which `/` separates the components.
#[derive(Debug)]
pub struct FilePath {
    bytes: Vec<u8>,
}

impl View for FilePath {
    type V = Seq<u8>;

    closed spec fn view(&self) -> Seq<u8> {
        self.bytes@
    }
}

/// The paths of a list, as bytes.
pub open spec fn bytes_of(paths: Seq<FilePath>) -> Seq<Seq<u8>> {
    paths.map_values(|p: FilePath| p@)
}

/// Where the segment that holds position `i` ends: at the next `/`, or at the end of the path.
pub open spec fn segment_end(b: Seq<u8>, i: int) -> int
    decreases b.len() - i,
{
    if i >= b.len() {
        b.len() as int
    } else if b[i] == SLASH {
        i
    } else {
        segment_end(b, i + 1)
    }
}

/// A segment runs up to a `/` or to the end of the path, and holds no `/`.
pub proof fn lemma_segment_end(b: Seq<u8>, i: int)
    requires
        0 <= i <= b.len(),
    ensures
        i <= segment_end(b, i) <= b.len(),
        forall|k: int| i <= k < segment_end(b, i) ==> b[k] != SLASH,
        segment_end(b, i) < b.len() ==> b[segment_end(b, i)] == SLASH,
    decreases b.len() - i,
{
    if i < b.len() && b[i] != SLASH {
        lemma_segment_end(b, i + 1);
    }
}

/// The byte ranges of the components from position `i` on. Empty segments are not components,
/// and neither is a `.` segment, but for one where a relative path begins (`lead`).
pub open spec fn spans_from(b: Seq<u8>, i: int, lead: bool) -> Seq<(int, int)>
    decreases b.len() - i,
{
    if i < 0 || i >= b.len() {
        Seq::empty()
    } else if b[i] == SLASH {
        spans_from(b, i + 1, false)
    } else {
        let j = segment_end(b, i);
        proof {
            lemma_segment_end(b, i + 1);
        }
        if j == i + 1 && b[i] == DOT && !lead {
            spans_from(b, j, false)
        } else {
            seq![(i, j)] + spans_from(b, j, false)
        }
    }
}

/// Does the path start at the root directory?
pub open spec fn is_absolute(b: Seq<u8>) -> bool {
    b.len() > 0 && b[0] == SLASH
}

/// The byte ranges of all components.
pub open spec fn spans(b: Seq<u8>) -> Seq<(int, int)> {
    if is_absolute(b) {
        seq![(0int, 1int)] + spans_from(b, 1, false)
    } else {
        spans_from(b, 0, true)
    }
}

/// The components, each as its bytes: `/` for the root directory, else a `.`, a `..` or a name.
pub open spec fn components(b: Seq<u8>) -> Seq<Seq<u8>> {
    spans(b).map_values(|s: (int, int)| b.subrange(s.0, s.1))
}

/// The component that stands for the root directory.
pub open spec fn root_dir() -> Seq<u8> {
    seq![SLASH]
}

/// The component that stands for the current directory.
pub open spec fn cur_dir() -> Seq<u8> {
    seq![DOT]
}

/// The component that stands for the parent directory.
pub open spec fn parent_dir() -> Seq<u8> {
    seq![DOT, DOT]
}

/// Is this component an ordinary name?
pub open spec fn is_name(c: Seq<u8>) -> bool {
    c != root_dir() && c != cur_dir() && c != parent_dir()
}

/// The last component, if it is an ordinary name.
pub open spec fn file_name(b: Seq<u8>) -> Option<Seq<u8>> {
    let c = components(b);
    if c.len() > 0 && is_name(c.last()) {
        Some(c.last())
    } else {
        None
    }
}

/// The path without its last component; `None` where there is none, or only the root directory.
pub open spec fn parent(b: Seq<u8>) -> Option<Seq<u8>> {
    let s = spans(b);
    if s.len() == 0 || (s.len() == 1 && is_absolute(b)) {
        None
    } else if s.len() == 1 {
        Some(Seq::empty())
    } else {
        Some(b.subrange(0, s[s.len() - 2].1))
    }
}

/// What is left of the path behind its first `k` components, without separators at either end.
pub open spec fn rest(b: Seq<u8>, k: int) -> Seq<u8> {
    let s = spans(b);
    if k >= s.len() {
        Seq::empty()
    } else {
        b.subrange(s[k].0, s.last().1)
    }
}

/// The path relative to `base`, if its components begin with those of `base`.
pub open spec fn strip_prefix(b: Seq<u8>, base: Seq<u8>) -> Option<Seq<u8>> {
    if components(base).is_prefix_of(components(b)) {
        Some(rest(b, components(base).len() as int))
    } else {
        None
    }
}

/// `b` seen from the directory `a`: an absolute `b` stands for itself.
pub open spec fn join(a: Seq<u8>, b: Seq<u8>) -> Seq<u8> {
    if is_absolute(b) {
        b
    } else if a.len() > 0 && a.last() != SLASH {
        a + seq![SLASH] + b
    } else {
        a + b
    }
}

/// The position of the last `.` before position `n`, or `-1`.
pub open spec fn last_dot(f: Seq<u8>, n: int) -> int
    decreases n,
{
    if n <= 0 {
        -1
    } else if f[n - 1] == DOT {
        n - 1
    } else {
        last_dot(f, n - 1)
    }
}

/// A dot is found within the name, and there is none behind it.
pub proof fn lemma_last_dot(f: Seq<u8>, n: int)
    requires
        0 <= n <= f.len(),
    ensures
        -1 <= last_dot(f, n) < n || (n == 0 && last_dot(f, n) == -1),
        last_dot(f, n) >= 0 ==> f[last_dot(f, n)] == DOT,
        forall|k: int| last_dot(f, n) < k < n ==> f[k] != DOT,
    decreases n,
{
    if n > 0 {
        lemma_last_dot(f, n - 1);
    }
}

/// A file name without its extension: what stands before the last `.`, or the whole name where
/// there is no `.` but at its start.
pub open spec fn stem(f: Seq<u8>) -> Seq<u8> {
    let d = last_dot(f, f.len() as int);
    if d > 0 {
        f.take(d)
    } else {
        f
    }
}

/// What stands behind the last `.` of a file name, unless that is where the name starts.
pub open spec fn extension(f: Seq<u8>) -> Option<Seq<u8>> {
    let d = last_dot(f, f.len() as int);
    if d > 0 {
        Some(f.skip(d + 1))
    } else {
        None
    }
}

// ---------------------------------------------------------------------------------------------
// What the components of a joined and of a stripped path are.
// ---------------------------------------------------------------------------------------------

proof fn lemma_spans_from_bounds(b: Seq<u8>, i: int, lead: bool)
    requires
        0 <= i <= b.len(),
    ensures
        forall|k: int|
            0 <= k < spans_from(b, i, lead).len() ==> i <= (#[trigger] spans_from(b, i, lead)[k]).0
                < spans_from(b, i, lead)[k].1 <= b.len(),
    decreases b.len() - i,
{
    if i < b.len() {
        if b[i] == SLASH {
            lemma_spans_from_bounds(b, i + 1, false);
            assert(spans_from(b, i, lead) == spans_from(b, i + 1, false));
        } else {
            lemma_segment_end(b, i);
            lemma_segment_end(b, i + 1);
            let j = segment_end(b, i);
            lemma_spans_from_bounds(b, j, false);
            let s = spans_from(b, i, lead);
            let t = spans_from(b, j, false);
            assert forall|k: int| 0 <= k < s.len() implies i <= (#[trigger] s[k]).0 < s[k].1
                <= b.len() by {
                if s != t {
                    if k > 0 {
                        assert(s[k] == t[k - 1]);
                    }
                } else {
                    assert(t[k] == s[k]);
                }
            }
        }
    }
}

pub proof fn lemma_spans_bounds(b: Seq<u8>)
    ensures
        forall|k: int|
            0 <= k < spans(b).len() ==> 0 <= (#[trigger] spans(b)[k]).0 < spans(b)[k].1 <= b.len(),
{
    if is_absolute(b) {
        lemma_spans_from_bounds(b, 1, false);
    } else {
        lemma_spans_from_bounds(b, 0, true);
    }
}

proof fn lemma_spans_from_ordered(b: Seq<u8>, i: int, lead: bool)
    requires
        0 <= i <= b.len(),
    ensures
        forall|k: int, l: int|
            0 <= k <= l < spans_from(b, i, lead).len() ==> (#[trigger] spans_from(b, i, lead)[k]).0
                < (#[trigger] spans_from(b, i, lead)[l]).1,
    decreases b.len() - i,
{
    let s = spans_from(b, i, lead);
    lemma_spans_from_bounds(b, i, lead);
    if i < b.len() {
        if b[i] == SLASH {
            lemma_spans_from_ordered(b, i + 1, false);
            assert(s == spans_from(b, i + 1, false));
        } else {
            lemma_segment_end(b, i + 1);
            let j = segment_end(b, i);
            let t = spans_from(b, j, false);
            lemma_spans_from_ordered(b, j, false);
            lemma_spans_from_bounds(b, j, false);
            if s != t {
                assert(s =~= seq![(i, j)] + t);
                assert forall|k: int, l: int| 0 <= k <= l < s.len() implies (#[trigger] s[k]).0 < (
                #[trigger] s[l]).1 by {
                    if k > 0 {
                        assert(s[k] == t[k - 1] && s[l] == t[l - 1]);
                    } else if l > 0 {
                        assert(s[l] == t[l - 1]);
                    }
                }
            }
        }
    }
}

/// Each component starts before a later one ends.
proof fn lemma_spans_ordered(b: Seq<u8>)
    ensures
        forall|k: int, l: int|
            0 <= k <= l < spans(b).len() ==> (#[trigger] spans(b)[k]).0 < (#[trigger] spans(
                b,
            )[l]).1,
{
    lemma_spans_bounds(b);
    if is_absolute(b) {
        let t = spans_from(b, 1, false);
        lemma_spans_from_ordered(b, 1, false);
        lemma_spans_from_bounds(b, 1, false);
        assert forall|k: int, l: int| 0 <= k <= l < spans(b).len() implies (#[trigger] spans(
            b,
        )[k]).0 < (#[trigger] spans(b)[l]).1 by {
            if k > 0 {
                assert(spans(b)[k] == t[k - 1] && spans(b)[l] == t[l - 1]);
            } else if l > 0 {
                assert(spans(b)[l] == t[l - 1]);
            }
        }
    } else {
        lemma_spans_from_ordered(b, 0, true);
    }
}

/// The components before a cut at a separator stand as they would if nothing followed.
proof fn lemma_spans_prefix(a: Seq<u8>, c: Seq<u8>, i: int, lead: bool)
    requires
        0 <= i <= a.len() <= c.len(),
        a == c.take(a.len() as int),
        a.len() == c.len() || c[a.len() as int] == SLASH || (a.len() > 0 && a.last() == SLASH),
        lead ==> i < a.len(),
    ensures
        spans_from(c, i, lead) == spans_from(a, i, lead) + spans_from(c, a.len() as int, false),
    decreases a.len() - i,
{
    if i < a.len() {
        assert(a[i] == c[i]);
        if a[i] == SLASH {
            lemma_spans_prefix(a, c, i + 1, false);
        } else {
            lemma_segment_end(a, i + 1);
            lemma_segment_end(c, i + 1);
            let j = segment_end(a, i);
            assert(segment_end(c, i) == j) by {
                let k = segment_end(c, i);
                if k < j {
                    assert(a[k] == c[k]);
                }
                if j < k {
                    if j < a.len() {
                        assert(a[j] == c[j]);
                    }
                }
            }
            lemma_spans_prefix(a, c, j, false);
            assert(spans_from(c, i, lead) =~= spans_from(a, i, lead) + spans_from(
                c,
                a.len() as int,
                false,
            ));
        }
    } else {
        assert(spans_from(c, i, lead) =~= spans_from(a, i, lead) + spans_from(c, i, false));
    }
}

spec fn shift(s: Seq<(int, int)>, d: int) -> Seq<(int, int)> {
    s.map_values(|p: (int, int)| (p.0 + d, p.1 + d))
}

proof fn lemma_segment_end_shift(b: Seq<u8>, c: Seq<u8>, d: int, i: int)
    requires
        0 <= d <= c.len(),
        b == c.skip(d),
        0 <= i <= b.len(),
    ensures
        segment_end(c, i + d) == segment_end(b, i) + d,
    decreases b.len() - i,
{
    if i < b.len() {
        assert(b[i] == c[i + d]);
        if b[i] != SLASH {
            lemma_segment_end_shift(b, c, d, i + 1);
        }
    }
}

/// The components depend only on the bytes from their position on.
proof fn lemma_spans_shift(b: Seq<u8>, c: Seq<u8>, d: int, i: int, lead: bool)
    requires
        0 <= d <= c.len(),
        b == c.skip(d),
        0 <= i <= b.len(),
    ensures
        spans_from(c, i + d, lead) == shift(spans_from(b, i, lead), d),
    decreases b.len() - i,
{
    if i < b.len() {
        assert(b[i] == c[i + d]);
        if b[i] == SLASH {
            lemma_spans_shift(b, c, d, i + 1, false);
        } else {
            lemma_segment_end_shift(b, c, d, i);
            lemma_segment_end(b, i + 1);
            lemma_spans_shift(b, c, d, segment_end(b, i), false);
            assert(spans_from(c, i + d, lead) =~= shift(spans_from(b, i, lead), d));
        }
    } else {
        assert(spans_from(c, i + d, lead) =~= shift(spans_from(b, i, lead), d));
    }
}

/// A `.` segment counts only where it leads.
proof fn lemma_spans_lead(b: Seq<u8>)
    requires
        b.len() > 0 ==> b[0] != SLASH,
        spans_from(b, 0, true).len() > 0 ==> b.subrange(0, spans_from(b, 0, true)[0].1)
            != cur_dir(),
    ensures
        spans_from(b, 0, true) == spans_from(b, 0, false),
{
    if b.len() > 0 {
        lemma_segment_end(b, 1);
        let j = segment_end(b, 0);
        if j == 1 && b[0] == DOT {
            assert(b.subrange(0, 1) =~= cur_dir());
        }
    }
}

/// The components that a relative path has behind a directory: a `.` at its start is none.
pub open spec fn below(b: Seq<u8>) -> Seq<Seq<u8>> {
    spans_from(b, 0, false).map_values(|s: (int, int)| b.subrange(s.0, s.1))
}

/// Behind a directory a relative path has no component that it does not have by itself.
pub proof fn lemma_below(b: Seq<u8>)
    requires
        !is_absolute(b),
    ensures
        forall|k: int| 0 <= k < below(b).len() ==> components(b).contains(#[trigger] below(b)[k]),
{
    let t = spans_from(b, 0, true);
    let f = spans_from(b, 0, false);
    if b.len() > 0 {
        lemma_segment_end(b, 1);
        assert(f == t || f =~= t.skip(1));
    }
    assert forall|k: int| 0 <= k < below(b).len() implies components(b).contains(
        #[trigger] below(b)[k],
    ) by {
        if f == t {
            assert(components(b)[k] == below(b)[k]);
        } else {
            assert(f[k] == t[k + 1]);
            assert(components(b)[k + 1] == below(b)[k]);
        }
    }
}

/// The components of a joined path are those of the directory followed by those that the relative
/// path has behind it.
pub proof fn lemma_join_below(a: Seq<u8>, b: Seq<u8>)
    requires
        a.len() > 0,
        !is_absolute(b),
    ensures
        components(join(a, b)) == components(a) + below(b),
{
    let c = join(a, b);
    let n = a.len() as int;
    let d = if a.last() != SLASH {
        n + 1
    } else {
        n
    };
    assert(c.take(n) =~= a);
    assert(c.skip(d) =~= b);
    assert(c[0] == a[0]);
    if is_absolute(a) {
        lemma_spans_prefix(a, c, 1, false);
    } else {
        lemma_spans_prefix(a, c, 0, true);
    }
    lemma_spans_shift(b, c, d, 0, false);
    assert(spans_from(c, n, false) == spans_from(c, d, false));
    lemma_spans_bounds(a);
    lemma_spans_from_bounds(b, 0, false);
    let f = spans_from(b, 0, false);
    assert(spans(c) =~= spans(a) + shift(f, d));
    assert forall|k: int| 0 <= k < components(c).len() implies components(c)[k] == (components(a)
        + below(b))[k] by {
        if k < spans(a).len() {
            let s = spans(a)[k];
            assert(c.subrange(s.0, s.1) =~= a.subrange(s.0, s.1));
        } else {
            let s = f[k - spans(a).len()];
            assert(spans(c)[k] == (s.0 + d, s.1 + d));
            assert(c.subrange(s.0 + d, s.1 + d) =~= b.subrange(s.0, s.1));
        }
    }
    assert(components(c) =~= components(a) + below(b));
}

/// The components of a joined path are those of the directory followed by those of the relative
/// path. A relative path that begins with a `.` is another matter: that `.` is dropped.
pub proof fn lemma_join_components(a: Seq<u8>, b: Seq<u8>)
    requires
        a.len() > 0,
        !is_absolute(b),
        components(b).len() > 0 ==> components(b)[0] != cur_dir(),
    ensures
        components(join(a, b)) == components(a) + components(b),
{
    lemma_join_below(a, b);
    lemma_spans_bounds(b);
    if components(b).len() > 0 {
        lemma_segment_end(b, 1);
        assert(components(b)[0] == b.subrange(spans(b)[0].0, spans(b)[0].1));
        assert(spans(b)[0].0 == 0);
    }
    lemma_spans_lead(b);
    assert(below(b) =~= components(b));
}

/// Nothing that counts stands behind the last component.
proof fn lemma_spans_truncate(b: Seq<u8>, i: int, lead: bool)
    requires
        0 <= i <= b.len(),
        spans_from(b, i, lead).len() > 0,
    ensures
        spans_from(b.take(spans_from(b, i, lead).last().1), i, lead) == spans_from(b, i, lead),
    decreases b.len() - i,
{
    let s = spans_from(b, i, lead);
    let e = s.last().1;
    lemma_spans_from_bounds(b, i, lead);
    assert(i <= s[s.len() - 1].0);
    let a = b.take(e);
    assert(a[i] == b[i]);
    if b[i] == SLASH {
        lemma_spans_truncate(b, i + 1, false);
    } else {
        let j = segment_end(b, i);
        lemma_segment_end(b, i + 1);
        let t = spans_from(b, j, false);
        if t.len() > 0 {
            lemma_spans_from_bounds(b, j, false);
            assert(t.last().0 >= j);
            lemma_spans_truncate(b, j, false);
            assert(t.last() == s.last());
        } else {
            assert(s =~= seq![(i, j)]);
            assert(spans_from(a, j, false) =~= t);
        }
        lemma_segment_end(a, i + 1);
        assert(segment_end(a, i) == j) by {
            let k = segment_end(a, i);
            if k < j && k < a.len() {
                assert(a[k] == b[k]);
            }
            if j < k {
                assert(a[j] == b[j]);
            }
        }
        assert(spans_from(a, i, lead) =~= s);
    }
}

/// Read from where a component starts, the components are that one and those behind it.
proof fn lemma_spans_at(b: Seq<u8>, i: int, lead: bool, k: int)
    requires
        0 <= i <= b.len(),
        0 <= k < spans_from(b, i, lead).len(),
    ensures
        spans_from(b, spans_from(b, i, lead)[k].0, true) == spans_from(b, i, lead).skip(k),
        k > 0 || !lead ==> spans_from(b, spans_from(b, i, lead)[k].0, false) == spans_from(
            b,
            i,
            lead,
        ).skip(k),
        b[spans_from(b, i, lead)[k].0] != SLASH,
    decreases b.len() - i,
{
    let s = spans_from(b, i, lead);
    if b[i] == SLASH {
        lemma_spans_at(b, i + 1, false, k);
    } else {
        let j = segment_end(b, i);
        lemma_segment_end(b, i + 1);
        if j == i + 1 && b[i] == DOT && !lead {
            lemma_spans_at(b, j, false, k);
        } else if k == 0 {
            assert(s.skip(0) =~= s);
        } else {
            lemma_spans_at(b, j, false, k - 1);
            assert(s.skip(k) =~= spans_from(b, j, false).skip(k - 1));
        }
    }
}

/// Only the first component can be a `.` or the root directory.
proof fn lemma_spans_from_names(b: Seq<u8>, i: int, lead: bool)
    requires
        0 <= i <= b.len(),
    ensures
        forall|k: int|
            #![trigger spans_from(b, i, lead)[k]]
            0 <= k < spans_from(b, i, lead).len() && (k > 0 || !lead) ==> b.subrange(
                spans_from(b, i, lead)[k].0,
                spans_from(b, i, lead)[k].1,
            ) != cur_dir(),
        forall|k: int|
            #![trigger spans_from(b, i, lead)[k]]
            0 <= k < spans_from(b, i, lead).len() ==> b.subrange(
                spans_from(b, i, lead)[k].0,
                spans_from(b, i, lead)[k].1,
            ) != root_dir(),
    decreases b.len() - i,
{
    if i < b.len() {
        let s = spans_from(b, i, lead);
        if b[i] == SLASH {
            lemma_spans_from_names(b, i + 1, false);
            assert(s == spans_from(b, i + 1, false));
        } else {
            let j = segment_end(b, i);
            lemma_segment_end(b, i + 1);
            lemma_spans_from_names(b, j, false);
            let t = spans_from(b, j, false);
            if j == i + 1 && b[i] == DOT && !lead {
                assert(s == t);
            } else {
                assert(s =~= seq![(i, j)] + t);
                assert(b.subrange(i, j)[0] == b[i]);
                if b.subrange(i, j) == cur_dir() {
                    assert(b.subrange(i, j).len() == 1);
                }
                assert forall|k: int|
                    #![trigger s[k]]
                    0 <= k < s.len() && (k > 0 || !lead) implies b.subrange(s[k].0, s[k].1)
                    != cur_dir() by {
                    if k > 0 {
                        assert(s[k] == t[k - 1]);
                    }
                }
                assert forall|k: int| #![trigger s[k]] 0 <= k < s.len() implies b.subrange(
                    s[k].0,
                    s[k].1,
                ) != root_dir() by {
                    if k > 0 {
                        assert(s[k] == t[k - 1]);
                    }
                }
            }
        }
    }
}

/// The root directory and `.` occur at the front only.
pub proof fn lemma_component_names(b: Seq<u8>)
    ensures
        forall|k: int|
            0 < k < components(b).len() ==> #[trigger] components(b)[k] != cur_dir()
                && components(b)[k] != root_dir(),
        is_absolute(b) <==> components(b).len() > 0 && components(b)[0] == root_dir(),
{
    if is_absolute(b) {
        lemma_spans_from_names(b, 1, false);
        assert(components(b)[0] == b.subrange(0, 1));
        assert(b.subrange(0, 1) =~= root_dir());
        assert forall|k: int| 0 < k < components(b).len() implies #[trigger] components(b)[k]
            != cur_dir() && components(b)[k] != root_dir() by {
            assert(spans(b)[k] == spans_from(b, 1, false)[k - 1]);
        }
    } else {
        lemma_spans_from_names(b, 0, true);
        assert forall|k: int| 0 <= k < components(b).len() implies #[trigger] components(b)[k]
            != root_dir() && (k > 0 ==> components(b)[k] != cur_dir()) by {
            assert(spans(b)[k] == spans_from(b, 0, true)[k]);
        }
    }
}

proof fn lemma_spans_from_plain(b: Seq<u8>, i: int, lead: bool)
    requires
        0 <= i <= b.len(),
    ensures
        forall|k: int, p: int|
            0 <= k < spans_from(b, i, lead).len() && (#[trigger] spans_from(b, i, lead)[k]).0 <= p
                < spans_from(b, i, lead)[k].1 ==> #[trigger] b[p] != SLASH,
    decreases b.len() - i,
{
    if i < b.len() {
        let s = spans_from(b, i, lead);
        if b[i] == SLASH {
            lemma_spans_from_plain(b, i + 1, false);
            assert(s == spans_from(b, i + 1, false));
        } else {
            let j = segment_end(b, i);
            lemma_segment_end(b, i);
            lemma_segment_end(b, i + 1);
            lemma_spans_from_plain(b, j, false);
            let t = spans_from(b, j, false);
            if s != t {
                assert(s =~= seq![(i, j)] + t);
                assert forall|k: int, p: int|
                    0 <= k < s.len() && (#[trigger] s[k]).0 <= p < s[k].1 implies #[trigger] b[p]
                    != SLASH by {
                    if k > 0 {
                        assert(s[k] == t[k - 1]);
                    }
                }
            }
        }
    }
}

/// A component other than the root directory is not empty and holds no separator.
pub proof fn lemma_component_plain(b: Seq<u8>, k: int)
    requires
        0 <= k < components(b).len(),
        components(b)[k] != root_dir(),
    ensures
        components(b)[k].len() > 0,
        forall|p: int| 0 <= p < components(b)[k].len() ==> components(b)[k][p] != SLASH,
{
    let c = components(b)[k];
    let s = spans(b)[k];
    lemma_spans_bounds(b);
    assert(c == b.subrange(s.0, s.1));
    if is_absolute(b) {
        if k == 0 {
            assert(c =~= root_dir());
        } else {
            lemma_spans_from_plain(b, 1, false);
            assert(s == spans_from(b, 1, false)[k - 1]);
        }
    } else {
        lemma_spans_from_plain(b, 0, true);
        assert(s == spans_from(b, 0, true)[k]);
    }
    assert forall|p: int| 0 <= p < c.len() implies c[p] != SLASH by {
        assert(c[p] == b[s.0 + p]);
    }
}

/// A name alone is a path with that one component.
pub proof fn lemma_single_component(c: Seq<u8>)
    requires
        c.len() > 0,
        forall|p: int| 0 <= p < c.len() ==> c[p] != SLASH,
    ensures
        components(c) == seq![c],
        !is_absolute(c),
{
    lemma_segment_end(c, 0);
    assert(segment_end(c, 0) == c.len());
    assert(spans_from(c, c.len() as int, false) =~= Seq::<(int, int)>::empty());
    assert(spans(c) =~= seq![(0int, c.len() as int)]);
    assert(c.subrange(0, c.len() as int) =~= c);
    assert(components(c) =~= seq![c]);
}

/// What stands behind the last separator is the last component, where that is no `.` or `..`.
pub proof fn lemma_last_component(b: Seq<u8>, k: int)
    requires
        0 <= k < b.len() - 2,
        k > 0 ==> b[k - 1] == SLASH,
        forall|p: int| k <= p < b.len() ==> b[p] != SLASH,
    ensures
        file_name(b) == Some(b.skip(k)),
{
    let c = b.skip(k);
    assert forall|p: int| 0 <= p < c.len() implies c[p] != SLASH by {
        assert(c[p] == b[k + p]);
    }
    lemma_single_component(c);
    if k == 0 {
        assert(c =~= b);
    } else {
        let a = b.take(k);
        assert(join(a, c) =~= b);
        lemma_join_components(a, c);
    }
}

/// There is a place behind the last separator among the first `n` bytes.
pub proof fn lemma_last_slash(b: Seq<u8>, n: int) -> (k: int)
    requires
        0 <= n <= b.len(),
    ensures
        0 <= k <= n,
        k > 0 ==> b[k - 1] == SLASH,
        forall|p: int| k <= p < n ==> b[p] != SLASH,
    decreases n,
{
    if n == 0 || b[n - 1] == SLASH {
        n
    } else {
        lemma_last_slash(b, n - 1)
    }
}

/// One more separator behind a separator adds no component.
pub proof fn lemma_extra_slash(a: Seq<u8>)
    requires
        a.len() > 0,
        a.last() == SLASH,
    ensures
        components(a + seq![SLASH]) == components(a),
{
    let c = a + seq![SLASH];
    let n = a.len() as int;
    assert(c.take(n) =~= a);
    assert(spans_from(c, n + 1, false) =~= Seq::<(int, int)>::empty());
    assert(spans_from(c, n, false) =~= Seq::<(int, int)>::empty());
    if is_absolute(a) {
        lemma_spans_prefix(a, c, 1, false);
    } else {
        lemma_spans_prefix(a, c, 0, true);
    }
    assert(spans(c) =~= spans(a));
    lemma_spans_bounds(a);
    assert forall|k: int| 0 <= k < components(c).len() implies components(c)[k] == components(
        a,
    )[k] by {
        let s = spans(a)[k];
        assert(c.subrange(s.0, s.1) =~= a.subrange(s.0, s.1));
    }
    assert(components(c) =~= components(a));
}

/// Behind its first `k` components a path has the other ones, and is relative.
pub proof fn lemma_rest_components(b: Seq<u8>, k: int)
    requires
        0 <= k <= components(b).len(),
        k > 0 || !is_absolute(b),
    ensures
        components(rest(b, k)) == components(b).skip(k),
        !is_absolute(rest(b, k)),
{
    let s = spans(b);
    let r = rest(b, k);
    if k == s.len() {
        assert(components(r) =~= components(b).skip(k));
    } else {
        lemma_spans_bounds(b);
        let p = s[k].0;
        let e = s.last().1;
        let a = b.take(e);
        // The components of `b` from the `k`-th on, read from the cut path.
        if is_absolute(b) {
            let t = spans_from(b, 1, false);
            assert(s[k] == t[k - 1]);
            assert(t.last() == s.last());
            lemma_spans_at(b, 1, false, k - 1);
            lemma_spans_truncate(b, p, true);
            assert(s.skip(k) =~= t.skip(k - 1));
        } else {
            lemma_spans_at(b, 0, true, k);
            lemma_spans_truncate(b, p, true);
        }
        assert(spans_from(b, p, true) == s.skip(k));
        assert(s.skip(k).last() == s.last());
        assert(spans_from(a, p, true) == s.skip(k));
        assert(r =~= a.skip(p));
        lemma_spans_shift(r, a, p, 0, true);
        assert(r[0] == b[p]);
        assert(spans(r) == spans_from(r, 0, true));
        assert forall|i: int| 0 <= i < components(r).len() implies components(r)[i] == components(
            b,
        ).skip(k)[i] by {
            let u = spans(r)[i];
            assert(s[k + i] == s.skip(k)[i]);
            assert(shift(spans(r), p)[i] == (u.0 + p, u.1 + p));
            lemma_spans_bounds(r);
            assert(r.subrange(u.0, u.1) =~= b.subrange(u.0 + p, u.1 + p));
        }
        assert(components(r) =~= components(b).skip(k));
    }
}

/// Where a component ends, those behind it begin.
proof fn lemma_spans_behind(b: Seq<u8>, i: int, lead: bool, k: int)
    requires
        0 <= i <= b.len(),
        0 <= k < spans_from(b, i, lead).len() - 1,
    ensures
        ({
            let e = spans_from(b, i, lead)[k].1;
            &&& 0 < e < b.len()
            &&& b[e] == SLASH
            &&& spans_from(b, e, false) == spans_from(b, i, lead).skip(k + 1)
        }),
{
    let s = spans_from(b, i, lead);
    let p = s[k].0;
    lemma_spans_at(b, i, lead, k);
    lemma_spans_from_bounds(b, i, lead);
    lemma_segment_end(b, p);
    let j = segment_end(b, p);
    assert(spans_from(b, p, true) =~= seq![(p, j)] + spans_from(b, j, false));
    assert(s.skip(k)[0] == s[k]);
    assert(spans_from(b, j, false) =~= s.skip(k).skip(1));
    assert(s.skip(k).skip(1) =~= s.skip(k + 1));
    assert(spans_from(b, j, false).len() > 0);
}

/// The parent of a path has all its components but the last.
pub proof fn lemma_parent_components(b: Seq<u8>)
    requires
        parent(b) is Some,
    ensures
        components(parent(b)->0) == components(b).drop_last(),
{
    let s = spans(b);
    let a = parent(b)->0;
    if s.len() == 1 {
        assert(spans(a) =~= Seq::<(int, int)>::empty());
        assert(components(a) =~= components(b).drop_last());
    } else {
        let k = s.len() - 2;
        let e = s[k].1;
        lemma_spans_bounds(b);
        if is_absolute(b) {
            let t = spans_from(b, 1, false);
            if k > 0 {
                assert(s[k] == t[k - 1]);
                lemma_spans_behind(b, 1, false, k - 1);
                assert(t.skip(k) =~= seq![t.last()]);
                lemma_spans_from_bounds(b, 1, false);
                lemma_spans_prefix(a, b, 1, false);
            } else {
                assert(a =~= seq![SLASH]);
                lemma_spans_prefix(a, b, 1, false);
            }
            assert(t.drop_last() =~= spans_from(a, 1, false));
        } else {
            let t = spans_from(b, 0, true);
            lemma_spans_behind(b, 0, true, k);
            assert(t.skip(k + 1) =~= seq![t.last()]);
            lemma_spans_prefix(a, b, 0, true);
            assert(t.drop_last() =~= spans_from(a, 0, true));
        }
        assert(spans(a) =~= s.drop_last());
        lemma_spans_bounds(a);
        assert forall|i: int| 0 <= i < components(a).len() implies components(a)[i] == components(
            b,
        ).drop_last()[i] by {
            let u = spans(a)[i];
            assert(a.subrange(u.0, u.1) =~= b.subrange(u.0, u.1));
        }
        assert(components(a) =~= components(b).drop_last());
    }
}

// ---------------------------------------------------------------------------------------------
// The operations.
// ---------------------------------------------------------------------------------------------

/// Do the two slices hold the same bytes?
pub fn same_bytes(a: &[u8], b: &[u8]) -> (same: bool)
    ensures
        same == (a@ == b@),
{
    if a.len() != b.len() {
        return false;
    }
    let mut i: usize = 0;
    while i < a.len()
        invariant
            a.len() == b.len(),
            i <= a.len(),
            a@.take(i as int) == b@.take(i as int),
        decreases a.len() - i,
    {
        if a[i] != b[i] {
            assert(a@[i as int] != b@[i as int]);
            return false;
        }
        assert(a@.take(i + 1) =~= a@.take(i as int).push(a@[i as int]));
        assert(b@.take(i + 1) =~= b@.take(i as int).push(b@[i as int]));
        i += 1;
    }
    assert(a@.take(i as int) =~= a@);
    assert(b@.take(i as int) =~= b@);
    true
}

/// The bytes from `start` to `end`, copied.
pub fn copy_range(bytes: &[u8], start: usize, end: usize) -> (copy: Vec<u8>)
    requires
        start <= end <= bytes@.len(),
    ensures
        copy@ == bytes@.subrange(start as int, end as int),
{
    vstd::slice::slice_to_vec(vstd::slice::slice_subrange(bytes, start, end))
}

/// Is this an ordinary name, and not the root directory, `.` or `..`?
fn names_a_file(c: &[u8]) -> (named: bool)
    ensures
        named == is_name(c@),
{
    if c.len() == 1 && (c[0] == SLASH || c[0] == DOT) {
        proof {
            if c@[0] == SLASH {
                assert(c@ =~= root_dir());
            } else {
                assert(c@ =~= cur_dir());
            }
        }
        false
    } else if c.len() == 2 && c[0] == DOT && c[1] == DOT {
        assert(c@ =~= parent_dir());
        false
    } else {
        true
    }
}

/// The ranges as mathematical integers.
pub open spec fn ranges(s: Seq<(usize, usize)>) -> Seq<(int, int)> {
    s.map_values(|p: (usize, usize)| (p.0 as int, p.1 as int))
}

impl FilePath {
    /// The path with these bytes.
    pub fn from_bytes(bytes: Vec<u8>) -> (path: FilePath)
        ensures
            path@ == bytes@,
    {
        FilePath { bytes }
    }

    /// The path that this text spells.
    pub fn from_text(text: &str) -> (path: FilePath)
        ensures
            path@ == encode_utf8(text@),
    {
        FilePath { bytes: text.as_bytes_vec() }
    }

    pub fn as_bytes(&self) -> (bytes: &[u8])
        ensures
            bytes@ == self@,
    {
        self.bytes.as_slice()
    }

    pub fn into_bytes(self) -> (bytes: Vec<u8>)
        ensures
            bytes@ == self@,
    {
        self.bytes
    }

    pub fn is_absolute(&self) -> (absolute: bool)
        ensures
            absolute == is_absolute(self@),
    {
        self.bytes.len() > 0 && self.bytes[0] == SLASH
    }

    /// The byte ranges of the components.
    fn spans(&self) -> (found: Vec<(usize, usize)>)
        ensures
            ranges(found@) == spans(self@),
    {
        let b = self.bytes.as_slice();
        let mut found: Vec<(usize, usize)> = Vec::new();
        let mut i: usize = 0;
        let mut lead: bool = true;
        if b.len() > 0 && b[0] == SLASH {
            found.push((0, 1));
            i = 1;
            lead = false;
        }
        assert(spans(b@) =~= ranges(found@) + spans_from(b@, i as int, lead));
        while i < b.len()
            invariant
                b@ == self@,
                i <= b.len(),
                spans(b@) == ranges(found@) + spans_from(b@, i as int, lead),
            decreases b.len() - i,
        {
            if b[i] == SLASH {
                i += 1;
                lead = false;
            } else {
                let start = i;
                proof {
                    lemma_segment_end(b@, start as int);
                }
                while i < b.len() && b[i] != SLASH
                    invariant
                        start <= i <= b.len(),
                        segment_end(b@, i as int) == segment_end(b@, start as int),
                    decreases b.len() - i,
                {
                    i += 1;
                }
                assert(i == segment_end(b@, start as int));
                let ghost before = ranges(found@);
                if i - start == 1 && b[start] == DOT && !lead {
                } else {
                    found.push((start, i));
                    assert(ranges(found@) =~= before.push((start as int, i as int)));
                    assert(spans(b@) =~= ranges(found@) + spans_from(b@, i as int, false));
                }
                lead = false;
            }
        }
        assert(spans(b@) =~= ranges(found@));
        found
    }

    /// The last component, if it is an ordinary name.
    pub fn file_name(&self) -> (name: Option<Vec<u8>>)
        ensures
            match name {
                Some(n) => file_name(self@) == Some(n@),
                None => file_name(self@) is None,
            },
    {
        let found = self.spans();
        let n = found.len();
        proof {
            lemma_spans_bounds(self@);
        }
        if n == 0 {
            return None;
        }
        let (start, end) = found[n - 1];
        assert(spans(self@)[n - 1] == (start as int, end as int));
        let last = copy_range(self.bytes.as_slice(), start, end);
        assert(components(self@).last() == last@);
        if names_a_file(last.as_slice()) {
            Some(last)
        } else {
            None
        }
    }

    /// The path without its last component.
    pub fn parent(&self) -> (dir: Option<FilePath>)
        ensures
            match dir {
                Some(d) => parent(self@) == Some(d@),
                None => parent(self@) is None,
            },
    {
        let found = self.spans();
        let n = found.len();
        proof {
            lemma_spans_bounds(self@);
        }
        if n == 0 || (n == 1 && self.is_absolute()) {
            None
        } else if n == 1 {
            let bytes: Vec<u8> = Vec::new();
            assert(bytes@ =~= Seq::<u8>::empty());
            Some(FilePath { bytes })
        } else {
            let end = found[n - 2].1;
            assert(spans(self@)[n - 2].1 == end);
            Some(FilePath { bytes: copy_range(self.bytes.as_slice(), 0, end) })
        }
    }

    /// Is one of the components `..`?
    pub fn has_parent_dir(&self) -> (has: bool)
        ensures
            has == components(self@).contains(parent_dir()),
    {
        let found = self.spans();
        let b = self.bytes.as_slice();
        let mut i: usize = 0;
        while i < found.len()
            invariant
                b@ == self@,
                ranges(found@) == spans(self@),
                i <= found.len(),
                forall|k: int| 0 <= k < i ==> components(self@)[k] != parent_dir(),
            decreases found.len() - i,
        {
            let (start, end) = found[i];
            proof {
                lemma_spans_bounds(self@);
                assert(spans(self@)[i as int] == (start as int, end as int));
                assert(components(self@)[i as int] == b@.subrange(start as int, end as int));
            }
            if end - start == 2 && b[start] == DOT && b[start + 1] == DOT {
                assert(b@.subrange(start as int, end as int) =~= parent_dir());
                return true;
            }
            proof {
                if b@.subrange(start as int, end as int) == parent_dir() {
                    assert(b@.subrange(start as int, end as int)[0] == b@[start as int]);
                    assert(b@.subrange(start as int, end as int)[1] == b@[start + 1]);
                }
            }
            i += 1;
        }
        false
    }

    /// How many components the two paths share from the front, where that is all of `base`.
    fn prefix_length(&self, base: &FilePath) -> (length: Option<usize>)
        ensures
            match length {
                Some(n) => components(base@).is_prefix_of(components(self@)) && n == components(
                    base@,
                ).len(),
                None => !components(base@).is_prefix_of(components(self@)),
            },
    {
        let mine = self.spans();
        let theirs = base.spans();
        if theirs.len() > mine.len() {
            return None;
        }
        let mut i: usize = 0;
        while i < theirs.len()
            invariant
                ranges(mine@) == spans(self@),
                ranges(theirs@) == spans(base@),
                i <= theirs.len() <= mine.len(),
                forall|k: int| 0 <= k < i ==> components(base@)[k] == components(self@)[k],
            decreases theirs.len() - i,
        {
            let (a, b) = mine[i];
            let (c, d) = theirs[i];
            proof {
                lemma_spans_bounds(self@);
                lemma_spans_bounds(base@);
                assert(spans(self@)[i as int] == (a as int, b as int));
                assert(spans(base@)[i as int] == (c as int, d as int));
            }
            let x = vstd::slice::slice_subrange(self.bytes.as_slice(), a, b);
            let y = vstd::slice::slice_subrange(base.bytes.as_slice(), c, d);
            assert(components(self@)[i as int] == x@);
            assert(components(base@)[i as int] == y@);
            if !same_bytes(x, y) {
                return None;
            }
            i += 1;
        }
        assert(components(base@) =~= components(self@).take(i as int));
        Some(i)
    }

    /// The path relative to `base`, if it lies beneath `base`.
    pub fn strip_prefix(&self, base: &FilePath) -> (relative: Option<FilePath>)
        ensures
            match relative {
                Some(r) => strip_prefix(self@, base@) == Some(r@),
                None => strip_prefix(self@, base@) is None,
            },
    {
        let k = match self.prefix_length(base) {
            Some(k) => k,
            None => {
                return None;
            },
        };
        let found = self.spans();
        proof {
            lemma_spans_bounds(self@);
        }
        if k >= found.len() {
            let bytes: Vec<u8> = Vec::new();
            assert(bytes@ =~= Seq::<u8>::empty());
            return Some(FilePath { bytes });
        }
        let start = found[k].0;
        let end = found[found.len() - 1].1;
        proof {
            assert(spans(self@)[k as int].0 == start);
            assert(spans(self@).last().1 == end);
            lemma_spans_ordered(self@);
        }
        Some(FilePath { bytes: copy_range(self.bytes.as_slice(), start, end) })
    }

    /// `other` seen from the directory `self`.
    pub fn join(&self, other: &FilePath) -> (joined: FilePath)
        ensures
            joined@ == join(self@, other@),
    {
        if other.is_absolute() {
            return FilePath { bytes: vstd::slice::slice_to_vec(other.bytes.as_slice()) };
        }
        let mut bytes = vstd::slice::slice_to_vec(self.bytes.as_slice());
        let n = bytes.len();
        if n > 0 && bytes[n - 1] != SLASH {
            bytes.push(SLASH);
            assert(bytes@ =~= self@ + seq![SLASH]);
        }
        let mut tail = vstd::slice::slice_to_vec(other.bytes.as_slice());
        bytes.append(&mut tail);
        FilePath { bytes }
    }
}

impl Clone for FilePath {
    fn clone(&self) -> (copy: FilePath)
        ensures
            copy@ == self@,
    {
        FilePath { bytes: vstd::slice::slice_to_vec(self.bytes.as_slice()) }
    }
}

/// Two paths are equal if their components are.
impl PartialEq for FilePath {
    fn eq(&self, other: &FilePath) -> (same: bool) {
        let mine = self.spans();
        let theirs = other.spans();
        let shared = self.prefix_length(other);
        let same = shared.is_some() && mine.len() == theirs.len();
        proof {
            if same {
                assert(components(self@) =~= components(other@));
            }
        }
        same
    }
}

impl vstd::std_specs::cmp::PartialEqSpecImpl for FilePath {
    open spec fn obeys_eq_spec() -> bool {
        true
    }

    open spec fn eq_spec(&self, other: &FilePath) -> bool {
        components(self@) == components(other@)
    }
}

impl Eq for FilePath {

}

/// The position of the last `.` of a name, if it has one that it does not start with.
fn extension_dot(name: &[u8]) -> (dot: Option<usize>)
    ensures
        match dot {
            Some(d) => d == last_dot(name@, name@.len() as int) && d > 0,
            None => last_dot(name@, name@.len() as int) <= 0,
        },
        dot matches Some(d) ==> d < name@.len(),
{
    let mut n = name.len();
    while n > 0
        invariant
            n <= name.len(),
            last_dot(name@, n as int) == last_dot(name@, name@.len() as int),
        decreases n,
    {
        if name[n - 1] == DOT {
            return if n == 1 {
                None
            } else {
                Some(n - 1)
            };
        }
        n -= 1;
    }
    None
}

/// A file name parted into stem and extension.
pub fn split_name(name: &[u8]) -> (parts: (Vec<u8>, Option<Vec<u8>>))
    ensures
        parts.0@ == stem(name@),
        match parts.1 {
            Some(e) => extension(name@) == Some(e@),
            None => extension(name@) is None,
        },
{
    match extension_dot(name) {
        Some(d) => {
            assert(name@.take(d as int) =~= name@.subrange(0, d as int));
            assert(name@.skip(d + 1) =~= name@.subrange(d + 1, name@.len() as int));
            let n = name.len();
            (copy_range(name, 0, d), Some(copy_range(name, d + 1, n)))
        },
        None => (vstd::slice::slice_to_vec(name), None),
    }
}

// ---------------------------------------------------------------------------------------------
// Paths as text.
// ---------------------------------------------------------------------------------------------

/// The text that stands for a path: the path itself where it is UTF-8. Any other path is spelled in
/// hexadecimal digits behind a NUL, which begins no path of a file.
pub open spec fn key(b: Seq<u8>) -> Seq<char> {
    if valid_utf8(b) && !(b.len() > 0 && b[0] == 0) {
        decode_utf8(b)
    } else {
        seq!['\0'] + hash::hex(b)
    }
}

/// Different paths have different keys, whatever bytes they are made of.
pub proof fn law_keys_tell_paths_apart(a: Seq<u8>, b: Seq<u8>)
    requires
        key(a) == key(b),
    ensures
        a == b,
{
    lemma_key_start(a);
    lemma_key_start(b);
    if valid_utf8(a) && !(a.len() > 0 && a[0] == 0) {
        decode_utf8_encode_utf8(a);
        decode_utf8_encode_utf8(b);
    } else {
        assert(key(a).skip(1) =~= hash::hex(a));
        assert(key(b).skip(1) =~= hash::hex(b));
        hash::law_hex_injective(a, b);
    }
}

/// A key begins with a NUL exactly where it spells its path.
proof fn lemma_key_start(b: Seq<u8>)
    ensures
        (key(b).len() > 0 && key(b)[0] == '\0') <==> !(valid_utf8(b) && !(b.len() > 0 && b[0]
            == 0)),
{
    if valid_utf8(b) && !(b.len() > 0 && b[0] == 0) {
        let t = decode_utf8(b);
        decode_utf8_encode_utf8(b);
        if t.len() > 0 && t[0] == '\0' {
            assert(encode_scalar(0) =~= seq![0u8]) by {
                assert((0u32 & 0x7f) as u8 == 0u8) by (bit_vector);
            }
            assert(encode_utf8(t)[0] == encode_scalar(t[0] as u32)[0]);
        }
    }
}

impl FilePath {
    /// The text that stands for the path.
    pub fn key(&self) -> (text: String)
        ensures
            text@ == key(self@),
    {
        let bytes = self.bytes.as_slice();
        let spelled = bytes.len() > 0 && bytes[0] == 0;
        if !spelled {
            match decode(bytes) {
                Some(t) => {
                    return t.to_owned();
                },
                None => {},
            }
        }
        let mut text = String::new();
        text.push('\0');
        text.append(hex_text(bytes).as_str());
        assert(text@ =~= seq!['\0'] + hash::hex(self@));
        text
    }
}

// ---------------------------------------------------------------------------------------------
// What the operations promise.
// ---------------------------------------------------------------------------------------------

/// Can this be one name of a path: is it not empty, without a separator, and not a `.`?
pub open spec fn is_segment(name: Seq<u8>) -> bool {
    &&& name.len() > 0
    &&& forall|p: int| 0 <= p < name.len() ==> name[p] != 47
    &&& name != seq![46u8]
}

/// The names, with a `/` between any two.
pub open spec fn slashed(names: Seq<Seq<u8>>) -> Seq<u8>
    decreases names.len(),
{
    if names.len() == 0 {
        Seq::empty()
    } else if names.len() == 1 {
        names[0]
    } else {
        slashed(names.drop_last()) + seq![47u8] + names.last()
    }
}

/// A path that is written as names with a `/` between any two has these names as its components. With a
/// `/` before them, the root directory is one more, at the front.
pub proof fn law_a_path_is_made_of_its_names(names: Seq<Seq<u8>>)
    requires
        forall|i: int| 0 <= i < names.len() ==> is_segment(#[trigger] names[i]),
    ensures
        components(slashed(names)) == names,
        components(seq![47u8] + slashed(names)) == seq![seq![47u8]] + names,
        names.len() > 0 ==> slashed(names).len() > 0 && slashed(names).last() != 47,
        !is_absolute(slashed(names)),
    decreases names.len(),
{
    let s = slashed(names);
    if names.len() == 0 {
        assert(components(s) =~= names);
    } else {
        let last = names.last();
        let before = names.drop_last();
        assert(is_segment(last));
        lemma_single_component(last);
        if names.len() == 1 {
            assert(names =~= seq![last]);
        } else {
            assert forall|i: int| 0 <= i < before.len() implies is_segment(#[trigger] before[i]) by {
                assert(before[i] == names[i]);
            }
            law_a_path_is_made_of_its_names(before);
            assert(cur_dir() =~= seq![46u8]);
            lemma_join_components(slashed(before), last);
            assert(s == join(slashed(before), last));
            assert(before + seq![last] =~= names);
            assert(s[0] == slashed(before)[0]);
        }
        assert(components(s)[0] == names[0]);
        assert(is_segment(names[0]));
    }
    assert(cur_dir() =~= seq![46u8]);
    lemma_join_components(root_dir(), s);
    assert(join(root_dir(), s) == seq![47u8] + s);
    assert(spans(root_dir()) =~= seq![(0int, 1int)]);
    assert(root_dir().subrange(0, 1) =~= seq![47u8]);
    assert(components(root_dir()) =~= seq![seq![47u8]]);
}

/// A `.` or one more `/` within a path leads nowhere else.
pub proof fn law_a_dot_leads_nowhere_else(dir: Seq<u8>, b: Seq<u8>)
    requires
        dir.len() > 0,
        dir.last() != 47,
        b.len() > 0 ==> b[0] != 47,
    ensures
        components(dir + seq![47u8]) == components(dir),
        components(dir + seq![47u8, 46u8]) == components(dir),
        components(dir + seq![47u8, 46u8, 47u8] + b) == components(dir + seq![47u8] + b),
        components(dir + seq![47u8, 47u8] + b) == components(dir + seq![47u8] + b),
{
    let none = Seq::<u8>::empty();
    let dot = seq![46u8];
    let there = dir + seq![47u8, 46u8];
    let open = dir + seq![47u8];
    assert(segment_end(dot, 0) == 1) by {
        lemma_segment_end(dot, 0);
    }
    assert(spans_from(dot, 1, false) =~= Seq::<(int, int)>::empty());
    assert(below(dot) =~= Seq::<Seq<u8>>::empty());
    assert(below(none) =~= Seq::<Seq<u8>>::empty());
    lemma_join_below(dir, none);
    lemma_join_below(dir, dot);
    assert(join(dir, none) =~= open);
    assert(join(dir, dot) =~= there);
    assert(components(dir) + below(none) =~= components(dir));
    assert(components(dir) + below(dot) =~= components(dir));
    lemma_join_below(dir, b);
    lemma_join_below(there, b);
    assert(join(dir, b) =~= dir + seq![47u8] + b);
    assert(join(there, b) =~= dir + seq![47u8, 46u8, 47u8] + b);
    lemma_extra_slash(open);
    lemma_join_below(open + seq![47u8], b);
    assert(join(open + seq![47u8], b) =~= dir + seq![47u8, 47u8] + b);
}

/// The name of a file is what stands behind the last `/` of its path, and its parent is the directory
/// before.
pub proof fn law_a_file_has_its_name_and_its_directory(
    file: &FilePath,
    dir: Seq<u8>,
    name: Seq<u8>,
    found: Option<Vec<u8>>,
    above: Option<FilePath>,
)
    requires
        is_segment(name),
        name != seq![46u8, 46u8],
        dir.len() > 0,
        file@ == dir + seq![47u8] + name,
        call_ensures(FilePath::file_name, (file,), found),
        call_ensures(FilePath::parent, (file,), above),
    ensures
        found matches Some(n) && n@ == name,
        above matches Some(d) && components(d@) == components(dir),
{
    let b = file@;
    let d = dir + seq![47u8];
    lemma_single_component(name);
    assert(cur_dir() =~= seq![46u8]);
    assert(parent_dir() =~= seq![46u8, 46u8]);
    if name == root_dir() {
        assert(name[0] == 47);
    }
    lemma_join_components(d, name);
    assert(join(d, name) =~= b);
    if dir.last() == 47 {
        lemma_extra_slash(dir);
    } else {
        let none = Seq::<u8>::empty();
        assert(components(none) =~= Seq::<Seq<u8>>::empty());
        lemma_join_components(dir, none);
        assert(join(dir, none) =~= d);
        assert(components(dir) + components(none) =~= components(dir));
    }
    assert(components(b) == components(dir).push(name));
    assert(components(b).last() == name);
    assert(components(b).len() == spans(b).len());
    lemma_component_names(b);
    if spans(b).len() == 1 && is_absolute(b) {
        assert(components(b)[0] == name);
    }
    lemma_parent_components(b);
    assert(components(b).drop_last() =~= components(dir));
}

/// A path that ends in the root directory, a `.` or a `..` names no file.
pub proof fn law_a_directory_above_is_no_name(file: &FilePath, found: Option<Vec<u8>>)
    requires
        call_ensures(FilePath::file_name, (file,), found),
        components(file@).len() > 0 ==> components(file@).last() == seq![47u8] || components(
            file@,
        ).last() == seq![46u8] || components(file@).last() == seq![46u8, 46u8],
    ensures
        found is None,
{
    assert(root_dir() =~= seq![47u8]);
    assert(cur_dir() =~= seq![46u8]);
    assert(parent_dir() =~= seq![46u8, 46u8]);
}

/// A path that was joined is parted again: seen from its directory it is what was joined to it.
pub proof fn law_stripping_undoes_joining(
    dir: &FilePath,
    relative: &FilePath,
    joined: &FilePath,
    stripped: Option<FilePath>,
)
    requires
        dir@.len() > 0,
        relative@.len() > 0,
        relative@[0] != 47,
        relative@[0] != 46,
        call_ensures(FilePath::join, (dir, relative), *joined),
        call_ensures(FilePath::strip_prefix, (joined, dir), stripped),
    ensures
        joined@.subrange(joined@.len() - relative@.len(), joined@.len() as int) == relative@,
        joined@.len() >= dir@.len() + relative@.len(),
        joined@.take(dir@.len() as int) == dir@,
        stripped matches Some(r) && components(r@) == components(relative@),
{
    let b = joined@;
    let n = components(dir@).len() as int;
    if components(relative@).len() > 0 && components(relative@)[0] == cur_dir() {
        lemma_spans_bounds(relative@);
        let s = spans(relative@)[0];
        lemma_segment_end(relative@, 0);
        lemma_segment_end(relative@, 1);
        assert(s.0 == 0);
        assert(relative@.subrange(s.0, s.1)[0] == relative@[0]);
    }
    lemma_join_components(dir@, relative@);
    assert(components(dir@).is_prefix_of(components(b)));
    lemma_component_names(dir@);
    lemma_component_names(b);
    if n == 0 {
        assert(!is_absolute(dir@));
        assert(b[0] == dir@[0]);
    }
    lemma_rest_components(b, n);
    assert(components(b).skip(n) =~= components(relative@));
    assert(b.subrange(b.len() - relative@.len(), b.len() as int) =~= relative@);
    assert(b.take(dir@.len() as int) =~= dir@);
}

/// What is seen from a directory lies in it: the components of the directory, and those that are left,
/// are those of the path. A path elsewhere is refused.
pub proof fn law_what_is_stripped_lies_beneath(
    file: &FilePath,
    dir: &FilePath,
    stripped: Option<FilePath>,
)
    requires
        components(dir@).len() > 0,
        call_ensures(FilePath::strip_prefix, (file, dir), stripped),
    ensures
        stripped matches Some(r) ==> components(file@) == components(dir@) + components(r@),
        stripped is None ==> forall|others: Seq<Seq<u8>>|
            components(file@) != #[trigger] (components(dir@) + others),
{
    let d = components(dir@);
    let n = d.len() as int;
    if let Some(r) = stripped {
        lemma_rest_components(file@, n);
        assert(components(file@) =~= d + components(file@).skip(n));
    } else {
        assert forall|others: Seq<Seq<u8>>| components(file@) != #[trigger] (d + others) by {
            if components(file@) == d + others {
                assert(d.is_prefix_of(d + others));
            }
        }
    }
}

/// An absolute path stands for itself wherever it is seen from.
pub proof fn law_an_absolute_path_stands_for_itself(
    dir: &FilePath,
    other: &FilePath,
    joined: FilePath,
)
    requires
        other@.len() > 0,
        other@[0] == 47,
        call_ensures(FilePath::join, (dir, other), joined),
    ensures
        joined@ == other@,
{
}

/// A directory and a relative path are joined by a `/`, unless there is one, or no directory.
pub proof fn law_one_slash_joins(dir: &FilePath, other: &FilePath, joined: FilePath)
    requires
        other@.len() == 0 || other@[0] != 47,
        call_ensures(FilePath::join, (dir, other), joined),
    ensures
        dir@.len() == 0 || dir@.last() == 47 ==> joined@ == dir@ + other@,
        dir@.len() > 0 && dir@.last() != 47 ==> joined@ == dir@ + seq![47u8] + other@,
{
}

/// A path leads upwards exactly if one of the names between its separators is `..`.
pub proof fn law_two_dots_lead_upwards(file: &FilePath, names: Seq<Seq<u8>>, upwards: bool)
    requires
        forall|i: int| 0 <= i < names.len() ==> is_segment(#[trigger] names[i]),
        file@ == slashed(names),
        call_ensures(FilePath::has_parent_dir, (file,), upwards),
    ensures
        upwards <==> names.contains(seq![46u8, 46u8]),
{
    law_a_path_is_made_of_its_names(names);
    assert(parent_dir() =~= seq![46u8, 46u8]);
}

/// A file name is its stem, a dot and its extension. The extension holds no dot, and the stem is not empty.
/// A name without an extension is its own stem: it has no dot, but for one that it may begin with.
pub proof fn law_a_name_is_stem_and_extension(name: &[u8], parts: (Vec<u8>, Option<Vec<u8>>))
    requires
        call_ensures(split_name, (name,), parts),
    ensures
        match parts.1 {
            Some(e) => {
                &&& name@ == parts.0@ + seq![46u8] + e@
                &&& parts.0@.len() > 0
                &&& forall|p: int| 0 <= p < e@.len() ==> e@[p] != 46
            },
            None => {
                &&& name@ == parts.0@
                &&& forall|p: int| 0 < p < name@.len() ==> name@[p] != 46
            },
        },
{
    let f = name@;
    let d = last_dot(f, f.len() as int);
    lemma_last_dot(f, f.len() as int);
    if let Some(e) = parts.1 {
        assert(f =~= f.take(d) + seq![46u8] + f.skip(d + 1));
        assert forall|p: int| 0 <= p < e@.len() implies e@[p] != 46 by {
            assert(e@[p] == f[d + 1 + p]);
        }
    }
}

/// The key of a path is the path itself, as text. Bytes that are no text, or that begin with a NUL, are
/// spelled behind a NUL, in two digits for each.
pub proof fn law_a_key_spells_its_path(file: &FilePath, key: String)
    requires
        call_ensures(FilePath::key, (file,), key),
    ensures
        valid_utf8(file@) && (file@.len() > 0 ==> file@[0] != 0) ==> encode_utf8(key@) == file@,
        !valid_utf8(file@) || (file@.len() > 0 && file@[0] == 0) ==> key@.len() == 2 * file@.len()
            + 1 && key@[0] == '\0' && forall|i: int|
            0 <= i < file@.len() ==> #[trigger] file@[i] == 16 * hash::digit_value(key@[2 * i + 1])
                + hash::digit_value(key@[2 * i + 2]),
{
    let b = file@;
    if valid_utf8(b) && (b.len() > 0 ==> b[0] != 0) {
        decode_utf8_encode_utf8(b);
    } else {
        let h = hash::hex(b);
        hash::lemma_hex_spells(b);
        assert forall|i: int| 0 <= i < b.len() implies #[trigger] b[i] == 16 * hash::digit_value(
            key@[2 * i + 1],
        ) + hash::digit_value(key@[2 * i + 2]) by {
            assert(key@[2 * i + 1] == h[2 * i]);
            assert(key@[2 * i + 2] == h[2 * i + 1]);
        }
    }
}

} // verus!
