//! The daemon's configuration file and the managed block of
//! plugin-load directives inside it.
//!
//! The file is jointly owned with the daemon and with manual operator
//! edits, so the engine only ever touches the demarcated block: the
//! region between the first begin marker and the first end marker that
//! follows it. Everything outside the block is preserved untouched.
//! The content is composed fully in memory; writing it back in one
//! step is the caller's concern.

use vstd::prelude::*;
use crate::types::views_of;

verus! {

/// The line that opens the managed block.
pub open spec fn start_marker() -> Seq<char> {
    "#coffee-plugins-begin"@
}

/// The line that closes the managed block.
pub open spec fn end_marker() -> Seq<char> {
    "#coffee-plugins-end"@
}

/// The prefix of every plugin-load directive line.
pub open spec fn directive_prefix() -> Seq<char> {
    "plugin="@
}

/// The load directive line of a plugin.
pub open spec fn directive_of(name: Seq<char>) -> Seq<char> {
    directive_prefix() + name
}

/// The first line equal to `what` in `lines[i..end]`, or `-1`.
pub open spec fn find_from(lines: Seq<Seq<char>>, what: Seq<char>, i: int, end: int) -> int
    decreases end - i,
{
    if i < 0 || i >= end || end > lines.len() {
        -1
    } else if lines[i] == what {
        i
    } else {
        find_from(lines, what, i + 1, end)
    }
}

/// `find_from` returns the first occurrence, and `-1` exactly when
/// there is none.
pub proof fn lemma_find_from(lines: Seq<Seq<char>>, what: Seq<char>, i: int, end: int)
    requires
        0 <= i,
        end <= lines.len(),
    ensures
        find_from(lines, what, i, end) >= -1,
        find_from(lines, what, i, end) == -1 ==> forall|j: int| i <= j < end
            ==> #[trigger] lines[j] != what,
        find_from(lines, what, i, end) >= 0 ==> i <= find_from(lines, what, i, end) < end
            && lines[find_from(lines, what, i, end)] == what
            && forall|j: int| i <= j < find_from(lines, what, i, end)
                ==> #[trigger] lines[j] != what,
    decreases end - i,
{
    if i < end && end <= lines.len() && lines[i] != what {
        lemma_find_from(lines, what, i + 1, end);
    }
}

/// A first occurrence pins `find_from` down.
pub proof fn lemma_find_from_is(lines: Seq<Seq<char>>, what: Seq<char>, i: int, end: int, k: int)
    requires
        0 <= i <= k < end <= lines.len(),
        lines[k] == what,
        forall|j: int| i <= j < k ==> #[trigger] lines[j] != what,
    ensures
        find_from(lines, what, i, end) == k,
{
    lemma_find_from(lines, what, i, end);
    let r = find_from(lines, what, i, end);
    if r == -1 {
        assert(lines[k] != what);
    } else {
        if r < k {
            assert(lines[r] != what);
        }
        if k < r {
            assert(lines[k] != what);
        }
    }
}

/// Absence pins `find_from` to `-1`.
pub proof fn lemma_find_from_none(lines: Seq<Seq<char>>, what: Seq<char>, i: int, end: int)
    requires
        0 <= i,
        end <= lines.len(),
        forall|j: int| i <= j < end ==> #[trigger] lines[j] != what,
    ensures
        find_from(lines, what, i, end) == -1,
{
    lemma_find_from(lines, what, i, end);
    let r = find_from(lines, what, i, end);
    if r >= 0 {
        assert(lines[r] != what);
    }
}

/// The position of the begin marker: the first such line, or `-1`.
pub open spec fn start_of(c: Seq<Seq<char>>) -> int {
    find_from(c, start_marker(), 0, c.len() as int)
}

/// The position of the end marker: the first such line after the begin
/// marker, or `-1`.
pub open spec fn end_of(c: Seq<Seq<char>>) -> int {
    find_from(c, end_marker(), start_of(c) + 1, c.len() as int)
}

/// Whether the file holds a managed block.
pub open spec fn has_block(c: Seq<Seq<char>>) -> bool {
    start_of(c) >= 0 && end_of(c) >= 0
}

/// A begin marker, if one is present, is followed by an end marker.
/// Every file the engine produces keeps this shape.
pub open spec fn markers_wf(c: Seq<Seq<char>>) -> bool {
    start_of(c) >= 0 ==> end_of(c) >= 0
}

/// The lines of the managed block, markers excluded.
pub open spec fn block_of(c: Seq<Seq<char>>) -> Seq<Seq<char>> {
    c.subrange(start_of(c) + 1, end_of(c))
}

/// The file after a directive is appended to the block.
pub open spec fn insert_directive_spec(c: Seq<Seq<char>>, d: Seq<char>) -> Seq<Seq<char>> {
    c.insert(end_of(c), d)
}

/// The first occurrence of a directive inside the block, or `-1`.
pub open spec fn find_directive(c: Seq<Seq<char>>, d: Seq<char>) -> int {
    find_from(c, d, start_of(c) + 1, end_of(c))
}

/// The file after the first in-block occurrence of a directive is
/// removed; the file unchanged if the block does not hold it.
pub open spec fn remove_directive_spec(c: Seq<Seq<char>>, d: Seq<char>) -> Seq<Seq<char>> {
    if find_directive(c, d) >= 0 {
        c.remove(find_directive(c, d))
    } else {
        c
    }
}

/// Whether the block holds exactly one occurrence of a directive:
/// there is a first one, and none after it.
pub open spec fn directive_once(c: Seq<Seq<char>>, d: Seq<char>) -> bool {
    find_directive(c, d) >= 0 && find_from(c, d, find_directive(c, d) + 1, end_of(c)) == -1
}

/// The file after the whole block, markers included, is removed.
pub open spec fn strip_block_spec(c: Seq<Seq<char>>) -> Seq<Seq<char>> {
    c.subrange(0, start_of(c)) + c.subrange(end_of(c) + 1, c.len() as int)
}

/// The file after the block's contents are replaced wholesale; if no
/// block exists, one is created at the end of the file.
pub open spec fn replace_block_spec(c: Seq<Seq<char>>, ds: Seq<Seq<char>>) -> Seq<Seq<char>> {
    if has_block(c) {
        c.subrange(0, start_of(c) + 1) + ds + c.subrange(end_of(c), c.len() as int)
    } else {
        c + seq![start_marker()] + ds + seq![end_marker()]
    }
}

/// A clean file: marker lines occur only as the block's own two
/// markers. Every file the engine produces keeps this shape, and a
/// loaded file must have it — a duplicated marker would make the
/// block's extent ambiguous.
pub open spec fn config_clean(c: Seq<Seq<char>>) -> bool {
    &&& markers_wf(c)
    &&& forall|j: int| 0 <= j < c.len() && #[trigger] c[j] == start_marker()
        ==> has_block(c) && j == start_of(c)
    &&& forall|j: int| 0 <= j < c.len() && #[trigger] c[j] == end_marker()
        ==> has_block(c) && j == end_of(c)
}

/// Appending a non-marker directive keeps the file clean.
pub proof fn lemma_insert_directive_clean(c: Seq<Seq<char>>, d: Seq<char>)
    requires
        config_clean(c),
        has_block(c),
        d != start_marker(),
        d != end_marker(),
    ensures
        config_clean(insert_directive_spec(c, d)),
{
    let s = start_of(c);
    let e = end_of(c);
    lemma_find_from(c, start_marker(), 0, c.len() as int);
    lemma_find_from(c, end_marker(), s + 1, c.len() as int);
    lemma_insert_directive(c, d);
    let c2 = insert_directive_spec(c, d);
    assert forall|j: int| 0 <= j < c2.len() && #[trigger] c2[j] == start_marker()
        implies has_block(c2) && j == start_of(c2) by {
        if j < e {
            assert(c2[j] == c[j]);
        } else if j == e {
            assert(c2[j] == d);
        } else {
            assert(c2[j] == c[j - 1]);
        }
    }
    assert forall|j: int| 0 <= j < c2.len() && #[trigger] c2[j] == end_marker()
        implies has_block(c2) && j == end_of(c2) by {
        if j < e {
            assert(c2[j] == c[j]);
        } else if j == e {
            assert(c2[j] == d);
        } else {
            assert(c2[j] == c[j - 1]);
        }
    }
}

/// Removing an in-block directive keeps the file clean.
pub proof fn lemma_remove_directive_clean(c: Seq<Seq<char>>, d: Seq<char>)
    requires
        config_clean(c),
        d != start_marker(),
        d != end_marker(),
    ensures
        config_clean(remove_directive_spec(c, d)),
{
    if find_directive(c, d) >= 0 {
        let s = start_of(c);
        let e = end_of(c);
        let k = find_directive(c, d);
        if has_block(c) {
            lemma_find_from(c, start_marker(), 0, c.len() as int);
            lemma_find_from(c, end_marker(), s + 1, c.len() as int);
            lemma_find_from(c, d, s + 1, e);
            lemma_remove_directive(c, d);
            let c2 = remove_directive_spec(c, d);
            assert(start_of(c2) == s);
            assert(end_of(c2) == e - 1);
            assert forall|j: int| 0 <= j < c2.len() && #[trigger] c2[j] == start_marker()
                implies has_block(c2) && j == start_of(c2) by {
                assert(start_of(c2) == s);
                if j < k {
                    assert(c2[j] == c[j]);
                    assert(c[j] == start_marker());
                    assert(j == start_of(c));
                } else {
                    assert(c2[j] == c[j + 1]);
                    assert(c[j + 1] == start_marker());
                    assert(j + 1 == start_of(c));
                    assert(false);
                }
            }
            assert forall|j: int| 0 <= j < c2.len() && #[trigger] c2[j] == end_marker()
                implies has_block(c2) && j == end_of(c2) by {
                if j < k {
                    assert(c2[j] == c[j]);
                } else {
                    assert(c2[j] == c[j + 1]);
                }
            }
        } else {
            lemma_find_from(c, end_marker(), s + 1, c.len() as int);
        }
    }
}

/// Replacing the block with non-marker lines keeps the file clean.
pub proof fn lemma_replace_block_clean(c: Seq<Seq<char>>, ds: Seq<Seq<char>>)
    requires
        config_clean(c),
        forall|k: int| 0 <= k < ds.len() ==> #[trigger] ds[k] != start_marker()
            && ds[k] != end_marker(),
    ensures
        config_clean(replace_block_spec(c, ds)),
        has_block(replace_block_spec(c, ds)),
        block_of(replace_block_spec(c, ds)) == ds,
{
    lemma_replace_block(c, ds);
    lemma_markers_distinct();
    let c2 = replace_block_spec(c, ds);
    let s2 = start_of(c2);
    let e2 = end_of(c2);
    lemma_find_from(c2, start_marker(), 0, c2.len() as int);
    lemma_find_from(c2, end_marker(), s2 + 1, c2.len() as int);
    if has_block(c) {
        let s = start_of(c);
        let e = end_of(c);
        lemma_find_from(c, start_marker(), 0, c.len() as int);
        lemma_find_from(c, end_marker(), s + 1, c.len() as int);
        assert forall|j: int| 0 <= j < c2.len() && #[trigger] c2[j] == start_marker()
            implies has_block(c2) && j == start_of(c2) by {
            if j <= s {
                assert(c2[j] == c[j]);
            } else if j < s + 1 + ds.len() {
                assert(c2[j] == ds[j - (s + 1)]);
            } else {
                assert(c2[j] == c[j - (s + 1 + ds.len()) + e]);
            }
        }
        assert forall|j: int| 0 <= j < c2.len() && #[trigger] c2[j] == end_marker()
            implies has_block(c2) && j == end_of(c2) by {
            if j <= s {
                assert(c2[j] == c[j]);
            } else if j < s + 1 + ds.len() {
                assert(c2[j] == ds[j - (s + 1)]);
            } else {
                assert(c2[j] == c[j - (s + 1 + ds.len()) + e]);
            }
        }
    } else {
        let n = c.len() as int;
        assert forall|j: int| 0 <= j < c2.len() && #[trigger] c2[j] == start_marker()
            implies has_block(c2) && j == start_of(c2) by {
            if j < n {
                assert(c2[j] == c[j]);
            } else if j > n && j < n + 1 + ds.len() {
                assert(c2[j] == ds[j - (n + 1)]);
            }
        }
        assert forall|j: int| 0 <= j < c2.len() && #[trigger] c2[j] == end_marker()
            implies has_block(c2) && j == end_of(c2) by {
            if j < n {
                assert(c2[j] == c[j]);
            } else if j > n && j < n + 1 + ds.len() {
                assert(c2[j] == ds[j - (n + 1)]);
            }
        }
    }
}

/// Removing the whole block leaves a clean, blockless file.
pub proof fn lemma_strip_block_clean(c: Seq<Seq<char>>)
    requires
        config_clean(c),
        has_block(c),
    ensures
        config_clean(strip_block_spec(c)),
        !has_block(strip_block_spec(c)),
{
    let s = start_of(c);
    let e = end_of(c);
    lemma_find_from(c, start_marker(), 0, c.len() as int);
    lemma_find_from(c, end_marker(), s + 1, c.len() as int);
    let c2 = strip_block_spec(c);
    assert forall|j: int| 0 <= j < c2.len() implies #[trigger] c2[j] != start_marker()
        && c2[j] != end_marker() by {
        if j < s {
            assert(c2[j] == c[j]);
        } else {
            assert(c2[j] == c[j + (e - s + 1)]);
        }
    }
    lemma_find_from_none(c2, start_marker(), 0, c2.len() as int);
    assert(start_of(c2) == -1);
    lemma_find_from(c2, end_marker(), start_of(c2) + 1, c2.len() as int);
    if end_of(c2) >= 0 {
        assert(c2[end_of(c2)] != end_marker());
    }
}

/// In a clean file without a block, removing a directive is a no-op
/// in the model too.
pub proof fn lemma_no_block_no_directive(c: Seq<Seq<char>>, d: Seq<char>)
    requires
        config_clean(c),
        !has_block(c),
    ensures
        find_directive(c, d) == -1,
        remove_directive_spec(c, d) == c,
{
    assert forall|j: int| 0 <= j < c.len() implies #[trigger] c[j] != start_marker() by {}
    assert forall|j: int| 0 <= j < c.len() implies #[trigger] c[j] != end_marker() by {}
    lemma_find_from_none(c, start_marker(), 0, c.len() as int);
    assert(start_of(c) == -1);
    lemma_find_from_none(c, end_marker(), 0, c.len() as int);
    assert(end_of(c) == -1);
    lemma_find_from(c, d, 0, -1);
    if find_directive(c, d) >= 0 {
        lemma_find_from(c, d, 0, c.len() as int);
    }
    assert(find_directive(c, d) == -1);
}

/// A directive line is never a marker line.
pub proof fn lemma_directive_not_marker(name: Seq<char>)
    ensures
        directive_of(name) != start_marker(),
        directive_of(name) != end_marker(),
{
    reveal_strlit("plugin=");
    reveal_strlit("#coffee-plugins-begin");
    reveal_strlit("#coffee-plugins-end");
    assert(directive_of(name)[0] == 'p');
    assert(start_marker()[0] == '#');
    assert(end_marker()[0] == '#');
}

/// The two markers are distinct lines.
pub proof fn lemma_markers_distinct()
    ensures
        start_marker() != end_marker(),
{
    reveal_strlit("#coffee-plugins-begin");
    reveal_strlit("#coffee-plugins-end");
    assert(start_marker().len() != end_marker().len());
}

/// Directive lines determine the plugin name.
pub proof fn lemma_directive_injective(a: Seq<char>, b: Seq<char>)
    requires
        directive_of(a) == directive_of(b),
    ensures
        a == b,
{
    reveal_strlit("plugin=");
    let p = directive_prefix();
    assert(directive_of(a).len() == p.len() + a.len());
    assert(directive_of(b).len() == p.len() + b.len());
    assert forall|i: int| 0 <= i < a.len() implies a[i] == b[i] by {
        assert(directive_of(a)[p.len() + i] == a[i]);
        assert(directive_of(b)[p.len() + i] == b[i]);
    }
    assert(a =~= b);
}

/// Inserting a non-marker line at the end of the block leaves the
/// markers where they were and appends the line to the block.
pub proof fn lemma_insert_directive(c: Seq<Seq<char>>, d: Seq<char>)
    requires
        has_block(c),
        d != start_marker(),
        d != end_marker(),
    ensures
        has_block(insert_directive_spec(c, d)),
        start_of(insert_directive_spec(c, d)) == start_of(c),
        end_of(insert_directive_spec(c, d)) == end_of(c) + 1,
        block_of(insert_directive_spec(c, d)) == block_of(c).push(d),
{
    let s = start_of(c);
    let e = end_of(c);
    lemma_find_from(c, start_marker(), 0, c.len() as int);
    lemma_find_from(c, end_marker(), s + 1, c.len() as int);
    let c2 = insert_directive_spec(c, d);
    assert(c2.len() == c.len() + 1);
    assert(forall|j: int| 0 <= j < e ==> c2[j] == c[j]);
    assert(c2[e] == d);
    assert(forall|j: int| e < j < c2.len() ==> c2[j] == c[j - 1]);
    lemma_find_from_is(c2, start_marker(), 0, c2.len() as int, s);
    assert(start_of(c2) == s);
    assert(c2[e + 1] == c[e]);
    lemma_find_from_is(c2, end_marker(), s + 1, c2.len() as int, e + 1);
    assert(end_of(c2) == e + 1);
    assert(block_of(c2) =~= block_of(c).push(d));
}

/// Removing an in-block line leaves the markers in place and removes
/// exactly that line from the block.
pub proof fn lemma_remove_directive(c: Seq<Seq<char>>, d: Seq<char>)
    requires
        has_block(c),
        d != start_marker(),
        d != end_marker(),
        find_directive(c, d) >= 0,
    ensures
        has_block(remove_directive_spec(c, d)),
        start_of(remove_directive_spec(c, d)) == start_of(c),
        end_of(remove_directive_spec(c, d)) == end_of(c) - 1,
        block_of(remove_directive_spec(c, d))
            == block_of(c).remove(find_directive(c, d) - (start_of(c) + 1)),
{
    let s = start_of(c);
    let e = end_of(c);
    let k = find_directive(c, d);
    lemma_find_from(c, start_marker(), 0, c.len() as int);
    lemma_find_from(c, end_marker(), s + 1, c.len() as int);
    lemma_find_from(c, d, s + 1, e);
    assert(s < k < e);
    assert(c[k] == d);
    let c2 = remove_directive_spec(c, d);
    assert(c2 == c.remove(k));
    assert(c2.len() == c.len() - 1);
    assert(forall|j: int| 0 <= j < k ==> c2[j] == c[j]);
    assert(forall|j: int| k <= j < c2.len() ==> c2[j] == c[j + 1]);
    lemma_find_from_is(c2, start_marker(), 0, c2.len() as int, s);
    assert(start_of(c2) == s);
    assert(c2[e - 1] == c[e]);
    assert forall|j: int| s + 1 <= j < e - 1 implies c2[j] != end_marker() by {
        if j < k {
            assert(c2[j] == c[j]);
        } else {
            assert(c2[j] == c[j + 1]);
        }
    }
    lemma_find_from_is(c2, end_marker(), s + 1, c2.len() as int, e - 1);
    assert(end_of(c2) == e - 1);
    assert(block_of(c2) =~= block_of(c).remove(k - (s + 1)));
}

/// Replacing the block's contents with non-marker lines yields a file
/// whose block is exactly those lines, other lines untouched.
pub proof fn lemma_replace_block(c: Seq<Seq<char>>, ds: Seq<Seq<char>>)
    requires
        markers_wf(c),
        forall|k: int| 0 <= k < ds.len() ==> #[trigger] ds[k] != start_marker()
            && ds[k] != end_marker(),
    ensures
        has_block(replace_block_spec(c, ds)),
        markers_wf(replace_block_spec(c, ds)),
        start_of(replace_block_spec(c, ds))
            == if has_block(c) { start_of(c) } else { c.len() as int },
        end_of(replace_block_spec(c, ds)) == start_of(replace_block_spec(c, ds)) + 1 + ds.len(),
        block_of(replace_block_spec(c, ds)) == ds,
{
    let c2 = replace_block_spec(c, ds);
    lemma_markers_distinct();
    lemma_find_from(c, start_marker(), 0, c.len() as int);
    if has_block(c) {
        let s = start_of(c);
        let e = end_of(c);
        lemma_find_from(c, end_marker(), s + 1, c.len() as int);
        assert(c2.len() == s + 1 + ds.len() + (c.len() - e));
        assert(forall|j: int| 0 <= j <= s ==> c2[j] == c[j]);
        assert(forall|j: int| 0 <= j < ds.len() ==> c2[s + 1 + j] == ds[j]);
        assert(forall|j: int| s + 1 + ds.len() <= j < c2.len()
            ==> c2[j] == c[j - (s + 1 + ds.len()) + e]);
        lemma_find_from_is(c2, start_marker(), 0, c2.len() as int, s);
        assert(start_of(c2) == s);
        let e2 = s + 1 + ds.len();
        assert(c2[e2] == c[e]);
        assert forall|j: int| s + 1 <= j < e2 implies c2[j] != end_marker() by {
            assert(c2[j] == ds[j - (s + 1)]);
        }
        lemma_find_from_is(c2, end_marker(), s + 1, c2.len() as int, e2);
        assert(end_of(c2) == e2);
        assert(block_of(c2) =~= ds);
    } else {
        assert(start_of(c) == -1);
        let n = c.len() as int;
        assert(c2.len() == n + 1 + ds.len() + 1);
        assert(forall|j: int| 0 <= j < n ==> c2[j] == c[j]);
        assert(c2[n] == start_marker());
        assert(forall|j: int| 0 <= j < ds.len() ==> c2[n + 1 + j] == ds[j]);
        assert(c2[n + 1 + ds.len()] == end_marker());
        lemma_find_from_is(c2, start_marker(), 0, c2.len() as int, n);
        assert(start_of(c2) == n);
        let e2 = n + 1 + ds.len();
        assert forall|j: int| n + 1 <= j < e2 implies c2[j] != end_marker() by {
            assert(c2[j] == ds[j - (n + 1)]);
        }
        lemma_find_from_is(c2, end_marker(), n + 1, c2.len() as int, e2);
        assert(end_of(c2) == e2);
        assert(block_of(c2) =~= ds);
    }
}

// ---------------------------------------------------------------------
// The executable configuration file.

/// The daemon configuration file, held fully in memory as lines.
pub struct ConfigFile {
    lines: Vec<String>,
}

impl View for ConfigFile {
    type V = Seq<Seq<char>>;

    closed spec fn view(&self) -> Seq<Seq<char>> {
        views_of(self.lines@)
    }
}

impl ConfigFile {
    /// An empty file.
    pub fn new() -> (r: ConfigFile)
        ensures
            r@ == Seq::<Seq<char>>::empty(),
    {
        let r = ConfigFile { lines: Vec::new() };
        proof {
            assert(r@ =~= Seq::<Seq<char>>::empty());
        }
        r
    }

    /// A file read from disk, line by line.
    pub fn from_lines(lines: Vec<String>) -> (r: ConfigFile)
        ensures
            r@ == views_of(lines@),
    {
        ConfigFile { lines }
    }

    /// A copy of the file's lines, for writing back to disk.
    pub fn lines_copy(&self) -> (r: Vec<String>)
        ensures
            views_of(r@) == self@,
    {
        let mut r: Vec<String> = Vec::new();
        let mut i: usize = 0;
        while i < self.lines.len()
            invariant
                i <= self.lines.len(),
                r@.len() == i,
                forall|j: int| 0 <= j < i ==> #[trigger] r@[j]@ == self.lines@[j]@,
            decreases self.lines.len() - i,
        {
            r.push(self.lines[i].clone());
            i = i + 1;
        }
        proof {
            assert(views_of(r@) =~= self@);
        }
        r
    }

    /// The number of lines.
    pub fn line_count(&self) -> (r: usize)
        ensures
            r == self@.len(),
    {
        self.lines.len()
    }

    /// A copy of one line.
    pub fn line_at(&self, i: usize) -> (r: String)
        requires
            (i as int) < self@.len(),
        ensures
            r@ == self@[i as int],
    {
        self.lines[i].clone()
    }

    /// The marker positions, if the file holds a managed block.
    pub fn find_markers(&self) -> (r: Option<(usize, usize)>)
        ensures
            match r {
                Some((s, e)) => has_block(self@) && s as int == start_of(self@)
                    && e as int == end_of(self@) && s < e && (e as int) < self@.len(),
                None => !has_block(self@),
            },
    {
        let n = self.lines.len();
        let mut i: usize = 0;
        let mut s_found: bool = false;
        while !s_found && i < n
            invariant
                i <= n,
                n == self.lines.len(),
                !s_found ==> forall|j: int| 0 <= j < i ==> self@[j] != start_marker(),
                s_found ==> i < n && self@[i as int] == start_marker()
                    && forall|j: int| 0 <= j < i ==> self@[j] != start_marker(),
            decreases n - i, (if s_found { 0int } else { 1int }),
        {
            if string_eq_literal(&self.lines[i], "#coffee-plugins-begin") {
                s_found = true;
            } else {
                proof {
                    assert(self@[i as int] != start_marker());
                }
                i = i + 1;
            }
        }
        if !s_found {
            proof {
                lemma_find_from_none(self@, start_marker(), 0, n as int);
            }
            return None;
        }
        let s = i;
        proof {
            lemma_find_from_is(self@, start_marker(), 0, n as int, s as int);
        }
        let mut k: usize = s + 1;
        let mut e_found: bool = false;
        while !e_found && k < n
            invariant
                s < k <= n,
                n == self.lines.len(),
                s as int == start_of(self@),
                !e_found ==> forall|j: int| s < j < k ==> self@[j] != end_marker(),
                e_found ==> k < n && self@[k as int] == end_marker()
                    && forall|j: int| s < j < k ==> self@[j] != end_marker(),
            decreases n - k, (if e_found { 0int } else { 1int }),
        {
            if string_eq_literal(&self.lines[k], "#coffee-plugins-end") {
                e_found = true;
            } else {
                proof {
                    assert(self@[k as int] != end_marker());
                }
                k = k + 1;
            }
        }
        if !e_found {
            proof {
                lemma_find_from_none(self@, end_marker(), s as int + 1, n as int);
            }
            return None;
        }
        proof {
            lemma_find_from_is(self@, end_marker(), s as int + 1, n as int, k as int);
        }
        Some((s, k))
    }

    /// Appends a directive at the end of the block. Returns `false`,
    /// leaving the file untouched, if the file has no managed block.
    pub fn insert_directive(&mut self, line: String) -> (r: bool)
        ensures
            r == has_block(old(self)@),
            r ==> final(self)@ == insert_directive_spec(old(self)@, line@),
            !r ==> final(self)@ == old(self)@,
    {
        match self.find_markers() {
            None => false,
            Some((_s, e)) => {
                self.lines.insert(e, line);
                proof {
                    assert(final(self)@ =~= insert_directive_spec(old(self)@, line@));
                }
                true
            },
        }
    }

    /// Removes the first in-block occurrence of a directive. Returns
    /// `false`, leaving the file untouched, if there is no block. A
    /// directive the block does not hold is a silent no-op: the file
    /// is then already what removal would produce.
    pub fn remove_directive(&mut self, line: &String) -> (r: bool)
        ensures
            r == has_block(old(self)@),
            r ==> final(self)@ == remove_directive_spec(old(self)@, line@),
            !r ==> final(self)@ == old(self)@,
    {
        match self.find_markers() {
            None => false,
            Some((s, e)) => {
                let mut k: usize = s + 1;
                let mut hit: bool = false;
                while !hit && k < e
                    invariant
                        s < k <= e,
                        e < self.lines.len(),
                        !hit ==> forall|j: int| s < j < k ==> self@[j] != line@,
                        hit ==> k < e && self@[k as int] == line@
                            && forall|j: int| s < j < k ==> self@[j] != line@,
                    decreases e - k, (if hit { 0int } else { 1int }),
                {
                    if string_eq(&self.lines[k], line) {
                        hit = true;
                    } else {
                        proof {
                            assert(self@[k as int] != line@);
                        }
                        k = k + 1;
                    }
                }
                if !hit {
                    proof {
                        lemma_find_from_none(self@, line@, s as int + 1, e as int);
                    }
                    return true;
                }
                proof {
                    lemma_find_from_is(self@, line@, s as int + 1, e as int, k as int);
                }
                self.lines.remove(k);
                proof {
                    assert(final(self)@ =~= remove_directive_spec(old(self)@, line@));
                }
                true
            },
        }
    }

    /// Creates the managed block at the end of the file if none exists;
    /// a file that already holds one is left untouched.
    pub fn ensure_block(&mut self)
        ensures
            has_block(old(self)@) ==> final(self)@ == old(self)@,
            !has_block(old(self)@) ==> final(self)@
                == old(self)@ + seq![start_marker()] + seq![end_marker()],
            has_block(final(self)@),
            markers_wf(final(self)@),
    {
        match self.find_markers() {
            Some(_) => {},
            None => {
                let ghost c = self@;
                let mut sm = String::new();
                sm.append("#coffee-plugins-begin");
                let mut em = String::new();
                em.append("#coffee-plugins-end");
                self.lines.push(sm);
                self.lines.push(em);
                proof {
                    let c2 = self@;
                    let n = c.len() as int;
                    assert(c2.len() == n + 2);
                    assert(forall|j: int| 0 <= j < n ==> c2[j] == c[j]);
                    assert(c2[n] == start_marker());
                    assert(c2[n + 1] == end_marker());
                    lemma_markers_distinct();
                    lemma_find_from(c, start_marker(), 0, n);
                    let s = start_of(c);
                    if s >= 0 {
                        // a stray begin marker with no end marker after it
                        lemma_find_from(c, end_marker(), s + 1, n);
                        lemma_find_from_is(c2, start_marker(), 0, n + 2, s);
                        assert forall|j: int| s < j < n + 1 implies c2[j] != end_marker() by {
                            if j < n {
                                assert(c2[j] == c[j]);
                            }
                        }
                        lemma_find_from_is(c2, end_marker(), s + 1, n + 2, n + 1);
                    } else {
                        lemma_find_from_is(c2, start_marker(), 0, n + 2, n);
                        lemma_find_from_is(c2, end_marker(), n + 1, n + 2, n + 1);
                    }
                    assert(c2 =~= c + seq![start_marker()] + seq![end_marker()]);
                }
            },
        }
    }

    /// Whether the block holds exactly one occurrence of a directive.
    pub fn directive_unique(&self, line: &String) -> (r: bool)
        requires
            has_block(self@),
        ensures
            r == directive_once(self@, line@),
    {
        let (s, e) = match self.find_markers() {
            Some(p) => p,
            None => {
                proof {
                    assert(false);
                }
                return false;
            },
        };
        let mut k: usize = s + 1;
        let mut hit: bool = false;
        while !hit && k < e
            invariant
                s < k <= e,
                e < self.lines.len(),
                s as int == start_of(self@),
                e as int == end_of(self@),
                !hit ==> forall|j: int| s < j < k ==> self@[j] != line@,
                hit ==> k < e && self@[k as int] == line@
                    && forall|j: int| s < j < k ==> self@[j] != line@,
            decreases e - k, (if hit { 0int } else { 1int }),
        {
            if string_eq(&self.lines[k], line) {
                hit = true;
            } else {
                proof {
                    assert(self@[k as int] != line@);
                }
                k = k + 1;
            }
        }
        if !hit {
            proof {
                lemma_find_from_none(self@, line@, s as int + 1, e as int);
            }
            return false;
        }
        proof {
            lemma_find_from_is(self@, line@, s as int + 1, e as int, k as int);
        }
        let mut t: usize = k + 1;
        let mut second: bool = false;
        while !second && t < e
            invariant
                k < t <= e,
                e < self.lines.len(),
                s < k < e,
                s as int == start_of(self@),
                e as int == end_of(self@),
                !second ==> forall|j: int| k < j < t ==> self@[j] != line@,
                second ==> t < e && self@[t as int] == line@,
            decreases e - t, (if second { 0int } else { 1int }),
        {
            if string_eq(&self.lines[t], line) {
                second = true;
            } else {
                proof {
                    assert(self@[t as int] != line@);
                }
                t = t + 1;
            }
        }
        if second {
            proof {
                lemma_find_from(self@, line@, k as int + 1, e as int);
                if find_from(self@, line@, k as int + 1, e as int) == -1 {
                    assert(self@[t as int] != line@);
                }
            }
            false
        } else {
            proof {
                lemma_find_from_none(self@, line@, k as int + 1, e as int);
            }
            true
        }
    }

    /// Replaces the block's contents wholesale; if the file has no
    /// block, one is created at its end. Lines outside the block are
    /// preserved untouched.
    pub fn set_block(&mut self, ds: &Vec<String>)
        ensures
            final(self)@ == replace_block_spec(old(self)@, views_of(ds@)),
    {
        let mut out: Vec<String> = Vec::new();
        match self.find_markers() {
            Some((s, e)) => {
                let mut i: usize = 0;
                while i < s + 1
                    invariant
                        i <= s + 1,
                        s < e < self.lines.len(),
                        out@.len() == i,
                        forall|j: int| 0 <= j < i ==> #[trigger] out@[j]@ == self.lines@[j]@,
                    decreases s + 1 - i,
                {
                    out.push(self.lines[i].clone());
                    i = i + 1;
                }
                let mut k: usize = 0;
                while k < ds.len()
                    invariant
                        k <= ds.len(),
                        s < e < self.lines.len(),
                        out@.len() == s + 1 + k,
                        forall|j: int| 0 <= j <= s ==> #[trigger] out@[j]@ == self.lines@[j]@,
                        forall|j: int| s + 1 <= j < s + 1 + k
                            ==> #[trigger] out@[j]@ == ds@[j - (s + 1)]@,
                    decreases ds.len() - k,
                {
                    out.push(ds[k].clone());
                    k = k + 1;
                }
                let mut t: usize = e;
                while t < self.lines.len()
                    invariant
                        e <= t <= self.lines.len(),
                        s < e < self.lines.len(),
                        out@.len() == s + 1 + ds@.len() + (t - e),
                        forall|j: int| 0 <= j <= s ==> #[trigger] out@[j]@ == self.lines@[j]@,
                        forall|j: int| s + 1 <= j < s + 1 + ds@.len()
                            ==> #[trigger] out@[j]@ == ds@[j - (s + 1)]@,
                        forall|j: int| s + 1 + ds@.len() <= j < out@.len()
                            ==> #[trigger] out@[j]@
                                == self.lines@[j - (s + 1 + ds@.len()) + e]@,
                    decreases self.lines.len() - t,
                {
                    out.push(self.lines[t].clone());
                    t = t + 1;
                }
                self.lines = out;
                proof {
                    let c = old(self)@;
                    let c2 = replace_block_spec(c, views_of(ds@));
                    assert(self@.len() == c2.len());
                    assert forall|j: int| 0 <= j < self@.len()
                        implies self@[j] == c2[j] by {
                        assert(self@[j] == self.lines@[j]@);
                    }
                    assert(self@ =~= c2);
                }
            },
            None => {
                let ghost n = self.lines@.len() as int;
                let mut i: usize = 0;
                while i < self.lines.len()
                    invariant
                        i <= self.lines.len(),
                        out@.len() == i,
                        forall|j: int| 0 <= j < i ==> #[trigger] out@[j]@ == self.lines@[j]@,
                    decreases self.lines.len() - i,
                {
                    out.push(self.lines[i].clone());
                    i = i + 1;
                }
                let mut sm = String::new();
                sm.append("#coffee-plugins-begin");
                out.push(sm);
                let mut k: usize = 0;
                while k < ds.len()
                    invariant
                        k <= ds.len(),
                        n == self.lines@.len(),
                        out@.len() == n + 1 + k,
                        forall|j: int| 0 <= j < n ==> #[trigger] out@[j]@ == self.lines@[j]@,
                        out@[n]@ == start_marker(),
                        forall|j: int| n + 1 <= j < n + 1 + k
                            ==> #[trigger] out@[j]@ == ds@[j - (n + 1)]@,
                    decreases ds.len() - k,
                {
                    out.push(ds[k].clone());
                    k = k + 1;
                }
                let mut em = String::new();
                em.append("#coffee-plugins-end");
                out.push(em);
                self.lines = out;
                proof {
                    let c = old(self)@;
                    let c2 = replace_block_spec(c, views_of(ds@));
                    assert(self@.len() == c2.len());
                    assert forall|j: int| 0 <= j < self@.len()
                        implies self@[j] == c2[j] by {
                        assert(self@[j] == self.lines@[j]@);
                    }
                    assert(self@ =~= c2);
                }
            },
        }
    }

    /// Removes the managed block, markers and contents, preserving all
    /// unrelated lines. A file without a block is left untouched.
    pub fn strip_block(&mut self)
        ensures
            has_block(old(self)@) ==> final(self)@ == strip_block_spec(old(self)@),
            !has_block(old(self)@) ==> final(self)@ == old(self)@,
    {
        match self.find_markers() {
            None => {},
            Some((s, e)) => {
                let mut kept: Vec<String> = Vec::new();
                let mut i: usize = 0;
                while i < s
                    invariant
                        i <= s,
                        s < self.lines.len(),
                        kept@.len() == i,
                        forall|j: int| 0 <= j < i ==> #[trigger] kept@[j]@ == self.lines@[j]@,
                    decreases s - i,
                {
                    kept.push(self.lines[i].clone());
                    i = i + 1;
                }
                let mut k: usize = e + 1;
                while k < self.lines.len()
                    invariant
                        e < k <= self.lines.len(),
                        s < e < self.lines.len(),
                        kept@.len() == s + (k - e - 1),
                        forall|j: int| 0 <= j < s ==> #[trigger] kept@[j]@ == self.lines@[j]@,
                        forall|j: int| s <= j < kept@.len()
                            ==> #[trigger] kept@[j]@ == self.lines@[j - s + e + 1]@,
                    decreases self.lines.len() - k,
                {
                    kept.push(self.lines[k].clone());
                    k = k + 1;
                }
                self.lines = kept;
                proof {
                    assert(final(self)@ =~= strip_block_spec(old(self)@));
                }
            },
        }
    }
}

/// Builds the load directive line of a plugin.
pub fn directive_line(name: &String) -> (r: String)
    ensures
        r@ == directive_of(name@),
{
    let mut d = String::new();
    d.append("plugin=");
    d.append(name.as_str());
    d
}

/// Compares a string with a literal, by characters.
fn string_eq_literal(a: &String, lit: &str) -> (r: bool)
    ensures
        r == (a@ == lit@),
{
    let s = String::from_str(lit);
    a.eq(&s)
}

/// Compares two strings, by characters.
pub fn string_eq(a: &String, b: &String) -> (r: bool)
    ensures
        r == (a@ == b@),
{
    a.eq(b)
}

} // verus!
