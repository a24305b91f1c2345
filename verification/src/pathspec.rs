//! The mathematical model of the path algebra: every executable function of
//! the crate is specified against the functions of this module, which work on
//! `Seq<char>` views of path text.

use vstd::prelude::*;

verus! {

/// A path is absolute exactly when its first character is the separator.
pub open spec fn spec_is_absolute(s: Seq<char>) -> bool {
    s.len() > 0 && s[0] == '/'
}

/// True when `s` begins with `./`.
pub open spec fn starts_with_dot_slash(s: Seq<char>) -> bool {
    s.len() >= 2 && s[0] == '.' && s[1] == '/'
}

/// True when `s` begins with two literal dots.
pub open spec fn starts_with_dot_dot(s: Seq<char>) -> bool {
    s.len() >= 2 && s[0] == '.' && s[1] == '.'
}

/// True when the last two characters of `s` are dots.
pub open spec fn ends_with_dot_dot(s: Seq<char>) -> bool {
    s.len() >= 2 && s[s.len() - 1] == '.' && s[s.len() - 2] == '.'
}

/// `s` without its trailing separators.
pub open spec fn trim_trailing_separators(s: Seq<char>) -> Seq<char>
    decreases s.len(),
{
    if s.len() > 0 && s.last() == '/' {
        trim_trailing_separators(s.drop_last())
    } else {
        s
    }
}

/// `s` without its leading separators.
pub open spec fn skip_leading_separators(s: Seq<char>) -> Seq<char>
    decreases s.len(),
{
    if s.len() > 0 && s[0] == '/' {
        skip_leading_separators(s.skip(1))
    } else {
        s
    }
}

/// Index of the last occurrence of `c` in `s`, or `-1` when `c` does not occur.
pub open spec fn last_index_of(s: Seq<char>, c: char) -> int
    decreases s.len(),
{
    if s.len() == 0 {
        -1
    } else if s.last() == c {
        s.len() - 1
    } else {
        last_index_of(s.drop_last(), c)
    }
}

/// Concatenation of two path strings with exactly one separator at the
/// junction, except that an empty side leaves the other unchanged.  This is
/// byte-level text work only: no `.` or `..` handling happens here.
pub open spec fn spec_join(root: Seq<char>, path: Seq<char>) -> Seq<char> {
    if path.len() == 0 {
        root
    } else if root.len() == 0 {
        path
    } else if root.last() == '/' && path[0] == '/' {
        root.drop_last() + path
    } else if root.last() == '/' || path[0] == '/' {
        root + path
    } else {
        root + seq!['/'] + path
    }
}

/// The portion of `s` up to and including its last separator, after trailing
/// separators are dropped; the empty text when the trimmed text holds no
/// separator at all (no deeper parent, but not a failure).  `None` only for
/// `s` empty, `/`, `.` or `..`: those have no parent a resolution step could
/// move to.
pub open spec fn spec_parent_path(s: Seq<char>) -> Option<Seq<char>> {
    if s.len() == 0 || s == seq!['/'] || s == seq!['.'] || s == seq!['.', '.'] {
        None
    } else {
        let t = trim_trailing_separators(s);
        let k = last_index_of(t, '/');
        if k >= 0 {
            Some(t.take(k + 1))
        } else {
            Some(Seq::<char>::empty())
        }
    }
}

/// The total variant of the parent computation used while walking out of a
/// glob pattern: instead of failing it falls back to `.` (no deeper parent in
/// relative text), `/` (the root), or `//` (the doubled root boundary, kept
/// when the only separator of an absolute path is its leading one).  Unlike
/// `spec_parent_path`, the separator itself is not kept in the result.
pub open spec fn spec_parent_path_loose(s: Seq<char>) -> Seq<char> {
    if s.len() == 0 {
        seq!['.']
    } else {
        let t = trim_trailing_separators(s);
        let k = last_index_of(t, '/');
        if k < 0 {
            if s[0] == '/' {
                seq!['/']
            } else {
                seq!['.']
            }
        } else if s[0] == '/' && k == 0 {
            seq!['/', '/']
        } else {
            s.take(k)
        }
    }
}

/// The `..`-consuming phase of resolution: while the component starts with
/// two literal dots, one trailing segment of the base is removed (failing
/// with `None` when the base has no parent), the two dots are stripped, and
/// one separator after them is stripped as well.  Whatever component text is
/// left is then joined onto the base.
pub open spec fn resolve_segments(base: Seq<char>, path: Seq<char>) -> Option<Seq<char>>
    decreases path.len(),
{
    if starts_with_dot_dot(path) {
        match spec_parent_path(base) {
            None => None,
            Some(b) => {
                let rest = path.skip(2);
                if rest.len() > 0 && rest[0] == '/' {
                    resolve_segments(b, rest.skip(1))
                } else {
                    resolve_segments(b, rest)
                }
            },
        }
    } else {
        Some(spec_join(base, path))
    }
}

/// Resolution of a relative component against a base path: a leading `./` is
/// stripped once, a component of exactly `.` returns the base unchanged, all
/// leading separators are stripped (a leading separator does not override the
/// base), and then `..` segments are consumed by `resolve_segments`.
pub open spec fn spec_resolve(base: Seq<char>, path: Seq<char>) -> Option<Seq<char>> {
    if starts_with_dot_slash(path) {
        resolve_segments(base, path.skip(2))
    } else if path == seq!['.'] {
        Some(base)
    } else if path.len() > 0 && path[0] == '/' {
        resolve_segments(base, skip_leading_separators(path))
    } else {
        resolve_segments(base, path)
    }
}

/// `s` without its leading dots.
pub open spec fn strip_leading_dots(s: Seq<char>) -> Seq<char>
    decreases s.len(),
{
    if s.len() > 0 && s[0] == '.' {
        strip_leading_dots(s.skip(1))
    } else {
        s
    }
}

/// The characters after the last separator, or the whole text when it has
/// none.  `None` for the parentless special forms and for text that ends in
/// a separator (such text names a directory, not a file).
pub open spec fn spec_filename(s: Seq<char>) -> Option<Seq<char>> {
    if s.len() == 0 || s == seq!['/'] || s == seq!['.'] || s == seq!['.', '.'] || s.last()
        == '/' {
        None
    } else {
        let k = last_index_of(s, '/');
        if k >= 0 {
            Some(s.skip(k + 1))
        } else {
            Some(s)
        }
    }
}

/// One step of the backwards extension scan: walking left from position `i`,
/// the first `.` found names an extension (kept with its dot) unless it is
/// the first character of the text or follows a separator; meeting a
/// separator first means there is no extension.
pub open spec fn extname_scan(s: Seq<char>, i: int) -> Option<Seq<char>>
    decreases i + 1,
{
    if i < 0 {
        None
    } else if s[i] == '/' {
        None
    } else if s[i] == '.' {
        if i == 0 {
            None
        } else if s[i - 1] == '/' {
            None
        } else {
            Some(s.skip(i))
        }
    } else {
        extname_scan(s, i - 1)
    }
}

/// The extension of the last segment of `s`, dot included; `None` when the
/// segment has none, when its only dot is leading, or for `.` and `..`.
pub open spec fn spec_extname(s: Seq<char>) -> Option<Seq<char>> {
    if s == seq!['.'] || s == seq!['.', '.'] {
        None
    } else {
        extname_scan(s, s.len() - 1)
    }
}

/// Replacing the extension: the trailing extension (as `spec_extname` finds
/// it) is swapped for `ext` with leading dots normalised away; text without
/// an extension gets `.ext` appended; an empty `ext` leaves the text
/// unchanged.
pub open spec fn spec_set_extname(f: Seq<char>, ext: Seq<char>) -> Seq<char> {
    if ext.len() == 0 {
        f
    } else {
        let e = strip_leading_dots(ext);
        match spec_extname(f) {
            None => f + seq!['.'] + e,
            Some(old) => f.take(f.len() - old.len()) + seq!['.'] + e,
        }
    }
}

/// Replacing the final segment: text ending in a separator gets the name
/// joined on; otherwise the name is joined onto the parent, or stands alone
/// when there is no parent.
pub open spec fn spec_set_filename(path: Seq<char>, name: Seq<char>) -> Seq<char> {
    if path.len() > 0 && path.last() == '/' {
        spec_join(path, name)
    } else {
        match spec_parent_path(path) {
            Some(p) => spec_join(p, name),
            None => name,
        }
    }
}

/// Coercion to an absolute path by resolution: an absolute path is returned
/// verbatim, a relative one is resolved against `cwd`.
pub open spec fn spec_to_absolute(path: Seq<char>, cwd: Seq<char>) -> Option<Seq<char>> {
    if spec_is_absolute(path) {
        Some(path)
    } else {
        spec_resolve(cwd, path)
    }
}

/// The characters after the last dot anywhere in the text (dot excluded);
/// `None` when there is no dot or for `.` and `..`.  The lax variant used by
/// the crate-root accessors.
pub open spec fn spec_extname_lax(s: Seq<char>) -> Option<Seq<char>> {
    if s == seq!['.'] || s == seq!['.', '.'] {
        None
    } else {
        let k = last_index_of(s, '.');
        if k >= 0 {
            Some(s.skip(k + 1))
        } else {
            None
        }
    }
}

/// The portion up to and including the last separator, or the empty text
/// when there is none ("no deeper parent", not a failure); `None` only for
/// the parentless special forms.  The lax variant used by the crate-root
/// accessors.
pub open spec fn spec_parent_lax(s: Seq<char>) -> Option<Seq<char>> {
    if s.len() == 0 || s == seq!['/'] || s == seq!['.'] || s == seq!['.', '.'] {
        None
    } else {
        let k = last_index_of(s, '/');
        if k >= 0 {
            Some(s.take(k + 1))
        } else {
            Some(Seq::<char>::empty())
        }
    }
}

/// The characters after the last separator, or the whole text when it has
/// none; `None` only for the parentless special forms.  The lax variant used
/// by the crate-root accessors.
pub open spec fn spec_filename_lax(s: Seq<char>) -> Option<Seq<char>> {
    if s.len() == 0 || s == seq!['/'] || s == seq!['.'] || s == seq!['.', '.'] {
        None
    } else {
        let k = last_index_of(s, '/');
        if k >= 0 {
            Some(s.skip(k + 1))
        } else {
            Some(s)
        }
    }
}

/// Separators at both `i` and `i + 1` of `s`.
pub open spec fn double_separator_at(s: Seq<char>, i: int) -> bool {
    0 <= i < s.len() - 1 && s[i] == '/' && s[i + 1] == '/'
}

/// Two separators side by side somewhere in `s`.
pub open spec fn has_double_separator(s: Seq<char>) -> bool {
    exists|i: int| #[trigger] double_separator_at(s, i)
}

/// Number of path segments that begin strictly before position `i`: a
/// segment begins at a non-separator character standing at the front of the
/// text or right after a separator.
pub open spec fn segment_count_to(s: Seq<char>, i: int) -> nat
    decreases i,
{
    if i <= 0 {
        0
    } else if s[i - 1] == '/' {
        segment_count_to(s, i - 1)
    } else if i == 1 || s[i - 2] == '/' {
        1 + segment_count_to(s, i - 1)
    } else {
        segment_count_to(s, i - 1)
    }
}

/// Number of non-empty segments of `s`.
pub open spec fn segment_count(s: Seq<char>) -> nat {
    segment_count_to(s, s.len() as int)
}

/// The segment count reads only the text before `i`.
pub proof fn lemma_segment_count_prefix(s: Seq<char>, u: Seq<char>, i: int)
    requires
        0 <= i,
        forall|m: int| 0 <= m < i ==> s[m] == u[m],
    ensures
        segment_count_to(s, i) == segment_count_to(u, i),
    decreases i,
{
    if i > 0 {
        lemma_segment_count_prefix(s, u, i - 1);
    }
}

/// A run of separators adds no segment.
pub proof fn lemma_segment_count_separator_run(s: Seq<char>, e: int, i: int)
    requires
        0 <= e <= i,
        forall|m: int| e <= m < i ==> s[m] == '/',
    ensures
        segment_count_to(s, i) == segment_count_to(s, e),
    decreases i - e,
{
    if i > e {
        lemma_segment_count_separator_run(s, e, i - 1);
    }
}

/// A final run of non-separators after the separator at `k` is exactly one
/// segment.
pub proof fn lemma_segment_count_last_segment(s: Seq<char>, k: int, e: int)
    requires
        0 <= k,
        k + 1 < e <= s.len(),
        s[k] == '/',
        forall|m: int| k < m < e ==> s[m] != '/',
    ensures
        segment_count_to(s, e) == 1 + segment_count_to(s, k + 1),
    decreases e - k,
{
    if e == k + 2 {
        assert(segment_count_to(s, k + 2) == 1 + segment_count_to(s, k + 1));
    } else {
        lemma_segment_count_last_segment(s, k, e - 1);
        assert(segment_count_to(s, e) == segment_count_to(s, e - 1));
    }
}

/// A non-separator character anywhere before `i` forces at least one
/// segment.
pub proof fn lemma_segment_count_positive(s: Seq<char>, i: int, j: int)
    requires
        0 <= j < i <= s.len(),
        s[j] != '/',
    ensures
        segment_count_to(s, i) >= 1,
    decreases i,
{
    if j == i - 1 {
        if i == 1 || s[i - 2] == '/' {
        } else {
            lemma_segment_count_positive(s, i - 1, j - 1);
        }
    } else {
        lemma_segment_count_positive(s, i - 1, j);
    }
}

/// When `c` does not occur in `s`, `last_index_of` reports `-1`.
pub proof fn lemma_last_index_of_absent(s: Seq<char>, c: char)
    requires
        forall|i: int| 0 <= i < s.len() ==> s[i] != c,
    ensures
        last_index_of(s, c) == -1,
    decreases s.len(),
{
    if s.len() > 0 {
        lemma_last_index_of_absent(s.drop_last(), c);
    }
}

/// `last_index_of` is pinned by a witness: `c` at `k` with nothing but other
/// characters after it.
pub proof fn lemma_last_index_of_found(s: Seq<char>, c: char, k: int)
    requires
        0 <= k < s.len(),
        s[k] == c,
        forall|i: int| k < i < s.len() ==> s[i] != c,
    ensures
        last_index_of(s, c) == k,
    decreases s.len(),
{
    if k == s.len() - 1 {
    } else {
        lemma_last_index_of_found(s.drop_last(), c, k);
    }
}

/// Dropping characters known to be trailing separators does not change the
/// trimmed text.
pub proof fn lemma_trim_take(s: Seq<char>, e: int)
    requires
        0 <= e <= s.len(),
        forall|m: int| e <= m < s.len() ==> s[m] == '/',
    ensures
        trim_trailing_separators(s) == trim_trailing_separators(s.take(e)),
    decreases s.len() - e,
{
    if e == s.len() {
        assert(s.take(e) =~= s);
    } else {
        assert(s.last() == '/');
        assert(s.drop_last() =~= s.take(s.len() - 1));
        lemma_trim_take(s.take(s.len() - 1), e);
        assert(s.take(s.len() - 1).take(e) =~= s.take(e));
    }
}

/// A found index is in bounds and carries the character.
pub proof fn lemma_last_index_of_bounds(s: Seq<char>, c: char)
    ensures
        -1 <= last_index_of(s, c) < s.len(),
        last_index_of(s, c) >= 0 ==> s[last_index_of(s, c)] == c,
    decreases s.len(),
{
    if s.len() > 0 && s.last() != c {
        lemma_last_index_of_bounds(s.drop_last(), c);
    }
}

/// An occurrence of `c` bounds `last_index_of` from below.
pub proof fn lemma_last_index_of_at_least(s: Seq<char>, c: char, i: int)
    requires
        0 <= i < s.len(),
        s[i] == c,
    ensures
        last_index_of(s, c) >= i,
    decreases s.len(),
{
    if s.last() != c {
        lemma_last_index_of_at_least(s.drop_last(), c, i);
    }
}

/// A found extension is a nonempty strict suffix.
pub proof fn lemma_extname_scan_len(s: Seq<char>, i: int)
    requires
        -1 <= i < s.len(),
    ensures
        extname_scan(s, i) matches Some(o) ==> 1 <= o.len() && o.len() < s.len(),
    decreases i + 1,
{
    if i >= 0 && s[i] != '/' && s[i] != '.' {
        lemma_extname_scan_len(s, i - 1);
    }
}

/// Nothing after a found index carries the character.
pub proof fn lemma_last_index_of_is_last(s: Seq<char>, c: char)
    ensures
        forall|m: int| last_index_of(s, c) < m < s.len() ==> s[m] != c,
    decreases s.len(),
{
    if s.len() > 0 && s.last() != c {
        lemma_last_index_of_bounds(s, c);
        lemma_last_index_of_is_last(s.drop_last(), c);
        assert(last_index_of(s, c) == last_index_of(s.drop_last(), c));
        assert forall|m: int| last_index_of(s, c) < m < s.len() implies s[m] != c by {
            if m == s.len() - 1 {
                assert(s[m] == s.last());
            } else {
                assert(s.drop_last()[m] != c);
                assert(s.drop_last()[m] == s[m]);
            }
        }
    }
}

/// The trimmed text is a prefix that does not end in a separator, and only
/// separators are dropped.
pub proof fn lemma_trim_props(s: Seq<char>)
    ensures
        trim_trailing_separators(s).len() <= s.len(),
        trim_trailing_separators(s) == s.take(trim_trailing_separators(s).len() as int),
        trim_trailing_separators(s).len() > 0 ==> trim_trailing_separators(s).last() != '/',
        forall|i: int| trim_trailing_separators(s).len() <= i < s.len() ==> s[i] == '/',
    decreases s.len(),
{
    if s.len() > 0 && s.last() == '/' {
        lemma_trim_props(s.drop_last());
        let t = trim_trailing_separators(s);
        assert(s.drop_last().take(t.len() as int) =~= s.take(t.len() as int));
        assert forall|i: int| t.len() <= i < s.len() implies s[i] == '/' by {
            if i < s.len() - 1 {
                assert(s.drop_last()[i] == '/');
            }
        }
    } else {
        assert(s.take(s.len() as int) =~= s);
    }
}

/// Stripping leading dots reaches exactly the first non-dot position.
pub proof fn lemma_strip_dots_skip(s: Seq<char>, j: int)
    requires
        0 <= j <= s.len(),
        forall|m: int| 0 <= m < j ==> s[m] == '.',
        j == s.len() || s[j] != '.',
    ensures
        strip_leading_dots(s) == s.skip(j),
    decreases j,
{
    if j == 0 {
        assert(s.skip(0) =~= s);
    } else {
        assert(s[0] == '.');
        lemma_strip_dots_skip(s.skip(1), j - 1);
        assert(s.skip(1).skip(j - 1) =~= s.skip(j));
    }
}

/// Stripping leading separators reaches exactly the first non-separator
/// position.
pub proof fn lemma_skip_separators_skip(s: Seq<char>, j: int)
    requires
        0 <= j <= s.len(),
        forall|m: int| 0 <= m < j ==> s[m] == '/',
        j == s.len() || s[j] != '/',
    ensures
        skip_leading_separators(s) == s.skip(j),
    decreases j,
{
    if j == 0 {
        assert(s.skip(0) =~= s);
    } else {
        assert(s[0] == '/');
        lemma_skip_separators_skip(s.skip(1), j - 1);
        assert(s.skip(1).skip(j - 1) =~= s.skip(j));
    }
}

/// Each loose parent step yields `.`, `/` or `//`, or a strictly shorter
/// prefix of its input; the result never grows, and it keeps the input's
/// length only in the fallback forms.
pub proof fn lemma_parent_path_loose_shape(s: Seq<char>)
    requires
        s.len() >= 1,
    ensures
        ({
            let r = spec_parent_path_loose(s);
            &&& r.len() >= 1
            &&& r.len() <= s.len()
            &&& (r == seq!['.'] || r == seq!['/'] || r == seq!['/', '/'] || (r.len() <= s.len() - 2
                && r == s.take(r.len() as int)))
            &&& (r.len() == s.len() ==> (r == seq!['.'] || r == seq!['/'] || r == seq!['/', '/']))
        }),
{
    let t = trim_trailing_separators(s);
    let k = last_index_of(t, '/');
    lemma_trim_props(s);
    lemma_last_index_of_bounds(t, '/');
    if k < 0 {
    } else if s[0] == '/' && k == 0 {
        if s.len() == 1 {
            assert(s =~= seq!['/']);
            assert(s.drop_last() =~= Seq::<char>::empty());
            assert(t.len() == 0);
        }
    } else {
        assert(t == s.take(t.len() as int));
        assert(t[k] == '/');
        assert(t[k] == s[k]);
        if k == 0 {
            assert(s[0] == '/');
        }
        assert(k >= 1);
        if t.len() == s.len() {
            assert(t.last() != '/');
            assert(k < t.len() - 1);
        }
    }
}

/// One parent step on an absolute path that is free of doubled separators
/// and holds at least one segment: the parent is a strict prefix, still
/// absolute and free of doubled separators, with exactly one segment fewer;
/// and once no segment is left it is exactly the root.
pub proof fn lemma_parent_path_removes_one_segment(p: Seq<char>)
    requires
        spec_is_absolute(p),
        !has_double_separator(p),
        segment_count(p) >= 1,
    ensures
        spec_parent_path(p) is Some,
        ({
            let q = spec_parent_path(p)->Some_0;
            &&& q.len() < p.len()
            &&& q == p.take(q.len() as int)
            &&& spec_is_absolute(q)
            &&& !has_double_separator(q)
            &&& segment_count(q) == segment_count(p) - 1
            &&& (segment_count(q) == 0 ==> q == seq!['/'])
        }),
{
    if p == seq!['/'] {
        assert(segment_count_to(p, 0) == 0);
        assert(segment_count_to(p, 1) == 0);
        assert(false);
    }
    let t = trim_trailing_separators(p);
    lemma_trim_props(p);
    if t.len() == 0 {
        lemma_segment_count_separator_run(p, 0, p.len() as int);
        assert(false);
    }
    assert(t[0] == p[0]);
    lemma_last_index_of_at_least(t, '/', 0);
    lemma_last_index_of_bounds(t, '/');
    lemma_last_index_of_is_last(t, '/');
    let k = last_index_of(t, '/');
    let q = t.take(k + 1);
    assert(spec_parent_path(p) == Some(q));
    assert(q =~= p.take(k + 1));
    assert(t.last() != '/');
    assert(k < t.len() - 1);
    assert forall|i: int| !double_separator_at(q, i) by {
        if double_separator_at(q, i) {
            assert(double_separator_at(p, i));
        }
    }
    lemma_segment_count_separator_run(p, t.len() as int, p.len() as int);
    lemma_segment_count_prefix(t, p, t.len() as int);
    lemma_segment_count_last_segment(t, k, t.len() as int);
    lemma_segment_count_prefix(q, t, k + 1);
    if segment_count(q) == 0 {
        if q.len() >= 2 {
            assert(!double_separator_at(q, 0));
            lemma_segment_count_positive(q, q.len() as int, 1);
            assert(false);
        }
        assert(q =~= seq!['/']);
    }
}

/// Folding `spec_resolve` over a list of components, left to right.
pub open spec fn spec_resolve_all(base: Seq<char>, cmps: Seq<Seq<char>>) -> Option<Seq<char>>
    decreases cmps.len(),
{
    if cmps.len() == 0 {
        Some(base)
    } else {
        match spec_resolve(base, cmps[0]) {
            None => None,
            Some(b) => spec_resolve_all(b, cmps.skip(1)),
        }
    }
}

} // verus!
