//! Path resolution and the accessor functions, specified against the model
//! in [`crate::pathspec`].

use vstd::prelude::*;

use crate::error::Error;
use crate::error::ErrorKind;
use crate::pathspec::extname_scan;
use crate::pathspec::lemma_last_index_of_absent;
use crate::pathspec::lemma_last_index_of_found;
use crate::pathspec::lemma_trim_take;
use crate::pathspec::spec_extname;
use crate::pathspec::spec_filename;
use crate::pathspec::spec_is_absolute;
use crate::pathspec::spec_join;
use crate::pathspec::spec_parent_path;
use crate::pathspec::trim_trailing_separators;
use crate::pathspec::double_separator_at;
use crate::pathspec::has_double_separator;
use crate::pathspec::last_index_of;
use crate::pathspec::lemma_last_index_of_bounds;
use crate::pathspec::lemma_parent_path_removes_one_segment;
use crate::pathspec::lemma_segment_count_positive;
use crate::pathspec::lemma_trim_props;
use crate::pathspec::segment_count;
use crate::pathspec::lemma_skip_separators_skip;
use crate::pathspec::lemma_strip_dots_skip;
use crate::pathspec::resolve_segments;
use crate::pathspec::spec_resolve;
use crate::pathspec::spec_resolve_all;
use crate::pathspec::spec_set_extname;
use crate::pathspec::spec_set_filename;
use crate::pathspec::spec_to_absolute;
use crate::pathspec::starts_with_dot_dot;
use crate::pathspec::strip_leading_dots;

verus! {

/// True when `input` starts with the separator.
pub fn is_absolute(input: &str) -> (r: bool)
    ensures
        r == spec_is_absolute(input@),
{
    input.unicode_len() > 0 && input.get_char(0) == '/'
}

/// Concatenates two path strings with exactly one separator at the junction;
/// an empty side leaves the other unchanged.  No `.` or `..` handling
/// happens here.
pub fn join(root: &str, glob: &str) -> (r: String)
    ensures
        r@ == spec_join(root@, glob@),
{
    let rl = root.unicode_len();
    let gl = glob.unicode_len();
    if gl == 0 {
        return root.to_owned();
    }
    if rl == 0 {
        return glob.to_owned();
    }
    let root_sep = root.get_char(rl - 1) == '/';
    let glob_sep = glob.get_char(0) == '/';
    if root_sep && glob_sep {
        let mut out = root.substring_char(0, rl - 1).to_owned();
        out.append(glob);
        proof {
            assert(root@.subrange(0, rl - 1) =~= root@.drop_last());
        }
        out
    } else if root_sep || glob_sep {
        let mut out = root.to_owned();
        out.append(glob);
        out
    } else {
        let mut out = root.to_owned();
        out.append("/");
        out.append(glob);
        proof {
            reveal_strlit("/");
            assert(out@ =~= root@ + seq!['/'] + glob@);
        }
        out
    }
}

/// Resolves the relative component `cmp` against `base`: a leading `./` is
/// stripped once, a component of exactly `.` returns `base` unchanged, all
/// leading separators are stripped, and every leading `..` consumes one
/// trailing segment of the accumulated base.  Fails exactly when a `..`
/// asks for an ancestor the base does not have.
pub fn resolve(base: &str, cmp: &str) -> (r: Result<String, Error>)
    ensures
        match r {
            Ok(s) => spec_resolve(base@, cmp@) == Some(s@),
            Err(e) => spec_resolve(base@, cmp@) is None && e.spec_kind() == ErrorKind::Unknown,
        },
{
    let mut b: String = base.to_owned();
    let mut path: String = cmp.to_owned();
    let pl = cmp.unicode_len();
    if pl >= 2 && cmp.get_char(0) == '.' && cmp.get_char(1) == '/' {
        path = cmp.substring_char(2, pl).to_owned();
        proof {
            assert(cmp@.subrange(2, pl as int) =~= cmp@.skip(2));
        }
    } else if pl == 1 && cmp.get_char(0) == '.' {
        proof {
            assert(cmp@ =~= seq!['.']);
        }
        return Ok(b);
    } else if pl >= 1 && cmp.get_char(0) == '/' {
        let mut j: usize = 0;
        while j < pl && cmp.get_char(j) == '/'
            invariant
                0 <= j <= pl,
                pl == cmp@.len(),
                forall|m: int| 0 <= m < j ==> cmp@[m] == '/',
            decreases pl - j,
        {
            j = j + 1;
        }
        proof {
            lemma_skip_separators_skip(cmp@, j as int);
            assert(cmp@.subrange(j as int, pl as int) =~= cmp@.skip(j as int));
        }
        path = cmp.substring_char(j, pl).to_owned();
    }
    proof {
        assert(spec_resolve(base@, cmp@) == resolve_segments(b@, path@));
    }
    let n0 = path.as_str().unicode_len();
    let mut more = n0 >= 2 && path.as_str().get_char(0) == '.' && path.as_str().get_char(1)
        == '.';
    while more
        invariant
            resolve_segments(b@, path@) == spec_resolve(base@, cmp@),
            more == starts_with_dot_dot(path@),
        decreases path@.len(),
    {
        let ghost b0 = b@;
        let ghost path0 = path@;
        let stepped = match parent_path(b.as_str()) {
            None => None,
            Some(p) => Some(p.to_owned()),
        };
        match stepped {
            None => {
                proof {
                    assert(resolve_segments(b0, path0) is None);
                }
                return Err(Error::new(ErrorKind::Unknown));
            },
            Some(p) => {
                b = p;
            },
        }
        let n2 = path.as_str().unicode_len();
        path = path.as_str().substring_char(2, n2).to_owned();
        proof {
            assert(path@ =~= path0.skip(2));
        }
        let n3 = path.as_str().unicode_len();
        if n3 > 0 && path.as_str().get_char(0) == '/' {
            path = path.as_str().substring_char(1, n3).to_owned();
            proof {
                assert(path@ =~= path0.skip(2).skip(1));
            }
        }
        proof {
            assert(resolve_segments(b@, path@) == resolve_segments(b0, path0));
        }
        let n4 = path.as_str().unicode_len();
        more = n4 >= 2 && path.as_str().get_char(0) == '.' && path.as_str().get_char(1) == '.';
    }
    let out = join(b.as_str(), path.as_str());
    Ok(out)
}

/// Resolves each component of `cmps` in turn against the accumulated base.
pub fn join_slice(base: &str, cmps: &Vec<String>) -> (r: Result<String, Error>)
    ensures
        match r {
            Ok(s) => spec_resolve_all(base@, cmps.deep_view()) == Some(s@),
            Err(e) => spec_resolve_all(base@, cmps.deep_view()) is None && e.spec_kind()
                == ErrorKind::Unknown,
        },
{
    let mut acc: String = base.to_owned();
    let mut idx: usize = 0;
    proof {
        assert(cmps.deep_view().skip(0) =~= cmps.deep_view());
    }
    while idx < cmps.len()
        invariant
            0 <= idx <= cmps.len(),
            spec_resolve_all(base@, cmps.deep_view()) == spec_resolve_all(
                acc@,
                cmps.deep_view().skip(idx as int),
            ),
        decreases cmps.len() - idx,
    {
        proof {
            assert(cmps.deep_view().skip(idx as int)[0] == cmps.deep_view()[idx as int]);
            assert(cmps.deep_view()[idx as int] == cmps@[idx as int]@);
        }
        let step = resolve(acc.as_str(), cmps[idx].as_str());
        match step {
            Err(e) => {
                return Err(e);
            },
            Ok(s) => {
                acc = s;
            },
        }
        idx = idx + 1;
        proof {
            assert(cmps.deep_view().skip(idx - 1).skip(1) =~= cmps.deep_view().skip(idx as int));
        }
    }
    proof {
        assert(cmps.deep_view().skip(idx as int) =~= Seq::<Seq<char>>::empty());
    }
    Ok(acc)
}

/// Returns `path` verbatim when it is already absolute, and otherwise
/// resolves it against `cwd`.
pub fn to_absolute(path: &str, cwd: &str) -> (r: Result<String, Error>)
    ensures
        match r {
            Ok(s) => spec_to_absolute(path@, cwd@) == Some(s@),
            Err(e) => spec_to_absolute(path@, cwd@) is None && e.spec_kind() == ErrorKind::Unknown,
        },
{
    if is_absolute(path) {
        Ok(path.to_owned())
    } else {
        resolve(cwd, path)
    }
}

/// Swaps the extension of `filename` for `ext` (leading dots of `ext` are
/// normalised away first): the trailing extension found by [`extname`] is
/// replaced, text without one gets `.ext` appended, and an empty `ext`
/// leaves the text unchanged.
pub fn set_extname(filename: &str, ext: &str) -> (r: String)
    ensures
        r@ == spec_set_extname(filename@, ext@),
{
    let el = ext.unicode_len();
    if el == 0 {
        return filename.to_owned();
    }
    let mut j: usize = 0;
    while j < el && ext.get_char(j) == '.'
        invariant
            0 <= j <= el,
            el == ext@.len(),
            forall|m: int| 0 <= m < j ==> ext@[m] == '.',
        decreases el - j,
    {
        j = j + 1;
    }
    proof {
        lemma_strip_dots_skip(ext@, j as int);
        assert(ext@.subrange(j as int, el as int) =~= ext@.skip(j as int));
    }
    let stripped = ext.substring_char(j, el);
    let n = filename.unicode_len();
    match extname(filename) {
        None => {
            let mut out = filename.to_owned();
            out.append(".");
            out.append(stripped);
            proof {
                reveal_strlit(".");
                assert(out@ =~= filename@ + seq!['.'] + strip_leading_dots(ext@));
            }
            out
        },
        Some(old) => {
            proof {
                crate::pathspec::lemma_extname_scan_len(filename@, n as int - 1);
            }
            let k = n - old.unicode_len();
            let mut out = filename.substring_char(0, k).to_owned();
            out.append(".");
            out.append(stripped);
            proof {
                reveal_strlit(".");
                assert(filename@.subrange(0, k as int) =~= filename@.take(k as int));
                assert(out@ =~= filename@.take(
                    filename@.len() - spec_extname(filename@)->Some_0.len(),
                ) + seq!['.'] + strip_leading_dots(ext@));
            }
            out
        },
    }
}

/// Replaces the final segment of `path` with `name`: a path ending in a
/// separator gets `name` joined on, otherwise `name` is joined onto the
/// parent, or stands alone when `path` has none.
pub fn set_filename(path: &str, name: &str) -> (r: String)
    ensures
        r@ == spec_set_filename(path@, name@),
{
    let n = path.unicode_len();
    if n > 0 && path.get_char(n - 1) == '/' {
        return join(path, name);
    }
    match parent_path(path) {
        Some(p) => join(p, name),
        None => name.to_owned(),
    }
}

/// The portion of `filename` up to and including its last separator, after
/// trailing separators are dropped, or the empty string when no separator
/// remains (no deeper parent, but not a failure); `None` only for the empty
/// path, `/`, `.` and `..`.  This is the authority `resolve` consults when a
/// `..` segment asks for an ancestor.
pub fn parent_path(filename: &str) -> (r: Option<&str>)
    ensures
        match r {
            Some(p) => spec_parent_path(filename@) == Some(p@),
            None => spec_parent_path(filename@) is None,
        },
{
    let n = filename.unicode_len();
    if n == 0 {
        return None;
    }
    if n == 1 {
        let c0 = filename.get_char(0);
        if c0 == '/' {
            proof {
                assert(filename@ =~= seq!['/']);
            }
            return None;
        }
        if c0 == '.' {
            proof {
                assert(filename@ =~= seq!['.']);
            }
            return None;
        }
    }
    if n == 2 && filename.get_char(0) == '.' && filename.get_char(1) == '.' {
        proof {
            assert(filename@ =~= seq!['.', '.']);
        }
        return None;
    }
    let mut e = n;
    while e > 0 && filename.get_char(e - 1) == '/'
        invariant
            0 <= e <= n,
            n == filename@.len(),
            forall|m: int| e <= m < n ==> filename@[m] == '/',
        decreases e,
    {
        e = e - 1;
    }
    proof {
        lemma_trim_take(filename@, e as int);
        assert(trim_trailing_separators(filename@.take(e as int)) == filename@.take(e as int));
    }
    let mut i = e;
    while i > 0 && filename.get_char(i - 1) != '/'
        invariant
            0 <= i <= e <= n,
            n == filename@.len(),
            forall|m: int| i <= m < e ==> filename@[m] != '/',
        decreases i,
    {
        i = i - 1;
    }
    if i == 0 {
        let out = "";
        proof {
            lemma_last_index_of_absent(filename@.take(e as int), '/');
            reveal_strlit("");
            assert(out@ =~= Seq::<char>::empty());
        }
        Some(out)
    } else {
        proof {
            lemma_last_index_of_found(filename@.take(e as int), '/', i - 1);
            assert(filename@.take(e as int).take(i as int) =~= filename@.subrange(0, i as int));
        }
        Some(filename.substring_char(0, i))
    }
}

/// The characters of `path` after its last separator, or all of `path` when
/// it has none; `None` for the empty path, `/`, `.`, `..`, and for text
/// that ends in a separator.
pub fn filename(path: &str) -> (r: Option<&str>)
    ensures
        match r {
            Some(p) => spec_filename(path@) == Some(p@),
            None => spec_filename(path@) is None,
        },
{
    let n = path.unicode_len();
    if n == 0 {
        return None;
    }
    if path.get_char(n - 1) == '/' {
        return None;
    }
    if n == 1 && path.get_char(0) == '.' {
        proof {
            assert(path@ =~= seq!['.']);
        }
        return None;
    }
    if n == 2 && path.get_char(0) == '.' && path.get_char(1) == '.' {
        proof {
            assert(path@ =~= seq!['.', '.']);
        }
        return None;
    }
    let mut i = n;
    while i > 0 && path.get_char(i - 1) != '/'
        invariant
            0 <= i <= n,
            n == path@.len(),
            forall|m: int| i <= m < n ==> path@[m] != '/',
        decreases i,
    {
        i = i - 1;
    }
    if i == 0 {
        proof {
            lemma_last_index_of_absent(path@, '/');
        }
        Some(path)
    } else {
        proof {
            lemma_last_index_of_found(path@, '/', i - 1);
            assert(path@.subrange(i as int, n as int) =~= path@.skip(i as int));
        }
        Some(path.substring_char(i, n))
    }
}

/// The extension of the last segment of `filename`, leading dot included;
/// `None` when the segment has no dot, when its only dot leads it, and for
/// `.` and `..`.
pub fn extname(filename: &str) -> (r: Option<&str>)
    ensures
        match r {
            Some(p) => spec_extname(filename@) == Some(p@),
            None => spec_extname(filename@) is None,
        },
{
    let n = filename.unicode_len();
    if n == 1 && filename.get_char(0) == '.' {
        proof {
            assert(filename@ =~= seq!['.']);
        }
        return None;
    }
    if n == 2 && filename.get_char(0) == '.' && filename.get_char(1) == '.' {
        proof {
            assert(filename@ =~= seq!['.', '.']);
        }
        return None;
    }
    let mut i = n;
    while i > 0
        invariant
            0 <= i <= n,
            n == filename@.len(),
            extname_scan(filename@, n - 1) == extname_scan(filename@, i - 1),
            filename@ != seq!['.'] && filename@ != seq!['.', '.'],
        decreases i,
    {
        let c = filename.get_char(i - 1);
        if c == '/' {
            return None;
        }
        if c == '.' {
            if i - 1 == 0 {
                return None;
            }
            if filename.get_char(i - 2) == '/' {
                return None;
            }
            proof {
                assert(filename@.subrange(i - 1, n as int) =~= filename@.skip(i - 1));
                assert(extname_scan(filename@, i - 1) == Some(filename@.skip(i - 1)));
                assert(filename@ != seq!['.'] && filename@ != seq!['.', '.']);
            }
            return Some(filename.substring_char(i - 1, n));
        }
        i = i - 1;
    }
    None
}

/// Law: resolving the component `.` returns the base unchanged, so a second
/// such resolution yields exactly the result of the first.
pub proof fn lemma_resolve_dot_idempotent(root: Seq<char>)
    ensures
        spec_resolve(root, seq!['.']) == Some(root),
        spec_resolve(spec_resolve(root, seq!['.'])->Some_0, seq!['.']) == spec_resolve(
            root,
            seq!['.'],
        ),
{
}

/// Law: one `..` step fails exactly when the base has no parent to move to,
/// that is, when it is empty, the bare root `/`, `.` or `..`; for an
/// absolute base that leaves exactly the bare root.
pub proof fn lemma_resolve_parent_exhaustion(p: Seq<char>)
    ensures
        (spec_resolve(p, seq!['.', '.']) is None) <==> (p.len() == 0 || p == seq!['/'] || p
            == seq!['.'] || p == seq!['.', '.']),
        spec_is_absolute(p) ==> ((spec_resolve(p, seq!['.', '.']) is None) <==> p == seq!['/']),
{
    let dd = seq!['.', '.'];
    assert(spec_resolve(p, dd) == resolve_segments(p, dd));
    assert(starts_with_dot_dot(dd));
    if p.len() == 0 || p == seq!['/'] || p == seq!['.'] || p == seq!['.', '.'] {
        assert(spec_parent_path(p) is None);
        assert(resolve_segments(p, dd) is None);
    } else {
        assert(spec_parent_path(p) is Some);
        let b = spec_parent_path(p)->Some_0;
        assert(dd.skip(2) =~= Seq::<char>::empty());
        assert(resolve_segments(b, dd.skip(2)) == Some(spec_join(b, dd.skip(2))));
        assert(resolve_segments(p, dd) is Some);
    }
}

/// How many `..` steps succeed from base `p` before one fails: the length
/// of the ancestor chain that resolution can climb.
pub open spec fn ancestor_steps(p: Seq<char>) -> nat
    decreases p.len(),
    via ancestor_steps_decreases
{
    if spec_resolve(p, seq!['.', '.']) is Some {
        1 + ancestor_steps(spec_resolve(p, seq!['.', '.'])->Some_0)
    } else {
        0
    }
}

#[via_fn]
proof fn ancestor_steps_decreases(p: Seq<char>) {
    lemma_resolve_dot_dot_step(p);
}

/// A `..` step succeeds exactly when the base has a parent, and then it
/// returns that parent, which is strictly shorter than the base.
proof fn lemma_resolve_dot_dot_step(p: Seq<char>)
    ensures
        spec_resolve(p, seq!['.', '.']) is Some <==> spec_parent_path(p) is Some,
        spec_resolve(p, seq!['.', '.']) is Some ==> spec_resolve(p, seq!['.', '.']) == Some(
            spec_parent_path(p)->Some_0,
        ),
        spec_resolve(p, seq!['.', '.']) is Some ==> (spec_parent_path(p)->Some_0).len() < p.len(),
{
    let dd = seq!['.', '.'];
    assert(spec_resolve(p, dd) == resolve_segments(p, dd));
    assert(starts_with_dot_dot(dd));
    match spec_parent_path(p) {
        None => {},
        Some(b) => {
            assert(dd.skip(2) =~= Seq::<char>::empty());
            assert(resolve_segments(b, dd.skip(2)) == Some(spec_join(b, dd.skip(2))));
            assert(spec_join(b, dd.skip(2)) == b);
            let t = trim_trailing_separators(p);
            lemma_trim_props(p);
            lemma_last_index_of_bounds(t, '/');
            let k = last_index_of(t, '/');
            assert(p.len() >= 1);
            if k >= 0 {
                assert(t.last() != '/');
                assert(k < t.len() - 1);
                assert(b.len() == k + 1);
                assert(b.len() < p.len());
            } else {
                assert(b.len() == 0);
            }
        },
    }
}

/// Law: on an absolute base free of doubled separators, iterated `..`
/// resolution succeeds once per non-empty segment and the next step fails:
/// the root escape comes exactly when the ancestor count is exhausted.
/// That each single step removes exactly the trailing segment is
/// `lemma_parent_path_removes_one_segment`.
pub proof fn lemma_root_escape_counting(p: Seq<char>)
    requires
        spec_is_absolute(p),
        !has_double_separator(p),
    ensures
        ancestor_steps(p) == segment_count(p),
    decreases p.len(),
{
    lemma_resolve_dot_dot_step(p);
    if segment_count(p) == 0 {
        if p.len() >= 2 {
            assert(!double_separator_at(p, 0));
            lemma_segment_count_positive(p, p.len() as int, 1);
            assert(false);
        }
        assert(p =~= seq!['/']);
        assert(spec_parent_path(p) is None);
        assert(ancestor_steps(p) == 0);
    } else {
        lemma_parent_path_removes_one_segment(p);
        let q = spec_parent_path(p)->Some_0;
        lemma_root_escape_counting(q);
        assert(ancestor_steps(p) == 1 + ancestor_steps(q));
    }
}

/// Law: joining two non-empty paths that are free of doubled separators
/// yields a path free of doubled separators; in particular, when exactly
/// one side carries the separator at the junction, no `//` appears there.
pub proof fn lemma_join_no_double_separator(a: Seq<char>, b: Seq<char>)
    requires
        a.len() > 0,
        b.len() > 0,
        !has_double_separator(a),
        !has_double_separator(b),
    ensures
        !has_double_separator(spec_join(a, b)),
{
    if a.last() == '/' && b[0] == '/' {
        let r = a.drop_last() + b;
        assert forall|i: int| !double_separator_at(r, i) by {
            if double_separator_at(r, i) {
                if i + 1 < a.len() - 1 {
                    assert(double_separator_at(a, i));
                } else if i == a.len() - 2 {
                    assert(double_separator_at(a, i));
                } else {
                    assert(double_separator_at(b, i - (a.len() - 1)));
                }
            }
        }
    } else if a.last() == '/' || b[0] == '/' {
        let r = a + b;
        assert forall|i: int| !double_separator_at(r, i) by {
            if double_separator_at(r, i) {
                if i + 1 < a.len() {
                    assert(double_separator_at(a, i));
                } else if i == a.len() - 1 {
                    assert(a.last() == '/' && b[0] == '/');
                } else {
                    assert(double_separator_at(b, i - a.len()));
                }
            }
        }
    } else {
        let r = a + seq!['/'] + b;
        assert forall|i: int| !double_separator_at(r, i) by {
            if double_separator_at(r, i) {
                if i + 1 < a.len() {
                    assert(double_separator_at(a, i));
                } else if i == a.len() - 1 {
                    assert(a.last() == '/');
                } else if i == a.len() {
                    assert(b[0] == '/');
                } else {
                    assert(double_separator_at(b, i - a.len() - 1));
                }
            }
        }
    }
}

} // verus!
