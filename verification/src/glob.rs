//! Glob-token detection and glob-aware parent computation.
//!
//! A pattern is scanned left to right.  An escape `\X` is consumed whole and
//! never counts as a token.  In the cheap (non-strict) mode any wildcard or
//! grouping character counts; in strict mode a grouping opener counts only
//! when a plausible closing counterpart follows, so stray brackets in plain
//! text are not over-reported.

use vstd::prelude::*;

use crate::pathspec::ends_with_dot_dot;
use crate::pathspec::lemma_last_index_of_absent;
use crate::pathspec::lemma_last_index_of_found;
use crate::pathspec::lemma_parent_path_loose_shape;
use crate::pathspec::lemma_trim_take;
use crate::pathspec::spec_is_absolute;
use crate::pathspec::spec_join;
use crate::pathspec::spec_parent_path_loose;
use crate::pathspec::starts_with_dot_slash;
use crate::pathspec::trim_trailing_separators;

verus! {

/// A wildcard or grouping character of the cheap detection mode.
pub open spec fn is_token_char(c: char) -> bool {
    c == '*' || c == '?' || c == '{' || c == '}' || c == '(' || c == ')' || c == '[' || c == ']'
}

/// A closing `close` stands at `j`, at least two places after `from`, with
/// neither a backslash nor a premature `close` in between.
pub open spec fn group_close_at(s: Seq<char>, from: int, close: char, j: int) -> bool {
    from + 2 <= j < s.len() && s[j] == close && (forall|m: int|
        from < m < j ==> s[m] != '\\' && s[m] != close)
}

/// The group opened at `from` is closed by `close` with nonempty, unescaped
/// content.
pub open spec fn spec_closed_group(s: Seq<char>, from: int, close: char) -> bool {
    exists|j: int| #[trigger] group_close_at(s, from, close, j)
}

/// The first `|` after the opener at `i` stands at `p`, with nonempty
/// content before it and a closed alternative after it.
pub open spec fn alternation_bar_at(s: Seq<char>, i: int, p: int) -> bool {
    i + 2 <= p < s.len() && s[p] == '|' && (forall|m: int| i < m < p ==> s[m] != '|')
        && spec_closed_group(s, p, ')')
}

/// The parenthesis at `i` opens a real alternation, such as `(a|b)`.
pub open spec fn spec_alternation(s: Seq<char>, i: int) -> bool {
    exists|p: int| #[trigger] alternation_bar_at(s, i, p)
}

/// The parenthesis at `i` opens a strict-mode group: an extended group
/// `(?:..)`, `(?!..)` or `(?=..)`, or an alternation `(..|..)`.
pub open spec fn spec_paren_group(s: Seq<char>, i: int) -> bool {
    (i + 2 < s.len() && s[i + 1] == '?' && (s[i + 2] == ':' || s[i + 2] == '!' || s[i + 2] == '=')
        && spec_closed_group(s, i + 2, ')')) || spec_alternation(s, i)
}

/// The token scanner from position `i` on: escapes are skipped whole; a
/// leading `!` counts; in the cheap mode any token character counts; in
/// strict mode `*` counts, `?` counts after one of `]`, `.`, `+`, `)`, and
/// a grouping opener counts only when properly closed.
pub open spec fn spec_is_glob_at(s: Seq<char>, i: int, strict: bool) -> bool
    decreases s.len() - i,
{
    if i >= s.len() {
        false
    } else if s[i] == '\\' && i + 1 < s.len() {
        spec_is_glob_at(s, i + 2, strict)
    } else if i == 0 && s[i] == '!' {
        true
    } else if !strict {
        if is_token_char(s[i]) {
            true
        } else {
            spec_is_glob_at(s, i + 1, strict)
        }
    } else {
        if s[i] == '*' {
            true
        } else if (s[i] == ']' || s[i] == '.' || s[i] == '+' || s[i] == ')') && i + 1 < s.len()
            && s[i + 1] == '?' {
            true
        } else if s[i] == '[' && spec_closed_group(s, i, ']') {
            true
        } else if s[i] == '{' && spec_closed_group(s, i, '}') {
            true
        } else if s[i] == '(' && spec_paren_group(s, i) {
            true
        } else {
            spec_is_glob_at(s, i + 1, strict)
        }
    }
}

/// Whether the pattern holds a glob token at all.
pub open spec fn spec_is_glob(s: Seq<char>, strict: bool) -> bool {
    spec_is_glob_at(s, 0, strict)
}

/// Looks for the closing `close` of the group opened just before `from`:
/// true when the first backslash-or-`close` character after `from` is a
/// `close` standing at least two places along.
fn closed_group(s: &str, from: usize, close: char) -> (r: bool)
    requires
        from < s@.len(),
    ensures
        r == spec_closed_group(s@, from as int, close),
{
    let n = s.unicode_len();
    let mut j = from + 1;
    while j < n && s.get_char(j) != '\\' && s.get_char(j) != close
        invariant
            from < j <= n,
            n == s@.len(),
            forall|m: int| from < m < j ==> s@[m] != '\\' && s@[m] != close,
        decreases n - j,
    {
        j = j + 1;
    }
    if j < n && j >= from + 2 && s.get_char(j) == close {
        proof {
            assert(group_close_at(s@, from as int, close, j as int));
        }
        return true;
    }
    proof {
        assert forall|j2: int| !group_close_at(s@, from as int, close, j2) by {
            if group_close_at(s@, from as int, close, j2) {
                if j2 < j {
                    assert(s@[j2] != close);
                } else if j2 == j {
                    assert(j < n && s@[j as int] == close && j < from + 2);
                    assert(s@[from + 1] != close);
                } else {
                    assert(j < n ==> (s@[j as int] == '\\' || s@[j as int] == close));
                    assert(j < j2 < n);
                }
            }
        }
    }
    false
}

/// Decides whether the parenthesis at `i` opens a strict-mode group.
fn paren_group(s: &str, i: usize) -> (r: bool)
    requires
        i < s@.len(),
    ensures
        r == spec_paren_group(s@, i as int),
{
    let n = s.unicode_len();
    if n - i > 2 && s.get_char(i + 1) == '?' {
        let c2 = s.get_char(i + 2);
        if (c2 == ':' || c2 == '!' || c2 == '=') && closed_group(s, i + 2, ')') {
            return true;
        }
    }
    let mut p = i + 1;
    while p < n && s.get_char(p) != '|'
        invariant
            i < p <= n,
            n == s@.len(),
            forall|m: int| i < m < p ==> s@[m] != '|',
        decreases n - p,
    {
        p = p + 1;
    }
    if p < n && p >= i + 2 {
        if closed_group(s, p, ')') {
            proof {
                assert(alternation_bar_at(s@, i as int, p as int));
            }
            return true;
        }
    }
    proof {
        assert forall|p2: int| !alternation_bar_at(s@, i as int, p2) by {
            if alternation_bar_at(s@, i as int, p2) {
                if p2 < p {
                    assert(s@[p2] != '|');
                } else if p2 == p {
                    assert(!spec_closed_group(s@, p2, ')') || p < i + 2);
                    if p < i + 2 {
                        assert(s@[p2] == '|' && p2 >= i + 2);
                    }
                } else {
                    assert(p < p2 < n);
                    assert(s@[p as int] == '|');
                }
            }
        }
    }
    false
}

/// Scans `input` for a glob token; `strict` selects the tight token set
/// that demands a plausible closing counterpart for every grouping opener.
pub fn is_glob(input: &str, strict: bool) -> (r: bool)
    ensures
        r == spec_is_glob(input@, strict),
{
    let n = input.unicode_len();
    let mut i: usize = 0;
    while i < n
        invariant
            0 <= i <= n,
            n == input@.len(),
            spec_is_glob_at(input@, 0, strict) == spec_is_glob_at(input@, i as int, strict),
        decreases n - i,
    {
        let c = input.get_char(i);
        if c == '\\' && i + 1 < n {
            i = i + 2;
        } else if i == 0 && c == '!' {
            return true;
        } else if !strict {
            if c == '*' || c == '?' || c == '{' || c == '}' || c == '(' || c == ')' || c == '['
                || c == ']' {
                return true;
            }
            i = i + 1;
        } else {
            if c == '*' {
                return true;
            }
            if (c == ']' || c == '.' || c == '+' || c == ')') && i + 1 < n && input.get_char(i + 1)
                == '?' {
                return true;
            }
            if c == '[' && closed_group(input, i, ']') {
                return true;
            }
            if c == '{' && closed_group(input, i, '}') {
                return true;
            }
            if c == '(' && paren_group(input, i) {
                return true;
            }
            i = i + 1;
        }
    }
    false
}

/// True when `input` starts with the separator.
pub fn is_absolute(input: &str) -> (r: bool)
    ensures
        r == spec_is_absolute(input@),
{
    input.unicode_len() > 0 && input.get_char(0) == '/'
}

/// An unescaped `{` or `[` stands at `i`, or an unescaped `(` with content
/// after it but no `)` anywhere to the right.
pub open spec fn group_opener_at(s: Seq<char>, i: int) -> bool {
    0 <= i < s.len() && (i == 0 || s[i - 1] != '\\') && (s[i] == '{' || s[i] == '[' || (s[i] == '('
        && i + 1 < s.len() && (forall|m: int| i < m < s.len() ==> s[m] != ')')))
}

/// The pattern holds a group whose closing counterpart is still pending: an
/// unescaped `{` or `[`, or an unclosed `(`.
pub open spec fn spec_glob_group(s: Seq<char>) -> bool {
    exists|i: int| #[trigger] group_opener_at(s, i)
}

/// Scans for an unescaped opener with a pending close.
fn glob_group(s: &str) -> (r: bool)
    ensures
        r == spec_glob_group(s@),
{
    let n = s.unicode_len();
    let mut rp = n;
    while rp > 0 && s.get_char(rp - 1) != ')'
        invariant
            0 <= rp <= n,
            n == s@.len(),
            forall|m: int| rp <= m < n ==> s@[m] != ')',
        decreases rp,
    {
        rp = rp - 1;
    }
    let mut i: usize = 0;
    while i < n
        invariant
            0 <= i <= n,
            0 <= rp <= n,
            n == s@.len(),
            forall|m: int| rp <= m < n ==> s@[m] != ')',
            rp > 0 ==> s@[rp - 1] == ')',
            forall|p: int| 0 <= p < i ==> !group_opener_at(s@, p),
        decreases n - i,
    {
        let c = s.get_char(i);
        let unescaped = i == 0 || s.get_char(i - 1) != '\\';
        if unescaped && (c == '{' || c == '[') {
            proof {
                assert(group_opener_at(s@, i as int));
            }
            return true;
        }
        let no_close_after = rp == 0 || i >= rp - 1;
        if unescaped && c == '(' && i + 1 < n && no_close_after {
            proof {
                assert forall|m: int| i < m < n implies s@[m] != ')' by {
                    assert(m >= rp);
                }
                assert(group_opener_at(s@, i as int));
            }
            return true;
        }
        proof {
            if group_opener_at(s@, i as int) {
                assert(c == '(' && i + 1 < n);
                assert(rp > 0 && i < rp - 1);
                assert(s@[rp - 1] == ')');
                assert(false);
            }
        }
        i = i + 1;
    }
    false
}

/// A group opener stands at `i`, strictly before the final character.
pub open spec fn special_opener_at(s: Seq<char>, i: int) -> bool {
    0 <= i < s.len() - 1 && (s[i] == '{' || s[i] == '[')
}

/// The shape that looks like a group spanning a separator: the pattern ends
/// in `}` or `]` with an opener `{` or `[` somewhere before the end.
pub open spec fn spec_glob_special(s: Seq<char>) -> bool {
    s.len() >= 2 && (s.last() == '}' || s.last() == ']') && (exists|i: int|
        #[trigger] special_opener_at(s, i))
}

/// Detects the group-spanning-a-separator shape.
fn glob_special(s: &str) -> (r: bool)
    ensures
        r == spec_glob_special(s@),
{
    let n = s.unicode_len();
    if n < 2 {
        return false;
    }
    let last = s.get_char(n - 1);
    if last != '}' && last != ']' {
        return false;
    }
    let mut i: usize = 0;
    while i < n - 1
        invariant
            0 <= i <= n - 1,
            n == s@.len(),
            n >= 2,
            s@.last() == '}' || s@.last() == ']',
            forall|p: int| 0 <= p < i ==> !special_opener_at(s@, p),
        decreases n - i,
    {
        let c = s.get_char(i);
        if c == '{' || c == '[' {
            proof {
                assert(special_opener_at(s@, i as int));
            }
            return true;
        }
        i = i + 1;
    }
    false
}

/// The parent of `input` at the text level, total: trailing separators are
/// dropped, then everything from the last separator on is removed.  The
/// fallbacks are `.` for text with no deeper parent, `/` for the root, and
/// `//` when the only separator of an absolute path is its leading one.
pub fn parent_path(input: &str) -> (r: String)
    ensures
        r@ == spec_parent_path_loose(input@),
{
    let n = input.unicode_len();
    if n == 0 {
        let out = ".".to_owned();
        proof {
            reveal_strlit(".");
            assert(out@ =~= seq!['.']);
        }
        return out;
    }
    let mut e = n;
    while e > 0 && input.get_char(e - 1) == '/'
        invariant
            0 <= e <= n,
            n == input@.len(),
            forall|m: int| e <= m < n ==> input@[m] == '/',
        decreases e,
    {
        e = e - 1;
    }
    proof {
        lemma_trim_take(input@, e as int);
        assert(trim_trailing_separators(input@.take(e as int)) == input@.take(e as int));
    }
    let mut i = e;
    while i > 0 && input.get_char(i - 1) != '/'
        invariant
            0 <= i <= e <= n,
            n == input@.len(),
            forall|m: int| i <= m < e ==> input@[m] != '/',
        decreases i,
    {
        i = i - 1;
    }
    if i == 0 {
        proof {
            lemma_last_index_of_absent(input@.take(e as int), '/');
        }
        if input.get_char(0) == '/' {
            let out = "/".to_owned();
            proof {
                reveal_strlit("/");
                assert(out@ =~= seq!['/']);
            }
            out
        } else {
            let out = ".".to_owned();
            proof {
                reveal_strlit(".");
                assert(out@ =~= seq!['.']);
            }
            out
        }
    } else {
        proof {
            lemma_last_index_of_found(input@.take(e as int), '/', i - 1);
        }
        if input.get_char(0) == '/' && i == 1 {
            let out = "//".to_owned();
            proof {
                reveal_strlit("//");
                assert(out@ =~= seq!['/', '/']);
            }
            out
        } else {
            let out = input.substring_char(0, i - 1).to_owned();
            proof {
                assert(input@.subrange(0, i - 1) =~= input@.take(i - 1));
            }
            out
        }
    }
}

/// One loop condition of `glob_parent`: the working text still carries a
/// glob token, or an open group, or ends in a dangling `..`.
pub open spec fn spec_glob_step(s: Seq<char>) -> bool {
    spec_is_glob(s, false) || spec_glob_group(s) || ends_with_dot_dot(s)
}

/// Evaluates the `glob_parent` loop condition.
fn glob_step(s: &str) -> (r: bool)
    ensures
        r == spec_glob_step(s@),
{
    if is_glob(s, false) {
        return true;
    }
    if glob_group(s) {
        return true;
    }
    let n = s.unicode_len();
    n >= 2 && s.get_char(n - 1) == '.' && s.get_char(n - 2) == '.'
}

/// The parent walk of `glob_parent`: text-level parents are taken while the
/// working text still triggers the loop condition.
pub open spec fn glob_parent_from(o: Seq<char>) -> Seq<char>
    decreases 2 * o.len() + (if spec_glob_step(o) {
        1int
    } else {
        0int
    }),
    via glob_parent_from_decreases
{
    if spec_glob_step(o) {
        glob_parent_from(spec_parent_path_loose(o))
    } else {
        o
    }
}

#[via_fn]
proof fn glob_parent_from_decreases(o: Seq<char>) {
    if spec_glob_step(o) {
        if o.len() == 0 {
            assert(!spec_is_glob_at(o, 0, false));
            assert(forall|i: int| !group_opener_at(o, i));
        } else {
            lemma_parent_path_loose_shape(o);
            lemma_fallbacks_step_done();
        }
    }
}

/// What `glob_parent` returns: the sentinel segment is appended (after a
/// separator when the pattern has the group-spanning shape) and the parent
/// walk runs from the first text-level parent.
pub open spec fn spec_glob_parent(g: Seq<char>) -> Seq<char> {
    let sent = if spec_glob_special(g) {
        g + seq!['/', 'a']
    } else {
        g + seq!['a']
    };
    glob_parent_from(spec_parent_path_loose(sent))
}

/// None of the fallback parents (`.`, `/`, `//`) keeps the loop of
/// `glob_parent` going.
proof fn lemma_fallbacks_step_done()
    ensures
        !spec_glob_step(seq!['.']),
        !spec_glob_step(seq!['/']),
        !spec_glob_step(seq!['/', '/']),
{
    assert(!spec_is_glob_at(seq!['.'], 1, false));
    assert(!spec_is_glob_at(seq!['.'], 0, false));
    assert(!spec_is_glob_at(seq!['/'], 1, false));
    assert(!spec_is_glob_at(seq!['/'], 0, false));
    assert(!spec_is_glob_at(seq!['/', '/'], 2, false));
    assert(!spec_is_glob_at(seq!['/', '/'], 1, false));
    assert(!spec_is_glob_at(seq!['/', '/'], 0, false));
    assert forall|i: int| !group_opener_at(seq!['.'], i) by {
        if group_opener_at(seq!['.'], i) {
            assert(i == 0);
        }
    }
    assert forall|i: int| !group_opener_at(seq!['/'], i) by {
        if group_opener_at(seq!['/'], i) {
            assert(i == 0);
        }
    }
    assert forall|i: int| !group_opener_at(seq!['/', '/'], i) by {
        if group_opener_at(seq!['/', '/'], i) {
            assert(i == 0 || i == 1);
        }
    }
}

/// The deepest ancestor directory of the pattern that carries no glob
/// syntax: a sentinel segment is appended (after a `/` when the pattern
/// looks like a group spanning a separator), and text-level parents are
/// taken until the working text holds no glob token, no open group, and no
/// dangling `..`.  The result is a prefix of the pattern or one of the
/// fallbacks `.`, `/`, `//`.
pub fn glob_parent(glob: &str) -> (r: String)
    ensures
        r@ == spec_glob_parent(glob@),
        !spec_is_glob(r@, false),
        !spec_glob_group(r@),
        !ends_with_dot_dot(r@),
        r@ == seq!['.'] || r@ == seq!['/'] || r@ == seq!['/', '/'] || (r@.len() <= glob@.len()
            && r@ == glob@.take(r@.len() as int)),
{
    let ghost orig = glob@;
    let mut output: String = glob.to_owned();
    if glob_special(glob) {
        output.append("/");
    }
    output.append("a");
    proof {
        reveal_strlit("/");
        reveal_strlit("a");
    }
    let ghost sent = output@;
    proof {
        assert(orig.len() + 1 <= sent.len() <= orig.len() + 2);
        assert(forall|m: int| 0 <= m < orig.len() ==> sent[m] == orig[m]);
        if spec_glob_special(orig) {
            assert(sent =~= orig + seq!['/', 'a']);
        } else {
            assert(sent =~= orig + seq!['a']);
        }
    }
    output = parent_path(output.as_str());
    proof {
        lemma_parent_path_loose_shape(sent);
        if !(output@ == seq!['.'] || output@ == seq!['/'] || output@ == seq!['/', '/']) {
            assert(output@.len() <= sent.len() - 2);
            assert(output@ == sent.take(output@.len() as int));
            assert(output@ =~= orig.take(output@.len() as int));
        }
    }
    let mut more = glob_step(output.as_str());
    while more
        invariant
            more == spec_glob_step(output@),
            glob_parent_from(output@) == spec_glob_parent(orig),
            output@.len() >= 1,
            output@ == seq!['.'] || output@ == seq!['/'] || output@ == seq!['/', '/'] || (
            output@.len() <= orig.len() && output@ == orig.take(output@.len() as int)),
        decreases output@.len() * 2 + (if more {
            1int
        } else {
            0
        }),
    {
        let ghost prev = output@;
        proof {
            lemma_parent_path_loose_shape(prev);
            lemma_fallbacks_step_done();
        }
        output = parent_path(output.as_str());
        more = glob_step(output.as_str());
        proof {
            if !(output@ == seq!['.'] || output@ == seq!['/'] || output@ == seq!['/', '/']) {
                assert(output@.len() <= prev.len() - 2);
                assert(output@ == prev.take(output@.len() as int));
                assert(prev == orig.take(prev.len() as int));
                assert(output@ =~= orig.take(output@.len() as int));
            }
        }
    }
    output
}

/// Joins a root and a glob fragment at the text level; a synonym of
/// [`crate::utils::join`].
pub fn join(root: &str, glob: &str) -> (r: String)
    ensures
        r@ == spec_join(root@, glob@),
{
    crate::utils::join(root, glob)
}

/// Coerces `path` to absolute text by joining it onto `cwd` when it is not
/// absolute already; no `.` or `..` processing happens here.
pub fn to_absolute(path: &str, cwd: &str) -> (r: String)
    ensures
        r@ == (if spec_is_absolute(path@) {
            path@
        } else {
            spec_join(cwd@, path@)
        }),
{
    if is_absolute(path) {
        path.to_owned()
    } else {
        join(cwd, path)
    }
}

/// Normalisation applied to a pattern before an absolute glob walk: one
/// leading `./` is stripped, a pattern of exactly `.` collapses to empty
/// text, and anything not absolute is joined onto `cwd`.
pub open spec fn spec_to_absolute_glob(input: Seq<char>, cwd: Seq<char>) -> Seq<char> {
    let o = if starts_with_dot_slash(input) {
        input.skip(2)
    } else {
        input
    };
    if o == seq!['.'] {
        Seq::<char>::empty()
    } else if spec_is_absolute(o) {
        o
    } else {
        spec_join(cwd, o)
    }
}

/// Normalises `input` against an already absolute working directory `cwd`;
/// turning a relative working directory absolute is filesystem work and is
/// left to the caller.
pub fn to_absolute_glob(input: &str, cwd: &str) -> (r: String)
    ensures
        r@ == spec_to_absolute_glob(input@, cwd@),
{
    let n = input.unicode_len();
    let o: String;
    if n >= 2 && input.get_char(0) == '.' && input.get_char(1) == '/' {
        o = input.substring_char(2, n).to_owned();
        proof {
            assert(input@.subrange(2, n as int) =~= input@.skip(2));
        }
    } else {
        o = input.to_owned();
    }
    let ol = o.as_str().unicode_len();
    if ol == 1 && o.as_str().get_char(0) == '.' {
        proof {
            assert(o@ =~= seq!['.']);
        }
        return String::new();
    }
    if ol > 0 && o.as_str().get_char(0) == '/' {
        o
    } else {
        join(cwd, o.as_str())
    }
}

/// A negation mark on a pattern: the stripped pattern next to the original
/// text and the flag saying whether the mark was present.
pub struct Negation<'a> {
    pub negated: bool,
    pub pattern: &'a str,
    pub original: &'a str,
}

/// True exactly when the pattern starts with `!` and the character after
/// it, when present, is not `(` (a leading `!(` opens an extended group
/// instead).  The pattern must not be empty.
pub fn is_negated_glob(input: &str) -> (r: bool)
    requires
        input@.len() > 0,
    ensures
        r == (input@[0] == '!' && (input@.len() == 1 || input@[1] != '(')),
{
    let n = input.unicode_len();
    input.get_char(0) == '!' && (n == 1 || input.get_char(1) != '(')
}

/// A character allowed in plain, glob-free path text.
pub open spec fn spec_plain_char(c: char) -> bool {
    ('a' <= c && c <= 'z') || ('A' <= c && c <= 'Z') || ('0' <= c && c <= '9') || c == '.' || c
        == '/' || c == '_' || c == '-'
}

/// Law: a pattern of alphanumerics, dots, separators, underscores and
/// dashes is never classified as a glob, in either mode.
pub proof fn lemma_plain_text_is_not_glob(s: Seq<char>, strict: bool)
    requires
        forall|i: int| 0 <= i < s.len() ==> spec_plain_char(#[trigger] s[i]),
    ensures
        !spec_is_glob(s, strict),
{
    lemma_plain_scan_finds_nothing(s, 0, strict);
}

/// The scanner finds no token in plain text, from any position on.
proof fn lemma_plain_scan_finds_nothing(s: Seq<char>, i: int, strict: bool)
    requires
        0 <= i <= s.len(),
        forall|m: int| 0 <= m < s.len() ==> spec_plain_char(#[trigger] s[m]),
    ensures
        !spec_is_glob_at(s, i, strict),
    decreases s.len() - i,
{
    if i < s.len() {
        assert(spec_plain_char(s[i]));
        lemma_plain_scan_finds_nothing(s, i + 1, strict);
    }
}

} // verus!
