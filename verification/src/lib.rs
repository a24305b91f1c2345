//! A path-string algebra: joining, resolving and classifying filesystem-path
//! text with `/` as the sole separator, independent of the host's native
//! path type.  Nothing here touches the filesystem; every operation is a
//! pure function over UTF-8 text.

use vstd::prelude::*;

mod error;
pub mod glob;
pub mod pathspec;
pub mod utils;

pub use error::Error;
pub use error::ErrorKind;

use crate::pathspec::lemma_last_index_of_absent;
use crate::pathspec::lemma_last_index_of_found;
use crate::pathspec::spec_extname_lax;
use crate::pathspec::spec_filename_lax;
use crate::pathspec::spec_parent_lax;
use crate::pathspec::spec_resolve;
use crate::pathspec::spec_resolve_all;

verus! {

/// Resolves `cmp` against `base`: a synonym of [`utils::resolve`] kept at
/// the crate root.
pub fn join(base: &str, cmp: &str) -> (r: Result<String, Error>)
    ensures
        match r {
            Ok(s) => spec_resolve(base@, cmp@) == Some(s@),
            Err(e) => spec_resolve(base@, cmp@) is None && e.spec_kind() == ErrorKind::Unknown,
        },
{
    utils::resolve(base, cmp)
}

/// Resolves each component of `cmps` in turn against the accumulated base.
pub fn join_slice(base: &str, cmps: &Vec<String>) -> (r: Result<String, Error>)
    ensures
        match r {
            Ok(s) => spec_resolve_all(base@, cmps.deep_view()) == Some(s@),
            Err(e) => spec_resolve_all(base@, cmps.deep_view()) is None && e.spec_kind()
                == ErrorKind::Unknown,
        },
{
    utils::join_slice(base, cmps)
}

/// The characters after the last dot anywhere in `filename` (dot excluded);
/// `None` when there is no dot, and for `.` and `..`.  The last segment's
/// dot-included variant lives in [`utils::extname`].
pub fn extname(filename: &str) -> (r: Option<String>)
    ensures
        match r {
            Some(p) => spec_extname_lax(filename@) == Some(p@),
            None => spec_extname_lax(filename@) is None,
        },
{
    let n = filename.unicode_len();
    if n == 1 && filename.get_char(0) == '.' {
        proof {
            assert(filename@ =~= seq!['.']);
        }
        return None;
    }
    if n == 2 && filename.get_char(0) == '.' && filename.get_char(1) == '.' {
        proof {
            assert(filename@ =~= seq!['.', '.']);
        }
        return None;
    }
    let mut i = n;
    while i > 0 && filename.get_char(i - 1) != '.'
        invariant
            0 <= i <= n,
            n == filename@.len(),
            forall|m: int| i <= m < n ==> filename@[m] != '.',
        decreases i,
    {
        i = i - 1;
    }
    if i == 0 {
        proof {
            lemma_last_index_of_absent(filename@, '.');
        }
        None
    } else {
        proof {
            lemma_last_index_of_found(filename@, '.', i - 1);
            assert(filename@.subrange(i as int, n as int) =~= filename@.skip(i as int));
        }
        Some(filename.substring_char(i, n).to_owned())
    }
}

/// The portion of `filename` up to and including its last separator, or the
/// empty string when it has none (no deeper parent, but not a failure);
/// `None` for the empty path, `/`, `.` and `..`.
pub fn parent(filename: &str) -> (r: Option<String>)
    ensures
        match r {
            Some(p) => spec_parent_lax(filename@) == Some(p@),
            None => spec_parent_lax(filename@) is None,
        },
{
    let n = filename.unicode_len();
    if n == 0 {
        return None;
    }
    if n == 1 {
        let c0 = filename.get_char(0);
        if c0 == '/' {
            proof {
                assert(filename@ =~= seq!['/']);
            }
            return None;
        }
        if c0 == '.' {
            proof {
                assert(filename@ =~= seq!['.']);
            }
            return None;
        }
    }
    if n == 2 && filename.get_char(0) == '.' && filename.get_char(1) == '.' {
        proof {
            assert(filename@ =~= seq!['.', '.']);
        }
        return None;
    }
    let mut i = n;
    while i > 0 && filename.get_char(i - 1) != '/'
        invariant
            0 <= i <= n,
            n == filename@.len(),
            forall|m: int| i <= m < n ==> filename@[m] != '/',
        decreases i,
    {
        i = i - 1;
    }
    if i == 0 {
        let empty = String::new();
        proof {
            lemma_last_index_of_absent(filename@, '/');
            assert(empty@ =~= Seq::<char>::empty());
        }
        Some(empty)
    } else {
        proof {
            lemma_last_index_of_found(filename@, '/', i - 1);
            assert(filename@.subrange(0, i as int) =~= filename@.take(i as int));
        }
        Some(filename.substring_char(0, i).to_owned())
    }
}

/// The characters of `path` after its last separator, or all of `path` when
/// it has none; `None` for the empty path, `/`, `.` and `..`.  Unlike
/// [`utils::filename`], text ending in a separator yields the empty string.
pub fn filename(path: &str) -> (r: Option<String>)
    ensures
        match r {
            Some(p) => spec_filename_lax(path@) == Some(p@),
            None => spec_filename_lax(path@) is None,
        },
{
    let n = path.unicode_len();
    if n == 0 {
        return None;
    }
    if n == 1 {
        let c0 = path.get_char(0);
        if c0 == '/' {
            proof {
                assert(path@ =~= seq!['/']);
            }
            return None;
        }
        if c0 == '.' {
            proof {
                assert(path@ =~= seq!['.']);
            }
            return None;
        }
    }
    if n == 2 && path.get_char(0) == '.' && path.get_char(1) == '.' {
        proof {
            assert(path@ =~= seq!['.', '.']);
        }
        return None;
    }
    let mut i = n;
    while i > 0 && path.get_char(i - 1) != '/'
        invariant
            0 <= i <= n,
            n == path@.len(),
            forall|m: int| i <= m < n ==> path@[m] != '/',
        decreases i,
    {
        i = i - 1;
    }
    if i == 0 {
        proof {
            lemma_last_index_of_absent(path@, '/');
        }
        Some(path.to_owned())
    } else {
        proof {
            lemma_last_index_of_found(path@, '/', i - 1);
            assert(path@.subrange(i as int, n as int) =~= path@.skip(i as int));
        }
        Some(path.substring_char(i, n).to_owned())
    }
}

} // verus!
