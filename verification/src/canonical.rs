//! The canonical form of a request path, the cheap detector for paths that
//! are already canonical, and the redirect decision built on both.

use vstd::prelude::*;

use crate::clean::clean;
use crate::ext::has_ext;
use crate::model::DOT;
use crate::model::QUERY_SIGN;
use crate::model::SEP;
use crate::model::ends_with_sep;
use crate::model::has_double_sep;
use crate::model::has_sep_dot;
use crate::model::root_path;
use crate::model::spec_canonical;
use crate::model::spec_fast_canonical;
use crate::model::spec_with_query;

verus! {

/// The canonicalizer: paths pass through `normalize`, which yields the
/// redirect target when the raw path is not canonical.
#[derive(Default, Clone, Copy)]
pub struct CleanPath;

/// The outcome of canonicalizing one path: the input was already canonical,
/// or a canonical replacement was produced.
pub enum CanonicalizationResult {
    Unchanged,
    Changed(Vec<u8>),
}

/// The canonical form of `path`: the cleaned path, with a trailing separator
/// appended to a non-root result when the raw path ended in a separator or
/// the cleaned path's final segment has no extension.
pub fn canonicalize(path: &[u8]) -> (r: Vec<u8>)
    ensures
        r@ == spec_canonical(path@),
{
    let mut c = clean(path);
    let trailing = path.len() > 0 && path[path.len() - 1] == SEP;
    proof {
        assert(trailing == ends_with_sep(path@));
    }
    let root = c.len() == 1 && c[0] == SEP;
    proof {
        if root {
            assert(c@ =~= root_path());
        }
    }
    if !root {
        if trailing || !has_ext(c.as_slice()) {
            c.push(SEP);
        }
    }
    c
}

/// Whether `a` and `b` hold the same bytes.
fn bytes_eq(a: &[u8], b: &[u8]) -> (r: bool)
    ensures
        r == (a@ == b@),
{
    if a.len() != b.len() {
        return false;
    }
    let mut i: usize = 0;
    while i < a.len()
        invariant
            a@.len() == b@.len(),
            i <= a@.len(),
            forall|j: int| 0 <= j < i as int ==> a@[j] == b@[j],
        decreases a@.len() - i,
    {
        if a[i] != b[i] {
            return false;
        }
        i = i + 1;
    }
    proof {
        assert(a@ =~= b@);
    }
    true
}

/// The non-allocating detector: `path` passes when it contains no `/.` and
/// no `//`, and exactly one of a trailing separator or an extension on the
/// final segment. For a path with a leading separator this means the full
/// canonicalizer would return it unchanged.
pub fn is_canonical_fast(path: &[u8]) -> (r: bool)
    ensures
        r == spec_fast_canonical(path@),
{
    let n = path.len();
    let mut i: usize = 0;
    while i + 1 < n
        invariant
            n == path@.len(),
            i <= n,
            i == 0 || i < n,
            forall|j: int|
                #![trigger path@[j], path@[j + 1]]
                0 <= j < i as int ==> !(path@[j] == SEP && (path@[j + 1] == SEP || path@[j + 1]
                    == DOT)),
        decreases n - i,
    {
        if path[i] == SEP && (path[i + 1] == SEP || path[i + 1] == DOT) {
            return false;
        }
        i = i + 1;
    }
    proof {
        assert(!has_sep_dot(path@));
        assert(!has_double_sep(path@));
    }
    let trailing = n > 0 && path[n - 1] == SEP;
    proof {
        assert(trailing == ends_with_sep(path@));
    }
    let ext = has_ext(path);
    ext != trailing
}

impl CleanPath {
    /// Canonicalize `path`, reporting whether it was already canonical and,
    /// if not, handing the canonical replacement to the caller.
    pub fn canonical_result(&self, path: &[u8]) -> (r: CanonicalizationResult)
        ensures
            match r {
                CanonicalizationResult::Unchanged => spec_canonical(path@) == path@,
                CanonicalizationResult::Changed(c) => c@ == spec_canonical(path@) && c@
                    != path@,
            },
    {
        if path.len() > 0 && path[0] == SEP && is_canonical_fast(path) {
            proof {
                crate::laws::lemma_fast_path_sound(path@);
            }
            return CanonicalizationResult::Unchanged;
        }
        let c = canonicalize(path);
        if bytes_eq(c.as_slice(), path) {
            CanonicalizationResult::Unchanged
        } else {
            CanonicalizationResult::Changed(c)
        }
    }

    /// The redirect decision for one request: `None` when `path` is already
    /// canonical and the request passes through unmodified, otherwise the
    /// redirect target, the canonical path with the original query string
    /// reattached.
    pub fn normalize(&self, path: &[u8], query: Option<&[u8]>) -> (r: Option<Vec<u8>>)
        ensures
            match r {
                None => spec_canonical(path@) == path@,
                Some(t) => spec_canonical(path@) != path@ && t@ == spec_with_query(
                    spec_canonical(path@),
                    match query {
                        Some(q) => Some(q@),
                        None => None,
                    },
                ),
            },
    {
        match self.canonical_result(path) {
            CanonicalizationResult::Unchanged => None,
            CanonicalizationResult::Changed(c) => Some(redirect_target(c, query)),
        }
    }
}

/// The redirect target: `path` with the original query string, if any,
/// reattached after a `?`.
pub fn redirect_target(path: Vec<u8>, query: Option<&[u8]>) -> (r: Vec<u8>)
    ensures
        r@ == spec_with_query(
            path@,
            match query {
                Some(q) => Some(q@),
                None => None,
            },
        ),
{
    match query {
        None => path,
        Some(q) => {
            let mut r = path;
            let ghost p = r@;
            r.push(QUERY_SIGN);
            let mut i: usize = 0;
            while i < q.len()
                invariant
                    i <= q@.len(),
                    r@ == p + seq![QUERY_SIGN] + q@.take(i as int),
                decreases q@.len() - i,
            {
                r.push(q[i]);
                i = i + 1;
                proof {
                    assert(r@ =~= p + seq![QUERY_SIGN] + q@.take(i as int));
                }
            }
            proof {
                assert(q@.take(q@.len() as int) =~= q@);
            }
            r
        },
    }
}

} // verus!
