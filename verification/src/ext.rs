//! Extension detection on the final segment of a path.

use vstd::prelude::*;

use crate::model::DOT;
use crate::model::SEP;
use crate::model::is_ext_dot;
use crate::model::spec_has_ext;

verus! {

/// Whether the final segment of `path` looks like a file name with an
/// extension: the suffix after the last `.` is non-empty and contains no
/// separator.
pub fn has_ext(path: &[u8]) -> (r: bool)
    ensures
        r == spec_has_ext(path@),
{
    let n = path.len();
    let mut i: usize = n;
    while i > 0
        invariant
            i <= n,
            n == path@.len(),
            forall|j: int| i <= j < n ==> path@[j] != DOT && path@[j] != SEP,
        decreases i,
    {
        i = i - 1;
        if path[i] == DOT {
            if i + 1 < n {
                proof {
                    assert(is_ext_dot(path@, i as int));
                }
                return true;
            } else {
                proof {
                    assert forall|k: int| !is_ext_dot(path@, k) by {
                        if is_ext_dot(path@, k) {
                            assert(k < i as int);
                            assert(path@[i as int] != DOT);
                        }
                    }
                }
                return false;
            }
        }
        if path[i] == SEP {
            proof {
                assert forall|k: int| !is_ext_dot(path@, k) by {
                    if is_ext_dot(path@, k) {
                        assert(k < i as int);
                        assert(path@[i as int] != SEP);
                    }
                }
            }
            return false;
        }
    }
    proof {
        assert forall|k: int| !is_ext_dot(path@, k) by {
            if is_ext_dot(path@, k) {
                assert(path@[k] != DOT);
            }
        }
    }
    false
}

} // verus!
