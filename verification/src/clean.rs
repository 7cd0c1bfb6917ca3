//! The full canonicalization pass: split a path into segments, resolve `.`
//! and `..`, and rejoin behind a single leading separator.

use vstd::prelude::*;

use crate::model::DOT;
use crate::model::SEP;
use crate::model::dot_dot_seg;
use crate::model::dot_seg;
use crate::model::is_plain;
use crate::model::join_segs;
use crate::model::lemma_segments_last;
use crate::model::lemma_segments_step;
use crate::model::resolve;
use crate::model::root_path;
use crate::model::segments;
use crate::model::spec_clean;

verus! {

/// A byte-for-byte copy of `src`.
fn copy_bytes(src: &Vec<u8>) -> (r: Vec<u8>)
    ensures
        r@ == src@,
{
    let mut r: Vec<u8> = Vec::new();
    let mut i: usize = 0;
    while i < src.len()
        invariant
            i <= src@.len(),
            r@ == src@.take(i as int),
        decreases src@.len() - i,
    {
        r.push(src[i]);
        i = i + 1;
        proof {
            assert(r@ =~= src@.take(i as int));
        }
    }
    proof {
        assert(src@.take(src@.len() as int) =~= src@);
    }
    r
}

/// The segments of `path`, in order, empty ones included.
fn split_segments(path: &[u8]) -> (segs: Vec<Vec<u8>>)
    ensures
        segs.deep_view() == segments(path@),
{
    let mut segs: Vec<Vec<u8>> = Vec::new();
    let mut cur: Vec<u8> = Vec::new();
    let ghost mut start: int = 0;
    let mut i: usize = 0;
    proof {
        assert(path@.skip(0) =~= path@);
        assert(segs.deep_view() =~~= Seq::<Seq<u8>>::empty());
        assert(segs.deep_view() + segments(path@) =~= segments(path@));
        assert(cur@ =~= path@.subrange(0, 0));
    }
    while i < path.len()
        invariant
            0 <= start <= i as int <= path@.len(),
            cur@ == path@.subrange(start, i as int),
            forall|j: int| start <= j < i as int ==> path@[j] != SEP,
            segments(path@) == segs.deep_view() + segments(path@.skip(start)),
        decreases path@.len() - i,
    {
        let c = path[i];
        if c == SEP {
            proof {
                lemma_segments_step(path@, start, i as int);
            }
            let ghost pre = segs.deep_view();
            segs.push(cur);
            cur = Vec::new();
            proof {
                assert(segs.deep_view() =~~= pre.push(path@.subrange(start, i as int)));
                start = i as int + 1;
                assert(segments(path@) =~= segs.deep_view() + segments(path@.skip(start)));
            }
        } else {
            cur.push(c);
            proof {
                assert(cur@ =~= path@.subrange(start, i as int + 1));
            }
        }
        i = i + 1;
        proof {
            assert(cur@ =~= path@.subrange(start, i as int));
        }
    }
    proof {
        lemma_segments_last(path@, start);
    }
    let ghost pre = segs.deep_view();
    segs.push(cur);
    proof {
        assert(segs.deep_view() =~~= pre.push(path@.subrange(start, path@.len() as int)));
        assert(segs.deep_view() =~= segments(path@));
    }
    segs
}

/// The segment stack after resolution: empty segments and `.` dropped, `..`
/// popping the last kept segment, every other segment kept in order.
fn resolve_segments(segs: &Vec<Vec<u8>>) -> (out: Vec<Vec<u8>>)
    ensures
        out.deep_view() == resolve(segs.deep_view()),
{
    let mut out: Vec<Vec<u8>> = Vec::new();
    let mut i: usize = 0;
    while i < segs.len()
        invariant
            i <= segs@.len(),
            out.deep_view() == resolve(segs.deep_view().take(i as int)),
        decreases segs@.len() - i,
    {
        let ghost dv = segs.deep_view();
        let ghost pre = out.deep_view();
        proof {
            assert(dv.take(i as int + 1).drop_last() =~= dv.take(i as int));
            assert(dv.take(i as int + 1).last() == dv[i as int]);
            assert(dv[i as int] =~= segs@[i as int]@);
        }
        let seg = &segs[i];
        if seg.len() == 2 && seg[0] == DOT && seg[1] == DOT {
            proof {
                assert(seg@ =~= dot_dot_seg());
            }
            if out.len() > 0 {
                let ghost full = out.deep_view();
                out.pop();
                proof {
                    assert(out.deep_view() =~~= full.drop_last());
                }
            }
        } else if seg.len() == 0 || (seg.len() == 1 && seg[0] == DOT) {
            proof {
                if seg@.len() == 1 {
                    assert(seg@ =~= dot_seg());
                }
                assert(!is_plain(seg@));
                assert(seg@ != dot_dot_seg());
            }
        } else {
            proof {
                assert(seg@ != dot_seg());
                assert(seg@ != dot_dot_seg());
                assert(is_plain(seg@));
            }
            let kept = copy_bytes(seg);
            let ghost full = out.deep_view();
            out.push(kept);
            proof {
                assert(out.deep_view() =~~= full.push(seg@));
            }
        }
        i = i + 1;
        proof {
            assert(out.deep_view() =~= resolve(dv.take(i as int)));
        }
    }
    proof {
        assert(segs.deep_view().take(segs@.len() as int) =~= segs.deep_view());
    }
    out
}

/// The resolved segments joined back into one path, each preceded by a
/// single separator.
fn join_segments(segs: &Vec<Vec<u8>>) -> (out: Vec<u8>)
    ensures
        out@ == join_segs(segs.deep_view()),
{
    let mut out: Vec<u8> = Vec::new();
    let mut i: usize = 0;
    while i < segs.len()
        invariant
            i <= segs@.len(),
            out@ == join_segs(segs.deep_view().take(i as int)),
        decreases segs@.len() - i,
    {
        let ghost dv = segs.deep_view();
        let ghost pre = out@;
        proof {
            assert(dv.take(i as int + 1).drop_last() =~= dv.take(i as int));
            assert(dv.take(i as int + 1).last() == dv[i as int]);
            assert(dv[i as int] =~= segs@[i as int]@);
        }
        out.push(SEP);
        let seg = &segs[i];
        let mut j: usize = 0;
        while j < seg.len()
            invariant
                j <= seg@.len(),
                out@ == pre + seq![SEP] + seg@.take(j as int),
            decreases seg@.len() - j,
        {
            out.push(seg[j]);
            j = j + 1;
            proof {
                assert(out@ =~= pre + seq![SEP] + seg@.take(j as int));
            }
        }
        i = i + 1;
        proof {
            assert(seg@.take(seg@.len() as int) =~= seg@);
            assert(out@ =~= join_segs(dv.take(i as int)));
        }
    }
    proof {
        assert(segs.deep_view().take(segs@.len() as int) =~= segs.deep_view());
    }
    out
}

/// The cleaned form of `path`: repeated separators merged, `.` dropped, `..`
/// resolved against the segments before it (clamped at the root), and the
/// result reassembled behind a single leading separator, with no trailing
/// separator except on the bare root.
pub fn clean(path: &[u8]) -> (r: Vec<u8>)
    ensures
        r@ == spec_clean(path@),
{
    let segs = split_segments(path);
    let resolved = resolve_segments(&segs);
    let mut out = join_segments(&resolved);
    if out.len() == 0 {
        out.push(SEP);
        proof {
            assert(out@ =~= root_path());
        }
    }
    out
}

} // verus!
