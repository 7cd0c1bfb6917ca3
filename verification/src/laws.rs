//! Properties of canonicalization, stated and proved over the model.

use vstd::prelude::*;

use crate::model::DOT;
use crate::model::QUERY_SIGN;
use crate::model::SEP;
use crate::model::dot_dot_seg;
use crate::model::ends_with_sep;
use crate::model::first_sep;
use crate::model::has_double_sep;
use crate::model::has_sep_dot;
use crate::model::is_ext_dot;
use crate::model::is_plain;
use crate::model::join_segs;
use crate::model::lemma_canonical_bytes;
use crate::model::lemma_first_byte_is;
use crate::model::lemma_first_sep;
use crate::model::lemma_first_sep_is;
use crate::model::lemma_join_rejoin;
use crate::model::lemma_join_shape;
use crate::model::lemma_rejoin_no_double;
use crate::model::lemma_rejoin_push;
use crate::model::lemma_resolve_elems;
use crate::model::lemma_resolve_plain;
use crate::model::lemma_segments_len;
use crate::model::lemma_segments_no_sep;
use crate::model::lemma_segments_rejoin;
use crate::model::lemma_segments_of_rejoin;
use crate::model::query_of;
use crate::model::rejoin;
use crate::model::resolve;
use crate::model::root_path;
use crate::model::segments;
use crate::model::spec_canonical;
use crate::model::spec_clean;
use crate::model::spec_fast_canonical;
use crate::model::spec_has_ext;
use crate::model::spec_with_query;

verus! {

/// Resolving a list made of empty and `..` segments alone leaves nothing.
proof fn lemma_resolve_only_updirs(segs: Seq<Seq<u8>>)
    requires
        forall|k: int| 0 <= k < segs.len() ==> (#[trigger] segs[k]).len() == 0 || segs[k]
            == dot_dot_seg(),
    ensures
        resolve(segs) == Seq::<Seq<u8>>::empty(),
    decreases segs.len(),
{
    if segs.len() == 0 {
        assert(resolve(segs) =~= Seq::<Seq<u8>>::empty());
    } else {
        assert forall|k: int| 0 <= k < segs.drop_last().len() implies (#[trigger] segs.drop_last(
        )[k]).len() == 0 || segs.drop_last()[k] == dot_dot_seg() by {
            assert(segs.drop_last()[k] == segs[k]);
        }
        lemma_resolve_only_updirs(segs.drop_last());
        assert(segs.last().len() == 0 || segs.last() == dot_dot_seg());
        assert(resolve(segs) =~= Seq::<Seq<u8>>::empty());
    }
}

/// Shape of a cleaned path: it is never empty, begins with a separator, and
/// ends with one only when it is the bare root.
pub proof fn lemma_clean_shape(s: Seq<u8>)
    ensures
        spec_clean(s).len() > 0,
        spec_clean(s)[0] == SEP,
        spec_clean(s) != root_path() ==> !ends_with_sep(spec_clean(s)),
        spec_clean(s) == root_path() <==> resolve(segments(s)).len() == 0,
{
    let r = resolve(segments(s));
    if r.len() == 0 {
    } else {
        lemma_resolve_elems(segments(s));
        lemma_segments_no_sep(s);
        lemma_join_shape(r);
        assert(is_plain(r.last()));
        let m = choose|m: int| 0 <= m < segments(s).len() && segments(s)[m] == r.last();
        let last = r.last();
        assert(last[last.len() - 1] == segments(s)[m][last.len() - 1]);
        assert(last.last() != SEP);
        assert(join_segs(r).last() != SEP);
        assert(join_segs(r) != root_path());
    }
}

/// No-underflow: a path made of separators and `..` segments alone
/// canonicalizes to the bare root.
pub proof fn lemma_no_underflow(s: Seq<u8>)
    requires
        forall|k: int| 0 <= k < segments(s).len() ==> (#[trigger] segments(s)[k]).len() == 0
            || segments(s)[k] == dot_dot_seg(),
    ensures
        spec_canonical(s) == root_path(),
{
    lemma_resolve_only_updirs(segments(s));
}

/// Extension policy: a non-root canonical path ends without a separator
/// exactly when the cleaned path's final segment has an extension and the
/// raw path did not end in a separator; every other non-root canonical path
/// ends in one. The bare root is its own single separator.
pub proof fn lemma_extension_policy(s: Seq<u8>)
    ensures
        spec_clean(s) != root_path() && !ends_with_sep(s) && spec_has_ext(spec_clean(s))
            ==> !ends_with_sep(spec_canonical(s)),
        spec_clean(s) != root_path() && (ends_with_sep(s) || !spec_has_ext(spec_clean(s)))
            ==> ends_with_sep(spec_canonical(s)),
        spec_clean(s) == root_path() ==> spec_canonical(s) == root_path(),
{
    lemma_clean_shape(s);
    let c = spec_clean(s);
    if c != root_path() && (ends_with_sep(s) || !spec_has_ext(c)) {
        assert(spec_canonical(s) == c.push(SEP));
        assert(spec_canonical(s).last() == SEP);
    }
}

/// The canonical form of the bare root is the bare root.
pub proof fn lemma_canonical_root()
    ensures
        spec_canonical(root_path()) == root_path(),
{
    let s = root_path();
    assert(s[0] == SEP);
    lemma_first_sep_is(s, 0);
    assert(s.skip(1) =~= Seq::<u8>::empty());
    lemma_first_sep_is(Seq::<u8>::empty(), 0);
    assert(segments(Seq::<u8>::empty()) == seq![Seq::<u8>::empty()]);
    assert(segments(s) =~~= seq![Seq::<u8>::empty(), Seq::<u8>::empty()]);
    assert forall|k: int| 0 <= k < segments(s).len() implies (#[trigger] segments(s)[k]).len() == 0
        || segments(s)[k] == dot_dot_seg() by {
        assert(segments(s)[k].len() == 0);
    }
    lemma_resolve_only_updirs(segments(s));
}

/// Idempotence: the canonical form of a canonical form is itself, so
/// canonicalizing twice yields what canonicalizing once does, and an
/// already-canonical path comes back unchanged.
pub proof fn lemma_idempotent(s: Seq<u8>)
    ensures
        spec_canonical(spec_canonical(s)) == spec_canonical(s),
{
    let r = resolve(segments(s));
    let c = spec_clean(s);
    lemma_clean_shape(s);
    if r.len() == 0 {
        lemma_canonical_root();
    } else {
        lemma_resolve_elems(segments(s));
        lemma_segments_no_sep(s);
        assert forall|k: int, j: int|
            0 <= k < r.len() && 0 <= j < r[k].len() implies #[trigger] r[k][j] != SEP by {
            let m = choose|m: int| 0 <= m < segments(s).len() && segments(s)[m] == r[k];
            assert(segments(s)[m][j] != SEP);
        }
        lemma_join_rejoin(r);
        assert(c == seq![SEP] + rejoin(r));
        assert(c[0] == SEP);
        let d = spec_canonical(s);
        if ends_with_sep(s) || !spec_has_ext(c) {
            let q = r.push(Seq::<u8>::empty());
            lemma_rejoin_push(r, Seq::<u8>::empty());
            assert(d == c.push(SEP));
            assert(d =~= seq![SEP] + rejoin(q));
            assert forall|k: int, j: int|
                0 <= k < q.len() && 0 <= j < q[k].len() implies #[trigger] q[k][j] != SEP by {
                assert(q[k] == r[k]);
                assert(r[k][j] != SEP);
            }
            lemma_segments_of_rejoin(q);
            assert(d[0] == SEP);
            lemma_first_sep_is(d, 0);
            assert(d.take(0) =~= Seq::<u8>::empty());
            assert(d.skip(1) =~= rejoin(q));
            assert(segments(d) == seq![d.take(0)] + segments(d.skip(1)));
            assert(segments(d) =~~= seq![Seq::<u8>::empty()] + q);
            let w = seq![Seq::<u8>::empty()] + q;
            assert(w.drop_last() =~~= seq![Seq::<u8>::empty()] + r);
            assert forall|k: int| 0 <= k < r.len() implies is_plain(#[trigger] r[k]) by {}
            lemma_resolve_plain(r);
            assert(w.last().len() == 0);
            assert(!is_plain(w.last()) && w.last() != dot_dot_seg());
            assert(resolve(w) == resolve(w.drop_last()));
            assert(resolve(segments(d)) == r);
            assert(spec_clean(d) == join_segs(r));
            assert(spec_clean(d) == c);
            assert(ends_with_sep(d));
            assert(spec_clean(d) != root_path());
            assert(spec_canonical(d) == c.push(SEP));
        } else {
            assert(d == c);
            assert forall|k: int| 0 <= k < r.len() implies is_plain(#[trigger] r[k]) by {}
            lemma_segments_of_rejoin(r);
            lemma_first_sep_is(c, 0);
            assert(c.take(0) =~= Seq::<u8>::empty());
            assert(c.skip(1) =~= rejoin(r));
            assert(segments(c) == seq![c.take(0)] + segments(c.skip(1)));
            assert(segments(c) =~~= seq![Seq::<u8>::empty()] + r);
            lemma_resolve_plain(r);
            assert(resolve(segments(c)) == r);
            assert(spec_clean(c) == join_segs(r));
            assert(spec_clean(c) == c);
            assert(spec_clean(c) != root_path());
            assert(!ends_with_sep(c));
            assert(spec_has_ext(spec_clean(c)));
            assert(spec_canonical(c) == c);
        }
    }
}

/// Shape of the segments of what follows the leading separator of a path
/// free of `//` and `/.`: every segment before the last is plain, and the
/// last is plain as well unless the path ends in a separator, in which case
/// it is empty.
proof fn lemma_segments_tail_shape(t: Seq<u8>)
    requires
        t.len() > 0,
        t[0] != SEP,
        t[0] != DOT,
        !has_double_sep(t),
        !has_sep_dot(t),
    ensures
        forall|k: int| 0 <= k < segments(t).len() - 1 ==> is_plain(#[trigger] segments(t)[k]),
        ends_with_sep(t) ==> segments(t).last().len() == 0,
        !ends_with_sep(t) ==> is_plain(segments(t).last()),
    decreases t.len(),
{
    lemma_first_sep(t);
    let i = first_sep(t);
    assert(i >= 1);
    let head = t.take(i);
    assert(head[0] == t[0]);
    if i == t.len() {
        assert(head =~= t);
        assert(is_plain(t));
        assert(t[t.len() - 1] != SEP);
        assert(!ends_with_sep(t));
        assert(segments(t) == seq![t]);
    } else {
        let tail = t.skip(i + 1);
        assert(t[i] == SEP);
        assert(is_plain(head));
        assert(segments(t) == seq![head] + segments(tail));
        if tail.len() == 0 {
            assert(tail =~= Seq::<u8>::empty());
            lemma_first_sep_is(Seq::<u8>::empty(), 0);
            assert(segments(tail) == seq![tail]);
            assert(segments(t).len() == 2);
            assert(segments(t).last() == tail);
            assert(t.last() == t[i]);
            assert(ends_with_sep(t));
            assert forall|k: int|
                0 <= k < segments(t).len() - 1 implies is_plain(#[trigger] segments(t)[k]) by {
                assert(segments(t)[0] == head);
            }
        } else {
            assert(tail[0] == t[i + 1]);
            assert(tail[0] != SEP) by {
                if tail[0] == SEP {
                    assert(t[i] == SEP && t[i + 1] == SEP);
                    assert(has_double_sep(t));
                }
            }
            assert(tail[0] != DOT) by {
                if tail[0] == DOT {
                    assert(t[i] == SEP && t[i + 1] == DOT);
                    assert(has_sep_dot(t));
                }
            }
            assert(!has_double_sep(tail)) by {
                if has_double_sep(tail) {
                    let j = choose|j: int|
                        #![trigger tail[j], tail[j + 1]]
                        0 <= j && j + 1 < tail.len() && tail[j] == SEP && tail[j + 1] == SEP;
                    assert(t[i + 1 + j] == SEP && t[i + 1 + j + 1] == SEP);
                    assert(has_double_sep(t));
                }
            }
            assert(!has_sep_dot(tail)) by {
                if has_sep_dot(tail) {
                    let j = choose|j: int|
                        #![trigger tail[j], tail[j + 1]]
                        0 <= j && j + 1 < tail.len() && tail[j] == SEP && tail[j + 1] == DOT;
                    assert(t[i + 1 + j] == SEP && t[i + 1 + j + 1] == DOT);
                    assert(has_sep_dot(t));
                }
            }
            lemma_segments_tail_shape(tail);
            lemma_segments_len(tail);
            assert(segments(t).last() == segments(tail).last());
            assert(t.last() == tail.last());
            assert(ends_with_sep(t) == ends_with_sep(tail));
            assert forall|k: int|
                0 <= k < segments(t).len() - 1 implies is_plain(#[trigger] segments(t)[k]) by {
                if k == 0 {
                    assert(segments(t)[0] == head);
                } else {
                    assert(segments(t)[k] == segments(tail)[k - 1]);
                    assert(is_plain(segments(tail)[k - 1]));
                }
            }
        }
    }
}

/// Soundness of the fast-path detector: a path with a leading separator
/// that passes the cheap structural check is its own canonical form, so the
/// full canonicalizer may be skipped for it.
pub proof fn lemma_fast_path_sound(s: Seq<u8>)
    requires
        s.len() > 0,
        s[0] == SEP,
        spec_fast_canonical(s),
    ensures
        spec_canonical(s) == s,
{
    lemma_first_sep_is(s, 0);
    let t = s.skip(1);
    assert(segments(s) == seq![s.take(0)] + segments(t));
    assert(s.take(0) =~= Seq::<u8>::empty());
    if t.len() == 0 {
        assert(s =~= root_path());
        lemma_canonical_root();
    } else {
        assert(t[0] == s[1]);
        assert(t[0] != SEP) by {
            if t[0] == SEP {
                assert(s[0int] == SEP && s[0int + 1] == SEP);
                assert(has_double_sep(s));
            }
        }
        assert(t[0] != DOT) by {
            if t[0] == DOT {
                assert(s[0int] == SEP && s[0int + 1] == DOT);
                assert(has_sep_dot(s));
            }
        }
        assert(!has_double_sep(t)) by {
            if has_double_sep(t) {
                let j = choose|j: int|
                    #![trigger t[j], t[j + 1]]
                    0 <= j && j + 1 < t.len() && t[j] == SEP && t[j + 1] == SEP;
                assert(s[1 + j] == SEP && s[1 + j + 1] == SEP);
                assert(has_double_sep(s));
            }
        }
        assert(!has_sep_dot(t)) by {
            if has_sep_dot(t) {
                let j = choose|j: int|
                    #![trigger t[j], t[j + 1]]
                    0 <= j && j + 1 < t.len() && t[j] == SEP && t[j + 1] == DOT;
                assert(s[1 + j] == SEP && s[1 + j + 1] == DOT);
                assert(has_sep_dot(s));
            }
        }
        lemma_segments_tail_shape(t);
        let q = segments(t);
        lemma_segments_len(t);
        lemma_segments_rejoin(s);
        let parts = seq![Seq::<u8>::empty()] + q;
        assert(segments(s) =~~= parts);
        assert(parts.len() >= 2);
        assert(parts.drop_first() =~= q);
        assert(rejoin(parts) == parts[0] + seq![SEP] + rejoin(q));
        assert(s == parts[0] + seq![SEP] + rejoin(q));
        assert(s =~= seq![SEP] + rejoin(q));
        assert(t.last() == s.last());
        assert(ends_with_sep(t) == ends_with_sep(s));
        lemma_clean_shape(s);
        if !ends_with_sep(s) {
            assert forall|k: int| 0 <= k < q.len() implies is_plain(#[trigger] q[k]) by {
                if k == q.len() - 1 {
                    assert(is_plain(q.last()));
                }
            }
            lemma_resolve_plain(q);
            assert(resolve(segments(s)) == q);
            assert(spec_clean(s) == join_segs(q));
            lemma_join_rejoin(q);
            assert(spec_clean(s) =~= s);
            assert(spec_clean(s) != root_path());
            assert(spec_has_ext(s));
            assert(spec_canonical(s) == spec_clean(s));
        } else {
            assert(q.last().len() == 0);
            assert(q.len() >= 2) by {
                if q.len() == 1 {
                    assert(rejoin(q) == q[0]);
                    assert(q[0] == q.last());
                    assert(s.len() == 1 + rejoin(q).len());
                    assert(t.len() == 0);
                }
            }
            let qd = q.drop_last();
            assert forall|k: int| 0 <= k < qd.len() implies is_plain(#[trigger] qd[k]) by {
                assert(qd[k] == q[k]);
                assert(is_plain(segments(t)[k]));
            }
            lemma_resolve_plain(qd);
            let w = seq![Seq::<u8>::empty()] + q;
            assert(w.drop_last() =~~= seq![Seq::<u8>::empty()] + qd);
            assert(w.last() == q.last());
            assert(!is_plain(w.last()) && w.last() != dot_dot_seg());
            assert(resolve(w) == resolve(w.drop_last()));
            assert(resolve(segments(s)) == qd);
            assert(spec_clean(s) == join_segs(qd));
            lemma_join_rejoin(qd);
            assert(q =~~= qd.push(q.last()));
            lemma_rejoin_push(qd, q.last());
            assert(rejoin(q) == rejoin(qd) + seq![SEP] + q.last());
            assert(s =~= spec_clean(s).push(SEP));
            assert(spec_clean(s) != root_path());
            assert(spec_canonical(s) == spec_clean(s).push(SEP));
        }
    }
}

/// Completeness of the fast-path detector on paths free of `/.`: whenever
/// the full canonicalizer returns such a path unchanged, the cheap check
/// accepts it. A canonical path holding a segment that begins with a dot,
/// such as `/.hidden`, contains `/.` and is the one canonical shape the
/// cheap check rejects; no `/.`-free one exists.
pub proof fn lemma_fast_path_complete(s: Seq<u8>)
    requires
        !has_sep_dot(s),
        spec_canonical(s) == s,
    ensures
        spec_fast_canonical(s),
{
    lemma_clean_shape(s);
    let r = resolve(segments(s));
    let c = spec_clean(s);
    if r.len() == 0 {
        assert(s == root_path());
        assert(s.last() == SEP);
        assert(ends_with_sep(s));
        assert(!spec_has_ext(s)) by {
            assert forall|i: int| !is_ext_dot(s, i) by {}
        }
        assert(!has_double_sep(s));
    } else {
        lemma_resolve_elems(segments(s));
        lemma_segments_no_sep(s);
        assert forall|k: int, j: int|
            0 <= k < r.len() && 0 <= j < r[k].len() implies #[trigger] r[k][j] != SEP by {
            let m = choose|m: int| 0 <= m < segments(s).len() && segments(s)[m] == r[k];
            assert(segments(s)[m][j] != SEP);
        }
        assert forall|k: int| 0 <= k < r.len() implies (#[trigger] r[k]).len() > 0 by {
            assert(is_plain(r[k]));
        }
        lemma_rejoin_no_double(r);
        lemma_join_rejoin(r);
        assert(c == seq![SEP] + rejoin(r));
        assert(!has_double_sep(c));
        assert(c.last() == rejoin(r).last());
        assert(c.last() != SEP);
        if ends_with_sep(s) || !spec_has_ext(c) {
            assert(s == c.push(SEP));
            assert(s.last() == SEP);
            assert(ends_with_sep(s));
            assert(!spec_has_ext(s)) by {
                assert forall|i: int| !is_ext_dot(s, i) by {
                    if is_ext_dot(s, i) {
                        assert(s[s.len() - 1] != SEP);
                    }
                }
            }
            assert(!has_double_sep(s)) by {
                assert forall|i: int|
                    #![trigger s[i], s[i + 1]]
                    !(0 <= i && i + 1 < s.len() && s[i] == SEP && s[i + 1] == SEP) by {
                    if 0 <= i && i + 1 < s.len() {
                        if i + 1 < c.len() {
                            assert(s[i] == c[i]);
                            assert(s[i + 1] == c[i + 1]);
                            if s[i] == SEP && s[i + 1] == SEP {
                                assert(has_double_sep(c));
                            }
                        } else {
                            assert(s[i] == c[i]);
                            assert(c[i] == c.last());
                        }
                    }
                }
            }
        } else {
            assert(s == c);
            assert(!ends_with_sep(s));
            assert(spec_has_ext(s));
        }
    }
}

/// Query preservation: for a raw path that holds no `?`, the redirect
/// target built from its canonical form carries exactly the original query
/// string, and none when the request had none.
pub proof fn lemma_query_preserved(s: Seq<u8>, q: Option<Seq<u8>>)
    requires
        !s.contains(QUERY_SIGN),
    ensures
        query_of(spec_with_query(spec_canonical(s), q)) == q,
{
    let c = spec_canonical(s);
    lemma_canonical_bytes(s);
    assert forall|i: int| 0 <= i < c.len() implies c[i] != QUERY_SIGN by {
        if c[i] == QUERY_SIGN {
            assert(c[i] == SEP || s.contains(c[i]));
        }
    }
    match q {
        None => {
            lemma_first_byte_is(c, QUERY_SIGN, c.len() as int);
        },
        Some(qq) => {
            let u = c + seq![QUERY_SIGN] + qq;
            assert(spec_with_query(c, q) == u);
            assert forall|j: int| 0 <= j < c.len() implies u[j] != QUERY_SIGN by {
                assert(u[j] == c[j]);
            }
            assert(u[c.len() as int] == QUERY_SIGN);
            lemma_first_byte_is(u, QUERY_SIGN, c.len() as int);
            assert(u.skip(c.len() as int + 1) =~= qq);
        },
    }
}

} // verus!
