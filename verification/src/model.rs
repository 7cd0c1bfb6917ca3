//! The mathematical model of path canonicalization: splitting a path into
//! segments, resolving `.` and `..`, rejoining, and the trailing-separator
//! policy. Executable code elsewhere is specified against these functions.

use vstd::prelude::*;

verus! {

/// The path separator byte, `/`.
pub const SEP: u8 = 47;

/// The dot byte, `.`.
pub const DOT: u8 = 46;

/// The byte that introduces a query string, `?`.
pub const QUERY_SIGN: u8 = 63;

/// The segment consisting of a single dot.
pub open spec fn dot_seg() -> Seq<u8> {
    seq![DOT]
}

/// The segment consisting of two dots.
pub open spec fn dot_dot_seg() -> Seq<u8> {
    seq![DOT, DOT]
}

/// The root path, a single separator.
pub open spec fn root_path() -> Seq<u8> {
    seq![SEP]
}

/// Index of the first occurrence of `b` in `s`, or `s.len()` if `s` has
/// none.
pub open spec fn first_byte(s: Seq<u8>, b: u8) -> int
    decreases s.len(),
{
    if s.len() == 0 {
        0
    } else if s[0] == b {
        0
    } else {
        1 + first_byte(s.drop_first(), b)
    }
}

/// Index of the first separator of `s`, or `s.len()` if `s` has none.
pub open spec fn first_sep(s: Seq<u8>) -> int {
    first_byte(s, SEP)
}

/// The query string carried by a path-and-query: the bytes after the first
/// `?`, or nothing when there is no `?`.
pub open spec fn query_of(s: Seq<u8>) -> Option<Seq<u8>> {
    if first_byte(s, QUERY_SIGN) < s.len() {
        Some(s.skip(first_byte(s, QUERY_SIGN) + 1))
    } else {
        None
    }
}

/// The segments of `s`: the maximal substrings between separators, in order.
/// Splitting keeps empty segments, so `segments` of `"/a//"` is
/// `["", "a", "", ""]`.
pub open spec fn segments(s: Seq<u8>) -> Seq<Seq<u8>>
    decreases s.len(),
{
    let i = first_sep(s);
    if 0 <= i < s.len() {
        seq![s.take(i)] + segments(s.skip(i + 1))
    } else {
        seq![s]
    }
}

/// A segment that survives resolution: non-empty and neither `.` nor `..`.
pub open spec fn is_plain(seg: Seq<u8>) -> bool {
    seg.len() > 0 && seg != dot_seg() && seg != dot_dot_seg()
}

/// Resolution of a segment list, left to right: empty segments and `.` are
/// dropped, `..` pops the last kept segment (or nothing at the root), and
/// every other segment is kept.
pub open spec fn resolve(segs: Seq<Seq<u8>>) -> Seq<Seq<u8>>
    decreases segs.len(),
{
    if segs.len() == 0 {
        Seq::empty()
    } else {
        let prev = resolve(segs.drop_last());
        let last = segs.last();
        if last == dot_dot_seg() {
            if prev.len() == 0 {
                prev
            } else {
                prev.drop_last()
            }
        } else if is_plain(last) {
            prev.push(last)
        } else {
            prev
        }
    }
}

/// The segments joined back into a path, each preceded by one separator;
/// the empty list joins to the empty sequence.
pub open spec fn join_segs(segs: Seq<Seq<u8>>) -> Seq<u8>
    decreases segs.len(),
{
    if segs.len() == 0 {
        Seq::empty()
    } else {
        join_segs(segs.drop_last()) + seq![SEP] + segs.last()
    }
}

/// The cleaned form of `s`: segments split, resolved and rejoined, with the
/// root path standing in for an empty result. It begins with a single
/// separator and never ends with one (the root aside).
pub open spec fn spec_clean(s: Seq<u8>) -> Seq<u8> {
    let r = resolve(segments(s));
    if r.len() == 0 {
        root_path()
    } else {
        join_segs(r)
    }
}

/// Whether `s` ends with a separator.
pub open spec fn ends_with_sep(s: Seq<u8>) -> bool {
    s.len() > 0 && s.last() == SEP
}

/// Whether the dot at position `i` gives `s` an extension: the suffix after
/// it is non-empty and free of further dots and separators, so `i` is the
/// last dot and the suffix lies inside the final segment.
pub open spec fn is_ext_dot(s: Seq<u8>, i: int) -> bool {
    &&& 0 <= i
    &&& i + 1 < s.len()
    &&& s[i] == DOT
    &&& forall|j: int| i < j < s.len() ==> s[j] != DOT && s[j] != SEP
}

/// Whether the final segment of `s` has an extension: a non-empty suffix
/// after the last dot that contains no separator.
pub open spec fn spec_has_ext(s: Seq<u8>) -> bool {
    exists|i: int| is_ext_dot(s, i)
}

/// The canonical form of `s`: the cleaned path, with a trailing separator
/// appended to a non-root result when the raw path ended in one or the
/// cleaned path has no extension.
pub open spec fn spec_canonical(s: Seq<u8>) -> Seq<u8> {
    let c = spec_clean(s);
    if c == root_path() {
        c
    } else if ends_with_sep(s) || !spec_has_ext(c) {
        c.push(SEP)
    } else {
        c
    }
}

/// Whether `s` contains two adjacent separators.
pub open spec fn has_double_sep(s: Seq<u8>) -> bool {
    exists|i: int| #![trigger s[i], s[i + 1]] 0 <= i && i + 1 < s.len() && s[i] == SEP && s[i + 1]
        == SEP
}

/// Whether `s` contains a separator immediately followed by a dot.
pub open spec fn has_sep_dot(s: Seq<u8>) -> bool {
    exists|i: int| #![trigger s[i], s[i + 1]] 0 <= i && i + 1 < s.len() && s[i] == SEP && s[i + 1]
        == DOT
}

/// The cheap structural conditions under which a path is taken as already
/// canonical: no `/.`, no `//`, and exactly one of an extension on the final
/// segment or a trailing separator.
pub open spec fn spec_fast_canonical(s: Seq<u8>) -> bool {
    &&& !has_sep_dot(s)
    &&& !has_double_sep(s)
    &&& spec_has_ext(s) != ends_with_sep(s)
}

/// `path` with `query` reattached after a `?`, or `path` alone when the
/// request carried no query string.
pub open spec fn spec_with_query(path: Seq<u8>, query: Option<Seq<u8>>) -> Seq<u8> {
    match query {
        Some(q) => path + seq![QUERY_SIGN] + q,
        None => path,
    }
}

/// Bounds and defining properties of `first_byte`.
pub proof fn lemma_first_byte(s: Seq<u8>, b: u8)
    ensures
        0 <= first_byte(s, b) <= s.len(),
        forall|j: int| 0 <= j < first_byte(s, b) ==> s[j] != b,
        first_byte(s, b) < s.len() ==> s[first_byte(s, b)] == b,
    decreases s.len(),
{
    if s.len() == 0 {
    } else if s[0] == b {
    } else {
        lemma_first_byte(s.drop_first(), b);
        assert forall|j: int| 0 <= j < first_byte(s, b) implies s[j] != b by {
            if j > 0 {
                assert(s.drop_first()[j - 1] == s[j]);
            }
        }
        if first_byte(s, b) < s.len() {
            assert(s[first_byte(s, b)] == s.drop_first()[first_byte(s, b) - 1]);
        }
    }
}

/// `first_byte` is pinned down by a `b`-free prefix: if nothing before `k`
/// is `b` and position `k` is one (or the end), then `first_byte` is `k`.
pub proof fn lemma_first_byte_is(s: Seq<u8>, b: u8, k: int)
    requires
        0 <= k <= s.len(),
        forall|j: int| 0 <= j < k ==> s[j] != b,
        k < s.len() ==> s[k] == b,
    ensures
        first_byte(s, b) == k,
    decreases s.len(),
{
    if s.len() == 0 {
    } else if s[0] == b {
        assert(k == 0);
    } else {
        assert(k >= 1);
        assert forall|j: int| 0 <= j < k - 1 implies s.drop_first()[j] != b by {
            assert(s.drop_first()[j] == s[j + 1]);
        }
        if k - 1 < s.drop_first().len() {
            assert(s.drop_first()[k - 1] == s[k]);
        }
        lemma_first_byte_is(s.drop_first(), b, k - 1);
    }
}

/// Bounds and defining properties of `first_sep`.
pub proof fn lemma_first_sep(s: Seq<u8>)
    ensures
        0 <= first_sep(s) <= s.len(),
        forall|j: int| 0 <= j < first_sep(s) ==> s[j] != SEP,
        first_sep(s) < s.len() ==> s[first_sep(s)] == SEP,
{
    lemma_first_byte(s, SEP);
}

/// `first_sep` is pinned down by a separator-free prefix: if nothing before
/// `k` is a separator and `k` is one (or the end), then `first_sep` is `k`.
pub proof fn lemma_first_sep_is(s: Seq<u8>, k: int)
    requires
        0 <= k <= s.len(),
        forall|j: int| 0 <= j < k ==> s[j] != SEP,
        k < s.len() ==> s[k] == SEP,
    ensures
        first_sep(s) == k,
{
    lemma_first_byte_is(s, SEP, k);
}

/// Unfolding of `segments` at an interior separator: if `[start, i)` is
/// separator-free and `s[i]` is a separator, the segments of the suffix from
/// `start` begin with that very substring.
pub proof fn lemma_segments_step(s: Seq<u8>, start: int, i: int)
    requires
        0 <= start <= i < s.len(),
        forall|j: int| start <= j < i ==> s[j] != SEP,
        s[i] == SEP,
    ensures
        segments(s.skip(start)) == seq![s.subrange(start, i)] + segments(s.skip(i + 1)),
{
    let t = s.skip(start);
    assert forall|j: int| 0 <= j < i - start implies t[j] != SEP by {
        assert(t[j] == s[start + j]);
    }
    assert(t[i - start] == s[i]);
    lemma_first_sep_is(t, i - start);
    assert(t.take(i - start) =~= s.subrange(start, i));
    assert(t.skip(i - start + 1) =~= s.skip(i + 1));
}

/// Unfolding of `segments` at the end of the path: if everything from
/// `start` on is separator-free, that tail is the one remaining segment.
pub proof fn lemma_segments_last(s: Seq<u8>, start: int)
    requires
        0 <= start <= s.len(),
        forall|j: int| start <= j < s.len() ==> s[j] != SEP,
    ensures
        segments(s.skip(start)) == seq![s.subrange(start, s.len() as int)],
{
    let t = s.skip(start);
    assert forall|j: int| 0 <= j < t.len() implies t[j] != SEP by {
        assert(t[j] == s[start + j]);
    }
    lemma_first_sep_is(t, t.len() as int);
    assert(t =~= s.subrange(start, s.len() as int));
}

/// No segment of a path contains a separator.
pub proof fn lemma_segments_no_sep(s: Seq<u8>)
    ensures
        forall|k: int, j: int|
            0 <= k < segments(s).len() && 0 <= j < segments(s)[k].len() ==> #[trigger] segments(
                s,
            )[k][j] != SEP,
    decreases s.len(),
{
    lemma_first_sep(s);
    let i = first_sep(s);
    if 0 <= i < s.len() {
        lemma_segments_no_sep(s.skip(i + 1));
        assert forall|k: int, j: int|
            0 <= k < segments(s).len() && 0 <= j < segments(s)[k].len() implies #[trigger] segments(
            s,
        )[k][j] != SEP by {
            if k == 0 {
                assert(segments(s)[0] == s.take(i));
                assert(s.take(i)[j] == s[j]);
            } else {
                assert(segments(s)[k] == segments(s.skip(i + 1))[k - 1]);
                assert(segments(s.skip(i + 1))[k - 1][j] != SEP);
            }
        }
    } else {
        assert forall|k: int, j: int|
            0 <= k < segments(s).len() && 0 <= j < segments(s)[k].len() implies #[trigger] segments(
            s,
        )[k][j] != SEP by {
            assert(segments(s)[k] == s);
        }
    }
}

/// Every segment kept by resolution is plain and was among the inputs.
pub proof fn lemma_resolve_elems(segs: Seq<Seq<u8>>)
    ensures
        forall|k: int|
            0 <= k < resolve(segs).len() ==> is_plain(#[trigger] resolve(segs)[k]) && exists|m: int|
                0 <= m < segs.len() && segs[m] == resolve(segs)[k],
    decreases segs.len(),
{
    if segs.len() == 0 {
    } else {
        lemma_resolve_elems(segs.drop_last());
        let prev = resolve(segs.drop_last());
        assert forall|k: int|
            0 <= k < resolve(segs).len() implies is_plain(#[trigger] resolve(segs)[k]) && exists|
            m: int,
        | 0 <= m < segs.len() && segs[m] == resolve(segs)[k] by {
            if k < prev.len() && resolve(segs)[k] == prev[k] {
                let m = choose|m: int| 0 <= m < segs.drop_last().len() && segs.drop_last()[m]
                    == prev[k];
                assert(segs[m] == resolve(segs)[k]);
            } else {
                assert(resolve(segs)[k] == segs.last());
                assert(segs[segs.len() - 1] == resolve(segs)[k]);
            }
        }
    }
}

/// Shape of a joined non-empty segment list: it starts with a separator and
/// ends with the last segment's final byte (or, for an empty last segment,
/// with the separator before it).
pub proof fn lemma_join_shape(segs: Seq<Seq<u8>>)
    requires
        segs.len() > 0,
    ensures
        join_segs(segs).len() > 0,
        join_segs(segs)[0] == SEP,
        segs.last().len() > 0 ==> join_segs(segs).last() == segs.last().last(),
        segs.last().len() == 0 ==> join_segs(segs).last() == SEP,
    decreases segs.len(),
{
    if segs.drop_last().len() > 0 {
        lemma_join_shape(segs.drop_last());
        assert(join_segs(segs)[0] == join_segs(segs.drop_last())[0]);
    } else {
        assert(join_segs(segs.drop_last()) =~= Seq::<u8>::empty());
        assert(join_segs(segs)[0] == seq![SEP][0]);
    }
}

/// The parts joined with single separators between them and no leading
/// separator: the inverse reading of `segments`.
pub open spec fn rejoin(parts: Seq<Seq<u8>>) -> Seq<u8>
    decreases parts.len(),
{
    if parts.len() == 0 {
        Seq::empty()
    } else if parts.len() == 1 {
        parts[0]
    } else {
        parts[0] + seq![SEP] + rejoin(parts.drop_first())
    }
}

/// A path always has at least one segment.
pub proof fn lemma_segments_len(s: Seq<u8>)
    ensures
        segments(s).len() >= 1,
{
}

/// Appending one more part extends the rejoined path by a separator and
/// that part.
pub proof fn lemma_rejoin_push(parts: Seq<Seq<u8>>, x: Seq<u8>)
    requires
        parts.len() > 0,
    ensures
        rejoin(parts.push(x)) == rejoin(parts) + seq![SEP] + x,
    decreases parts.len(),
{
    if parts.len() == 1 {
        assert(parts.push(x).drop_first() =~= seq![x]);
        assert(rejoin(seq![x]) == x);
        assert(parts.push(x)[0] == parts[0]);
    } else {
        assert(parts.push(x).drop_first() =~= parts.drop_first().push(x));
        lemma_rejoin_push(parts.drop_first(), x);
        assert(rejoin(parts.push(x)) =~= rejoin(parts) + seq![SEP] + x);
    }
}

/// Splitting and rejoining gives the path back.
pub proof fn lemma_segments_rejoin(s: Seq<u8>)
    ensures
        rejoin(segments(s)) == s,
    decreases s.len(),
{
    lemma_first_sep(s);
    let i = first_sep(s);
    if 0 <= i < s.len() {
        lemma_segments_rejoin(s.skip(i + 1));
        lemma_segments_len(s.skip(i + 1));
        let parts = segments(s);
        assert(parts[0] == s.take(i));
        assert(parts.drop_first() =~= segments(s.skip(i + 1)));
        assert(rejoin(parts) == s.take(i) + seq![SEP] + s.skip(i + 1));
        assert(s.take(i) + seq![SEP] + s.skip(i + 1) =~= s);
    }
}

/// Joining with a leading separator: the separator, then the rejoined parts.
pub proof fn lemma_join_rejoin(parts: Seq<Seq<u8>>)
    requires
        parts.len() > 0,
    ensures
        join_segs(parts) == seq![SEP] + rejoin(parts),
    decreases parts.len(),
{
    if parts.len() == 1 {
        assert(parts.drop_last().len() == 0);
        assert(join_segs(parts.drop_last()) == Seq::<u8>::empty());
        assert(parts.last() == parts[0]);
        assert(join_segs(parts) =~= seq![SEP] + rejoin(parts));
    } else {
        lemma_join_rejoin(parts.drop_last());
        assert(parts.drop_last().push(parts.last()) =~= parts);
        lemma_rejoin_push(parts.drop_last(), parts.last());
        assert(join_segs(parts) =~= seq![SEP] + rejoin(parts));
    }
}

/// Splitting a rejoined list of separator-free parts gives the parts back.
pub proof fn lemma_segments_of_rejoin(parts: Seq<Seq<u8>>)
    requires
        parts.len() > 0,
        forall|k: int, j: int|
            0 <= k < parts.len() && 0 <= j < parts[k].len() ==> #[trigger] parts[k][j] != SEP,
    ensures
        segments(rejoin(parts)) == parts,
    decreases parts.len(),
{
    if parts.len() == 1 {
        let u = rejoin(parts);
        assert(u == parts[0]);
        assert forall|j: int| 0 <= j < u.len() implies u[j] != SEP by {
            assert(parts[0][j] != SEP);
        }
        lemma_first_sep_is(u, u.len() as int);
        assert(segments(u) =~= parts);
    } else {
        let u = rejoin(parts);
        let p0 = parts[0];
        let rest = rejoin(parts.drop_first());
        assert(u == p0 + seq![SEP] + rest);
        assert forall|j: int| 0 <= j < p0.len() implies u[j] != SEP by {
            assert(u[j] == p0[j]);
            assert(parts[0][j] != SEP);
        }
        assert(u[p0.len() as int] == SEP);
        lemma_first_sep_is(u, p0.len() as int);
        assert(u.take(p0.len() as int) =~= p0);
        assert(u.skip(p0.len() as int + 1) =~= rest);
        assert forall|k: int, j: int|
            0 <= k < parts.drop_first().len() && 0 <= j < parts.drop_first()[k].len() implies #[trigger] parts.drop_first()[k][j] != SEP by {
            assert(parts.drop_first()[k] == parts[k + 1]);
            assert(parts[k + 1][j] != SEP);
        }
        lemma_segments_of_rejoin(parts.drop_first());
        assert(segments(u) =~= parts);
    }
}

/// Resolution drops a leading empty segment and keeps a plain tail as it is.
pub proof fn lemma_resolve_plain(q: Seq<Seq<u8>>)
    requires
        forall|k: int| 0 <= k < q.len() ==> is_plain(#[trigger] q[k]),
    ensures
        resolve(seq![Seq::<u8>::empty()] + q) == q,
    decreases q.len(),
{
    let w = seq![Seq::<u8>::empty()] + q;
    if q.len() == 0 {
        assert(w =~= seq![Seq::<u8>::empty()]);
        assert(w.drop_last() =~= Seq::<Seq<u8>>::empty());
        assert(resolve(Seq::<Seq<u8>>::empty()) =~= Seq::<Seq<u8>>::empty());
        assert(resolve(w.drop_last()) =~= Seq::<Seq<u8>>::empty());
        assert(w.last().len() == 0);
        assert(!is_plain(w.last()) && w.last() != dot_dot_seg());
        assert(resolve(w) =~= q);
    } else {
        assert(w.drop_last() =~= seq![Seq::<u8>::empty()] + q.drop_last());
        assert forall|k: int| 0 <= k < q.drop_last().len() implies is_plain(
            #[trigger] q.drop_last()[k],
        ) by {
            assert(q.drop_last()[k] == q[k]);
        }
        lemma_resolve_plain(q.drop_last());
        assert(w.last() == q.last());
        assert(is_plain(q.last()));
        assert(resolve(w) =~= q);
    }
}

/// A rejoined list of non-empty, separator-free parts starts and ends with
/// a byte of a part and contains no doubled separator, with or without a
/// leading separator in front.
pub proof fn lemma_rejoin_no_double(parts: Seq<Seq<u8>>)
    requires
        parts.len() > 0,
        forall|k: int| 0 <= k < parts.len() ==> (#[trigger] parts[k]).len() > 0,
        forall|k: int, j: int|
            0 <= k < parts.len() && 0 <= j < parts[k].len() ==> #[trigger] parts[k][j] != SEP,
    ensures
        rejoin(parts).len() > 0,
        rejoin(parts)[0] != SEP,
        rejoin(parts).last() != SEP,
        !has_double_sep(rejoin(parts)),
        !has_double_sep(seq![SEP] + rejoin(parts)),
    decreases parts.len(),
{
    let u = rejoin(parts);
    if parts.len() == 1 {
        assert(u == parts[0]);
        assert(parts[0][0] != SEP);
        assert(parts[0][parts[0].len() - 1] != SEP);
        assert forall|i: int|
            #![trigger u[i], u[i + 1]]
            !(0 <= i && i + 1 < u.len() && u[i] == SEP && u[i + 1] == SEP) by {
            if 0 <= i && i + 1 < u.len() {
                assert(parts[0][i] != SEP);
            }
        }
    } else {
        let p0 = parts[0];
        let rest = rejoin(parts.drop_first());
        assert forall|k: int| 0 <= k < parts.drop_first().len() implies (#[trigger] parts.drop_first()[k]).len() > 0 by {
            assert(parts.drop_first()[k] == parts[k + 1]);
        }
        assert forall|k: int, j: int|
            0 <= k < parts.drop_first().len() && 0 <= j < parts.drop_first()[k].len() implies #[trigger] parts.drop_first()[k][j] != SEP by {
            assert(parts.drop_first()[k] == parts[k + 1]);
            assert(parts[k + 1][j] != SEP);
        }
        lemma_rejoin_no_double(parts.drop_first());
        assert(u == p0 + seq![SEP] + rest);
        assert(u[0] == p0[0]);
        assert(p0[0] != SEP);
        assert(u.last() == rest.last());
        assert forall|i: int|
            #![trigger u[i], u[i + 1]]
            !(0 <= i && i + 1 < u.len() && u[i] == SEP && u[i + 1] == SEP) by {
            if 0 <= i && i + 1 < u.len() {
                if i + 1 < p0.len() {
                    assert(u[i] == p0[i]);
                    assert(p0[i] != SEP);
                } else if i + 1 == p0.len() {
                    assert(u[i] == p0[i]);
                    assert(p0[i] != SEP);
                } else if i == p0.len() {
                    assert(u[i + 1] == rest[0]);
                } else {
                    assert(u[i] == rest[i - p0.len() - 1]);
                    assert(u[i + 1] == rest[i - p0.len()]);
                    assert(!has_double_sep(rest));
                    if u[i] == SEP && u[i + 1] == SEP {
                        assert(rest[i - p0.len() - 1] == SEP && rest[i - p0.len() - 1 + 1] == SEP);
                        assert(has_double_sep(rest));
                    }
                }
            }
        }
    }
    assert forall|i: int|
        #![trigger (seq![SEP] + u)[i], (seq![SEP] + u)[i + 1]]
        !(0 <= i && i + 1 < (seq![SEP] + u).len() && (seq![SEP] + u)[i] == SEP && (seq![SEP]
            + u)[i + 1] == SEP) by {
        let v = seq![SEP] + u;
        if 0 <= i && i + 1 < v.len() {
            if i == 0 {
                assert(v[1] == u[0]);
            } else {
                assert(v[i] == u[i - 1]);
                assert(v[i + 1] == u[i]);
                if v[i] == SEP && v[i + 1] == SEP {
                    assert(u[i - 1] == SEP && u[i - 1 + 1] == SEP);
                    assert(has_double_sep(u));
                }
            }
        }
    }
}

/// Every byte of every segment of `s` occurs in `s`.
pub proof fn lemma_segments_bytes(s: Seq<u8>)
    ensures
        forall|k: int, j: int|
            0 <= k < segments(s).len() && 0 <= j < segments(s)[k].len() ==> s.contains(
                #[trigger] segments(s)[k][j],
            ),
    decreases s.len(),
{
    lemma_first_sep(s);
    let i = first_sep(s);
    if 0 <= i < s.len() {
        lemma_segments_bytes(s.skip(i + 1));
        assert forall|k: int, j: int|
            0 <= k < segments(s).len() && 0 <= j < segments(s)[k].len() implies s.contains(
            #[trigger] segments(s)[k][j],
        ) by {
            if k == 0 {
                assert(segments(s)[0] == s.take(i));
                assert(s.take(i)[j] == s[j]);
                assert(s.contains(s[j]));
            } else {
                assert(segments(s)[k] == segments(s.skip(i + 1))[k - 1]);
                assert(s.skip(i + 1).contains(segments(s.skip(i + 1))[k - 1][j]));
                let m = choose|m: int|
                    0 <= m < s.skip(i + 1).len() && #[trigger] s.skip(i + 1)[m] == segments(
                        s.skip(i + 1),
                    )[k - 1][j];
                assert(s[i + 1 + m] == segments(s)[k][j]);
                assert(s.contains(s[i + 1 + m]));
            }
        }
    } else {
        assert forall|k: int, j: int|
            0 <= k < segments(s).len() && 0 <= j < segments(s)[k].len() implies s.contains(
            #[trigger] segments(s)[k][j],
        ) by {
            assert(segments(s)[k] == s);
            assert(s.contains(s[j]));
        }
    }
}

/// Whether some part holds the byte `x`.
pub open spec fn parts_contain(parts: Seq<Seq<u8>>, x: u8) -> bool {
    exists|k: int| 0 <= k < parts.len() && (#[trigger] parts[k]).contains(x)
}

/// Every byte of a joined segment list is a separator or a byte of a part.
pub proof fn lemma_join_bytes(parts: Seq<Seq<u8>>)
    ensures
        forall|i: int|
            0 <= i < join_segs(parts).len() ==> #[trigger] join_segs(parts)[i] == SEP
                || parts_contain(parts, join_segs(parts)[i]),
    decreases parts.len(),
{
    if parts.len() == 0 {
    } else {
        lemma_join_bytes(parts.drop_last());
        let u = join_segs(parts);
        let v = join_segs(parts.drop_last());
        assert forall|i: int| 0 <= i < u.len() implies #[trigger] u[i] == SEP || parts_contain(
            parts,
            u[i],
        ) by {
            if i < v.len() {
                assert(u[i] == v[i]);
                if v[i] != SEP {
                    let k = choose|k: int|
                        0 <= k < parts.drop_last().len() && (#[trigger] parts.drop_last()[k])
                            .contains(v[i]);
                    assert(parts[k].contains(u[i]));
                }
            } else if i == v.len() {
                assert(u[i] == SEP);
            } else {
                assert(u[i] == parts.last()[i - v.len() - 1]);
                assert(parts.last().contains(u[i]));
                assert(parts[parts.len() - 1].contains(u[i]));
            }
        }
    }
}

/// Every byte of the canonical form of `s` is a separator or a byte of `s`.
pub proof fn lemma_canonical_bytes(s: Seq<u8>)
    ensures
        forall|i: int|
            0 <= i < spec_canonical(s).len() ==> #[trigger] spec_canonical(s)[i] == SEP
                || s.contains(spec_canonical(s)[i]),
{
    let r = resolve(segments(s));
    lemma_resolve_elems(segments(s));
    lemma_segments_bytes(s);
    lemma_join_bytes(r);
    let c = spec_clean(s);
    assert forall|i: int| 0 <= i < c.len() implies #[trigger] c[i] == SEP || s.contains(c[i]) by {
        if r.len() == 0 {
        } else {
            if c[i] != SEP {
                assert(join_segs(r)[i] == c[i]);
                let k = choose|k: int| 0 <= k < r.len() && (#[trigger] r[k]).contains(c[i]);
                let m = choose|m: int| 0 <= m < segments(s).len() && segments(s)[m] == r[k];
                let j = choose|j: int| 0 <= j < r[k].len() && #[trigger] r[k][j] == c[i];
                assert(segments(s)[m][j] == c[i]);
                assert(s.contains(segments(s)[m][j]));
            }
        }
    }
    assert forall|i: int|
        0 <= i < spec_canonical(s).len() implies #[trigger] spec_canonical(s)[i] == SEP
        || s.contains(spec_canonical(s)[i]) by {
        if i < c.len() {
            assert(spec_canonical(s)[i] == c[i]);
        } else {
            assert(spec_canonical(s)[i] == SEP);
        }
    }
}

} // verus!
