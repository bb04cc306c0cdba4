//! Unix path algebra on raw bytes.
//!
//! A path is any sequence of bytes. It is read as a list of components, separated by `/`: empty
//! segments and `.` segments are passed over, except for a leading `/` (the root) and a leading
//! `.` segment, which count as components of their own.
use vstd::prelude::*;
use vstd::slice::{slice_subrange, slice_to_vec};

verus! {

/// The byte that separates the components of a path (`/`).
pub const SEPARATOR: u8 = 47;

/// The byte that begins an extension (`.`).
pub const DOT: u8 = 46;

// ---------------------------------------------------------------------------------------------
// Model
// ---------------------------------------------------------------------------------------------

/// Whether a path starts at the root.
pub open spec fn is_absolute(p: Seq<u8>) -> bool {
    p.len() > 0 && p[0] == SEPARATOR
}

/// Whether the first segment of a path is `.`.
pub open spec fn leads_with_dot(p: Seq<u8>) -> bool {
    p.len() > 0 && p[0] == DOT && (p.len() == 1 || p[1] == SEPARATOR)
}

/// Where the segment that begins at `from` ends: at the next separator, or at the end.
pub open spec fn segment_end(p: Seq<u8>, from: int) -> int
    decreases p.len() - from,
{
    if from < p.len() && p[from] != SEPARATOR {
        segment_end(p, from + 1)
    } else {
        from
    }
}

/// Whether the bytes from `start` to `end` are a segment that is passed over: empty, or `.`.
pub open spec fn is_void(p: Seq<u8>, start: int, end: int) -> bool {
    end <= start || (end == start + 1 && p[start] == DOT)
}

/// How many bytes of a path stand at `from` and after it.
pub open spec fn bytes_left(p: Seq<u8>, from: int) -> int {
    if from < p.len() {
        p.len() - from
    } else {
        0
    }
}

/// Where the components of a path lie (first byte, byte past the last), from the byte `from` on,
/// the root and a leading `.` left out.
pub open spec fn spans_from(p: Seq<u8>, from: int) -> Seq<(int, int)>
    decreases bytes_left(p, from),
{
    if from < p.len() {
        let end = segment_end(p, from);
        if end < from {
            seq![]
        } else if is_void(p, from, end) {
            spans_from(p, end + 1)
        } else {
            seq![(from, end)] + spans_from(p, end + 1)
        }
    } else {
        seq![]
    }
}

/// Where the root or the leading `.` of a path lies.
pub open spec fn head_span(p: Seq<u8>) -> Seq<(int, int)> {
    if is_absolute(p) || leads_with_dot(p) {
        seq![(0int, 1int)]
    } else {
        seq![]
    }
}

/// Where all the components of a path lie.
pub open spec fn spans(p: Seq<u8>) -> Seq<(int, int)> {
    head_span(p) + spans_from(p, 0)
}

/// The pieces of a path that the given spans cut out.
pub open spec fn pieces(p: Seq<u8>, s: Seq<(int, int)>) -> Seq<Seq<u8>> {
    Seq::new(s.len(), |k: int| p.subrange(s[k].0, s[k].1))
}

/// The components of a path.
pub open spec fn components(p: Seq<u8>) -> Seq<Seq<u8>> {
    pieces(p, spans(p))
}

/// The components of a path, the root and a leading `.` left out.
pub open spec fn inner_components(p: Seq<u8>) -> Seq<Seq<u8>> {
    pieces(p, spans_from(p, 0))
}

/// Whether a component is a name: not the root, not `.` and not `..`.
pub open spec fn is_name(c: Seq<u8>) -> bool {
    c != seq![SEPARATOR] && c != seq![DOT] && c != seq![DOT, DOT]
}

/// The last component of a path, where that is a name.
pub open spec fn file_name(p: Seq<u8>) -> Option<Seq<u8>> {
    let c = components(p);
    if c.len() > 0 && is_name(c.last()) {
        Some(c.last())
    } else {
        None
    }
}

/// The position of the last dot in a name, or -1.
pub open spec fn last_dot(name: Seq<u8>) -> int
    decreases name.len(),
{
    if name.len() == 0 {
        -1
    } else if name.last() == DOT {
        name.len() - 1
    } else {
        last_dot(name.drop_last())
    }
}

/// What follows the last dot of the file name, unless that dot is its first byte.
pub open spec fn extension(p: Seq<u8>) -> Option<Seq<u8>> {
    match file_name(p) {
        Some(name) => if last_dot(name) > 0 {
            Some(name.skip(last_dot(name) + 1))
        } else {
            None
        },
        None => None,
    }
}

/// `p` seen from the directory `base`: an absolute `p` stands as it is.
pub open spec fn join(base: Seq<u8>, p: Seq<u8>) -> Seq<u8> {
    if is_absolute(p) {
        p
    } else if base.len() == 0 || base.last() == SEPARATOR {
        base + p
    } else {
        base.push(SEPARATOR) + p
    }
}

/// Whether the components of `base` are the first components of `p`.
pub open spec fn starts_with(p: Seq<u8>, base: Seq<u8>) -> bool {
    components(base).is_prefix_of(components(p))
}

/// The part of a path from its component number `k` to its last component.
pub open spec fn tail_from(p: Seq<u8>, k: int) -> Seq<u8> {
    let s = spans(p);
    if 0 <= k < s.len() {
        p.subrange(s[k].0, s.last().1)
    } else {
        seq![]
    }
}

/// What is left of `p` when the components of `base` are taken off its front.
pub open spec fn strip_prefix(p: Seq<u8>, base: Seq<u8>) -> Option<Seq<u8>> {
    if starts_with(p, base) {
        Some(tail_from(p, components(base).len() as int))
    } else {
        None
    }
}

/// A path without its last component.
pub open spec fn without_last(p: Seq<u8>) -> Seq<u8> {
    let s = spans(p);
    if s.len() >= 2 {
        p.take(s[s.len() - 2].1)
    } else {
        seq![]
    }
}

/// A path whose file name is replaced, or, where it has none, followed by `name`.
pub open spec fn with_file_name(p: Seq<u8>, name: Seq<u8>) -> Seq<u8> {
    join(
        if file_name(p) is Some {
            without_last(p)
        } else {
            p
        },
        name,
    )
}

// ---------------------------------------------------------------------------------------------
// Facts about spans
// ---------------------------------------------------------------------------------------------

proof fn lemma_segment_end(p: Seq<u8>, from: int)
    requires
        0 <= from <= p.len(),
    ensures
        from <= segment_end(p, from) <= p.len(),
        segment_end(p, from) == p.len() || p[segment_end(p, from)] == SEPARATOR,
        forall|k: int| from <= k < segment_end(p, from) ==> p[k] != SEPARATOR,
    decreases p.len() - from,
{
    if from < p.len() && p[from] != SEPARATOR {
        lemma_segment_end(p, from + 1);
    }
}

/// A segment ends at the first separator, whichever way that was found.
proof fn lemma_segment_end_is(p: Seq<u8>, from: int, end: int)
    requires
        0 <= from <= end <= p.len(),
        end == p.len() || p[end] == SEPARATOR,
        forall|k: int| from <= k < end ==> p[k] != SEPARATOR,
    ensures
        segment_end(p, from) == end,
    decreases end - from,
{
    if from < end {
        lemma_segment_end_is(p, from + 1, end);
    }
}

/// Spans are not empty, lie in the path, do not touch and come in order.
pub open spec fn ordered(s: Seq<(int, int)>, from: int, len: int) -> bool {
    &&& forall|k: int| #![trigger s[k]] 0 <= k < s.len() ==> from <= s[k].0 < s[k].1 <= len
    &&& forall|k: int, l: int| #![trigger s[k], s[l]] 0 <= k < l < s.len() ==> s[k].1 <= s[l].0
}

proof fn lemma_spans_from_ordered(p: Seq<u8>, from: int)
    requires
        0 <= from,
    ensures
        ordered(spans_from(p, from), from, p.len() as int),
    decreases bytes_left(p, from),
{
    if from < p.len() {
        lemma_segment_end(p, from);
        lemma_spans_from_ordered(p, segment_end(p, from) + 1);
    }
}

proof fn lemma_spans_ordered(p: Seq<u8>)
    ensures
        ordered(spans(p), 0, p.len() as int),
        head_span(p).len() == 1 ==> ordered(spans_from(p, 0), 1, p.len() as int),
{
    lemma_spans_from_ordered(p, 0);
    if head_span(p).len() == 1 {
        if is_absolute(p) {
            lemma_segment_end_is(p, 0, 0);
        } else {
            lemma_segment_end_is(p, 0, 1);
        }
        lemma_spans_from_ordered(p, segment_end(p, 0) + 1);
    }
}

// ---------------------------------------------------------------------------------------------
// Code
// ---------------------------------------------------------------------------------------------

/// Spans as the code holds them, seen as pairs of integers.
pub open spec fn span_ints(s: Seq<(usize, usize)>) -> Seq<(int, int)> {
    s.map_values(|t: (usize, usize)| (t.0 as int, t.1 as int))
}

/// Whether two byte strings are the same.
pub fn same_bytes(a: &[u8], b: &[u8]) -> (r: bool)
    ensures
        r == (a@ == b@),
{
    if a.len() != b.len() {
        return false;
    }
    let mut i: usize = 0;
    while i < a.len()
        invariant
            a.len() == b.len(),
            i <= a.len(),
            forall|k: int| 0 <= k < i ==> a@[k] == b@[k],
        decreases a.len() - i,
    {
        if a[i] != b[i] {
            return false;
        }
        i += 1;
    }
    assert(a@ =~= b@);
    true
}

/// Finds the components of a path.
fn find_spans(p: &[u8]) -> (out: Vec<(usize, usize)>)
    ensures
        span_ints(out@) == spans(p@),
{
    let mut out: Vec<(usize, usize)> = Vec::new();
    let n: usize = p.len();
    if n > 0 && (p[0] == SEPARATOR || (p[0] == DOT && (n == 1 || p[1] == SEPARATOR))) {
        out.push((0, 1));
    }
    assert(span_ints(out@) =~= head_span(p@));
    let mut from: usize = 0;
    while from < n
        invariant
            n == p@.len(),
            from <= n,
            spans(p@) == span_ints(out@) + spans_from(p@, from as int),
        decreases n - from,
    {
        let mut end: usize = from;
        while end < n && p[end] != SEPARATOR
            invariant
                n == p@.len(),
                from <= end <= n,
                forall|k: int| from <= k < end ==> p@[k] != SEPARATOR,
            decreases n - end,
        {
            end += 1;
        }
        let ghost before = out@;
        proof {
            lemma_segment_end_is(p@, from as int, end as int);
        }
        if !(end == from || (end == from + 1 && p[from] == DOT)) {
            out.push((from, end));
            assert(span_ints(out@) =~= span_ints(before).push((from as int, end as int)));
        }
        assert(spans(p@) =~= span_ints(out@) + spans_from(p@, end + 1));
        if end == n {
            assert(spans_from(p@, end + 1) =~= spans_from(p@, end as int));
            from = n;
        } else {
            from = end + 1;
        }
    }
    assert(spans(p@) =~= span_ints(out@));
    out
}

/// Whether a path starts at the root.
pub fn has_root(p: &[u8]) -> (r: bool)
    ensures
        r == is_absolute(p@),
{
    p.len() > 0 && p[0] == SEPARATOR
}

/// Appends one byte string to another.
fn push_bytes(to: &mut Vec<u8>, from: &[u8])
    ensures
        final(to)@ == old(to)@ + from@,
{
    let ghost start = to@;
    let mut i: usize = 0;
    assert(to@ =~= start + from@.take(0));
    while i < from.len()
        invariant
            i <= from@.len(),
            to@ == start + from@.take(i as int),
        decreases from@.len() - i,
    {
        to.push(from[i]);
        assert(to@ =~= start + from@.take(i + 1));
        i += 1;
    }
    assert(from@.take(i as int) =~= from@);
}

/// `p` seen from the directory `base`.
pub fn joined(base: &[u8], p: &[u8]) -> (r: Vec<u8>)
    ensures
        r@ == join(base@, p@),
{
    if has_root(p) {
        return slice_to_vec(p);
    }
    let mut r: Vec<u8> = slice_to_vec(base);
    if base.len() > 0 && base[base.len() - 1] != SEPARATOR {
        r.push(SEPARATOR);
    }
    push_bytes(&mut r, p);
    r
}

/// How many components `p` and `base` have in common at their fronts, where `base` has no
/// further ones.
fn common_components(p: &[u8], p_spans: &Vec<(usize, usize)>, base: &[u8]) -> (r: Option<usize>)
    requires
        span_ints(p_spans@) == spans(p@),
    ensures
        starts_with(p@, base@) ==> (r matches Some(k) && k == components(base@).len()),
        !starts_with(p@, base@) ==> r is None,
{
    let base_spans: Vec<(usize, usize)> = find_spans(base);
    let ghost ps = span_ints(p_spans@);
    let ghost bs = span_ints(base_spans@);
    proof {
        lemma_spans_ordered(p@);
        lemma_spans_ordered(base@);
    }
    if base_spans.len() > p_spans.len() {
        return None;
    }
    let mut k: usize = 0;
    while k < base_spans.len()
        invariant
            k <= base_spans@.len() <= p_spans@.len(),
            ps == span_ints(p_spans@),
            bs == span_ints(base_spans@),
            ps == spans(p@),
            bs == spans(base@),
            ordered(ps, 0, p@.len() as int),
            ordered(bs, 0, base@.len() as int),
            forall|i: int| 0 <= i < k ==> components(base@)[i] == components(p@)[i],
        decreases base_spans@.len() - k,
    {
        let s: (usize, usize) = p_spans[k];
        let t: (usize, usize) = base_spans[k];
        assert(ps[k as int] == (s.0 as int, s.1 as int));
        assert(bs[k as int] == (t.0 as int, t.1 as int));
        if !same_bytes(slice_subrange(base, t.0, t.1), slice_subrange(p, s.0, s.1)) {
            assert(components(base@)[k as int] != components(p@)[k as int]);
            return None;
        }
        assert(components(base@)[k as int] == components(p@)[k as int]);
        k += 1;
    }
    assert(components(base@) =~= components(p@).take(k as int));
    Some(k)
}

/// What is left of `p` when the components of `base` are taken off its front.
pub fn stripped(p: &[u8], base: &[u8]) -> (r: Option<Vec<u8>>)
    ensures
        match strip_prefix(p@, base@) {
            Some(rest) => r matches Some(v) && v@ == rest,
            None => r is None,
        },
{
    let p_spans: Vec<(usize, usize)> = find_spans(p);
    let ghost ps = span_ints(p_spans@);
    proof {
        lemma_spans_ordered(p@);
    }
    match common_components(p, &p_spans, base) {
        None => None,
        Some(k) => {
            if k < p_spans.len() {
                let first: (usize, usize) = p_spans[k];
                let last: (usize, usize) = p_spans[p_spans.len() - 1];
                assert(ps[k as int] == (first.0 as int, first.1 as int));
                assert(ps.last() == (last.0 as int, last.1 as int));
                Some(slice_to_vec(slice_subrange(p, first.0, last.1)))
            } else {
                let nothing: Vec<u8> = Vec::new();
                assert(nothing@ =~= tail_from(p@, k as int));
                Some(nothing)
            }
        },
    }
}

/// Whether two paths have the same components.
pub fn same_path(a: &[u8], b: &[u8]) -> (r: bool)
    ensures
        r == (components(a@) == components(b@)),
{
    let a_spans: Vec<(usize, usize)> = find_spans(a);
    assert(components(a@).len() == a_spans@.len());
    match common_components(a, &a_spans, b) {
        None => {
            assert(components(b@) == components(a@) ==> starts_with(a@, b@));
            false
        },
        Some(k) => {
            if k == a_spans.len() {
                assert(components(a@) =~= components(b@));
                true
            } else {
                false
            }
        },
    }
}

/// Whether a component is a name.
fn is_name_bytes(c: &[u8]) -> (r: bool)
    ensures
        r == is_name(c@),
{
    let r: bool = !((c.len() == 1 && (c[0] == SEPARATOR || c[0] == DOT)) || (c.len() == 2 && c[0]
        == DOT && c[1] == DOT));
    proof {
        if c@.len() == 1 {
            assert(c@ =~= seq![c@[0]]);
        }
        if c@.len() == 2 {
            assert(c@ =~= seq![c@[0], c@[1]]);
        }
        assert(seq![SEPARATOR][0] == SEPARATOR && seq![DOT][0] == DOT);
        assert(seq![DOT, DOT].len() == 2 && seq![DOT, DOT][0] == DOT && seq![DOT, DOT][1] == DOT);
    }
    r
}

/// The last component of a path, where that is a name.
pub fn last_name(p: &[u8]) -> (r: Option<&[u8]>)
    ensures
        match file_name(p@) {
            Some(name) => r matches Some(v) && v@ == name,
            None => r is None,
        },
{
    let p_spans: Vec<(usize, usize)> = find_spans(p);
    let ghost ps = span_ints(p_spans@);
    proof {
        lemma_spans_ordered(p@);
        assert(components(p@).len() == p_spans@.len());
    }
    if p_spans.len() == 0 {
        return None;
    }
    let last: (usize, usize) = p_spans[p_spans.len() - 1];
    assert(ps.last() == (last.0 as int, last.1 as int));
    let name: &[u8] = slice_subrange(p, last.0, last.1);
    assert(components(p@).last() == name@);
    if is_name_bytes(name) {
        Some(name)
    } else {
        None
    }
}

/// The extension of a file name.
pub fn last_extension(p: &[u8]) -> (r: Option<&[u8]>)
    ensures
        match extension(p@) {
            Some(ext) => r matches Some(v) && v@ == ext,
            None => r is None,
        },
{
    match last_name(p) {
        None => None,
        Some(name) => {
            let mut n: usize = name.len();
            assert(name@.take(n as int) =~= name@);
            while n > 0 && name[n - 1] != DOT
                invariant
                    n <= name@.len(),
                    last_dot(name@) == last_dot(name@.take(n as int)),
                decreases n,
            {
                assert(name@.take(n as int).drop_last() =~= name@.take(n - 1));
                n -= 1;
            }
            assert(last_dot(name@) == n - 1);
            if n > 1 {
                assert(name@.skip(n as int) =~= name@.subrange(n as int, name@.len() as int));
                Some(slice_subrange(name, n, name.len()))
            } else {
                None
            }
        },
    }
}

/// A path whose file name is replaced, or, where it has none, followed by `name`.
pub fn renamed(p: &[u8], name: &[u8]) -> (r: Vec<u8>)
    ensures
        r@ == with_file_name(p@, name@),
{
    match last_name(p) {
        None => joined(p, name),
        Some(_) => {
            let p_spans: Vec<(usize, usize)> = find_spans(p);
            let ghost ps = span_ints(p_spans@);
            proof {
                lemma_spans_ordered(p@);
            }
            if p_spans.len() >= 2 {
                let before: (usize, usize) = p_spans[p_spans.len() - 2];
                assert(ps[ps.len() - 2] == (before.0 as int, before.1 as int));
                assert(p@.subrange(0, before.1 as int) =~= p@.take(before.1 as int));
                joined(slice_subrange(p, 0, before.1), name)
            } else {
                assert(p@.subrange(0, 0) =~= without_last(p@));
                joined(slice_subrange(p, 0, 0), name)
            }
        },
    }
}

// ---------------------------------------------------------------------------------------------
// Laws
// ---------------------------------------------------------------------------------------------

/// Moving spans by `d`.
spec fn shifted(s: Seq<(int, int)>, d: int) -> Seq<(int, int)> {
    s.map_values(|t: (int, int)| (t.0 + d, t.1 + d))
}

/// The spans of the rest of a path are those of the rest taken by itself, moved to their place.
proof fn lemma_spans_of_rest(p: Seq<u8>, cut: int, from: int)
    requires
        0 <= cut <= p.len(),
        0 <= from,
    ensures
        spans_from(p, cut + from) == shifted(spans_from(p.skip(cut), from), cut),
    decreases bytes_left(p, cut + from),
{
    let q = p.skip(cut);
    if cut + from < p.len() {
        let end = segment_end(q, from);
        lemma_segment_end(q, from);
        assert forall|k: int| cut + from <= k < cut + end implies p[k] != SEPARATOR by {
            assert(p[k] == q[k - cut]);
        }
        lemma_segment_end_is(p, cut + from, cut + end);
        lemma_spans_of_rest(p, cut, end + 1);
        assert(spans_from(p, cut + from) =~= shifted(spans_from(q, from), cut));
    } else {
        assert(spans_from(p, cut + from) =~= shifted(spans_from(q, from), cut));
    }
}

/// Cutting a path where a segment ends splits its spans.
proof fn lemma_spans_split(p: Seq<u8>, e: int, from: int)
    requires
        0 <= from <= e <= p.len(),
        e == p.len() || p[e] == SEPARATOR,
    ensures
        spans_from(p, from) == spans_from(p.take(e), from) + spans_from(p, e),
    decreases bytes_left(p, from),
{
    let q = p.take(e);
    if from < e {
        lemma_segment_end(p, from);
        let end = segment_end(p, from);
        assert(end <= e) by {
            if end > e {
                assert(p[e] != SEPARATOR);
            }
        }
        lemma_segment_end_is(q, from, end);
        if end < e {
            lemma_spans_split(p, e, end + 1);
        } else {
            assert(spans_from(q, end + 1) =~= seq![]);
            assert(spans_from(p, p.len() + 1int) =~= seq![]);
            if e < p.len() {
                lemma_segment_end_is(p, e, e);
                assert(spans_from(p, e) == spans_from(p, e + 1));
            }
        }
        assert(spans_from(p, from) =~= spans_from(q, from) + spans_from(p, e));
    } else {
        assert(spans_from(p, from) =~= spans_from(q, from) + spans_from(p, e));
    }
}

/// Spans that lie in the front of a path cut the same pieces out of it and of the front.
proof fn lemma_pieces_of_front(p: Seq<u8>, e: int, s: Seq<(int, int)>)
    requires
        0 <= e <= p.len(),
        ordered(s, 0, e),
    ensures
        pieces(p.take(e), s) == pieces(p, s),
{
    assert forall|k: int| 0 <= k < s.len() implies pieces(p.take(e), s)[k] == pieces(p, s)[k] by {
        assert(p.take(e).subrange(s[k].0, s[k].1) =~= p.subrange(s[k].0, s[k].1));
    }
    assert(pieces(p.take(e), s) =~= pieces(p, s));
}

proof fn lemma_pieces_of_rest(p: Seq<u8>, cut: int, s: Seq<(int, int)>)
    requires
        0 <= cut <= p.len(),
        ordered(s, 0, p.len() - cut),
    ensures
        pieces(p, shifted(s, cut)) == pieces(p.skip(cut), s),
{
    assert forall|k: int| 0 <= k < s.len() implies pieces(p, shifted(s, cut))[k] == pieces(
        p.skip(cut),
        s,
    )[k] by {
        assert(p.subrange(s[k].0 + cut, s[k].1 + cut) =~= p.skip(cut).subrange(s[k].0, s[k].1));
    }
    assert(pieces(p, shifted(s, cut)) =~= pieces(p.skip(cut), s));
}

/// The components from `cut` on are those of the rest taken by itself.
proof fn lemma_inner_of_rest(p: Seq<u8>, cut: int)
    requires
        0 <= cut <= p.len(),
    ensures
        pieces(p, spans_from(p, cut)) == inner_components(p.skip(cut)),
{
    lemma_spans_of_rest(p, cut, 0);
    lemma_spans_from_ordered(p.skip(cut), 0);
    lemma_pieces_of_rest(p, cut, spans_from(p.skip(cut), 0));
}

proof fn lemma_pieces_concat(p: Seq<u8>, s: Seq<(int, int)>, t: Seq<(int, int)>)
    ensures
        pieces(p, s + t) == pieces(p, s) + pieces(p, t),
{
    assert(pieces(p, s + t) =~= pieces(p, s) + pieces(p, t));
}

/// Seen from a directory, a relative path has the components of the directory and then its own,
/// its leading `.` left out.
pub proof fn law_join_relative(base: Seq<u8>, p: Seq<u8>)
    requires
        base.len() > 0,
        !is_absolute(p),
    ensures
        components(join(base, p)) == components(base) + inner_components(p),
{
    let sep_given = base.last() == SEPARATOR;
    let e = if sep_given {
        base.len() - 1
    } else {
        base.len() as int
    };
    let x = join(base, p);
    assert(x[e] == SEPARATOR);
    assert(x.skip(e + 1) =~= p);
    lemma_spans_split(x, e, 0);
    lemma_segment_end_is(x, e, e);
    assert(spans_from(x, e) == spans_from(x, e + 1));
    lemma_inner_of_rest(x, e + 1);
    // The front of the joined path has the inner components of the directory.
    let front = x.take(e);
    assert(front =~= base.take(e));
    lemma_spans_split(base, e, 0);
    if sep_given {
        lemma_segment_end_is(base, e, e);
        assert(spans_from(base, e + 1) =~= seq![]);
        assert(spans_from(base, e) =~= seq![]);
    } else {
        assert(spans_from(base, e) =~= seq![]);
    }
    assert(spans_from(base, 0) =~= spans_from(front, 0));
    assert(spans_from(x, 0) == spans_from(base, 0) + spans_from(x, e + 1));
    // The heads agree.
    assert(x[0] == base[0]);
    if base.len() >= 2 {
        assert(x[1] == base[1]);
    }
    assert(head_span(x) == head_span(base));
    lemma_spans_ordered(base);
    let bs = spans(base);
    assert(spans(x) =~= bs + spans_from(x, e + 1));
    lemma_pieces_concat(x, bs, spans_from(x, e + 1));
    lemma_pieces_of_front(x, base.len() as int, bs);
    assert(x.take(base.len() as int) =~= base);
}

/// A relative path stays below the directory that it is seen from.
pub proof fn law_relative_path_is_descendant(base: Seq<u8>, p: Seq<u8>)
    requires
        !is_absolute(p),
    ensures
        starts_with(join(base, p), base),
{
    if base.len() > 0 {
        law_join_relative(base, p);
    } else {
        assert(components(base) =~= seq![]);
    }
}

/// An absolute path stands as it is, whatever directory it is seen from.
pub proof fn law_join_absolute(base: Seq<u8>, p: Seq<u8>)
    requires
        is_absolute(p),
    ensures
        join(base, p) == p,
{
}

/// A span ends at a separator or at the end of the path, begins with no separator, and is
/// followed by the spans of what comes after it.
proof fn lemma_span_shape(p: Seq<u8>, from: int, k: int)
    requires
        0 <= from,
        0 <= k < spans_from(p, from).len(),
    ensures
        ({
            let (a, e) = spans_from(p, from)[k];
            &&& from <= a < e <= p.len()
            &&& p[a] != SEPARATOR
            &&& e == p.len() || p[e] == SEPARATOR
            &&& spans_from(p, a) == spans_from(p, from).skip(k)
        }),
    decreases bytes_left(p, from),
{
    lemma_segment_end(p, from);
    let end = segment_end(p, from);
    let rest = spans_from(p, end + 1);
    if is_void(p, from, end) {
        lemma_span_shape(p, end + 1, k);
    } else if k == 0 {
        assert(spans_from(p, from).skip(0) =~= spans_from(p, from));
    } else {
        lemma_span_shape(p, end + 1, k - 1);
        assert(spans_from(p, from).skip(k) =~= rest.skip(k - 1));
    }
}

/// What follows the last component of a path does not count.
proof fn lemma_trim_end(p: Seq<u8>)
    requires
        spans(p).len() > 0,
    ensures
        0 < spans(p).last().1 <= p.len(),
        spans(p.take(spans(p).last().1)) == spans(p),
        spans_from(p.take(spans(p).last().1), 0) == spans_from(p, 0),
        components(p.take(spans(p).last().1)) == components(p),
{
    let s = spans(p);
    let inner = spans_from(p, 0);
    let e = s.last().1;
    let q = p.take(e);
    lemma_spans_ordered(p);
    assert(q[0] == p[0]);
    if inner.len() == 0 {
        assert(e == 1);
        lemma_spans_ordered(q);
        assert(spans_from(q, 0).len() == 0) by {
            if spans_from(q, 0).len() > 0 {
                assert(spans_from(q, 0)[0].0 < 1);
            }
        }
        assert(inner =~= spans_from(q, 0));
    } else {
        assert(s.last() == inner.last());
        lemma_span_shape(p, 0, inner.len() - 1);
        lemma_spans_split(p, e, 0);
        lemma_spans_from_ordered(p, e);
        assert(spans_from(p, e).len() == 0) by {
            if spans_from(p, e).len() > 0 {
                assert(inner.last() == spans_from(p, e).last());
            }
        }
        assert(inner =~= spans_from(q, 0));
        if e > 1 {
            assert(q[1] == p[1]);
        }
    }
    assert(head_span(q) =~= head_span(p));
    assert(spans(q) =~= s);
    lemma_pieces_of_front(p, e, s);
}

/// The first component of a path begins where the path does.
proof fn lemma_first_span(p: Seq<u8>)
    requires
        spans(p).len() > 0,
    ensures
        spans(p)[0].0 == 0,
{
    lemma_segment_end(p, 0);
    if head_span(p).len() == 0 && p.len() > 0 {
        assert(p[0] != SEPARATOR);
        assert(segment_end(p, 0) == segment_end(p, 1));
        lemma_segment_end(p, 1);
        assert(!is_void(p, 0, segment_end(p, 0)));
    }
}

/// The part of a path from one component to the last has just those components.
proof fn lemma_tail_components(p: Seq<u8>, k: int)
    requires
        0 <= k < spans(p).len(),
    ensures
        k == 0 ==> components(tail_from(p, k)) == components(p),
        k > 0 ==> !is_absolute(tail_from(p, k)) && inner_components(tail_from(p, k))
            == components(p).skip(k),
{
    let s = spans(p);
    let h = head_span(p).len() as int;
    let inner = spans_from(p, 0);
    let e = s.last().1;
    let q = p.take(e);
    lemma_spans_ordered(p);
    lemma_trim_end(p);
    if k == 0 {
        lemma_first_span(p);
        assert(tail_from(p, 0) =~= q);
    } else {
        let a = s[k].0;
        assert(s[k] == inner[k - h]);
        lemma_span_shape(q, 0, k - h);
        assert(spans_from(q, a) =~= s.skip(k));
        assert(tail_from(p, k) =~= q.skip(a));
        lemma_inner_of_rest(q, a);
        assert(pieces(q, s.skip(k)) =~= pieces(q, s).skip(k));
    }
}

/// What `strip_prefix` leaves, seen from the prefix, is the same path again.
pub proof fn law_strip_then_join(p: Seq<u8>, base: Seq<u8>)
    requires
        starts_with(p, base),
    ensures
        components(join(base, strip_prefix(p, base)->0)) == components(p),
{
    let k = components(base).len() as int;
    let rest = strip_prefix(p, base)->0;
    if k < components(p).len() {
        lemma_tail_components(p, k);
    }
    if k == 0 {
        lemma_has_component(base);
        assert(join(base, rest) =~= rest);
        if components(p).len() == 0 {
            lemma_has_component(p);
        }
    } else {
        assert(base.len() > 0);
        if k == components(p).len() {
            assert(inner_components(rest) =~= seq![]);
        }
        law_join_relative(base, rest);
        assert(components(p) =~= components(base) + components(p).skip(k));
    }
}

/// Only the empty path has no component.
proof fn lemma_has_component(p: Seq<u8>)
    ensures
        p.len() == 0 <==> components(p).len() == 0,
{
    if p.len() > 0 {
        lemma_segment_end(p, 0);
    }
}

/// Without its last component a path has all its components but the last.
proof fn lemma_without_last(p: Seq<u8>)
    requires
        components(p).len() > 0,
    ensures
        components(without_last(p)) == components(p).drop_last(),
{
    let s = spans(p);
    let h = head_span(p).len() as int;
    let inner = spans_from(p, 0);
    let q = without_last(p);
    lemma_spans_ordered(p);
    if s.len() == 1 {
        assert(components(q) =~= components(p).drop_last());
    } else {
        let e = s[s.len() - 2].1;
        assert(s.last() == inner.last());
        lemma_span_shape(p, 0, inner.len() - 1);
        assert(q[0] == p[0]);
        if e > 1 {
            assert(q[1] == p[1]);
        }
        if inner.len() == 1 {
            assert(h == 1 && e == 1);
            lemma_spans_ordered(q);
            assert(spans_from(q, 0).len() == 0) by {
                if spans_from(q, 0).len() > 0 {
                    assert(spans_from(q, 0)[0].0 < 1);
                }
            }
            assert(head_span(q) =~= head_span(p));
        } else {
            let m = inner.len() - 2;
            assert(s[s.len() - 2] == inner[m]);
            lemma_span_shape(p, 0, m);
            lemma_spans_split(p, e, 0);
            let f = spans_from(q, 0);
            let g = spans_from(p, e);
            lemma_spans_from_ordered(q, 0);
            lemma_spans_from_ordered(p, e);
            assert(inner == f + g);
            assert(f.len() == inner.len() - 1) by {
                if f.len() <= m {
                    assert(inner[m] == g[m - f.len()]);
                }
                if f.len() == inner.len() {
                    assert(inner.last() == f.last());
                }
            }
            assert(f =~= inner.drop_last());
            assert(head_span(q) =~= head_span(p));
        }
        assert(spans(q) =~= s.drop_last());
        lemma_pieces_of_front(p, e, s.drop_last());
        assert(pieces(p, s.drop_last()) =~= pieces(p, s).drop_last());
    }
}

/// A file that is given another name stays in its directory, and has that name.
pub proof fn law_renamed_file_is_sibling(p: Seq<u8>, name: Seq<u8>)
    requires
        file_name(p) is Some,
        name.len() > 0,
        is_name(name),
        forall|k: int| 0 <= k < name.len() ==> name[k] != SEPARATOR,
    ensures
        components(with_file_name(p, name)) == components(p).drop_last().push(name),
        file_name(with_file_name(p, name)) == Some(name),
{
    let dir = without_last(p);
    lemma_without_last(p);
    lemma_segment_end_is(name, 0, name.len() as int);
    assert(!is_void(name, 0, name.len() as int)) by {
        if name.len() == 1 && name[0] == DOT {
            assert(name =~= seq![DOT]);
        }
    }
    assert(spans_from(name, name.len() + 1int) =~= seq![]);
    assert(spans_from(name, 0) =~= seq![(0int, name.len() as int)]);
    assert(name.subrange(0, name.len() as int) =~= name);
    assert(inner_components(name) =~= seq![name]);
    if dir.len() > 0 {
        law_join_relative(dir, name);
        assert(components(dir) + seq![name] =~= components(dir).push(name));
    } else {
        lemma_has_component(dir);
        assert(join(dir, name) =~= name);
        assert(head_span(name) =~= seq![]);
        assert(spans(name) =~= spans_from(name, 0));
        assert(components(name) =~= components(p).drop_last().push(name));
    }
}

/// Whether bytes hold no separator.
pub open spec fn is_segment(b: Seq<u8>) -> bool {
    forall|k: int| 0 <= k < b.len() ==> b[k] != SEPARATOR
}

proof fn lemma_segment_components(b: Seq<u8>)
    requires
        is_segment(b),
    ensures
        inner_components(b) == if b.len() == 0 || b == seq![DOT] {
            seq![]
        } else {
            seq![b]
        },
{
    let n = b.len() as int;
    lemma_segment_end_is(b, 0, n);
    assert(spans_from(b, n + 1) =~= seq![]);
    if n == 1 && b[0] == DOT {
        assert(b =~= seq![DOT]);
    }
    if n == 0 || b == seq![DOT] {
        assert(inner_components(b) =~= seq![]);
    } else {
        assert(spans_from(b, 0) =~= seq![(0int, n)]);
        assert(b.subrange(0, n) =~= b);
        assert(inner_components(b) =~= seq![b]);
    }
}

proof fn lemma_push_separator(p: Seq<u8>)
    requires
        p.len() > 0,
    ensures
        components(p.push(SEPARATOR)) == components(p),
{
    let x = p.push(SEPARATOR);
    let e = p.len() as int;
    lemma_spans_split(x, e, 0);
    lemma_segment_end_is(x, e, e);
    assert(spans_from(x, e + 1) =~= seq![]);
    assert(spans_from(x, e) =~= seq![]);
    assert(x.take(e) =~= p);
    assert(x[0] == p[0]);
    if p.len() >= 2 {
        assert(x[1] == p[1]);
    }
    assert(head_span(x) == head_span(p));
    assert(spans(x) =~= spans(p));
    lemma_spans_ordered(p);
    lemma_pieces_of_front(x, e, spans(p));
}

/// A path is read segment by segment: what follows a separator is one more component, unless it is
/// empty or `.`.
pub proof fn law_components_by_segment(base: Seq<u8>, segment: Seq<u8>)
    requires
        base.len() > 0,
        is_segment(segment),
    ensures
        components(base.push(SEPARATOR) + segment) == if segment.len() == 0 || segment == seq![
            DOT,
        ] {
            components(base)
        } else {
            components(base).push(segment)
        },
{
    let dir = base.push(SEPARATOR);
    lemma_push_separator(base);
    lemma_segment_components(segment);
    assert(!is_absolute(segment));
    law_join_relative(dir, segment);
    assert(join(dir, segment) =~= dir + segment);
    assert(components(base) + inner_components(segment) =~= if segment.len() == 0 || segment
        == seq![DOT] {
        components(base)
    } else {
        components(base).push(segment)
    });
}

/// A path begins with its first segment, or with the root. A segment is a component even where it
/// is `.`, and the empty path has none.
pub proof fn law_first_component(segment: Seq<u8>)
    requires
        is_segment(segment),
    ensures
        components(segment) == if segment.len() == 0 {
            seq![]
        } else {
            seq![segment]
        },
        components(seq![SEPARATOR] + segment) == if segment.len() == 0 || segment == seq![DOT] {
            seq![seq![SEPARATOR]]
        } else {
            seq![seq![SEPARATOR], segment]
        },
{
    let root = seq![SEPARATOR];
    lemma_segment_components(segment);
    // A segment by itself.
    if segment.len() == 0 {
        assert(components(segment) =~= seq![]);
    } else if segment == seq![DOT] {
        assert(spans(segment) =~= seq![(0int, 1int)]) by {
            lemma_segment_end_is(segment, 0, 1);
            assert(spans_from(segment, 2) =~= seq![]);
            assert(spans_from(segment, 0) =~= seq![]);
        }
        assert(segment.subrange(0, 1) =~= segment);
        assert(components(segment) =~= seq![segment]);
    } else {
        if segment[0] == DOT && segment.len() == 1 {
            assert(segment =~= seq![DOT]);
        }
        assert(head_span(segment) =~= seq![]);
        assert(spans(segment) =~= spans_from(segment, 0));
    }
    // The root, and a segment below it.
    lemma_segment_end_is(root, 0, 0);
    assert(spans_from(root, 1) =~= seq![]);
    assert(spans_from(root, 0) =~= seq![]);
    assert(spans(root) =~= seq![(0int, 1int)]);
    assert(root.subrange(0, 1) =~= root);
    assert(components(root) =~= seq![root]);
    law_join_relative(root, segment);
    assert(join(root, segment) =~= root + segment);
    assert(components(root) + inner_components(segment) =~= if segment.len() == 0 || segment
        == seq![DOT] {
        seq![root]
    } else {
        seq![root, segment]
    });
}

/// The components of a path are its root or its leading `.`, where it has one, and the others.
pub proof fn law_head_and_inner_components(p: Seq<u8>)
    ensures
        components(p) == if p.len() > 0 && p[0] == SEPARATOR {
            seq![seq![SEPARATOR]] + inner_components(p)
        } else if p.len() > 0 && p[0] == DOT && (p.len() == 1 || p[1] == SEPARATOR) {
            seq![seq![DOT]] + inner_components(p)
        } else {
            inner_components(p)
        },
{
    lemma_pieces_concat(p, head_span(p), spans_from(p, 0));
    if head_span(p).len() == 1 {
        assert(p.subrange(0, 1) =~= seq![p[0]]);
        assert(pieces(p, head_span(p)) =~= seq![seq![p[0]]]);
    } else {
        assert(pieces(p, head_span(p)) =~= seq![]);
        assert(components(p) =~= inner_components(p));
    }
}

/// What was put into a directory has there the name that it was given.
pub proof fn law_joined_name_is_file_name(base: Seq<u8>, name: Seq<u8>)
    requires
        is_segment(name),
        name.len() > 0,
        name != seq![DOT],
        name != seq![DOT, DOT],
    ensures
        file_name(join(base, name)) == Some(name),
        components(join(base, name)) == components(base).push(name),
{
    lemma_segment_components(name);
    law_first_component(name);
    assert(name != seq![SEPARATOR]) by {
        assert(name[0] != SEPARATOR);
    }
    if base.len() > 0 {
        law_join_relative(base, name);
        assert(components(base) + seq![name] =~= components(base).push(name));
    } else {
        assert(join(base, name) =~= name);
        law_first_component(base);
        assert(components(name) =~= components(base).push(name));
    }
}

/// The file name of a path is its last component: neither the root nor `.` nor `..` is one.
pub proof fn law_file_name_is_last_component(p: Seq<u8>)
    ensures
        file_name(p) is Some <==> {
            &&& components(p).len() > 0
            &&& components(p).last() != seq![SEPARATOR]
            &&& components(p).last() != seq![DOT]
            &&& components(p).last() != seq![DOT, DOT]
        },
        file_name(p) is Some ==> file_name(p)->0 == components(p).last(),
{
}

proof fn lemma_last_dot(name: Seq<u8>)
    ensures
        -1 <= last_dot(name) < name.len(),
        last_dot(name) >= 0 ==> name[last_dot(name)] == DOT,
        forall|k: int| last_dot(name) < k < name.len() ==> name[k] != DOT,
    decreases name.len(),
{
    if name.len() > 0 && name.last() != DOT {
        lemma_last_dot(name.drop_last());
        assert forall|k: int| last_dot(name) < k < name.len() implies name[k] != DOT by {
            if k < name.len() - 1 {
                assert(name.drop_last()[k] == name[k]);
            }
        }
    }
}

/// A file whose name is a stem, a dot and an extension without a dot has that extension.
pub proof fn law_extension_follows_last_dot(p: Seq<u8>, stem: Seq<u8>, ext: Seq<u8>)
    requires
        stem.len() > 0,
        forall|k: int| 0 <= k < ext.len() ==> ext[k] != DOT,
        file_name(p) == Some(stem.push(DOT) + ext),
    ensures
        extension(p) == Some(ext),
{
    let name = stem.push(DOT) + ext;
    lemma_last_dot(name);
    let n = stem.len() as int;
    assert(name[n] == DOT);
    if last_dot(name) > n {
        assert(name[last_dot(name)] == ext[last_dot(name) - n - 1]);
    }
    assert(name.skip(n + 1) =~= ext);
}

/// A path has no other extension: its file name is a stem, a dot and the extension.
pub proof fn law_extension_is_from_file_name(p: Seq<u8>)
    ensures
        extension(p) matches Some(ext) ==> {
            &&& file_name(p) is Some
            &&& ext.len() + 1 < file_name(p)->0.len()
            &&& file_name(p)->0 == file_name(p)->0.take(
                file_name(p)->0.len() - ext.len() - 1,
            ).push(DOT) + ext
            &&& forall|k: int| 0 <= k < ext.len() ==> ext[k] != DOT
        },
        extension(p) is None && file_name(p) is Some ==> forall|k: int|
            0 < k < file_name(p)->0.len() ==> file_name(p)->0[k] != DOT,
{
    if file_name(p) is Some {
        let name = file_name(p)->0;
        lemma_last_dot(name);
        if let Some(ext) = extension(p) {
            let n = last_dot(name);
            assert(name.take(n).push(DOT) + ext =~= name);
            assert forall|k: int| 0 <= k < ext.len() implies ext[k] != DOT by {
                assert(ext[k] == name[n + 1 + k]);
            }
        }
    }
}

/// Whether a path begins and ends with a component of its own: no separator and no `.` segment
/// stands at either end.
pub open spec fn is_trimmed(p: Seq<u8>) -> bool {
    &&& p.len() > 0
    &&& p[0] != SEPARATOR
    &&& !(p[0] == DOT && (p.len() == 1 || p[1] == SEPARATOR))
    &&& p.last() != SEPARATOR
    &&& !(p.len() > 1 && p.last() == DOT && p[p.len() - 2] == SEPARATOR)
}

proof fn lemma_trimmed_spans(p: Seq<u8>, from: int)
    requires
        is_trimmed(p),
        0 <= from < p.len(),
        from == 0 || p[from - 1] == SEPARATOR,
    ensures
        spans_from(p, from).len() > 0,
        spans_from(p, from).last().1 == p.len(),
    decreases p.len() - from,
{
    lemma_segment_end(p, from);
    let end = segment_end(p, from);
    let rest = spans_from(p, end + 1);
    if end < p.len() {
        assert(end + 1 < p.len());
        lemma_trimmed_spans(p, end + 1);
        assert(spans_from(p, from).last() == rest.last());
    } else {
        assert(rest =~= seq![]);
        assert(!is_void(p, from, end));
        assert(spans_from(p, from) =~= seq![(from, end)]);
    }
}

/// The components of a joined path lie where those of its two parts do.
proof fn lemma_joined_spans(base: Seq<u8>, p: Seq<u8>)
    requires
        base.len() > 0,
        p.len() == 0 || p[0] != SEPARATOR,
    ensures
        ({
            let x = join(base, p);
            let off = x.len() - p.len();
            &&& off > 0
            &&& x.skip(off) == p
            &&& spans(x).len() == components(base).len() + spans_from(p, 0).len()
            &&& spans(x).skip(components(base).len() as int) == shifted(spans_from(p, 0), off)
        }),
{
    let x = join(base, p);
    let off = x.len() - p.len();
    let e = off - 1;
    let mine = spans_from(p, 0);
    law_join_keeps_bytes(base, p);
    lemma_spans_split(x, e, 0);
    lemma_segment_end_is(x, e, e);
    assert(spans_from(x, e) == spans_from(x, off));
    lemma_spans_of_rest(x, off, 0);
    assert(spans_from(x, off) == shifted(mine, off));
    law_join_relative(base, p);
    let s = spans(x);
    let k = components(base).len() as int;
    assert(s.len() == components(x).len());
    assert(inner_components(p).len() == mine.len());
    assert(s.len() == k + mine.len());
    let front = head_span(x) + spans_from(x.take(e), 0);
    assert(s =~= front + shifted(mine, off));
    assert(shifted(mine, off).len() == mine.len());
    assert(s.skip(k) =~= shifted(mine, off));
}

proof fn lemma_trimmed_first_span(p: Seq<u8>)
    requires
        is_trimmed(p),
    ensures
        spans_from(p, 0).len() > 0,
        spans_from(p, 0)[0].0 == 0,
        spans_from(p, 0).last().1 == p.len(),
{
    lemma_trimmed_spans(p, 0);
    lemma_segment_end(p, 0);
    let end = segment_end(p, 0);
    assert(end == segment_end(p, 1));
    lemma_segment_end(p, 1);
    assert(!is_void(p, 0, end));
}

/// What was put into a directory is what is left when the directory is taken off again.
#[verifier::spinoff_prover]
pub proof fn law_join_then_strip(base: Seq<u8>, p: Seq<u8>)
    requires
        base.len() > 0,
        is_trimmed(p),
    ensures
        strip_prefix(join(base, p), base) == Some(p),
{
    let x = join(base, p);
    let off = x.len() - p.len();
    let k = components(base).len() as int;
    let mine = spans_from(p, 0);
    let s = spans(x);
    law_relative_path_is_descendant(base, p);
    lemma_joined_spans(base, p);
    lemma_trimmed_first_span(p);
    let rest = s.skip(k);
    assert(s[k] == rest[0] && s.last() == rest.last());
    assert(rest[0] == (mine[0].0 + off, mine[0].1 + off));
    assert(rest.last() == (mine.last().0 + off, mine.last().1 + off));
    assert(tail_from(x, k) == x.subrange(off, x.len() as int));
    assert(x.subrange(off, x.len() as int) =~= p);
}

/// A relative path seen from a directory is written behind it, with one separator between them
/// unless there is one or the directory is empty.
pub proof fn law_join_keeps_bytes(base: Seq<u8>, p: Seq<u8>)
    requires
        p.len() == 0 || p[0] != SEPARATOR,
    ensures
        ({
            let x = join(base, p);
            &&& x.take(base.len() as int) == base
            &&& x.skip(x.len() - p.len()) == p
            &&& x.len() == base.len() + p.len() + if base.len() > 0 && base.last() != SEPARATOR {
                1int
            } else {
                0int
            }
            &&& base.len() > 0 ==> x[x.len() - p.len() - 1] == SEPARATOR
        }),
{
    let x = join(base, p);
    assert(x.take(base.len() as int) =~= base);
    assert(x.skip(x.len() - p.len()) =~= p);
}

/// A prefix is taken off only where all its components come first, and the components that follow
/// them are left.
pub proof fn law_strip_leaves_the_rest(p: Seq<u8>, base: Seq<u8>)
    ensures
        strip_prefix(p, base) is Some <==> components(base).len() <= components(p).len() && forall|
            k: int,
        |
            0 <= k < components(base).len() ==> components(p)[k] == components(base)[k],
        strip_prefix(p, base) matches Some(rest) ==> base.len() > 0 ==> {
            &&& rest.len() == 0 || rest[0] != SEPARATOR
            &&& inner_components(rest) == components(p).skip(components(base).len() as int)
        },
{
    let k = components(base).len() as int;
    if starts_with(p, base) {
        assert(components(p).take(k) =~= components(base));
        let rest = strip_prefix(p, base)->0;
        if base.len() > 0 {
            lemma_has_component(base);
            if k < components(p).len() {
                lemma_tail_components(p, k);
            } else {
                assert(rest =~= seq![]);
                assert(inner_components(rest) =~= components(p).skip(k));
            }
        }
    } else if k <= components(p).len() && forall|i: int|
        0 <= i < k ==> components(p)[i] == components(base)[i] {
        assert(components(p).take(k) =~= components(base));
    }
}

/// A path without a file name is followed by the new one.
pub proof fn law_named_below(p: Seq<u8>, name: Seq<u8>)
    requires
        file_name(p) is None,
        is_segment(name),
        name.len() > 0,
        name != seq![DOT],
        name != seq![DOT, DOT],
    ensures
        components(with_file_name(p, name)) == components(p).push(name),
{
    law_joined_name_is_file_name(p, name);
}

} // verus!
