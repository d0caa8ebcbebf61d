//! Reading an HTTP request: the path's segments, the header lines and the
//! announced length of the body.
use vstd::prelude::*;
use vstd::slice::slice_subrange;
use crate::bytes::bytes_eq;
use crate::feed::{lemma_line_end, line_end};

verus! {

/// The segment `cur` as a list: empty segments are dropped.
pub open spec fn flush(cur: Seq<u8>) -> Seq<Seq<u8>> {
    if cur.len() > 0 {
        seq![cur]
    } else {
        seq![]
    }
}

/// The segments of `s` separated by `/`, with `cur` the segment read so
/// far; empty segments are dropped.
pub open spec fn segments(s: Seq<u8>, cur: Seq<u8>) -> Seq<Seq<u8>>
    decreases s.len(),
{
    if s.len() == 0 {
        flush(cur)
    } else if s[0] == 0x2f {
        flush(cur) + segments(s.drop_first(), seq![])
    } else {
        segments(s.drop_first(), cur.push(s[0]))
    }
}

/// The segments of a request path.
pub open spec fn path_segments(p: Seq<u8>) -> Seq<Seq<u8>> {
    segments(p, seq![])
}

/// The bytes of each vector in a list.
pub open spec fn vec_views(w: Seq<Vec<u8>>) -> Seq<Seq<u8>> {
    w.map_values(|x: Vec<u8>| x@)
}

/// Splits a request path at its slashes, dropping empty segments.
pub fn split_path(v: &[u8]) -> (r: Vec<Vec<u8>>)
    ensures
        vec_views(r@) == path_segments(v@),
{
    let mut wb: Vec<Vec<u8>> = Vec::new();
    let mut i: usize = 0;
    assert(v@.subrange(0, v@.len() as int) =~= v@);
    assert(vec_views(wb@) + path_segments(v@) =~= path_segments(v@));
    while i < v.len()
        invariant
            i <= v.len(),
            vec_views(wb@) + segments(v@.subrange(i as int, v@.len() as int), seq![]) == path_segments(v@),
        decreases v.len() - i,
    {
        let mut h: Vec<u8> = Vec::new();
        let ghost i0 = i;
        while i < v.len() && v[i] != 0x2f
            invariant
                i0 <= i <= v.len(),
                vec_views(wb@) + segments(v@.subrange(i as int, v@.len() as int), h@) == path_segments(v@),
            decreases v.len() - i,
        {
            assert(v@.subrange(i as int, v@.len() as int).drop_first() =~= v@.subrange(i + 1, v@.len() as int));
            h.push(v[i]);
            i += 1;
        }
        let ghost before = vec_views(wb@);
        let ghost hv = h@;
        if h.len() > 0 {
            wb.push(h);
            assert(vec_views(wb@) =~= before + seq![hv]);
        }
        assert(vec_views(wb@) == before + flush(hv)) by {
            if hv.len() == 0 {
                assert(before + flush(hv) =~= before);
            }
        }
        if i < v.len() {
            assert(v@.subrange(i as int, v@.len() as int).drop_first() =~= v@.subrange(i + 1, v@.len() as int));
            assert(before + (flush(hv) + segments(v@.subrange(i + 1, v@.len() as int), seq![]))
                =~= vec_views(wb@) + segments(v@.subrange(i + 1, v@.len() as int), seq![]));
            i += 1;
        } else {
            assert(v@.subrange(i as int, v@.len() as int).len() == 0);
            assert(segments(v@.subrange(i as int, v@.len() as int), seq![]) =~= Seq::<Seq<u8>>::empty());
            assert(vec_views(wb@) + Seq::<Seq<u8>>::empty() =~= vec_views(wb@));
            return wb;
        }
    }
    assert(v@.subrange(i as int, v@.len() as int).len() == 0);
    assert(vec_views(wb@) + Seq::<Seq<u8>>::empty() =~= vec_views(wb@));
    wb
}

/// `s` with its slashes taken out.
pub open spec fn without_slashes(s: Seq<u8>) -> Seq<u8>
    decreases s.len(),
{
    if s.len() == 0 {
        seq![]
    } else if s[0] == 0x2f {
        without_slashes(s.drop_first())
    } else {
        seq![s[0]] + without_slashes(s.drop_first())
    }
}

/// The byte strings of a list, one after the other.
pub open spec fn concat_all(ss: Seq<Seq<u8>>) -> Seq<u8>
    decreases ss.len(),
{
    if ss.len() == 0 {
        seq![]
    } else {
        ss[0] + concat_all(ss.drop_first())
    }
}

/// A segment: not empty, and without a slash.
pub open spec fn is_segment(s: Seq<u8>) -> bool {
    s.len() > 0 && forall|k: int| 0 <= k < s.len() ==> s[k] != 0x2f
}

proof fn lemma_concat_all_add(a: Seq<Seq<u8>>, b: Seq<Seq<u8>>)
    ensures
        concat_all(a + b) == concat_all(a) + concat_all(b),
    decreases a.len(),
{
    if a.len() == 0 {
        assert(a + b =~= b);
        assert(concat_all(a) + concat_all(b) =~= concat_all(b));
    } else {
        lemma_concat_all_add(a.drop_first(), b);
        assert((a + b).drop_first() =~= a.drop_first() + b);
        assert(a[0] + (concat_all(a.drop_first()) + concat_all(b)) =~= a[0] + concat_all(
            a.drop_first(),
        ) + concat_all(b));
    }
}

proof fn lemma_concat_flush(cur: Seq<u8>)
    ensures
        concat_all(flush(cur)) == cur,
{
    if cur.len() > 0 {
        let one = seq![cur];
        assert(one.drop_first() =~= Seq::<Seq<u8>>::empty());
        assert(concat_all(one.drop_first()) == Seq::<u8>::empty());
        assert(one[0] == cur);
        assert(cur + Seq::<u8>::empty() =~= cur);
        assert(concat_all(one) == one[0] + concat_all(one.drop_first()));
    } else {
        assert(cur =~= Seq::<u8>::empty());
    }
}

proof fn lemma_segments(s: Seq<u8>, cur: Seq<u8>)
    requires
        forall|k: int| 0 <= k < cur.len() ==> cur[k] != 0x2f,
    ensures
        forall|k: int| 0 <= k < segments(s, cur).len() ==> is_segment(#[trigger] segments(s, cur)[k]),
        concat_all(segments(s, cur)) == cur + without_slashes(s),
    decreases s.len(),
{
    lemma_concat_flush(cur);
    if s.len() == 0 {
        assert(cur + Seq::<u8>::empty() =~= cur);
    } else if s[0] == 0x2f {
        let rest = s.drop_first();
        lemma_segments(rest, seq![]);
        lemma_concat_all_add(flush(cur), segments(rest, seq![]));
        assert(Seq::<u8>::empty() + without_slashes(rest) =~= without_slashes(rest));
        let all = flush(cur) + segments(rest, seq![]);
        assert forall|k: int| 0 <= k < all.len() implies is_segment(#[trigger] all[k]) by {
            if k < flush(cur).len() {
                assert(all[k] == cur);
            } else {
                assert(all[k] == segments(rest, seq![])[k - flush(cur).len()]);
            }
        }
    } else {
        let rest = s.drop_first();
        lemma_segments(rest, cur.push(s[0]));
        assert(cur.push(s[0]) + without_slashes(rest) =~= cur + (seq![s[0]] + without_slashes(rest)));
    }
}

/// What the path's segments are: none is empty or holds a slash, and one
/// after the other they spell the path without its slashes.
pub proof fn lemma_path_segments(p: Seq<u8>)
    ensures
        forall|k: int|
            0 <= k < path_segments(p).len() ==> is_segment(#[trigger] path_segments(p)[k]),
        concat_all(path_segments(p)) == without_slashes(p),
{
    lemma_segments(p, seq![]);
    assert(Seq::<u8>::empty() + without_slashes(p) =~= without_slashes(p));
}

/// `n` slashes.
pub open spec fn slashes(n: nat) -> Seq<u8> {
    Seq::new(n, |i: int| 0x2fu8)
}

/// Segments laid out as a path: before each segment one slash and
/// `gaps[k]` more, and `tail` slashes at the end.
pub open spec fn spread_join(segs: Seq<Seq<u8>>, gaps: Seq<nat>, tail: nat) -> Seq<u8>
    decreases segs.len(),
{
    if segs.len() == 0 {
        slashes(tail)
    } else {
        slashes(gaps[0] + 1) + segs[0] + spread_join(segs.drop_first(), gaps.drop_first(), tail)
    }
}

/// Segments joined as a path: a slash before each.
pub open spec fn slash_join(segs: Seq<Seq<u8>>) -> Seq<u8>
    decreases segs.len(),
{
    if segs.len() == 0 {
        seq![]
    } else {
        seq![0x2fu8] + segs[0] + slash_join(segs.drop_first())
    }
}

proof fn lemma_skip_slashes(n: nat, t: Seq<u8>)
    ensures
        segments(slashes(n) + t, seq![]) == segments(t, seq![]),
    decreases n,
{
    if n > 0 {
        let s = slashes(n) + t;
        assert(s[0] == 0x2f);
        assert(s.drop_first() =~= slashes((n - 1) as nat) + t);
        assert(flush(seq![]) =~= Seq::<Seq<u8>>::empty());
        assert(flush(seq![]) + segments(s.drop_first(), seq![]) =~= segments(s.drop_first(), seq![]));
        lemma_skip_slashes((n - 1) as nat, t);
    } else {
        assert(slashes(n) + t =~= t);
    }
}

proof fn lemma_read_segment(seg: Seq<u8>, t: Seq<u8>, cur: Seq<u8>)
    requires
        forall|k: int| 0 <= k < seg.len() ==> seg[k] != 0x2f,
    ensures
        segments(seg + t, cur) == segments(t, cur + seg),
    decreases seg.len(),
{
    if seg.len() == 0 {
        assert(seg + t =~= t);
        assert(cur + seg =~= cur);
    } else {
        let s = seg + t;
        assert(s[0] == seg[0]);
        assert(s.drop_first() =~= seg.drop_first() + t);
        lemma_read_segment(seg.drop_first(), t, cur.push(seg[0]));
        assert(cur.push(seg[0]) + seg.drop_first() =~= cur + seg);
    }
}

proof fn lemma_spread_join(segs: Seq<Seq<u8>>, gaps: Seq<nat>, tail: nat)
    requires
        gaps.len() == segs.len(),
        forall|k: int| 0 <= k < segs.len() ==> is_segment(#[trigger] segs[k]),
    ensures
        path_segments(spread_join(segs, gaps, tail)) == segs,
    decreases segs.len(),
{
    if segs.len() == 0 {
        lemma_skip_slashes(tail, seq![]);
        assert(slashes(tail) + Seq::<u8>::empty() =~= slashes(tail));
        assert(segs =~= Seq::<Seq<u8>>::empty());
    } else {
        let seg = segs[0];
        let rs = segs.drop_first();
        let rg = gaps.drop_first();
        let rest = spread_join(rs, rg, tail);
        assert(is_segment(seg));
        assert forall|k: int| 0 <= k < rs.len() implies is_segment(#[trigger] rs[k]) by {
            assert(rs[k] == segs[k + 1]);
        }
        lemma_spread_join(rs, rg, tail);
        assert(spread_join(segs, gaps, tail) =~= slashes(gaps[0] + 1) + (seg + rest));
        lemma_skip_slashes(gaps[0] + 1, seg + rest);
        lemma_read_segment(seg, rest, seq![]);
        assert(Seq::<u8>::empty() + seg =~= seg);
        if rest.len() == 0 {
            assert(rs.len() == 0) by {
                if rs.len() > 0 {
                    assert(rest.len() >= rg[0] + 1);
                }
            }
            assert(segs =~= seq![seg]);
        } else {
            // The rest starts with a slash.
            assert(rest[0] == 0x2f) by {
                if rs.len() > 0 {
                    assert(rest == slashes(rg[0] + 1) + rs[0] + spread_join(
                        rs.drop_first(),
                        rg.drop_first(),
                        tail,
                    ));
                    assert(slashes(rg[0] + 1)[0] == 0x2f);
                } else {
                    assert(rest == slashes(tail));
                }
            }
            assert(segments(rest, seg) == flush(seg) + segments(rest.drop_first(), seq![]));
            assert(segments(rest, seq![]) == flush(seq![]) + segments(rest.drop_first(), seq![]));
            assert(flush(Seq::<u8>::empty()) + segments(rest.drop_first(), seq![]) =~= segments(
                rest.drop_first(),
                seq![],
            ));
            assert(flush(seg) == seq![seg]);
            assert(seq![seg] + rs =~= segs);
        }
    }
}

/// Splitting a path gives back the segments it was laid out from, however
/// many slashes stand before each segment and at the end: for non-empty
/// segments without slashes, `path_segments(spread_join(segs, gaps,
/// tail))` is `segs`.
pub proof fn lemma_split_spread_path(segs: Seq<Seq<u8>>, gaps: Seq<nat>, tail: nat)
    requires
        gaps.len() == segs.len(),
        forall|k: int| 0 <= k < segs.len() ==> is_segment(#[trigger] segs[k]),
    ensures
        path_segments(spread_join(segs, gaps, tail)) == segs,
{
    lemma_spread_join(segs, gaps, tail);
}

proof fn lemma_slash_join_spread(segs: Seq<Seq<u8>>)
    ensures
        slash_join(segs) == spread_join(segs, Seq::new(segs.len(), |k: int| 0nat), 0),
    decreases segs.len(),
{
    let zeros = Seq::new(segs.len(), |k: int| 0nat);
    if segs.len() == 0 {
        assert(slashes(0) =~= Seq::<u8>::empty());
    } else {
        lemma_slash_join_spread(segs.drop_first());
        assert(zeros.drop_first() =~= Seq::new(segs.drop_first().len(), |k: int| 0nat));
        assert(slashes(zeros[0] + 1) =~= seq![0x2fu8]);
    }
}

/// Splitting a slash followed by segments joined with slashes gives the
/// segments back: for non-empty segments without slashes,
/// `path_segments(slash_join(segs))` is `segs`.
pub proof fn lemma_split_joined_path(segs: Seq<Seq<u8>>)
    requires
        forall|k: int| 0 <= k < segs.len() ==> is_segment(#[trigger] segs[k]),
    ensures
        path_segments(slash_join(segs)) == segs,
{
    lemma_slash_join_spread(segs);
    lemma_spread_join(segs, Seq::new(segs.len(), |k: int| 0nat), 0);
}

/// The first index in `from..stop` where `v` holds `b`; `stop` where
/// there is none, and `from` where `from >= stop`.
pub open spec fn scan_for(v: Seq<u8>, from: int, stop: int, b: u8) -> int
    decreases stop - from,
{
    if from >= stop {
        from
    } else if v[from] == b {
        from
    } else {
        scan_for(v, from + 1, stop, b)
    }
}

/// Where a scan stops.
pub proof fn lemma_scan_for(v: Seq<u8>, from: int, stop: int, b: u8)
    ensures
        from <= scan_for(v, from, stop, b),
        from < stop ==> scan_for(v, from, stop, b) <= stop,
        from >= stop ==> scan_for(v, from, stop, b) == from,
        forall|k: int| from <= k < scan_for(v, from, stop, b) ==> v[k] != b,
        scan_for(v, from, stop, b) < stop ==> v[scan_for(v, from, stop, b)] == b,
    decreases stop - from,
{
    if from < stop && v[from] != b {
        lemma_scan_for(v, from + 1, stop, b);
    }
}

/// The header lines that start at `i` and end before `end` (the blank
/// line): for each, where its name starts and ends (at the colon), where
/// its value starts (two bytes on) and ends (at the carriage return).
pub open spec fn header_spans(v: Seq<u8>, i: int, end: int) -> Seq<(int, int, int, int)>
    decreases end + 4 - i,
{
    if i >= end {
        seq![]
    } else {
        let j = scan_for(v, i, end, 0x3a);
        let k = scan_for(v, j + 2, end, 0x0d);
        proof {
            lemma_scan_for(v, i, end, 0x3a);
            lemma_scan_for(v, j + 2, end, 0x0d);
        }
        seq![(i, j, j + 2, k)] + header_spans(v, k + 2, end)
    }
}

/// A list of spans as numbers.
pub open spec fn span_views(h: Seq<(usize, usize, usize, usize)>) -> Seq<(int, int, int, int)> {
    h.map_values(|x: (usize, usize, usize, usize)| (x.0 as int, x.1 as int, x.2 as int, x.3 as int))
}

/// The header spans of a request whose blank line starts at `icrlf`: the
/// request line, up to the first newline, is skipped; `v` must hold a
/// newline.
pub fn headboi(v: &[u8], icrlf: usize) -> (r: Vec<(usize, usize, usize, usize)>)
    requires
        icrlf <= v.len(),
        icrlf + 4 <= usize::MAX,
        line_end(v@, 0) < v.len(),
    ensures
        span_views(r@) == header_spans(v@, line_end(v@, 0) + 1, icrlf as int),
        forall|k: int|
            0 <= k < r@.len() ==> (#[trigger] r@[k]).0 <= r@[k].1 <= icrlf && r@[k].3 <= icrlf + 2,
{
    let mut i: usize = 0;
    proof {
        lemma_line_end(v@, 0);
    }
    while v[i] != 10
        invariant
            i <= line_end(v@, 0) < v.len(),
            line_end(v@, 0) == line_end(v@, i as int),
        decreases v.len() - i,
    {
        proof {
            lemma_line_end(v@, i as int);
        }
        i += 1;
    }
    i += 1;
    let ghost start = i as int;
    let mut h: Vec<(usize, usize, usize, usize)> = Vec::new();
    if i >= icrlf {
        assert(span_views(h@) =~= Seq::<(int, int, int, int)>::empty());
        return h;
    }
    assert(span_views(h@) + header_spans(v@, start, icrlf as int) =~= header_spans(v@, start, icrlf as int));
    while i < icrlf
        invariant
            icrlf <= v.len(),
            icrlf + 4 <= usize::MAX,
            i <= icrlf + 4,
            start == line_end(v@, 0) + 1,
            span_views(h@) + header_spans(v@, i as int, icrlf as int) == header_spans(v@, start, icrlf as int),
            forall|k: int|
                0 <= k < h@.len() ==> (#[trigger] h@[k]).0 <= h@[k].1 <= icrlf && h@[k].3 <= icrlf + 2,
        decreases icrlf + 4 - i,
    {
        let mut j: usize = i;
        while j < icrlf && v[j] != 0x3a
            invariant
                i <= j <= icrlf <= v.len(),
                scan_for(v@, i as int, icrlf as int, 0x3a) == scan_for(v@, j as int, icrlf as int, 0x3a),
            decreases icrlf - j,
        {
            j += 1;
        }
        let mut k: usize = j + 2;
        proof {
            lemma_scan_for(v@, (j + 2) as int, icrlf as int, 0x0d);
        }
        while k < icrlf && v[k] != 0x0d
            invariant
                j + 2 <= k,
                k <= icrlf + 2,
                icrlf <= v.len(),
                j <= icrlf,
                scan_for(v@, j + 2, icrlf as int, 0x0d) == scan_for(v@, k as int, icrlf as int, 0x0d),
            decreases icrlf + 2 - k,
        {
            k += 1;
        }
        let ghost before = span_views(h@);
        h.push((i, j, j + 2, k));
        proof {
            assert(span_views(h@) =~= before + seq![(i as int, j as int, j + 2, k as int)]);
            assert(before + (seq![(i as int, j as int, j + 2, k as int)] + header_spans(
                v@,
                k + 2,
                icrlf as int,
            )) =~= span_views(h@) + header_spans(v@, k + 2, icrlf as int));
        }
        i = k + 2;
    }
    assert(span_views(h@) + Seq::<(int, int, int, int)>::empty() =~= span_views(h@));
    h
}

/// The number that `s` spells when each byte is read as a digit by
/// `b ^ 0x30` (which is the digit's value for an ASCII digit).
pub open spec fn xor_value(s: Seq<u8>) -> nat
    decreases s.len(),
{
    if s.len() == 0 {
        0
    } else {
        xor_value(s.drop_last()) * 10 + (s.last() ^ 0x30u8) as nat
    }
}

/// The name of the header that announces the body's length.
pub open spec fn content_length_name() -> Seq<u8> {
    seq![67u8, 111, 110, 116, 101, 110, 116, 45, 76, 101, 110, 103, 116, 104]
}

/// The value of a header, as a number.
pub open spec fn header_value(v: Seq<u8>, h: (int, int, int, int)) -> nat {
    if h.2 < h.3 {
        xor_value(v.subrange(h.2, h.3))
    } else {
        0
    }
}

/// The announced length of the body: the value of the first header named
/// `Content-Length`, or zero where there is none.
pub open spec fn content_length(v: Seq<u8>, hs: Seq<(int, int, int, int)>) -> nat
    decreases hs.len(),
{
    if hs.len() == 0 {
        0
    } else if v.subrange(hs[0].0, hs[0].1) == content_length_name() {
        header_value(v, hs[0])
    } else {
        content_length(v, hs.drop_first())
    }
}

proof fn lemma_xor_value_prefix(s: Seq<u8>, i: int, j: int)
    requires
        0 <= i <= j <= s.len(),
    ensures
        xor_value(s.subrange(0, i)) <= xor_value(s.subrange(0, j)),
    decreases j - i,
{
    if i < j {
        lemma_xor_value_prefix(s, i, j - 1);
        assert(s.subrange(0, j).drop_last() =~= s.subrange(0, j - 1));
    }
}

/// The announced length of the body, from the header spans `h` of `v`.
/// `None` where the number does not fit in a `usize`.
pub fn get_conlen(v: &[u8], h: &[(usize, usize, usize, usize)]) -> (r: Option<usize>)
    requires
        forall|k: int|
            0 <= k < h@.len() ==> (#[trigger] h@[k]).0 <= h@[k].1 <= v.len() && h@[k].3 <= v.len(),
    ensures
        match r {
            Some(n) => content_length(v@, span_views(h@)) == n,
            None => content_length(v@, span_views(h@)) > usize::MAX,
        },
{
    let name: &[u8] = &[67u8, 111, 110, 116, 101, 110, 116, 45, 76, 101, 110, 103, 116, 104];
    assert(name@ =~= content_length_name());
    let mut x: usize = 0;
    assert(span_views(h@).subrange(0, h@.len() as int) =~= span_views(h@));
    while x < h.len()
        invariant
            x <= h@.len(),
            name@ == content_length_name(),
            forall|k: int|
                0 <= k < h@.len() ==> (#[trigger] h@[k]).0 <= h@[k].1 <= v.len() && h@[k].3 <= v.len(),
            content_length(v@, span_views(h@)) == content_length(v@, span_views(h@).subrange(x as int, h@.len() as int)),
        decreases h.len() - x,
    {
        let hd = h[x];
        let ghost hs = span_views(h@).subrange(x as int, h@.len() as int);
        assert(hs[0] == (hd.0 as int, hd.1 as int, hd.2 as int, hd.3 as int));
        if bytes_eq(slice_subrange(v, hd.0, hd.1), name) {
            if hd.2 >= hd.3 {
                return Some(0);
            }
            let ghost s = v@.subrange(hd.2 as int, hd.3 as int);
            assert(hs.len() > 0);
            assert(v@.subrange(hs[0].0, hs[0].1) == content_length_name());
            assert(content_length(v@, hs) == xor_value(s));
            let mut n: usize = 0;
            let mut i: usize = hd.2;
            assert(s.subrange(0, 0) =~= Seq::<u8>::empty());
            while i < hd.3
                invariant
                    hd.2 <= i <= hd.3 <= v.len(),
                    s == v@.subrange(hd.2 as int, hd.3 as int),
                    content_length(v@, span_views(h@)) == xor_value(s),
                    n as nat == xor_value(s.subrange(0, i - hd.2)),
                decreases hd.3 - i,
            {
                let d: u8 = v[i] ^ 0x30u8;
                proof {
                    assert(s.subrange(0, i + 1 - hd.2).drop_last() =~= s.subrange(0, i - hd.2));
                    assert(s.subrange(0, i + 1 - hd.2).last() == v@[i as int]);
                }
                let m = n.checked_mul(10);
                match m {
                    None => {
                        proof {
                            lemma_xor_value_prefix(s, i + 1 - hd.2, s.len() as int);
                            assert(s.subrange(0, s.len() as int) =~= s);
                        }
                        return None;
                    },
                    Some(t) => {
                        match t.checked_add(d as usize) {
                            None => {
                                proof {
                                    lemma_xor_value_prefix(s, i + 1 - hd.2, s.len() as int);
                                    assert(s.subrange(0, s.len() as int) =~= s);
                                }
                                return None;
                            },
                            Some(u) => {
                                n = u;
                            },
                        }
                    },
                }
                i += 1;
            }
            assert(s.subrange(0, s.len() as int) =~= s);
            return Some(n);
        }
        assert(hs.drop_first() =~= span_views(h@).subrange(x + 1, h@.len() as int));
        x += 1;
    }
    Some(0)
}

/// The first header named `Content-Length` gives the body's length,
/// wherever it stands among the headers and whatever headers follow it:
/// where its value is decimal digits, the length is the number they spell.
pub proof fn lemma_first_content_length_counts(v: Seq<u8>, hs: Seq<(int, int, int, int)>, k: int)
    requires
        0 <= k < hs.len(),
        forall|j: int| 0 <= j < k ==> v.subrange(#[trigger] hs[j].0, hs[j].1) != seq![67u8, 111, 110, 116, 101, 110, 116, 45, 76, 101, 110, 103, 116, 104],
        v.subrange(hs[k].0, hs[k].1) == seq![67u8, 111, 110, 116, 101, 110, 116, 45, 76, 101, 110, 103, 116, 104],
        hs[k].2 < hs[k].3,
        crate::bytes::all_digits(v.subrange(hs[k].2, hs[k].3)),
    ensures
        content_length(v, hs) == crate::bytes::digits_value(v.subrange(hs[k].2, hs[k].3)),
    decreases k,
{
    assert(content_length_name() =~= seq![67u8, 111, 110, 116, 101, 110, 116, 45, 76, 101, 110, 103, 116, 104]);
    if k == 0 {
        lemma_xor_value_digits(v.subrange(hs[k].2, hs[k].3));
    } else {
        let rest = hs.drop_first();
        assert(v.subrange(hs[0].0, hs[0].1) != seq![67u8, 111, 110, 116, 101, 110, 116, 45, 76, 101, 110, 103, 116, 104]);
        assert forall|j: int| 0 <= j < k - 1 implies v.subrange(#[trigger] rest[j].0, rest[j].1)
            != seq![67u8, 111, 110, 116, 101, 110, 116, 45, 76, 101, 110, 103, 116, 104] by {
            assert(rest[j] == hs[j + 1]);
        }
        assert(rest[k - 1] == hs[k]);
        lemma_first_content_length_counts(v, rest, k - 1);
    }
}

/// Without a header named `Content-Length` the body is empty.
pub proof fn lemma_no_content_length(v: Seq<u8>, hs: Seq<(int, int, int, int)>)
    requires
        forall|j: int| 0 <= j < hs.len() ==> v.subrange(#[trigger] hs[j].0, hs[j].1) != seq![67u8, 111, 110, 116, 101, 110, 116, 45, 76, 101, 110, 103, 116, 104],
    ensures
        content_length(v, hs) == 0,
    decreases hs.len(),
{
    assert(content_length_name() =~= seq![67u8, 111, 110, 116, 101, 110, 116, 45, 76, 101, 110, 103, 116, 104]);
    if hs.len() > 0 {
        let rest = hs.drop_first();
        assert(v.subrange(hs[0].0, hs[0].1) != seq![67u8, 111, 110, 116, 101, 110, 116, 45, 76, 101, 110, 103, 116, 104]);
        assert forall|j: int| 0 <= j < rest.len() implies v.subrange(#[trigger] rest[j].0, rest[j].1)
            != seq![67u8, 111, 110, 116, 101, 110, 116, 45, 76, 101, 110, 103, 116, 104] by {
            assert(rest[j] == hs[j + 1]);
        }
        lemma_no_content_length(v, rest);
    }
}

/// Header lines `name: value`, one per pair, separated by line breaks;
/// the last is followed by the blank line and so has none of its own.
pub open spec fn header_text(names: Seq<Seq<u8>>, values: Seq<Seq<u8>>) -> Seq<u8>
    decreases names.len(),
{
    if names.len() == 0 || values.len() == 0 {
        seq![]
    } else if names.len() == 1 {
        names[0] + seq![58u8, 32] + values[0]
    } else {
        names[0] + seq![58u8, 32] + values[0] + seq![13u8, 10] + header_text(names.drop_first(), values.drop_first())
    }
}

proof fn lemma_scan_for_reaches(v: Seq<u8>, from: int, stop: int, b: u8, t: int)
    requires
        from <= t <= stop,
        t < stop ==> v[t] == b,
        forall|k: int| from <= k < t ==> v[k] != b,
    ensures
        scan_for(v, from, stop, b) == t,
    decreases t - from,
{
    if from < t {
        lemma_scan_for_reaches(v, from + 1, stop, b, t);
    }
}

proof fn lemma_header_line_first(v: Seq<u8>, i: int, p: int, names: Seq<Seq<u8>>, values: Seq<Seq<u8>>)
    requires
        names.len() == values.len(),
        names.len() > 0,
        forall|m: int| 0 <= m < names[0].len() ==> names[0][m] != 58,
        forall|m: int| 0 <= m < values[0].len() ==> values[0][m] != 13,
        0 <= i <= p <= v.len(),
        v.subrange(i, p) == header_text(names, values),
    ensures
        ({
            let j = i + names[0].len();
            let e = j + 2 + values[0].len();
            &&& header_spans(v, i, p) == seq![(i, j, j + 2, e)] + header_spans(v, e + 2, p)
            &&& v.subrange(i, j) == names[0]
            &&& v.subrange(j + 2, e) == values[0]
            &&& names.len() == 1 ==> e == p
            &&& names.len() > 1 ==> e + 2 <= p && v.subrange(e + 2, p) == header_text(names.drop_first(), values.drop_first())
        }),
{
    let n0 = names[0];
    let v0 = values[0];
    let t = v.subrange(i, p);
    let j = i + n0.len();
    let e = j + 2 + v0.len();
    let head = n0 + seq![58u8, 32] + v0;
    if names.len() == 1 {
        assert(t == head);
    } else {
        assert(t == head + seq![13u8, 10] + header_text(names.drop_first(), values.drop_first()));
    }
    assert(t.subrange(0, n0.len() as int) =~= n0);
    assert(t.subrange(0, n0.len() as int) =~= v.subrange(i, j));
    assert(t.subrange(n0.len() as int + 2, head.len() as int) =~= v0);
    assert(t.subrange(n0.len() as int + 2, head.len() as int) =~= v.subrange(j + 2, e));
    assert(v[j] == t[n0.len() as int]);
    assert forall|m: int| i <= m < j implies v[m] != 58 by {
        assert(v[m] == v.subrange(i, j)[m - i]);
    }
    lemma_scan_for_reaches(v, i, p, 58, j);
    assert forall|m: int| j + 2 <= m < e implies v[m] != 13 by {
        assert(v[m] == v.subrange(j + 2, e)[m - j - 2]);
    }
    if names.len() == 1 {
        lemma_scan_for_reaches(v, j + 2, p, 13, e);
    } else {
        let rest = header_text(names.drop_first(), values.drop_first());
        assert(v[e] == t[e - i]);
        lemma_scan_for_reaches(v, j + 2, p, 13, e);
        assert(t.subrange(e + 2 - i, p - i) =~= rest);
        assert(t.subrange(e + 2 - i, p - i) =~= v.subrange(e + 2, p));
    }
}

/// The header spans pick out each header's name and value: where the
/// head from `i` to the blank line at `p` is written as header lines
/// whose names hold no colon and whose values hold no carriage return,
/// there is one span per line, and its name and value are those of the
/// line.
pub proof fn lemma_header_lines(v: Seq<u8>, i: int, p: int, names: Seq<Seq<u8>>, values: Seq<Seq<u8>>)
    requires
        names.len() == values.len(),
        forall|k: int, m: int| 0 <= k < names.len() && 0 <= m < names[k].len() ==> #[trigger] names[k][m] != 58,
        forall|k: int, m: int| 0 <= k < values.len() && 0 <= m < values[k].len() ==> #[trigger] values[k][m] != 13,
        0 <= i <= p <= v.len(),
        v.subrange(i, p) == header_text(names, values),
    ensures
        header_spans(v, i, p).len() == names.len(),
        forall|k: int|
            0 <= k < names.len() ==> v.subrange(#[trigger] header_spans(v, i, p)[k].0, header_spans(v, i, p)[k].1) == names[k]
                && v.subrange(header_spans(v, i, p)[k].2, header_spans(v, i, p)[k].3) == values[k]
                && i <= header_spans(v, i, p)[k].0 <= header_spans(v, i, p)[k].1
                && header_spans(v, i, p)[k].1 + 2 == header_spans(v, i, p)[k].2
                && header_spans(v, i, p)[k].2 <= header_spans(v, i, p)[k].3 <= p,
    decreases names.len(),
{
    if names.len() == 0 {
        assert(v.subrange(i, p).len() == 0);
    } else {
        assert forall|m: int| 0 <= m < names[0].len() implies names[0][m] != 58 by {
            assert(names[0][m] != 58);
        }
        assert forall|m: int| 0 <= m < values[0].len() implies values[0][m] != 13 by {
            assert(values[0][m] != 13);
        }
        lemma_header_line_first(v, i, p, names, values);
        let e = i + names[0].len() + 2 + values[0].len();
        if names.len() == 1 {
            assert(header_spans(v, e + 2, p) =~= Seq::<(int, int, int, int)>::empty());
        } else {
            let ns = names.drop_first();
            let vs = values.drop_first();
            assert forall|k: int, m: int| 0 <= k < ns.len() && 0 <= m < ns[k].len() implies #[trigger] ns[k][m] != 58 by {
                assert(ns[k] == names[k + 1]);
                assert(names[k + 1][m] != 58);
            }
            assert forall|k: int, m: int| 0 <= k < vs.len() && 0 <= m < vs[k].len() implies #[trigger] vs[k][m] != 13 by {
                assert(vs[k] == values[k + 1]);
                assert(values[k + 1][m] != 13);
            }
            lemma_header_lines(v, e + 2, p, ns, vs);
            let hs = header_spans(v, i, p);
            assert forall|k: int| 1 <= k < names.len() implies v.subrange(#[trigger] hs[k].0, hs[k].1) == names[k]
                && v.subrange(hs[k].2, hs[k].3) == values[k]
                && i <= hs[k].0 <= hs[k].1 && hs[k].1 + 2 == hs[k].2 && hs[k].2 <= hs[k].3 <= p by {
                assert(hs[k] == header_spans(v, e + 2, p)[k - 1]);
                assert(names[k] == ns[k - 1]);
                assert(values[k] == vs[k - 1]);
            }
        }
    }
}

/// Of a head written as header lines, the announced body length is the
/// decimal value of the first `Content-Length` line, wherever that line
/// stands and whatever lines come before or after it.
pub proof fn lemma_announced_length(
    v: Seq<u8>,
    i: int,
    p: int,
    names: Seq<Seq<u8>>,
    values: Seq<Seq<u8>>,
    k: int,
)
    requires
        names.len() == values.len(),
        forall|a: int, m: int| 0 <= a < names.len() && 0 <= m < names[a].len() ==> #[trigger] names[a][m] != 58,
        forall|a: int, m: int| 0 <= a < values.len() && 0 <= m < values[a].len() ==> #[trigger] values[a][m] != 13,
        0 <= i <= p <= v.len(),
        v.subrange(i, p) == header_text(names, values),
        0 <= k < names.len(),
        forall|a: int| 0 <= a < k ==> #[trigger] names[a] != seq![67u8, 111, 110, 116, 101, 110, 116, 45, 76, 101, 110, 103, 116, 104],
        names[k] == seq![67u8, 111, 110, 116, 101, 110, 116, 45, 76, 101, 110, 103, 116, 104],
        values[k].len() > 0,
        crate::bytes::all_digits(values[k]),
    ensures
        content_length(v, header_spans(v, i, p)) == crate::bytes::digits_value(values[k]),
{
    lemma_header_lines(v, i, p, names, values);
    let hs = header_spans(v, i, p);
    assert(v.subrange(hs[k].0, hs[k].1) == names[k]);
    assert(v.subrange(hs[k].2, hs[k].3) == values[k]);
    assert(hs[k].2 < hs[k].3);
    assert forall|a: int| 0 <= a < k implies v.subrange(#[trigger] hs[a].0, hs[a].1)
        != seq![67u8, 111, 110, 116, 101, 110, 116, 45, 76, 101, 110, 103, 116, 104] by {
        assert(v.subrange(hs[a].0, hs[a].1) == names[a]);
    }
    lemma_first_content_length_counts(v, hs, k);
}

/// A length written in ASCII digits is read as its decimal value: for
/// digits, `b ^ 0x30` is the digit's value.
pub proof fn lemma_xor_value_digits(s: Seq<u8>)
    requires
        crate::bytes::all_digits(s),
    ensures
        xor_value(s) == crate::bytes::digits_value(s),
    decreases s.len(),
{
    if s.len() > 0 {
        let b = s.last();
        assert(48 <= s[s.len() - 1] <= 57);
        assert(48 <= b <= 57 ==> (b ^ 0x30u8) == b - 48) by (bit_vector);
        assert(crate::bytes::all_digits(s.drop_last()));
        lemma_xor_value_digits(s.drop_last());
    }
}

} // verus!
