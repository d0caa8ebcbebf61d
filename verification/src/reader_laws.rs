//! The request that the reader assembles does not depend on how the reads
//! split the bytes.
use vstd::prelude::*;
use crate::feed::line_end;
use crate::http::{concat_all, content_length, header_spans, lemma_scan_for, scan_for};
use crate::reader::{
    blank_line_at, lemma_reader_step, lemma_scan_blank, reader_inv, reader_start, reader_step,
    scan_blank, Outcome, ReaderView, RequestView,
};

verus! {

/// The outcome of feeding the reads `chunks` to the reader in state `s`,
/// one after the other, stopping at the first read that does not leave it
/// pending.
pub open spec fn run_reads(s: ReaderView, chunks: Seq<Seq<u8>>) -> Outcome
    decreases chunks.len(),
{
    if chunks.len() == 0 {
        Outcome::Pending
    } else if reader_step(s, chunks[0]).1 is Pending {
        run_reads(reader_step(s, chunks[0]).0, chunks.drop_first())
    } else {
        reader_step(s, chunks[0]).1
    }
}

/// The bytes `r` start with a request that the reader can take: its head
/// ends at the first blank line, at `p`; the headers announce a body of
/// `len` bytes, which fits with the head in a `usize` and is all there;
/// and the first two spaces, at `s1` and `s2`, lie in the head.
pub open spec fn framed_request(r: Seq<u8>, p: int, len: int, s1: int, s2: int) -> bool {
    &&& blank_line_at(r, p)
    &&& forall|k: int| 0 <= k < p ==> !#[trigger] blank_line_at(r, k)
    &&& len == content_length(r, header_spans(r, line_end(r, 0) + 1, p)) as int
    &&& p + 4 + len <= usize::MAX
    &&& p + 4 + len <= r.len()
    &&& 0 <= s1 < s2 < p
    &&& r[s1] == 32
    &&& r[s2] == 32
    &&& forall|k: int| 0 <= k < s1 ==> r[k] != 32
    &&& forall|k: int| s1 < k < s2 ==> r[k] != 32
}

/// The request that such bytes hold.
pub open spec fn framed_result(r: Seq<u8>, p: int, len: int, s1: int, s2: int) -> Outcome {
    Outcome::Ready(
        RequestView { bytes: r.subrange(0, p + 4 + len), imd: (0, s1), ipt: (s1 + 1, s2), icont: p + 4 },
    )
}

/// `v` is the start of `r`.
pub open spec fn is_start_of(v: Seq<u8>, r: Seq<u8>) -> bool {
    v.len() <= r.len() && v == r.subrange(0, v.len() as int)
}

proof fn lemma_start_index(v: Seq<u8>, r: Seq<u8>, k: int)
    requires
        is_start_of(v, r),
        0 <= k < v.len(),
    ensures
        v[k] == r[k],
{
    assert(r.subrange(0, v.len() as int)[k] == r[k]);
}

proof fn lemma_line_end_start(v: Seq<u8>, r: Seq<u8>, i: int, q: int)
    requires
        is_start_of(v, r),
        0 <= i <= q < v.len(),
        r[q] == 10,
    ensures
        line_end(v, i) == line_end(r, i),
    decreases q - i,
{
    lemma_start_index(v, r, i);
    lemma_start_index(v, r, q);
    if v[i] != 10 {
        lemma_line_end_start(v, r, i + 1, q);
    }
}

proof fn lemma_scan_for_start(v: Seq<u8>, r: Seq<u8>, from: int, stop: int, b: u8)
    requires
        is_start_of(v, r),
        0 <= from,
        stop <= v.len(),
    ensures
        scan_for(v, from, stop, b) == scan_for(r, from, stop, b),
    decreases stop - from,
{
    if from < stop {
        lemma_start_index(v, r, from);
        lemma_scan_for_start(v, r, from + 1, stop, b);
    }
}

proof fn lemma_header_spans_start(v: Seq<u8>, r: Seq<u8>, i: int, end: int)
    requires
        is_start_of(v, r),
        0 <= i,
        end <= v.len(),
    ensures
        header_spans(v, i, end) == header_spans(r, i, end),
    decreases end + 4 - i,
{
    if i < end {
        lemma_scan_for_start(v, r, i, end, 0x3a);
        let j = scan_for(r, i, end, 0x3a);
        lemma_scan_for(r, i, end, 0x3a);
        lemma_scan_for_start(v, r, j + 2, end, 0x0d);
        let k = scan_for(r, j + 2, end, 0x0d);
        lemma_scan_for(r, j + 2, end, 0x0d);
        lemma_header_spans_start(v, r, k + 2, end);
    }
}

proof fn lemma_header_spans_bounds(r: Seq<u8>, i: int, end: int)
    requires
        0 <= i,
    ensures
        forall|n: int|
            0 <= n < header_spans(r, i, end).len() ==> {
                let h = #[trigger] header_spans(r, i, end)[n];
                &&& i <= h.0 <= h.1 <= end
                &&& h.2 == h.1 + 2
                &&& h.2 <= h.3 <= end + 2
            },
    decreases end + 4 - i,
{
    if i < end {
        let j = scan_for(r, i, end, 0x3a);
        lemma_scan_for(r, i, end, 0x3a);
        let k = scan_for(r, j + 2, end, 0x0d);
        lemma_scan_for(r, j + 2, end, 0x0d);
        lemma_header_spans_bounds(r, k + 2, end);
        let hs = header_spans(r, i, end);
        let rest = header_spans(r, k + 2, end);
        assert(hs == seq![(i, j, j + 2, k)] + rest);
        assert forall|n: int| 0 <= n < hs.len() implies {
            let h = #[trigger] hs[n];
            &&& i <= h.0 <= h.1 <= end
            &&& h.2 == h.1 + 2
            &&& h.2 <= h.3 <= end + 2
        } by {
            if n > 0 {
                assert(hs[n] == rest[n - 1]);
            }
        }
    }
}

proof fn lemma_content_length_start(v: Seq<u8>, r: Seq<u8>, hs: Seq<(int, int, int, int)>)
    requires
        is_start_of(v, r),
        forall|n: int|
            0 <= n < hs.len() ==> {
                let h = #[trigger] hs[n];
                &&& 0 <= h.0 <= h.1 <= v.len()
                &&& 0 <= h.2 <= h.3 <= v.len()
            },
    ensures
        content_length(v, hs) == content_length(r, hs),
    decreases hs.len(),
{
    if hs.len() > 0 {
        let h = hs[0];
        assert(v.subrange(h.0, h.1) =~= r.subrange(h.0, h.1)) by {
            assert forall|j: int| 0 <= j < h.1 - h.0 implies v.subrange(h.0, h.1)[j] == r.subrange(
                h.0,
                h.1,
            )[j] by {
                lemma_start_index(v, r, h.0 + j);
            }
        }
        assert(v.subrange(h.2, h.3) =~= r.subrange(h.2, h.3)) by {
            assert forall|j: int| 0 <= j < h.3 - h.2 implies v.subrange(h.2, h.3)[j] == r.subrange(
                h.2,
                h.3,
            )[j] by {
                lemma_start_index(v, r, h.2 + j);
            }
        }
        let rest = hs.drop_first();
        assert forall|n: int| 0 <= n < rest.len() implies {
            let h = #[trigger] rest[n];
            &&& 0 <= h.0 <= h.1 <= v.len()
            &&& 0 <= h.2 <= h.3 <= v.len()
        } by {
            assert(rest[n] == hs[n + 1]);
        }
        lemma_content_length_start(v, r, rest);
    }
}

proof fn lemma_scan_blank_finds(v: Seq<u8>, from: int, p: int)
    requires
        0 <= from <= p,
        blank_line_at(v, p),
        forall|k: int| from <= k < p ==> !#[trigger] blank_line_at(v, k),
    ensures
        scan_blank(v, from) == p,
    decreases p - from,
{
    if from < p {
        assert(!blank_line_at(v, from));
        lemma_scan_blank_finds(v, from + 1, p);
    }
}

proof fn lemma_scan_for_finds(v: Seq<u8>, from: int, stop: int, b: u8, t: int)
    requires
        from <= t < stop,
        v[t] == b,
        forall|k: int| from <= k < t ==> v[k] != b,
    ensures
        scan_for(v, from, stop, b) == t,
    decreases t - from,
{
    if from < t {
        lemma_scan_for_finds(v, from + 1, stop, b, t);
    }
}

/// A blank line that lies wholly within the start `v` of `r` is one of
/// `r`, and the other way round.
proof fn lemma_blank_start(v: Seq<u8>, r: Seq<u8>)
    requires
        is_start_of(v, r),
    ensures
        forall|k: int| 0 <= k && k + 3 < v.len() ==> #[trigger] blank_line_at(v, k) == blank_line_at(r, k),
{
    assert forall|k: int| 0 <= k && k + 3 < v.len() implies #[trigger] blank_line_at(v, k)
        == blank_line_at(r, k) by {
        lemma_start_index(v, r, k);
        lemma_start_index(v, r, k + 1);
        lemma_start_index(v, r, k + 2);
        lemma_start_index(v, r, k + 3);
    }
}

/// A reader state on the way to the request in `r`: it has read a start
/// of `r`; until it finds the blank line at `p` it has not passed it, and
/// once found it knows the body's length and still waits for bytes.
pub open spec fn on_the_way(r: Seq<u8>, p: int, len: int, s: ReaderView) -> bool {
    &&& is_start_of(s.v, r)
    &&& reader_inv(s)
    &&& if s.dcrlf {
        &&& s.icrlf == p
        &&& s.conlen == len
        &&& s.v.len() < p + 4 + len
    } else {
        &&& s.icrlf <= p
        &&& s.v.len() <= p + 3
    }
}

proof fn lemma_reads(
    r: Seq<u8>,
    p: int,
    len: int,
    s1: int,
    s2: int,
    s: ReaderView,
    chunks: Seq<Seq<u8>>,
)
    requires
        framed_request(r, p, len, s1, s2),
        on_the_way(r, p, len, s),
        concat_all(chunks) == r.subrange(s.v.len() as int, r.len() as int),
        s.dcrlf || s.v.len() >= 3 || (chunks.len() > 0 && s.v.len() + chunks[0].len() >= 3),
    ensures
        run_reads(s, chunks) == framed_result(r, p, len, s1, s2),
    decreases chunks.len(),
{
    if chunks.len() == 0 {
        assert(r.subrange(s.v.len() as int, r.len() as int).len() == 0);
        assert(false);
    } else {
        let c = chunks[0];
        let rest = chunks.drop_first();
        let n0 = s.v.len() as int;
        let v = s.v + c;
        let n = v.len() as int;
        assert(concat_all(chunks) == c + concat_all(rest));
        assert(n <= r.len()) by {
            assert(r.subrange(n0, r.len() as int).len() == c.len() + concat_all(rest).len());
        }
        assert(is_start_of(v, r)) by {
            assert forall|k: int| 0 <= k < n implies v[k] == r.subrange(0, n)[k] by {
                if k < n0 {
                    lemma_start_index(s.v, r, k);
                } else {
                    assert(c[k - n0] == (c + concat_all(rest))[k - n0]);
                    assert(r.subrange(n0, r.len() as int)[k - n0] == r[k]);
                }
            }
            assert(v =~= r.subrange(0, n));
        }
        assert(concat_all(rest) =~= r.subrange(n, r.len() as int)) by {
            assert forall|j: int| 0 <= j < concat_all(rest).len() implies concat_all(rest)[j]
                == r.subrange(n, r.len() as int)[j] by {
                assert((c + concat_all(rest))[c.len() + j] == concat_all(rest)[j]);
                assert(r.subrange(n0, r.len() as int)[c.len() + j] == r[n + j]);
            }
        }
        lemma_blank_start(v, r);
        lemma_reader_step(s, c);
        let st = reader_step(s, c);
        assert(st.0.v == v);
        if !s.dcrlf {
            lemma_scan_blank(v, s.icrlf);
            if p + 3 < n {
                // The blank line is now in sight, and it is the first one.
                assert(blank_line_at(v, p));
                assert forall|k: int| s.icrlf <= k < p implies !#[trigger] blank_line_at(v, k) by {
                    assert(!blank_line_at(r, k));
                }
                lemma_scan_blank_finds(v, s.icrlf, p);
                lemma_line_end_start(v, r, 0, p + 1);
                let start = line_end(r, 0) + 1;
                crate::feed::lemma_line_end(r, 0);
                lemma_header_spans_start(v, r, start, p);
                lemma_header_spans_bounds(r, start, p);
                lemma_content_length_start(v, r, header_spans(r, start, p));
                assert(st.0.dcrlf && st.0.icrlf == p && st.0.conlen == len);
            } else {
                assert(!st.0.dcrlf);
                assert(st.1 is Pending);
                assert(on_the_way(r, p, len, st.0));
                lemma_reads(r, p, len, s1, s2, st.0, rest);
                return;
            }
        }
        // The blank line is found at `p` and the body's length is `len`.
        if n < p + 4 + len {
            assert(st.1 is Pending);
            assert(on_the_way(r, p, len, st.0));
            lemma_reads(r, p, len, s1, s2, st.0, rest);
        } else {
            lemma_start_index(v, r, s1);
            lemma_start_index(v, r, s2);
            assert forall|k: int| 0 <= k < s1 implies v[k] != 32 by {
                lemma_start_index(v, r, k);
            }
            assert forall|k: int| s1 + 1 <= k < s2 implies v[k] != 32 by {
                lemma_start_index(v, r, k);
            }
            lemma_scan_for_finds(v, 0, n, 32, s1);
            lemma_scan_for_finds(v, s1 + 1, n, 32, s2);
            let t = p + 4 + len;
            assert(v.subrange(0, t) =~= r.subrange(0, t)) by {
                assert forall|j: int| 0 <= j < t implies #[trigger] v.subrange(0, t)[j] == r.subrange(
                    0,
                    t,
                )[j] by {
                    lemma_start_index(v, r, j);
                }
            }
        }
    }
}

/// However the bytes `r` of a request are split into reads, the reader
/// assembles the same request: that of `framed_result`, made of the bytes
/// up to the end of the announced body, with the method and path taken
/// from the first two spaces and the body starting after the first blank
/// line. Bytes after the body change nothing. The one condition on the
/// split is that the first read brings at least three bytes (on a shorter
/// first read the reader faults).
pub proof fn lemma_reads_split_freely(
    r: Seq<u8>,
    p: int,
    len: int,
    s1: int,
    s2: int,
    chunks: Seq<Seq<u8>>,
)
    requires
        framed_request(r, p, len, s1, s2),
        concat_all(chunks) == r,
        chunks.len() > 0,
        chunks[0].len() >= 3,
    ensures
        run_reads(reader_start(), chunks) == framed_result(r, p, len, s1, s2),
{
    let s = reader_start();
    assert(s.v =~= r.subrange(0, 0));
    assert(r.subrange(0, r.len() as int) =~= r);
    assert(on_the_way(r, p, len, s));
    lemma_reads(r, p, len, s1, s2, s, chunks);
}

} // verus!
