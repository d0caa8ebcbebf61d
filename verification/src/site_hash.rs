//! The fingerprint of a watched page, which tells whether it changed.
use vstd::prelude::*;
use vstd::slice::slice_subrange;
use crate::bytes::{beginstrb, is_prefix};

verus! {

/// The marker of an RSS build date, whose next thirty bytes are skipped.
pub open spec fn build_date_marker() -> Seq<u8> {
    seq![60u8, 108, 97, 115, 116, 66, 117, 105, 108, 100, 68, 97, 116, 101]
}

/// The marker of a CSRF token, whose next hundred bytes are skipped.
pub open spec fn csrf_marker() -> Seq<u8> {
    seq![99u8, 115, 114, 102]
}

/// The marker of an obfuscated e-mail address, whose next hundred bytes
/// are skipped.
pub open spec fn cfemail_marker() -> Seq<u8> {
    seq![100u8, 97, 116, 97, 45, 99, 102, 101, 109, 97, 105, 108]
}

/// `s` holds `n` at position `i`.
pub open spec fn starts_at(s: Seq<u8>, i: int, n: Seq<u8>) -> bool {
    0 <= i <= s.len() && is_prefix(n, s.subrange(i, s.len() as int))
}

/// Where the walk goes on from `i`: `k` bytes further where `s` holds `n`
/// at `i`, else `i`.
pub open spec fn skip_marker(s: Seq<u8>, i: int, n: Seq<u8>, k: int) -> int {
    if starts_at(s, i, n) {
        i + k
    } else {
        i
    }
}

/// What a byte adds to the fingerprint: digits count for nothing, since
/// they change with dates, counters and timings.
pub open spec fn byte_weight(b: u8) -> nat {
    if 48 <= b <= 57 {
        0
    } else {
        b as nat
    }
}

/// The fingerprint of `s` from position `i` on: the sum of the weights
/// of the bytes that the walk visits. At each visited position the walk
/// first skips the spans that the markers start, in their order; it is
/// `None` where a skip lands past the end of `s`, where the page cannot
/// be read as the walk asks.
pub open spec fn hash_from(s: Seq<u8>, i: int) -> Option<nat>
    decreases s.len() - i,
{
    if i < 0 || i >= s.len() {
        Some(0)
    } else {
        let a = skip_marker(s, i, build_date_marker(), 30);
        if a > s.len() {
            None
        } else {
            let b = skip_marker(s, a, csrf_marker(), 100);
            if b > s.len() {
                None
            } else {
                let c = skip_marker(s, b, cfemail_marker(), 100);
                if c >= s.len() {
                    None
                } else {
                    match hash_from(s, c + 1) {
                        Some(rest) => Some(byte_weight(s[c]) + rest),
                        None => None,
                    }
                }
            }
        }
    }
}

/// `x` added to an optional fingerprint.
pub open spec fn plus(x: nat, o: Option<nat>) -> Option<nat> {
    match o {
        Some(y) => Some(x + y),
        None => None,
    }
}

/// Whether `s` holds `marker` at position `i`.
fn marker_at(s: &[u8], i: usize, marker: &[u8]) -> (r: bool)
    requires
        i <= s.len(),
    ensures
        r == starts_at(s@, i as int, marker@),
{
    beginstrb(slice_subrange(s, i, s.len()), marker)
}

/// The fingerprint of a fetched page: the sum of its non-digit bytes, with
/// the spans after the markers skipped. `None` where the walk runs past
/// the end of the page, or where the sum does not fit in a `u32`.
pub fn site_hash(body: &[u8]) -> (r: Option<u32>)
    ensures
        match r {
            Some(h) => hash_from(body@, 0) == Some(h as nat),
            None => hash_from(body@, 0) is None || hash_from(body@, 0).unwrap() > u32::MAX,
        },
{
    let lbd: &[u8] = &[60u8, 108, 97, 115, 116, 66, 117, 105, 108, 100, 68, 97, 116, 101];
    let csrf: &[u8] = &[99u8, 115, 114, 102];
    let cfe: &[u8] = &[100u8, 97, 116, 97, 45, 99, 102, 101, 109, 97, 105, 108];
    assert(lbd@ =~= build_date_marker());
    assert(csrf@ =~= csrf_marker());
    assert(cfe@ =~= cfemail_marker());
    let n = body.len();
    let mut sum: u32 = 0;
    let mut i: usize = 0;
    while i < n
        invariant
            n == body@.len(),
            i <= n,
            hash_from(body@, 0) == plus(sum as nat, hash_from(body@, i as int)),
            lbd@ == build_date_marker(),
            csrf@ == csrf_marker(),
            cfe@ == cfemail_marker(),
        decreases n - i,
    {
        let ghost at = i as int;
        if marker_at(body, i, lbd) {
            if n - i < 30 {
                return None;
            }
            i = i + 30;
        }
        assert(i as int == skip_marker(body@, at, build_date_marker(), 30));
        let ghost at_b = i as int;
        if marker_at(body, i, csrf) {
            if n - i < 100 {
                return None;
            }
            i = i + 100;
        }
        assert(i as int == skip_marker(body@, at_b, csrf_marker(), 100));
        let ghost at_c = i as int;
        if marker_at(body, i, cfe) {
            if n - i < 100 {
                return None;
            }
            i = i + 100;
        }
        assert(i as int == skip_marker(body@, at_c, cfemail_marker(), 100));
        if i >= n {
            return None;
        }
        let b = body[i];
        let w: u32 = if b < 0x30 || b > 0x39 {
            b as u32
        } else {
            0
        };
        assert(w as nat == byte_weight(b));
        if sum > u32::MAX - w {
            return None;
        }
        sum = sum + w;
        i = i + 1;
    }
    Some(sum)
}

proof fn lemma_starts_at_suffix(s: Seq<u8>, t: Seq<u8>, b: int, j: int, n: Seq<u8>)
    requires
        s.len() == t.len(),
        0 <= b <= j,
        forall|k: int| b <= k < s.len() ==> s[k] == t[k],
    ensures
        starts_at(s, j, n) == starts_at(t, j, n),
{
    if j <= s.len() {
        assert(s.subrange(j, s.len() as int) =~= t.subrange(j, t.len() as int));
    }
}

/// What the walk gives from `j` on depends only on the bytes from `b` on,
/// for `b <= j`.
proof fn lemma_same_suffix(s: Seq<u8>, t: Seq<u8>, b: int, j: int)
    requires
        s.len() == t.len(),
        0 <= b <= j,
        forall|k: int| b <= k < s.len() ==> s[k] == t[k],
    ensures
        hash_from(s, j) == hash_from(t, j),
    decreases s.len() - j,
{
    if j < s.len() {
        lemma_starts_at_suffix(s, t, b, j, build_date_marker());
        let a = skip_marker(s, j, build_date_marker(), 30);
        lemma_starts_at_suffix(s, t, b, a, csrf_marker());
        let bb = skip_marker(s, a, csrf_marker(), 100);
        lemma_starts_at_suffix(s, t, b, bb, cfemail_marker());
        let c = skip_marker(s, bb, cfemail_marker(), 100);
        if c < s.len() {
            lemma_same_suffix(s, t, b, c + 1);
        }
    }
}

/// The first byte of what `s` holds at `i`.
proof fn lemma_starts_at_first(s: Seq<u8>, i: int, n: Seq<u8>)
    requires
        starts_at(s, i, n),
        n.len() > 0,
    ensures
        s[i] == n[0],
{
    assert(s.subrange(i, s.len() as int).subrange(0, n.len() as int)[0] == s[i]);
}

/// The thirty bytes from a build-date marker on do not count: from the
/// marker, pages that agree past those bytes have the same fingerprint.
pub proof fn lemma_build_date_span_skipped(s: Seq<u8>, t: Seq<u8>, i: int)
    requires
        s.len() == t.len(),
        0 <= i,
        i + 30 <= s.len(),
        starts_at(s, i, seq![60u8, 108, 97, 115, 116, 66, 117, 105, 108, 100, 68, 97, 116, 101]),
        starts_at(t, i, seq![60u8, 108, 97, 115, 116, 66, 117, 105, 108, 100, 68, 97, 116, 101]),
        forall|k: int| i + 30 <= k < s.len() ==> s[k] == t[k],
    ensures
        hash_from(s, i) == hash_from(t, i),
{
    assert(build_date_marker() =~= seq![60u8, 108, 97, 115, 116, 66, 117, 105, 108, 100, 68, 97, 116, 101]);
    let b = i + 30;
    lemma_starts_at_suffix(s, t, b, b, csrf_marker());
    let bb = skip_marker(s, b, csrf_marker(), 100);
    lemma_starts_at_suffix(s, t, b, bb, cfemail_marker());
    let c = skip_marker(s, bb, cfemail_marker(), 100);
    if c < s.len() {
        lemma_same_suffix(s, t, b, c + 1);
    }
}

/// The hundred bytes from a CSRF marker on do not count: from the marker,
/// pages that agree past those bytes have the same fingerprint, whatever
/// token the hundred bytes hold.
pub proof fn lemma_csrf_span_skipped(s: Seq<u8>, t: Seq<u8>, i: int)
    requires
        s.len() == t.len(),
        0 <= i,
        i + 100 <= s.len(),
        starts_at(s, i, seq![99u8, 115, 114, 102]),
        starts_at(t, i, seq![99u8, 115, 114, 102]),
        forall|k: int| i + 100 <= k < s.len() ==> s[k] == t[k],
    ensures
        hash_from(s, i) == hash_from(t, i),
{
    assert(build_date_marker() =~= seq![60u8, 108, 97, 115, 116, 66, 117, 105, 108, 100, 68, 97, 116, 101]);
    assert(csrf_marker() =~= seq![99u8, 115, 114, 102]);
    lemma_starts_at_first(s, i, csrf_marker());
    lemma_starts_at_first(t, i, csrf_marker());
    if starts_at(s, i, build_date_marker()) {
        lemma_starts_at_first(s, i, build_date_marker());
    }
    if starts_at(t, i, build_date_marker()) {
        lemma_starts_at_first(t, i, build_date_marker());
    }
    let b = i + 100;
    lemma_starts_at_suffix(s, t, b, b, cfemail_marker());
    let c = skip_marker(s, b, cfemail_marker(), 100);
    if c < s.len() {
        lemma_same_suffix(s, t, b, c + 1);
    }
}

/// The hundred bytes from an e-mail marker on do not count: from the
/// marker, pages that agree past those bytes have the same fingerprint.
pub proof fn lemma_cfemail_span_skipped(s: Seq<u8>, t: Seq<u8>, i: int)
    requires
        s.len() == t.len(),
        0 <= i,
        i + 100 <= s.len(),
        starts_at(s, i, seq![100u8, 97, 116, 97, 45, 99, 102, 101, 109, 97, 105, 108]),
        starts_at(t, i, seq![100u8, 97, 116, 97, 45, 99, 102, 101, 109, 97, 105, 108]),
        forall|k: int| i + 100 <= k < s.len() ==> s[k] == t[k],
    ensures
        hash_from(s, i) == hash_from(t, i),
{
    assert(build_date_marker() =~= seq![60u8, 108, 97, 115, 116, 66, 117, 105, 108, 100, 68, 97, 116, 101]);
    assert(csrf_marker() =~= seq![99u8, 115, 114, 102]);
    assert(cfemail_marker() =~= seq![100u8, 97, 116, 97, 45, 99, 102, 101, 109, 97, 105, 108]);
    lemma_starts_at_first(s, i, cfemail_marker());
    lemma_starts_at_first(t, i, cfemail_marker());
    if starts_at(s, i, build_date_marker()) {
        lemma_starts_at_first(s, i, build_date_marker());
    }
    if starts_at(t, i, build_date_marker()) {
        lemma_starts_at_first(t, i, build_date_marker());
    }
    if starts_at(s, i, csrf_marker()) {
        lemma_starts_at_first(s, i, csrf_marker());
    }
    if starts_at(t, i, csrf_marker()) {
        lemma_starts_at_first(t, i, csrf_marker());
    }
    let c = i + 100;
    if c < s.len() {
        lemma_same_suffix(s, t, c, c + 1);
    }
}

/// A page where no marker can start (no `<`, `c` or `d`) fingerprints to
/// the sum of its bytes that are not digits.
pub proof fn lemma_plain_page_sum(s: Seq<u8>, i: int)
    requires
        0 <= i,
        forall|k: int| i <= k < s.len() ==> s[k] != 0x3c && s[k] != 0x63 && s[k] != 0x64,
    ensures
        hash_from(s, i) == Some(weight_sum(s, i)),
    decreases s.len() - i,
{
    if i < s.len() {
        if starts_at(s, i, build_date_marker()) {
            lemma_starts_at_first(s, i, build_date_marker());
        }
        if starts_at(s, i, csrf_marker()) {
            lemma_starts_at_first(s, i, csrf_marker());
        }
        if starts_at(s, i, cfemail_marker()) {
            lemma_starts_at_first(s, i, cfemail_marker());
        }
        lemma_plain_page_sum(s, i + 1);
    }
}

/// The sum of the bytes of `s` from `i` on that are not ASCII digits.
pub open spec fn weight_sum(s: Seq<u8>, i: int) -> nat
    decreases s.len() - i,
{
    if i < 0 || i >= s.len() {
        0
    } else {
        (if 48 <= s[i] <= 57 {
            0
        } else {
            s[i] as nat
        }) + weight_sum(s, i + 1)
    }
}

/// `b` is an ASCII digit.
pub open spec fn is_digit(b: u8) -> bool {
    48 <= b <= 57
}

/// `s` and `t` differ only in digits: they have one length, and where
/// they differ both bytes are digits.
pub open spec fn same_but_digits(s: Seq<u8>, t: Seq<u8>) -> bool {
    &&& s.len() == t.len()
    &&& forall|k: int| 0 <= k < s.len() ==> #[trigger] s[k] == t[k] || (is_digit(s[k]) && is_digit(t[k]))
}

proof fn lemma_starts_at_same(s: Seq<u8>, t: Seq<u8>, i: int, n: Seq<u8>)
    requires
        same_but_digits(s, t),
        forall|j: int| 0 <= j < n.len() ==> !is_digit(#[trigger] n[j]),
    ensures
        starts_at(s, i, n) == starts_at(t, i, n),
{
    if 0 <= i <= s.len() && n.len() <= s.len() - i {
        assert forall|j: int| 0 <= j < n.len() && (s[i + j] == n[j] || t[i + j] == n[j]) implies s[i
            + j] == t[i + j] by {
            assert(s[i + j] == t[i + j] || (is_digit(s[i + j]) && is_digit(t[i + j])));
        }
        if starts_at(s, i, n) {
            assert forall|j: int| 0 <= j < n.len() implies #[trigger] t.subrange(i, t.len() as int)[j]
                == n[j] by {
                assert(s.subrange(i, s.len() as int).subrange(0, n.len() as int)[j] == n[j]);
                assert(s[i + j] == n[j]);
            }
            assert(t.subrange(i, t.len() as int).subrange(0, n.len() as int) =~= n);
        }
        if starts_at(t, i, n) {
            assert forall|j: int| 0 <= j < n.len() implies #[trigger] s.subrange(i, s.len() as int)[j]
                == n[j] by {
                assert(t.subrange(i, t.len() as int).subrange(0, n.len() as int)[j] == n[j]);
                assert(t[i + j] == n[j]);
            }
            assert(s.subrange(i, s.len() as int).subrange(0, n.len() as int) =~= n);
        }
    }
}

proof fn lemma_digits_from(s: Seq<u8>, t: Seq<u8>, i: int)
    requires
        same_but_digits(s, t),
    ensures
        hash_from(s, i) == hash_from(t, i),
    decreases s.len() - i,
{
    if 0 <= i < s.len() {
        assert(forall|j: int| 0 <= j < build_date_marker().len() ==> !is_digit(#[trigger] build_date_marker()[j]));
        assert(forall|j: int| 0 <= j < csrf_marker().len() ==> !is_digit(#[trigger] csrf_marker()[j]));
        assert(forall|j: int| 0 <= j < cfemail_marker().len() ==> !is_digit(#[trigger] cfemail_marker()[j]));
        lemma_starts_at_same(s, t, i, build_date_marker());
        let a = skip_marker(s, i, build_date_marker(), 30);
        lemma_starts_at_same(s, t, a, csrf_marker());
        let b = skip_marker(s, a, csrf_marker(), 100);
        lemma_starts_at_same(s, t, b, cfemail_marker());
        let c = skip_marker(s, b, cfemail_marker(), 100);
        if c < s.len() {
            assert(s[c] == t[c] || (is_digit(s[c]) && is_digit(t[c])));
            assert(byte_weight(s[c]) == byte_weight(t[c]));
            lemma_digits_from(s, t, c + 1);
        }
    }
}

/// Digits do not count: two pages that differ only in digits (dates,
/// counters, timings) have the same fingerprint.
pub proof fn lemma_digits_do_not_count(s: Seq<u8>, t: Seq<u8>)
    requires
        same_but_digits(s, t),
    ensures
        hash_from(s, 0) == hash_from(t, 0),
{
    lemma_digits_from(s, t, 0);
}

} // verus!
