//! What the feed store promises across its functions: a list of records
//! written by `serialize_feed` is read back unchanged by `parse_feed`.
use vstd::prelude::*;
use crate::bytes::{all_digits, decimal_text, digits_of, lemma_decimal_roundtrip, lemma_digits_of_value};
use crate::feed::{
    date_nat, empty_record, feed_from, feed_records, feed_text, field_line, hash_nat, line_end,
    opt_decimal, opt_line, prepend, record_text, with_field, FeedError, FeedRecord,
};
use crate::unicode::lemma_ascii_valid_utf8;

verus! {

/// A value that a field line can hold and give back: UTF-8 without a
/// newline byte.
pub open spec fn line_safe(v: Seq<u8>) -> bool {
    vstd::utf8::valid_utf8(v) && forall|k: int| 0 <= k < v.len() ==> v[k] != 10
}

/// An optional value that a field line can hold and give back.
pub open spec fn opt_line_safe(o: Option<Seq<u8>>) -> bool {
    match o {
        Some(v) => line_safe(v),
        None => true,
    }
}

/// A record that the feed file can store and give back: at least one field
/// is set (a record with none is written as an empty line, which reading
/// skips) and its text fields are UTF-8 without newlines.
pub open spec fn storable(r: FeedRecord) -> bool {
    &&& (r.lookup is Some || r.href is Some || r.text is Some || r.date is Some || r.hash is Some)
    &&& opt_line_safe(r.lookup)
    &&& opt_line_safe(r.href)
    &&& opt_line_safe(r.text)
}

proof fn lemma_line_end_at(v: Seq<u8>, i: int, m: int)
    requires
        0 <= i <= m < v.len(),
        v[m] == 10,
        forall|k: int| i <= k < m ==> v[k] != 10,
    ensures
        line_end(v, i) == m,
    decreases m - i,
{
    if i < m {
        lemma_line_end_at(v, i + 1, m);
    }
}

proof fn lemma_field_line(t0: u8, t1: u8, value: Seq<u8>)
    ensures
        field_line(t0, t1, value).len() == value.len() + 4,
        field_line(t0, t1, value)[0] == t0,
        field_line(t0, t1, value)[1] == t1,
        field_line(t0, t1, value)[value.len() + 3int] == 10,
        forall|j: int|
            0 <= j < value.len() ==> #[trigger] field_line(t0, t1, value)[j + 3] == value[j],
{
    let line = field_line(t0, t1, value);
    let head = seq![t0, t1, 32u8];
    assert(line == head + value + seq![10u8]);
    assert((head + value)[0] == t0);
    assert((head + value)[1] == t1);
    assert forall|j: int| 0 <= j < value.len() implies #[trigger] line[j + 3] == value[j] by {
        assert((head + value)[j + 3] == value[j]);
    }
}

/// Where `v` holds `a + b` at `p`, it holds `a` at `p` and `b` after it.
proof fn lemma_split(v: Seq<u8>, p: int, a: Seq<u8>, b: Seq<u8>)
    requires
        0 <= p,
        p + a.len() + b.len() <= v.len(),
        v.subrange(p, p + a.len() + b.len()) == a + b,
    ensures
        v.subrange(p, p + a.len()) == a,
        v.subrange(p + a.len(), p + a.len() + b.len()) == b,
{
    let whole = v.subrange(p, p + a.len() + b.len());
    assert forall|j: int| 0 <= j < a.len() implies v.subrange(p, p + a.len())[j] == a[j] by {
        assert(whole[j] == (a + b)[j]);
    }
    assert forall|j: int| 0 <= j < b.len() implies v.subrange(
        p + a.len(),
        p + a.len() + b.len(),
    )[j] == b[j] by {
        assert(whole[a.len() + j] == (a + b)[a.len() + j]);
    }
    assert(v.subrange(p, p + a.len()) =~= a);
    assert(v.subrange(p + a.len(), p + a.len() + b.len()) =~= b);
}

proof fn lemma_field_step(
    v: Seq<u8>,
    p: int,
    r: FeedRecord,
    t0: u8,
    t1: u8,
    value: Seq<u8>,
    r2: FeedRecord,
)
    requires
        0 <= p,
        p + value.len() + 4 <= v.len(),
        v.subrange(p, p + value.len() + 4) == field_line(t0, t1, value),
        t0 != 10,
        line_safe(value),
        with_field(r, t0, t1, value) == Ok::<FeedRecord, FeedError>(r2),
    ensures
        feed_from(v, p, Some(r)) == feed_from(v, p + value.len() + 4, Some(r2)),
{
    lemma_field_line(t0, t1, value);
    let line = field_line(t0, t1, value);
    let n = value.len() as int;
    let m = p + 3 + n;
    assert forall|j: int| 0 <= j < n + 4 implies v[p + j] == line[j] by {
        assert(v.subrange(p, p + n + 4)[j] == v[p + j]);
    }
    assert(v[p] == line[0]);
    assert(v[p + 1] == line[1]);
    assert(v[m] == line[n + 3]);
    assert forall|k: int| p + 3 <= k < m implies v[k] != 10 by {
        assert(v[k] == line[(k - p - 3) + 3]);
    }
    lemma_line_end_at(v, p + 3, m);
    assert(v.subrange(p + 3, m) =~= value) by {
        assert forall|j: int| 0 <= j < n implies v.subrange(p + 3, m)[j] == value[j] by {
            assert(v[p + 3 + j] == line[j + 3]);
        }
    }
}

proof fn lemma_opt_step(
    v: Seq<u8>,
    p: int,
    r: FeedRecord,
    t0: u8,
    t1: u8,
    o: Option<Seq<u8>>,
    r2: FeedRecord,
)
    requires
        0 <= p,
        p + opt_line(t0, t1, o).len() <= v.len(),
        v.subrange(p, p + opt_line(t0, t1, o).len()) == opt_line(t0, t1, o),
        t0 != 10,
        o is None ==> r2 == r,
        o matches Some(val) ==> line_safe(val) && with_field(r, t0, t1, val) == Ok::<
            FeedRecord,
            FeedError,
        >(r2),
    ensures
        feed_from(v, p, Some(r)) == feed_from(v, p + opt_line(t0, t1, o).len(), Some(r2)),
{
    match o {
        Some(val) => {
            lemma_field_step(v, p, r, t0, t1, val, r2);
        },
        None => {},
    }
}

/// The decimal text of a number is a safe field value and reads back as
/// that number.
proof fn lemma_decimal_safe(n: nat)
    ensures
        line_safe(decimal_text(n)),
        all_digits(decimal_text(n)),
{
    lemma_digits_of_value(n);
    let t = decimal_text(n);
    assert forall|i: int| 0 <= i < t.len() implies #[trigger] t[i] < 0x80 by {
        if n != 0 {
            assert(48 <= digits_of(n)[i] <= 57);
        }
    }
    lemma_ascii_valid_utf8(t);
    assert forall|k: int| 0 <= k < t.len() implies t[k] != 10 by {
        if n != 0 {
            assert(48 <= digits_of(n)[k] <= 57);
        }
    }
    assert forall|i: int| 0 <= i < t.len() implies 48 <= #[trigger] t[i] <= 57 by {
        if n != 0 {
            assert(48 <= digits_of(n)[i] <= 57);
        }
    }
}

/// Where a record starts.
proof fn lemma_item_start(v: Seq<u8>, p: int)
    requires
        0 <= p < v.len(),
        v[p] != 10,
    ensures
        feed_from(v, p, None) == feed_from(v, p, Some(empty_record())),
{
}

/// Where a record ends.
proof fn lemma_item_end(v: Seq<u8>, q: int, r: FeedRecord)
    requires
        0 <= q < v.len(),
        v[q] == 10,
    ensures
        feed_from(v, q, Some(r)) == prepend(seq![r], feed_from(v, q + 1, None)),
{
}

/// The layout of a stored record within `v`.
proof fn lemma_record_layout(v: Seq<u8>, p: int, r: FeedRecord)
    requires
        0 <= p,
        p + record_text(r).len() <= v.len(),
        v.subrange(p, p + record_text(r).len()) == record_text(r),
        storable(r),
    ensures
        ({
            let l1 = opt_line(0x6c, 0x6e, r.lookup);
            let l2 = opt_line(0x72, 0x66, r.href);
            let l3 = opt_line(0x74, 0x78, r.text);
            let l4 = opt_line(0x64, 0x74, opt_decimal(date_nat(r)));
            let l5 = opt_line(0x68, 0x73, opt_decimal(hash_nat(r)));
            let p1 = p + l1.len();
            let p2 = p1 + l2.len();
            let p3 = p2 + l3.len();
            let p4 = p3 + l4.len();
            let p5 = p4 + l5.len();
            &&& v.subrange(p, p1) == l1
            &&& v.subrange(p1, p2) == l2
            &&& v.subrange(p2, p3) == l3
            &&& v.subrange(p3, p4) == l4
            &&& v.subrange(p4, p5) == l5
            &&& p5 + 1 == p + record_text(r).len()
            &&& v[p5] == 10
            &&& v[p] != 10
        }),
{
    let rt = record_text(r);
    let l1 = opt_line(0x6c, 0x6e, r.lookup);
    let l2 = opt_line(0x72, 0x66, r.href);
    let l3 = opt_line(0x74, 0x78, r.text);
    let l4 = opt_line(0x64, 0x74, opt_decimal(date_nat(r)));
    let l5 = opt_line(0x68, 0x73, opt_decimal(hash_nat(r)));
    let p1 = p + l1.len();
    let p2 = p1 + l2.len();
    let p3 = p2 + l3.len();
    let p4 = p3 + l4.len();
    let p5 = p4 + l5.len();
    let a2 = l1 + l2;
    let a3 = a2 + l3;
    let a4 = a3 + l4;
    let a5 = a4 + l5;
    assert(rt == a5 + seq![10u8]);
    lemma_split(v, p, a5, seq![10u8]);
    lemma_split(v, p, a4, l5);
    lemma_split(v, p, a3, l4);
    lemma_split(v, p, a2, l3);
    lemma_split(v, p, l1, l2);
    assert(v[p5] == 10) by {
        assert(v.subrange(p5, p5 + 1)[0] == v[p5]);
    }
    assert(v[p] != 10) by {
        if r.lookup is Some {
            assert(v.subrange(p, p1)[0] == v[p]);
        } else if r.href is Some {
            assert(v.subrange(p1, p2)[0] == v[p]);
        } else if r.text is Some {
            assert(v.subrange(p2, p3)[0] == v[p]);
        } else if r.date is Some {
            assert(v.subrange(p3, p4)[0] == v[p]);
        } else {
            assert(v.subrange(p4, p5)[0] == v[p]);
        }
    }
}

proof fn lemma_record_step(v: Seq<u8>, p: int, r: FeedRecord)
    requires
        0 <= p,
        p + record_text(r).len() <= v.len(),
        v.subrange(p, p + record_text(r).len()) == record_text(r),
        storable(r),
    ensures
        feed_from(v, p, None) == prepend(seq![r], feed_from(v, p + record_text(r).len(), None)),
{
    lemma_record_layout(v, p, r);
    let l1 = opt_line(0x6c, 0x6e, r.lookup);
    let l2 = opt_line(0x72, 0x66, r.href);
    let l3 = opt_line(0x74, 0x78, r.text);
    let l4 = opt_line(0x64, 0x74, opt_decimal(date_nat(r)));
    let l5 = opt_line(0x68, 0x73, opt_decimal(hash_nat(r)));
    let p1 = p + l1.len();
    let p2 = p1 + l2.len();
    let p3 = p2 + l3.len();
    let p4 = p3 + l4.len();
    let p5 = p4 + l5.len();
    let r0 = empty_record();
    let r1 = FeedRecord { lookup: r.lookup, href: None, text: None, date: None, hash: None };
    let r2 = FeedRecord { lookup: r.lookup, href: r.href, text: None, date: None, hash: None };
    let r3 = FeedRecord { lookup: r.lookup, href: r.href, text: r.text, date: None, hash: None };
    let r4 = FeedRecord { lookup: r.lookup, href: r.href, text: r.text, date: r.date, hash: None };
    lemma_item_start(v, p);
    lemma_opt_step(v, p, r0, 0x6c, 0x6e, r.lookup, r1);
    lemma_opt_step(v, p1, r1, 0x72, 0x66, r.href, r2);
    lemma_opt_step(v, p2, r2, 0x74, 0x78, r.text, r3);
    match r.date {
        Some(d) => {
            lemma_decimal_safe(d as nat);
            lemma_decimal_roundtrip(d as nat, u64::MAX as nat);
        },
        None => {},
    }
    lemma_opt_step(v, p3, r3, 0x64, 0x74, opt_decimal(date_nat(r)), r4);
    match r.hash {
        Some(h) => {
            lemma_decimal_safe(h as nat);
            lemma_decimal_roundtrip(h as nat, u32::MAX as nat);
        },
        None => {},
    }
    lemma_opt_step(v, p4, r4, 0x68, 0x73, opt_decimal(hash_nat(r)), r);
    lemma_item_end(v, p5, r);
}

proof fn lemma_feed_suffix(v: Seq<u8>, p: int, rs: Seq<FeedRecord>)
    requires
        0 <= p <= v.len(),
        v.subrange(p, v.len() as int) == feed_text(rs),
        forall|i: int| 0 <= i < rs.len() ==> storable(#[trigger] rs[i]),
    ensures
        feed_from(v, p, None) == Ok::<Seq<FeedRecord>, FeedError>(rs),
    decreases rs.len(),
{
    if rs.len() == 0 {
        assert(v.subrange(p, v.len() as int).len() == 0);
        assert(rs =~= Seq::<FeedRecord>::empty());
    } else {
        let rt = record_text(rs[0]);
        let rest = rs.drop_first();
        let q = p + rt.len();
        assert(feed_text(rs) == rt + feed_text(rest));
        assert(v.subrange(p, q) =~= rt) by {
            assert forall|j: int| 0 <= j < rt.len() implies v.subrange(p, q)[j] == rt[j] by {
                assert(v.subrange(p, v.len() as int)[j] == v[p + j]);
            }
        }
        assert(v.subrange(q, v.len() as int) =~= feed_text(rest)) by {
            assert forall|j: int| 0 <= j < v.len() - q implies v.subrange(q, v.len() as int)[j]
                == feed_text(rest)[j] by {
                assert(v.subrange(p, v.len() as int)[rt.len() + j] == v[q + j]);
            }
        }
        assert(storable(rs[0]));
        lemma_record_step(v, p, rs[0]);
        assert forall|i: int| 0 <= i < rest.len() implies storable(#[trigger] rest[i]) by {
            assert(rest[i] == rs[i + 1]);
        }
        lemma_feed_suffix(v, q, rest);
        assert(seq![rs[0]] + rest =~= rs);
    }
}

/// Reading back what was written gives the same records: for records that
/// the file can store, `feed_records(feed_text(rs))` is `Ok(rs)`. With
/// the contracts of `serialize_feed` and `parse_feed`, parsing the bytes
/// that `serialize_feed` returns gives back the items' records.
pub proof fn lemma_feed_roundtrip(rs: Seq<FeedRecord>)
    requires
        forall|i: int| 0 <= i < rs.len() ==> storable(#[trigger] rs[i]),
    ensures
        feed_records(feed_text(rs)) == Ok::<Seq<FeedRecord>, FeedError>(rs),
{
    let v = feed_text(rs);
    assert(v.subrange(0, v.len() as int) =~= v);
    lemma_feed_suffix(v, 0, rs);
}

} // verus!
