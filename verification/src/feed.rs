//! The feed of watched sites: its records, the text file that stores
//! them, and the rules that update, order and render them.
use vstd::prelude::*;
use vstd::slice::{slice_subrange, slice_to_vec};
use crate::bytes::{decimal, decimal_text, parse_decimal, parse_u32, parse_u64, push_all};
use crate::unicode::utf8_valid;

verus! {

/// One watched site: where to look for changes, where to link, what to
/// show, when it last changed (seconds since the epoch) and the hash of
/// its page at the last visit.
#[derive(Clone, Debug, PartialEq, Eq)]
pub struct FeedItem {
    pub lookup: Option<Vec<u8>>,
    pub href: Option<Vec<u8>>,
    pub text: Option<Vec<u8>>,
    pub date: Option<u64>,
    pub hash: Option<u32>,
}

/// What a `FeedItem` holds, as plain values.
pub struct FeedRecord {
    pub lookup: Option<Seq<u8>>,
    pub href: Option<Seq<u8>>,
    pub text: Option<Seq<u8>>,
    pub date: Option<u64>,
    pub hash: Option<u32>,
}

/// The bytes of an optional byte vector.
pub open spec fn bytes_view(o: Option<Vec<u8>>) -> Option<Seq<u8>> {
    match o {
        Some(v) => Some(v@),
        None => None,
    }
}

impl View for FeedItem {
    type V = FeedRecord;

    open spec fn view(&self) -> FeedRecord {
        FeedRecord {
            lookup: bytes_view(self.lookup),
            href: bytes_view(self.href),
            text: bytes_view(self.text),
            date: self.date,
            hash: self.hash,
        }
    }
}

/// The records of a list of items.
pub open spec fn records(items: Seq<FeedItem>) -> Seq<FeedRecord> {
    items.map_values(|it: FeedItem| it@)
}

/// The record of an optional item.
pub open spec fn opt_record(o: Option<FeedItem>) -> Option<FeedRecord> {
    match o {
        Some(it) => Some(it@),
        None => None,
    }
}

/// A record with no field set.
pub open spec fn empty_record() -> FeedRecord {
    FeedRecord { lookup: None, href: None, text: None, date: None, hash: None }
}

impl FeedItem {
    /// An item with no field set.
    pub fn new() -> (r: Self)
        ensures
            r@ == empty_record(),
    {
        FeedItem { lookup: None, href: None, text: None, date: None, hash: None }
    }
}

/// Why a feed file could not be read. The stored file is trusted to be
/// well formed; these are the ways in which it may not be.
#[derive(Debug, Clone, Copy, PartialEq, Eq)]
pub enum FeedError {
    /// A field line ends before its two-byte tag and the separator.
    Truncated,
    /// A field's value is not UTF-8.
    InvalidUtf8,
    /// A `dt` or `hs` value is not a decimal number of the field's width.
    InvalidNumber,
}

/// The index of the first newline at or after `i`, or the length of `v`.
pub open spec fn line_end(v: Seq<u8>, i: int) -> int
    decreases v.len() - i,
{
    if i >= v.len() {
        v.len() as int
    } else if v[i] == 10 {
        i
    } else {
        line_end(v, i + 1)
    }
}

/// Where a line that starts at `i` ends.
pub proof fn lemma_line_end(v: Seq<u8>, i: int)
    requires
        0 <= i <= v.len(),
    ensures
        i <= line_end(v, i) <= v.len(),
        line_end(v, i) < v.len() ==> v[line_end(v, i)] == 10,
        forall|k: int| i <= k < line_end(v, i) ==> v[k] != 10,
    decreases v.len() - i,
{
    if i < v.len() && v[i] != 10 {
        lemma_line_end(v, i + 1);
    }
}

/// The record `r` with the field that the tag `t0 t1` names set to
/// `value`. The tags are `ln` (where to look), `rf` (link), `tx` (text),
/// `dt` (date, decimal `u64`) and `hs` (hash, decimal `u32`); any other
/// tag leaves the record as it is.
pub open spec fn with_field(r: FeedRecord, t0: u8, t1: u8, value: Seq<u8>) -> Result<
    FeedRecord,
    FeedError,
> {
    if t0 == 0x6c && t1 == 0x6e {
        Ok(FeedRecord { lookup: Some(value), href: r.href, text: r.text, date: r.date, hash: r.hash })
    } else if t0 == 0x72 && t1 == 0x66 {
        Ok(FeedRecord { lookup: r.lookup, href: Some(value), text: r.text, date: r.date, hash: r.hash })
    } else if t0 == 0x74 && t1 == 0x78 {
        Ok(FeedRecord { lookup: r.lookup, href: r.href, text: Some(value), date: r.date, hash: r.hash })
    } else if t0 == 0x64 && t1 == 0x74 {
        match parse_decimal(value, u64::MAX as nat) {
            Some(n) => Ok(
                FeedRecord {
                    lookup: r.lookup,
                    href: r.href,
                    text: r.text,
                    date: Some(n as u64),
                    hash: r.hash,
                },
            ),
            None => Err(FeedError::InvalidNumber),
        }
    } else if t0 == 0x68 && t1 == 0x73 {
        match parse_decimal(value, u32::MAX as nat) {
            Some(n) => Ok(
                FeedRecord {
                    lookup: r.lookup,
                    href: r.href,
                    text: r.text,
                    date: r.date,
                    hash: Some(n as u32),
                },
            ),
            None => Err(FeedError::InvalidNumber),
        }
    } else {
        Ok(r)
    }
}

/// `p` followed by the records of `rest`, or the error of `rest`.
pub open spec fn prepend(p: Seq<FeedRecord>, rest: Result<Seq<FeedRecord>, FeedError>) -> Result<
    Seq<FeedRecord>,
    FeedError,
> {
    match rest {
        Ok(s) => Ok(p + s),
        Err(e) => Err(e),
    }
}

/// The records that the feed text `v` holds from index `i` on, with `cur`
/// the record being read (`None` between records).
///
/// Records are runs of field lines `TT value\n`; a line that is empty ends
/// a record, and empty lines between records are skipped. A record that
/// the text ends inside of is dropped.
pub open spec fn feed_from(v: Seq<u8>, i: int, cur: Option<FeedRecord>) -> Result<
    Seq<FeedRecord>,
    FeedError,
>
    decreases v.len() + 1 - i, if cur is Some { 0int } else { 1int },
{
    if i < 0 || i >= v.len() {
        Ok(seq![])
    } else {
        match cur {
            None => if v[i] == 10 {
                feed_from(v, i + 1, None)
            } else {
                feed_from(v, i, Some(empty_record()))
            },
            Some(r) => if v[i] == 10 {
                prepend(seq![r], feed_from(v, i + 1, None))
            } else if v.len() - i < 3 {
                Err(FeedError::Truncated)
            } else {
                let e = line_end(v, i + 3);
                proof {
                    lemma_line_end(v, i + 3);
                }
                let value = v.subrange(i + 3, e);
                if !vstd::utf8::valid_utf8(value) {
                    Err(FeedError::InvalidUtf8)
                } else {
                    match with_field(r, v[i], v[i + 1], value) {
                        Ok(r2) => feed_from(v, e + 1, Some(r2)),
                        Err(x) => Err(x),
                    }
                }
            },
        }
    }
}

/// The records that the feed text `v` holds.
pub open spec fn feed_records(v: Seq<u8>) -> Result<Seq<FeedRecord>, FeedError> {
    feed_from(v, 0, None)
}

/// The index of the first newline at or after `start`, or `v.len()`.
fn line_end_exec(v: &[u8], start: usize) -> (e: usize)
    requires
        start <= v.len(),
    ensures
        e == line_end(v@, start as int),
{
    let mut k: usize = start;
    while k < v.len() && v[k] != 10
        invariant
            start <= k <= v.len(),
            line_end(v@, start as int) == line_end(v@, k as int),
        decreases v.len() - k,
    {
        k += 1;
    }
    k
}

/// Sets the field that the tag `t0 t1` names to `value`, as `with_field`
/// says.
fn set_field(r: &mut FeedItem, t0: u8, t1: u8, value: Vec<u8>) -> (res: Result<(), FeedError>)
    ensures
        match with_field(old(r)@, t0, t1, value@) {
            Ok(r2) => res is Ok && final(r)@ == r2,
            Err(x) => res == Err::<(), FeedError>(x),
        },
{
    if t0 == 0x6c && t1 == 0x6e {
        r.lookup = Some(value);
        Ok(())
    } else if t0 == 0x72 && t1 == 0x66 {
        r.href = Some(value);
        Ok(())
    } else if t0 == 0x74 && t1 == 0x78 {
        r.text = Some(value);
        Ok(())
    } else if t0 == 0x64 && t1 == 0x74 {
        match parse_u64(value.as_slice()) {
            Some(n) => {
                r.date = Some(n);
                Ok(())
            },
            None => Err(FeedError::InvalidNumber),
        }
    } else if t0 == 0x68 && t1 == 0x73 {
        match parse_u32(value.as_slice()) {
            Some(n) => {
                r.hash = Some(n);
                Ok(())
            },
            None => Err(FeedError::InvalidNumber),
        }
    } else {
        Ok(())
    }
}

/// Reads the records of a feed text, or says why it is not one.
pub fn parse_feed(v: &[u8]) -> (r: Result<Vec<FeedItem>, FeedError>)
    ensures
        match r {
            Ok(items) => feed_records(v@) == Ok::<Seq<FeedRecord>, FeedError>(records(items@)),
            Err(e) => feed_records(v@) == Err::<Seq<FeedRecord>, FeedError>(e),
        },
{
    let mut items: Vec<FeedItem> = Vec::new();
    let mut cur: Option<FeedItem> = None;
    let mut i: usize = 0;
    assert(records(items@) =~= Seq::<FeedRecord>::empty());
    assert(prepend(records(items@), feed_from(v@, 0, None)) == feed_from(v@, 0, None)) by {
        match feed_from(v@, 0, None) {
            Ok(s) => { assert(Seq::<FeedRecord>::empty() + s =~= s); },
            Err(_) => {},
        }
    }
    loop
        invariant
            i <= v.len(),
            feed_from(v@, 0, None) == prepend(records(items@), feed_from(v@, i as int, opt_record(cur))),
        decreases 2 * (v.len() + 1 - i) + (if cur is Some { 0int } else { 1int }),
    {
        if i >= v.len() {
            return Ok(items);
        }
        match cur {
            None => {
                if v[i] == 10 {
                    i += 1;
                } else {
                    cur = Some(FeedItem::new());
                }
            },
            Some(mut item) => {
                if v[i] == 10 {
                    let ghost before = records(items@);
                    let ghost rec = item@;
                    items.push(item);
                    cur = None;
                    i += 1;
                    proof {
                        assert(records(items@) =~= before + seq![rec]);
                        match feed_from(v@, i as int, None) {
                            Ok(s) => { assert(before + (seq![rec] + s) =~= before + seq![rec] + s); },
                            Err(_) => {},
                        }
                    }
                } else if v.len() - i < 3 {
                    return Err(FeedError::Truncated);
                } else {
                    let e = line_end_exec(v, i + 3);
                    proof {
                        lemma_line_end(v@, i + 3);
                    }
                    let value = slice_to_vec(slice_subrange(v, i + 3, e));
                    if !utf8_valid(value.as_slice()) {
                        return Err(FeedError::InvalidUtf8);
                    }
                    let t0 = v[i];
                    let t1 = v[i + 1];
                    match set_field(&mut item, t0, t1, value) {
                        Err(x) => {
                            return Err(x);
                        },
                        Ok(()) => {},
                    }
                    if e == v.len() {
                        proof {
                            assert(feed_from(v@, e + 1, Some(item@)) == Ok::<Seq<FeedRecord>, FeedError>(seq![]));
                            assert(records(items@) + Seq::<FeedRecord>::empty() =~= records(items@));
                        }
                        return Ok(items);
                    }
                    i = e + 1;
                    cur = Some(item);
                }
            },
        }
    }
}

/// A field line: the two tag bytes, a space, the value and a newline.
pub open spec fn field_line(t0: u8, t1: u8, value: Seq<u8>) -> Seq<u8> {
    seq![t0, t1, 32u8] + value + seq![10u8]
}

/// The field line for an optional value; nothing where it is absent.
pub open spec fn opt_line(t0: u8, t1: u8, o: Option<Seq<u8>>) -> Seq<u8> {
    match o {
        Some(v) => field_line(t0, t1, v),
        None => seq![],
    }
}

/// The decimal text of an optional number.
pub open spec fn opt_decimal(o: Option<nat>) -> Option<Seq<u8>> {
    match o {
        Some(n) => Some(decimal_text(n)),
        None => None,
    }
}

/// The date of a record as a number.
pub open spec fn date_nat(r: FeedRecord) -> Option<nat> {
    match r.date {
        Some(n) => Some(n as nat),
        None => None,
    }
}

/// The hash of a record as a number.
pub open spec fn hash_nat(r: FeedRecord) -> Option<nat> {
    match r.hash {
        Some(n) => Some(n as nat),
        None => None,
    }
}

/// How a record is stored: its fields that are set, in the order `ln`,
/// `rf`, `tx`, `dt`, `hs`, then an empty line.
pub open spec fn record_text(r: FeedRecord) -> Seq<u8> {
    opt_line(0x6c, 0x6e, r.lookup) + opt_line(0x72, 0x66, r.href) + opt_line(0x74, 0x78, r.text)
        + opt_line(0x64, 0x74, opt_decimal(date_nat(r))) + opt_line(
        0x68,
        0x73,
        opt_decimal(hash_nat(r)),
    ) + seq![10u8]
}

/// How a list of records is stored: each record's text, in order.
pub open spec fn feed_text(rs: Seq<FeedRecord>) -> Seq<u8>
    decreases rs.len(),
{
    if rs.len() == 0 {
        seq![]
    } else {
        record_text(rs[0]) + feed_text(rs.drop_first())
    }
}

/// The stored text of two lists one after the other is the text of the
/// first followed by the text of the second.
pub proof fn lemma_feed_text_concat(a: Seq<FeedRecord>, b: Seq<FeedRecord>)
    ensures
        feed_text(a + b) == feed_text(a) + feed_text(b),
    decreases a.len(),
{
    if a.len() == 0 {
        assert(a + b =~= b);
        assert(feed_text(a) + feed_text(b) =~= feed_text(b));
    } else {
        lemma_feed_text_concat(a.drop_first(), b);
        assert((a + b).drop_first() =~= a.drop_first() + b);
        assert((a + b)[0] == a[0]);
        assert(record_text(a[0]) + (feed_text(a.drop_first()) + feed_text(b)) =~= record_text(a[0])
            + feed_text(a.drop_first()) + feed_text(b));
    }
}

/// Appends a field line for `value` under the tag `t0 t1`.
fn push_line(out: &mut Vec<u8>, t0: u8, t1: u8, value: &[u8])
    ensures
        final(out)@ == old(out)@ + field_line(t0, t1, value@),
{
    out.push(t0);
    out.push(t1);
    out.push(32u8);
    push_all(out, value);
    out.push(10u8);
    assert(final(out)@ =~= old(out)@ + field_line(t0, t1, value@));
}

/// Appends the field line for an optional value.
fn push_opt_line(out: &mut Vec<u8>, t0: u8, t1: u8, o: &Option<Vec<u8>>)
    ensures
        final(out)@ == old(out)@ + opt_line(t0, t1, bytes_view(*o)),
{
    match o {
        Some(h) => push_line(out, t0, t1, h.as_slice()),
        None => {
            assert(out@ =~= old(out)@ + Seq::<u8>::empty());
        },
    }
}

/// The decimal text of an optional number, as an optional number.
pub open spec fn opt_nat(o: Option<u64>) -> Option<nat> {
    match o {
        Some(n) => Some(n as nat),
        None => None,
    }
}

/// Appends the field line for an optional number, written in decimal.
fn push_opt_number(out: &mut Vec<u8>, t0: u8, t1: u8, o: Option<u64>)
    ensures
        final(out)@ == old(out)@ + opt_line(t0, t1, opt_decimal(opt_nat(o))),
{
    match o {
        Some(n) => {
            let t = decimal(n);
            push_line(out, t0, t1, t.as_slice());
        },
        None => {
            assert(out@ =~= old(out)@ + Seq::<u8>::empty());
        },
    }
}

/// Appends the stored text of one item.
fn push_record(out: &mut Vec<u8>, item: &FeedItem)
    ensures
        final(out)@ == old(out)@ + record_text(item@),
{
    let ghost start = out@;
    let ghost r = item@;
    push_opt_line(out, 0x6c, 0x6e, &item.lookup);
    push_opt_line(out, 0x72, 0x66, &item.href);
    push_opt_line(out, 0x74, 0x78, &item.text);
    let d: Option<u64> = match item.date {
        Some(n) => Some(n),
        None => None,
    };
    push_opt_number(out, 0x64, 0x74, d);
    let h: Option<u64> = match item.hash {
        Some(n) => Some(n as u64),
        None => None,
    };
    push_opt_number(out, 0x68, 0x73, h);
    out.push(10u8);
    proof {
        assert(opt_nat(d) == date_nat(r));
        assert(opt_nat(h) == hash_nat(r));
        assert(out@ =~= start + record_text(r));
    }
}

/// The stored text of a list of items, as the feed file holds it.
pub fn serialize_feed(items: &Vec<FeedItem>) -> (r: Vec<u8>)
    ensures
        r@ == feed_text(records(items@)),
{
    let mut out: Vec<u8> = Vec::new();
    let mut k: usize = 0;
    while k < items.len()
        invariant
            k <= items.len(),
            out@ == feed_text(records(items@).take(k as int)),
        decreases items.len() - k,
    {
        push_record(&mut out, &items[k]);
        proof {
            let rs = records(items@);
            assert(rs.take(k + 1) =~= rs.take(k as int) + seq![rs[k as int]]);
            lemma_feed_text_concat(rs.take(k as int), seq![rs[k as int]]);
            let one = seq![rs[k as int]];
            assert(one.drop_first() =~= Seq::<FeedRecord>::empty());
            assert(feed_text(one.drop_first()) == Seq::<u8>::empty());
            assert(record_text(one[0]) + Seq::<u8>::empty() =~= record_text(one[0]));
            assert(feed_text(one) == record_text(rs[k as int]));
        }
        k += 1;
    }
    assert(records(items@).take(items.len() as int) =~= records(items@));
    out
}

/// The address to fetch when visiting an item: its lookup address. An
/// item without one is not visited, so nothing about it changes.
pub fn visit_address(item: &FeedItem) -> (r: Option<Vec<u8>>)
    ensures
        bytes_view(r) == item@.lookup,
{
    match &item.lookup {
        Some(l) => Some(slice_to_vec(l.as_slice())),
        None => None,
    }
}

/// How a visit changes a record, given the hash of the page now (`None`
/// when the page could not be fetched) and the time `now`. A page seen
/// before whose hash differs gets the new hash and is dated `now`; a page
/// never seen (no date, no hash) gets its first hash and stays undated;
/// anything else is left as it is.
pub open spec fn visited(r: FeedRecord, currhash: Option<u32>, now: u64) -> FeedRecord {
    match (currhash, r.hash) {
        (Some(c), Some(h)) => if c != h {
            FeedRecord {
                lookup: r.lookup,
                href: r.href,
                text: r.text,
                date: Some(now),
                hash: Some(c),
            }
        } else {
            r
        },
        _ => if r.date is None && r.hash is None && currhash is Some {
            FeedRecord {
                lookup: r.lookup,
                href: r.href,
                text: r.text,
                date: r.date,
                hash: currhash,
            }
        } else {
            r
        },
    }
}

/// Records a visit to an item's page: `currhash` is the hash of the page
/// now (`None` when it could not be fetched), `currdate` the time.
pub fn update_item(item: &mut FeedItem, currhash: Option<u32>, currdate: u64)
    ensures
        final(item)@ == visited(old(item)@, currhash, currdate),
{
    match (currhash, item.hash) {
        (Some(c), Some(h)) => {
            if c != h {
                item.hash = Some(c);
                item.date = Some(currdate);
            }
        },
        _ => {
            if item.date.is_none() && item.hash.is_none() {
                if let Some(h) = currhash {
                    item.hash = Some(h);
                }
            }
        },
    }
}

/// A visit never changes where an item looks, links or what it shows; it
/// dates an item only when a page seen before has changed, and then with
/// the time of the visit; a failed fetch changes nothing.
pub proof fn lemma_visit_rules(r: FeedRecord, currhash: Option<u32>, now: u64)
    ensures
        visited(r, currhash, now).lookup == r.lookup,
        visited(r, currhash, now).href == r.href,
        visited(r, currhash, now).text == r.text,
        visited(r, currhash, now).date != r.date ==> {
            &&& r.hash is Some
            &&& currhash is Some
            &&& currhash != r.hash
            &&& visited(r, currhash, now).date == Some(now)
        },
        currhash is None ==> visited(r, currhash, now) == r,
        currhash == r.hash ==> visited(r, currhash, now) == r,
{
}

/// A page seen before that has changed gets the new hash and is dated
/// now, whatever its date was (none included); a first visit of an
/// undated page records the hash and leaves it undated.
pub proof fn lemma_changed_page_is_dated(r: FeedRecord, h: u32, c: u32, now: u64)
    ensures
        r.hash == Some(h) && c != h ==> visited(r, Some(c), now).hash == Some(c)
            && visited(r, Some(c), now).date == Some(now),
        r.hash is None && r.date is None ==> visited(r, Some(c), now).hash == Some(c)
            && visited(r, Some(c), now).date is None,
{
}

} // verus!
