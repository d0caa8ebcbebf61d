//! The feed page: one line per item, with its age and a link.
use vstd::prelude::*;
use crate::bytes::{decimal, decimal_text, push_all};
use crate::feed::{records, FeedItem, FeedRecord};

verus! {

/// Whether the page can list this record at time `now`: it has a link or
/// a lookup address to point at, and it did not change after `now`.
pub open spec fn listable(r: FeedRecord, now: u64) -> bool {
    &&& (r.href is Some || r.lookup is Some)
    &&& (r.date matches Some(d) ==> d <= now)
}

/// Where an item's line links to: its link, else its lookup address.
pub open spec fn link_of(r: FeedRecord) -> Seq<u8> {
    match r.href {
        Some(h) => h,
        None => r.lookup.unwrap(),
    }
}

/// What an item's line shows: its text, else where it links to.
pub open spec fn label_of(r: FeedRecord) -> Seq<u8> {
    match r.text {
        Some(t) => t,
        None => link_of(r),
    }
}

/// How long ago the item changed, in seconds and followed by a space;
/// nothing for an undated item.
pub open spec fn age_text(r: FeedRecord, now: u64) -> Seq<u8> {
    match r.date {
        Some(d) => decimal_text((now - d) as nat) + seq![32u8],
        None => seq![],
    }
}

/// One item's line: `<br/>`, its age, and a link.
pub open spec fn item_html(r: FeedRecord, now: u64) -> Seq<u8> {
    seq![60u8, 98, 114, 47, 62] + age_text(r, now) + seq![60u8, 97, 32, 104, 114, 101, 102, 61, 34] + link_of(r) + seq![34u8, 62] + label_of(r)
        + seq![60u8, 47, 97, 62, 10]
}

/// The lines of all items, in order.
pub open spec fn feed_html_text(rs: Seq<FeedRecord>, now: u64) -> Seq<u8>
    decreases rs.len(),
{
    if rs.len() == 0 {
        seq![]
    } else {
        feed_html_text(rs.drop_last(), now) + item_html(rs.last(), now)
    }
}

fn push_item_html(out: &mut Vec<u8>, item: &FeedItem, now: u64)
    requires
        listable(item@, now),
    ensures
        final(out)@ == old(out)@ + item_html(item@, now),
{
    let ghost start = out@;
    let ghost r = item@;
    push_all(out, &[60u8, 98, 114, 47, 62]);
    assert(out@ =~= start + seq![60u8, 98, 114, 47, 62]);
    match item.date {
        Some(d) => {
            let t = decimal(now - d);
            push_all(out, t.as_slice());
            out.push(32u8);
        },
        None => {},
    }
    assert(out@ =~= start + seq![60u8, 98, 114, 47, 62] + age_text(r, now));
    let ghost s1 = out@;
    push_all(out, &[60u8, 97, 32, 104, 114, 101, 102, 61, 34]);
    let url: &Vec<u8> = match &item.href {
        Some(h) => h,
        None => match &item.lookup {
            Some(l) => l,
            None => {
                assert(false);
                return;
            },
        },
    };
    assert(url@ == link_of(r));
    push_all(out, url.as_slice());
    push_all(out, &[34u8, 62]);
    let label: &Vec<u8> = match &item.text {
        Some(t) => t,
        None => url,
    };
    push_all(out, label.as_slice());
    push_all(out, &[60u8, 47, 97, 62, 10]);
    assert(out@ =~= s1 + seq![60u8, 97, 32, 104, 114, 101, 102, 61, 34] + link_of(r) + seq![34u8, 62] + label_of(r) + seq![60u8, 47, 97, 62, 10]);
    assert(out@ =~= start + item_html(r, now));
}

/// The body of the feed page at time `now` (seconds since the epoch).
pub fn feed_html(items: &Vec<FeedItem>, now: u64) -> (r: Vec<u8>)
    requires
        forall|i: int| 0 <= i < items.len() ==> listable(#[trigger] items@[i]@, now),
    ensures
        r@ == feed_html_text(records(items@), now),
{
    let mut out: Vec<u8> = Vec::new();
    let mut k: usize = 0;
    while k < items.len()
        invariant
            k <= items.len(),
            forall|i: int| 0 <= i < items.len() ==> listable(#[trigger] items@[i]@, now),
            out@ == feed_html_text(records(items@).take(k as int), now),
        decreases items.len() - k,
    {
        push_item_html(&mut out, &items[k], now);
        proof {
            let rs = records(items@);
            assert(rs.take(k + 1).drop_last() =~= rs.take(k as int));
            assert(rs.take(k + 1).last() == items@[k as int]@);
        }
        k += 1;
    }
    assert(records(items@).take(items.len() as int) =~= records(items@));
    out
}

} // verus!
