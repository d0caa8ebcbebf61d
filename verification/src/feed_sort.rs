//! Ordering the feed: most recently changed sites first.
use vstd::prelude::*;
use crate::feed::FeedItem;

verus! {

broadcast use vstd::seq_lib::group_seq_properties;

/// The sort key of a date: undated items rank below every dated one.
pub open spec fn date_key(d: Option<u64>) -> int {
    match d {
        Some(x) => x as int,
        None => -1,
    }
}

/// Where the selection of the newest item among positions `i..j` of `s`
/// lands: the first position with the greatest key (`i` when `j <= i + 1`).
pub open spec fn best_index(s: Seq<FeedItem>, i: int, j: int) -> int
    decreases j - i,
{
    if j <= i + 1 {
        i
    } else {
        let m = best_index(s, i, j - 1);
        if date_key(s[j - 1].date) > date_key(s[m].date) {
            j - 1
        } else {
            m
        }
    }
}

/// The selection lands within the range and on a greatest key.
pub proof fn lemma_best_index(s: Seq<FeedItem>, i: int, j: int)
    requires
        0 <= i < j <= s.len(),
    ensures
        i <= best_index(s, i, j) < j,
        forall|k: int| i <= k < j ==> date_key(#[trigger] s[k].date) <= date_key(s[best_index(s, i, j)].date),
    decreases j - i,
{
    if j > i + 1 {
        lemma_best_index(s, i, j - 1);
    }
}

/// `s` with the items at `a` and `b` exchanged.
pub open spec fn swap_at(s: Seq<FeedItem>, a: int, b: int) -> Seq<FeedItem> {
    s.update(a, s[b]).update(b, s[a])
}

/// Selection sort from position `i` on: the newest remaining item is
/// swapped to the front of what remains, until one item is left.
pub open spec fn selection_from(s: Seq<FeedItem>, i: int) -> Seq<FeedItem>
    decreases s.len() - i,
{
    if i < 0 || i + 1 >= s.len() {
        s
    } else {
        proof {
            lemma_best_index(s, i, s.len() as int);
        }
        selection_from(swap_at(s, i, best_index(s, i, s.len() as int)), i + 1)
    }
}

/// The order in which the feed lists its items.
pub open spec fn date_order(s: Seq<FeedItem>) -> Seq<FeedItem> {
    selection_from(s, 0)
}

/// Exchanges the items at `a` and `b`.
fn swap_items(items: &mut Vec<FeedItem>, a: usize, b: usize)
    requires
        a < old(items).len(),
        b < old(items).len(),
    ensures
        final(items)@ == swap_at(old(items)@, a as int, b as int),
{
    if a == b {
        assert(swap_at(items@, a as int, b as int) =~= items@);
        return;
    }
    let mut t = FeedItem::new();
    std::mem::swap(&mut t, &mut items[a]);
    std::mem::swap(&mut t, &mut items[b]);
    std::mem::swap(&mut t, &mut items[a]);
    assert(items@ =~= swap_at(old(items)@, a as int, b as int));
}

/// Orders the items newest first, dated before undated, by selection sort
/// (which need not keep equal items in their order). The list must not be
/// empty.
pub fn sort_feed(items: &mut Vec<FeedItem>)
    requires
        old(items).len() > 0,
    ensures
        final(items)@ == date_order(old(items)@),
{
    let n = items.len();
    let mut i: usize = 0;
    while i < n - 1
        invariant
            n == items.len(),
            n > 0,
            i <= n - 1,
            selection_from(items@, i as int) == date_order(old(items)@),
        decreases n - i,
    {
        let mut mj: usize = i;
        let mut j: usize = i + 1;
        while j < n
            invariant
                n == items.len(),
                i < j <= n,
                i <= mj < j,
                mj == best_index(items@, i as int, j as int),
            decreases n - j,
        {
            match items[j].date {
                None => {},
                Some(dj) => {
                    match items[mj].date {
                        None => {
                            mj = j;
                        },
                        Some(dm) => {
                            if dj > dm {
                                mj = j;
                            }
                        },
                    }
                },
            }
            j += 1;
        }
        swap_items(items, i, mj);
        i += 1;
    }
}

/// No item is newer than one listed before it; undated items come last.
pub open spec fn newest_first(s: Seq<FeedItem>) -> bool {
    forall|p: int, q: int|
        0 <= p < q < s.len() ==> date_key(#[trigger] s[p].date) >= date_key(#[trigger] s[q].date)
}

proof fn lemma_swap_multiset(s: Seq<FeedItem>, a: int, b: int)
    requires
        0 <= a < s.len(),
        0 <= b < s.len(),
    ensures
        swap_at(s, a, b).to_multiset() == s.to_multiset(),
        swap_at(s, a, b).len() == s.len(),
{
    broadcast use vstd::multiset::group_multiset_properties;

    let s1 = s.update(a, s[b]);
    vstd::seq_lib::to_multiset_update(s, a, s[b]);
    vstd::seq_lib::to_multiset_update(s1, b, s[a]);
    if a == b {
        assert(swap_at(s, a, b) =~= s);
    } else {
        assert(s1[b] == s[b]);
        assert(swap_at(s, a, b).to_multiset() =~= s.to_multiset());
    }
}

proof fn lemma_selection(s: Seq<FeedItem>, i: int)
    requires
        0 <= i <= s.len(),
        forall|p: int, q: int|
            0 <= p < q < i ==> date_key(#[trigger] s[p].date) >= date_key(#[trigger] s[q].date),
        forall|p: int, q: int|
            0 <= p < i <= q < s.len() ==> date_key(#[trigger] s[p].date) >= date_key(
                #[trigger] s[q].date,
            ),
    ensures
        newest_first(selection_from(s, i)),
        selection_from(s, i).to_multiset() == s.to_multiset(),
        selection_from(s, i).len() == s.len(),
    decreases s.len() - i,
{
    if i + 1 >= s.len() {
        assert forall|p: int, q: int| 0 <= p < q < s.len() implies date_key(#[trigger] s[p].date)
            >= date_key(#[trigger] s[q].date) by {
            if q < i {
            } else {
                assert(p < i <= q);
            }
        }
    } else {
        let n = s.len() as int;
        let m = best_index(s, i, n);
        lemma_best_index(s, i, n);
        let t = swap_at(s, i, m);
        lemma_swap_multiset(s, i, m);
        assert(t[i] == s[m]);
        assert forall|k: int| i < k < n implies (t[k] == s[k] || t[k] == s[i]) && (#[trigger] t[k]
            == s[k] || k == m) by {}
        assert forall|p: int, q: int| 0 <= p < q < i + 1 implies date_key(#[trigger] t[p].date)
            >= date_key(#[trigger] t[q].date) by {
            if q < i {
                assert(t[p] == s[p] && t[q] == s[q]);
            } else {
                assert(t[p] == s[p]);
                assert(p < i <= m < n);
            }
        }
        assert forall|p: int, q: int| 0 <= p < i + 1 <= q < n implies date_key(
            #[trigger] t[p].date,
        ) >= date_key(#[trigger] t[q].date) by {
            if q == m {
                assert(t[q] == s[i]);
            } else {
                assert(t[q] == s[q]);
            }
            if p < i {
                assert(t[p] == s[p]);
                if q == m {
                    assert(p < i <= i);
                } else {
                    assert(p < i <= q);
                }
            } else {
                assert(t[p] == s[m]);
                if q == m {
                    assert(i <= i < n);
                } else {
                    assert(i <= q < n);
                }
            }
        }
        lemma_selection(t, i + 1);
    }
}

/// The feed's order lists newer items before older ones and undated items
/// last, and it neither loses nor adds an item: `date_order(s)` is a
/// permutation of `s` whose date keys never increase.
pub proof fn lemma_date_order(s: Seq<FeedItem>)
    ensures
        newest_first(date_order(s)),
        date_order(s).to_multiset() == s.to_multiset(),
        date_order(s).len() == s.len(),
{
    lemma_selection(s, 0);
}

} // verus!
