use wirt::feed::{parse_feed, serialize_feed, update_item, FeedError, FeedItem};
use wirt::feed_page::feed_html;
use wirt::feed_sort::sort_feed;
use wirt::site_hash::site_hash;

fn item(lookup: &str) -> FeedItem {
    let mut it = FeedItem::new();
    it.lookup = Some(lookup.as_bytes().to_vec());
    it
}

#[test]
fn new_item_has_no_field() {
    let it = FeedItem::new();
    assert_eq!(it.lookup, None);
    assert_eq!(it.href, None);
    assert_eq!(it.text, None);
    assert_eq!(it.date, None);
    assert_eq!(it.hash, None);
}

#[test]
fn parse_one_full_record() {
    let items = parse_feed(b"ln http://a.org\nrf http://b.org\ntx Title\ndt 1700\nhs 42\n\n").unwrap();
    assert_eq!(items.len(), 1);
    assert_eq!(items[0].lookup, Some(b"http://a.org".to_vec()));
    assert_eq!(items[0].href, Some(b"http://b.org".to_vec()));
    assert_eq!(items[0].text, Some(b"Title".to_vec()));
    assert_eq!(items[0].date, Some(1700));
    assert_eq!(items[0].hash, Some(42));
}

#[test]
fn parse_skips_blank_lines_and_unknown_fields() {
    let items = parse_feed(b"\n\nln x\n\n\nzz ignored\nln y\ndt +5\n\n").unwrap();
    assert_eq!(items.len(), 2);
    assert_eq!(items[0].lookup, Some(b"x".to_vec()));
    assert_eq!(items[1].lookup, Some(b"y".to_vec()));
    assert_eq!(items[1].date, Some(5));
}

#[test]
fn parse_drops_an_unterminated_last_record() {
    let items = parse_feed(b"ln x\n\nln y\n").unwrap();
    assert_eq!(items.len(), 1);
    assert_eq!(items[0].lookup, Some(b"x".to_vec()));
    assert_eq!(parse_feed(b"ln\n").unwrap().len(), 0);
    assert_eq!(parse_feed(b"").unwrap().len(), 0);
}

#[test]
fn parse_errors() {
    assert_eq!(parse_feed(b"l"), Err(FeedError::Truncated));
    assert_eq!(parse_feed(b"ln x\n\nln"), Err(FeedError::Truncated));
    assert_eq!(parse_feed(b"tx \xff\n\n"), Err(FeedError::InvalidUtf8));
    assert_eq!(parse_feed(b"dt abc\n\n"), Err(FeedError::InvalidNumber));
    assert_eq!(parse_feed(b"hs 4294967296\n\n"), Err(FeedError::InvalidNumber));
    assert_eq!(parse_feed(b"dt -1\n\n"), Err(FeedError::InvalidNumber));
    assert_eq!(parse_feed(b"dt \n\n"), Err(FeedError::InvalidNumber));
}

#[test]
fn serialize_writes_set_fields_in_order() {
    let mut it = item("x");
    it.date = Some(0);
    it.hash = Some(12);
    it.text = Some("caf\u{e9}".as_bytes().to_vec());
    assert_eq!(serialize_feed(&vec![it]), "ln x\ntx caf\u{e9}\ndt 0\nhs 12\n\n".as_bytes().to_vec());
    assert_eq!(serialize_feed(&vec![FeedItem::new()]), b"\n".to_vec());
}

#[test]
fn written_feed_reads_back() {
    let mut a = item("http://a.org/feed");
    a.href = Some(b"http://a.org".to_vec());
    a.date = Some(1_700_000_000);
    a.hash = Some(4_000_000_000);
    let mut b = FeedItem::new();
    b.text = Some("\u{2603} snow".as_bytes().to_vec());
    let items = vec![a, b, item("c")];
    let text = serialize_feed(&items);
    assert_eq!(parse_feed(&text).unwrap(), items);
}

#[test]
fn sort_puts_newest_first_and_undated_last() {
    let mut a = item("a");
    a.date = Some(1);
    let b = item("b");
    let mut c = item("c");
    c.date = Some(3);
    let mut d = item("d");
    d.date = Some(3);
    let mut items = vec![a, b, c, d];
    sort_feed(&mut items);
    let order: Vec<Vec<u8>> = items.iter().map(|it| it.lookup.clone().unwrap()).collect();
    assert_eq!(order, vec![b"c".to_vec(), b"d".to_vec(), b"a".to_vec(), b"b".to_vec()]);
}

#[test]
fn sort_of_one_item() {
    let mut items = vec![item("only")];
    sort_feed(&mut items);
    assert_eq!(items.len(), 1);
}

#[test]
fn visit_of_a_changed_page_dates_it() {
    let mut it = item("x");
    it.hash = Some(5);
    it.date = Some(10);
    update_item(&mut it, Some(6), 99);
    assert_eq!(it.hash, Some(6));
    assert_eq!(it.date, Some(99));
}

#[test]
fn visit_of_an_unchanged_page_or_a_failed_fetch_changes_nothing() {
    let mut it = item("x");
    it.hash = Some(5);
    it.date = Some(10);
    update_item(&mut it, Some(5), 99);
    assert_eq!((it.hash, it.date), (Some(5), Some(10)));
    update_item(&mut it, None, 99);
    assert_eq!((it.hash, it.date), (Some(5), Some(10)));
}

#[test]
fn first_visit_records_the_hash_only() {
    let mut it = item("x");
    update_item(&mut it, Some(7), 99);
    assert_eq!((it.hash, it.date), (Some(7), None));
    let mut dated = item("y");
    dated.date = Some(3);
    update_item(&mut dated, Some(7), 99);
    assert_eq!((dated.hash, dated.date), (None, Some(3)));
}

#[test]
fn feed_page_lists_age_and_link() {
    let mut a = item("l");
    a.href = Some(b"h".to_vec());
    a.text = Some(b"t".to_vec());
    a.date = Some(90);
    let b = item("l2");
    let mut c = FeedItem::new();
    c.href = Some(b"h3".to_vec());
    c.date = Some(100);
    assert_eq!(
        feed_html(&vec![a, b, c], 100),
        b"<br/>10 <a href=\"h\">t</a>\n<br/><a href=\"l2\">l2</a>\n<br/>0 <a href=\"h3\">h3</a>\n".to_vec()
    );
}

#[test]
fn page_hash_sums_non_digits() {
    assert_eq!(site_hash(b"abc"), Some(294));
    assert_eq!(site_hash(b"a1b2"), Some(195));
    assert_eq!(site_hash(b"a9b7"), site_hash(b"a1b2"));
    assert_eq!(site_hash(b""), Some(0));
}

#[test]
fn page_hash_skips_marked_spans() {
    let mut body = b"<lastBuildDate".to_vec();
    body.extend_from_slice(&[b'z'; 16]);
    body.extend_from_slice(b"ab");
    assert_eq!(site_hash(&body), Some(195));
}

#[test]
fn page_hash_fails_where_a_skip_runs_past_the_end() {
    assert_eq!(site_hash(b"csrf"), None);
    assert_eq!(site_hash(b"ab<lastBuildDate"), None);
    let mut body = b"x".to_vec();
    body.extend_from_slice(b"data-cfemail");
    assert_eq!(site_hash(&body), None);
}

#[test]
fn only_items_with_a_lookup_address_are_visited() {
    assert_eq!(wirt::feed::visit_address(&item("x")), Some(b"x".to_vec()));
    let mut linked = FeedItem::new();
    linked.href = Some(b"h".to_vec());
    assert_eq!(wirt::feed::visit_address(&linked), None);
}
