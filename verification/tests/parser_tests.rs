use podsync::episode::ItemError;
use podsync::feed::parse_rss;
use podsync::item::parse_item;

#[test]
fn parses_a_complete_item() {
    let frag = b"<title>Hello</title>\
        <pubDate>Thu, 01 Jan 2015 00:00:00 +0000</pubDate>\
        <enclosure url=\"http://example.com/e1.mp3\" length=\"10\"/>"
        .to_vec();
    let ep = parse_item(&frag).unwrap();
    assert_eq!(ep.title, b"Hello".to_vec());
    assert_eq!(ep.url, b"http://example.com/e1.mp3".to_vec());
    assert_eq!(ep.published_at, 1420070400);
    assert_eq!(ep.raw_xml, frag);
}

#[test]
fn normalizes_the_offset_away() {
    // The wall-clock date-time is kept; the zone offset is dropped, so the
    // same wall clock under another offset yields the same timestamp.
    let frag = b"<title>T</title>\
        <pubDate>Thu, 01 Jan 2015 00:00:00 +0100</pubDate>\
        <enclosure url=\"u\"/>"
        .to_vec();
    let ep = parse_item(&frag).unwrap();
    assert_eq!(ep.published_at, 1420070400);
}

#[test]
fn unescapes_the_enclosure_url() {
    let frag = b"<title>T</title>\
        <pubDate>Thu, 01 Jan 2015 00:00:00 +0000</pubDate>\
        <enclosure url='http://example.com/e?a=1&amp;b=&lt;2&gt;'/>"
        .to_vec();
    let ep = parse_item(&frag).unwrap();
    assert_eq!(ep.url, b"http://example.com/e?a=1&b=<2>".to_vec());
}

#[test]
fn missing_enclosure_is_reported_as_a_unit() {
    let frag = b"<title>T</title>\
        <pubDate>Thu, 01 Jan 2015 00:00:00 +0000</pubDate>"
        .to_vec();
    let err = parse_item(&frag).unwrap_err();
    assert_eq!(err, ItemError::Missing { title: false, pub_date: false, enclosure: true });
}

#[test]
fn empty_title_counts_as_missing() {
    let frag = b"<title></title>\
        <pubDate>Thu, 01 Jan 2015 00:00:00 +0000</pubDate>\
        <enclosure url=\"u\"/>"
        .to_vec();
    let err = parse_item(&frag).unwrap_err();
    assert_eq!(err, ItemError::Missing { title: true, pub_date: false, enclosure: false });
}

#[test]
fn bad_date_is_a_hard_item_failure() {
    let frag = b"<title>T</title>\
        <pubDate>not a date</pubDate>\
        <enclosure url=\"u\"/>"
        .to_vec();
    let err = parse_item(&frag).unwrap_err();
    assert!(matches!(err, ItemError::BadDate { .. }));
}

#[test]
fn broken_markup_is_a_malformed_item() {
    let frag = b"<title>T</title><enclosure url=".to_vec();
    let err = parse_item(&frag).unwrap_err();
    assert!(matches!(err, ItemError::Malformed { .. }));
}

#[test]
fn unknown_elements_are_skipped() {
    let frag = b"<guid>xyz</guid><title>T</title>\
        <itunes:duration>10</itunes:duration>\
        <pubDate>Thu, 01 Jan 2015 00:00:00 +0000</pubDate>\
        <enclosure type=\"audio/mpeg\" url=\"u\"/><link>l</link>"
        .to_vec();
    let ep = parse_item(&frag).unwrap();
    assert_eq!(ep.title, b"T".to_vec());
    assert_eq!(ep.url, b"u".to_vec());
}

fn feed_of(items: &str) -> Vec<u8> {
    format!(
        "<?xml version=\"1.0\"?><rss version=\"2.0\"><channel>\
         <title>Feed</title>{}</channel></rss>",
        items
    )
    .into_bytes()
}

#[test]
fn one_bad_item_does_not_abort_the_feed() {
    let xml = feed_of(
        "<item><title>A</title>\
         <pubDate>Thu, 01 Jan 2015 00:00:00 +0000</pubDate>\
         <enclosure url=\"http://example.com/a.mp3\"/></item>\
         <item><title>B</title>\
         <pubDate>Fri, 02 Jan 2015 00:00:00 +0000</pubDate></item>\
         <item><title>C</title>\
         <pubDate>Sat, 03 Jan 2015 00:00:00 +0000</pubDate>\
         <enclosure url=\"http://example.com/c.mp3\"/></item>",
    );
    let out = parse_rss(&xml).unwrap();
    assert_eq!(out.episodes.len(), 2);
    assert_eq!(out.failures.len(), 1);
    assert_eq!(out.episodes[0].title, b"A".to_vec());
    assert_eq!(out.episodes[1].title, b"C".to_vec());
    assert_eq!(
        out.failures[0].error,
        ItemError::Missing { title: false, pub_date: false, enclosure: true }
    );
}

#[test]
fn an_empty_feed_yields_no_episodes() {
    let xml = feed_of("");
    let out = parse_rss(&xml).unwrap();
    assert_eq!(out.episodes.len(), 0);
    assert_eq!(out.failures.len(), 0);
}

#[test]
fn an_unclosed_item_is_fatal_for_the_document() {
    let xml = b"<rss><channel><item><title>A</title>".to_vec();
    assert!(parse_rss(&xml).is_err());
}

#[test]
fn a_dangling_tag_is_fatal_for_the_document() {
    let xml = b"<rss><channel></channel></rss><".to_vec();
    assert!(parse_rss(&xml).is_err());
}

#[test]
fn feed_order_is_kept() {
    let xml = feed_of(
        "<item><title>One</title>\
         <pubDate>Thu, 01 Jan 2015 00:00:00 +0000</pubDate>\
         <enclosure url=\"u1\"/></item>\
         <item><title>Two</title>\
         <pubDate>Fri, 02 Jan 2015 00:00:00 +0000</pubDate>\
         <enclosure url=\"u2\"/></item>",
    );
    let out = parse_rss(&xml).unwrap();
    assert_eq!(out.episodes.len(), 2);
    assert_eq!(out.episodes[0].title, b"One".to_vec());
    assert_eq!(out.episodes[1].title, b"Two".to_vec());
}
