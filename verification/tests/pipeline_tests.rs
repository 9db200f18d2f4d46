use podsync::episode::ItemError;
use podsync::feed::parse_rss;
use podsync::names::derive_names;
use podsync::pipeline::{plan_commit, should_fetch, CommitAction, Orchestrator};

#[test]
fn skip_check_drives_idempotence() {
    assert!(should_fetch(false, false));
    assert!(!should_fetch(false, true));
    assert!(should_fetch(true, false));
    assert!(should_fetch(true, true));
}

#[test]
fn commit_decisions() {
    // a zero-length payload marks a skipped fetch and is never written out
    assert_eq!(plan_commit(0, false, false), CommitAction::SkipEmpty);
    assert_eq!(plan_commit(0, true, true), CommitAction::SkipEmpty);
    // the commit-time recheck defends against a file that appeared meanwhile
    assert_eq!(plan_commit(10, false, true), CommitAction::SkipExists);
    assert_eq!(plan_commit(10, false, false), CommitAction::Write);
    assert_eq!(plan_commit(10, true, true), CommitAction::Write);
}

#[test]
fn pool_never_exceeds_its_cap() {
    let xml = feed(3);
    let out = parse_rss(&xml).unwrap();
    assert_eq!(out.episodes.len(), 3);
    let mut pool = Orchestrator::new(out.episodes, 2, false);
    let a = pool.take_next();
    let b = pool.take_next();
    assert_eq!(a, Some(0));
    assert_eq!(b, Some(1));
    // both slots busy: nothing more is handed out
    assert_eq!(pool.take_next(), None);
    pool.complete();
    assert_eq!(pool.take_next(), Some(2));
    assert_eq!(pool.take_next(), None);
    pool.complete();
    pool.complete();
    assert!(pool.done());
}

fn feed(n: usize) -> Vec<u8> {
    let mut items = String::new();
    for k in 0..n {
        items.push_str(&format!(
            "<item><title>Ep {}</title>\
             <pubDate>Thu, 01 Jan 2015 00:00:0{} +0000</pubDate>\
             <enclosure url=\"http://example.com/{}.mp3\"/></item>",
            k, k, k
        ));
    }
    format!("<rss><channel>{}</channel></rss>", items).into_bytes()
}

#[test]
fn end_to_end_one_good_one_bad_item() {
    let xml = b"<rss><channel>\
        <item><title>Hello</title>\
        <pubDate>Thu, 01 Jan 2015 00:00:00 +0000</pubDate>\
        <enclosure url=\"http://example.com/hello.mp3\"/></item>\
        <item><title>NoMedia</title>\
        <pubDate>Fri, 02 Jan 2015 00:00:00 +0000</pubDate></item>\
        </channel></rss>"
        .to_vec();
    let out = parse_rss(&xml).unwrap();
    assert_eq!(out.episodes.len(), 1);
    assert_eq!(out.failures.len(), 1);
    assert_eq!(out.episodes[0].title, b"Hello".to_vec());
    assert_eq!(
        out.failures[0].error,
        ItemError::Missing { title: false, pub_date: false, enclosure: true }
    );

    let (temp, fin) = derive_names(&out.episodes[0]);
    assert_eq!(temp, b"1420070400-Hello.part".to_vec());
    assert_eq!(fin, b"1420070400-Hello.mp3".to_vec());

    let mut pool = Orchestrator::new(out.episodes, 1, false);
    assert_eq!(pool.take_next(), Some(0));
    assert_eq!(pool.take_next(), None);
    // the file does not exist yet, so the worker fetches and commits
    assert!(should_fetch(false, false));
    assert_eq!(plan_commit(12345, false, false), CommitAction::Write);
    pool.complete();
    assert!(pool.done());
    // a second run over the committed file skips the fetch entirely
    assert!(!should_fetch(false, true));
}
