use podsync::episode::Episode;
use podsync::names::derive_names;

fn ep(title: &str, published_at: i64) -> Episode {
    Episode {
        url: b"http://example.com/a.mp3".to_vec(),
        title: title.as_bytes().to_vec(),
        published_at,
        raw_xml: Vec::new(),
    }
}

#[test]
fn sanitizes_title_characters() {
    // space -> underscore, colon -> hyphen, slash -> hyphen,
    // quotes removed, asterisk -> a
    let (temp, fin) = derive_names(&ep("Ep 1: A/B *", 0));
    assert_eq!(fin, b"0-Ep_1-_A-B_a.mp3".to_vec());
    assert_eq!(temp, b"0-Ep_1-_A-B_a.part".to_vec());
}

#[test]
fn removes_quotes() {
    let (_, fin) = derive_names(&ep("a\"b'c", 7));
    assert_eq!(fin, b"7-abc.mp3".to_vec());
}

#[test]
fn renders_timestamps_in_decimal() {
    let (_, fin) = derive_names(&ep("x", 1420070400));
    assert_eq!(fin, b"1420070400-x.mp3".to_vec());
    let (temp, fin2) = derive_names(&ep("x", -5));
    assert_eq!(fin2, b"-5-x.mp3".to_vec());
    assert_eq!(temp, b"-5-x.part".to_vec());
}

#[test]
fn names_are_deterministic() {
    let a = derive_names(&ep("Same Title", 123456789));
    let b = derive_names(&ep("Same Title", 123456789));
    assert_eq!(a.0, b.0);
    assert_eq!(a.1, b.1);
    assert_ne!(a.0, a.1);
}
