use next_api::versioned_content_map::{Subscription, VersionedContentMap};

#[test]
fn second_write_gets_version_two_and_reader_is_diff_eligible() {
    let mut map = VersionedContentMap::new();
    assert_eq!(map.put(b"/out/chunk1.js", b"bytes A"), 1);
    assert_eq!(map.put(b"/out/chunk1.js", b"bytes B"), 2);
    let snapshot = map.get(b"/out/chunk1.js", 1).unwrap();
    assert_eq!(snapshot.bytes, b"bytes B".to_vec());
    assert_eq!(snapshot.version, 2);
    assert!(snapshot.diff_eligible);
}

#[test]
fn tokens_of_one_path_strictly_increase() {
    let mut map = VersionedContentMap::new();
    let mut last: u64 = 0;
    for round in 0..20u8 {
        let v = map.put(b"/out/a.js", &[round]);
        assert!(v > last);
        last = v;
        let other = map.put(b"/out/b.js", &[round, round]);
        assert_eq!(other, v);
    }
    assert_eq!(map.latest_version(b"/out/a.js"), 20);
    assert_eq!(map.get(b"/out/a.js", 3).unwrap().bytes, vec![19u8]);
}

#[test]
fn path_never_written_has_no_snapshot() {
    let mut map = VersionedContentMap::new();
    assert!(map.get(b"/out/missing.js", 0).is_none());
    assert_eq!(map.latest_version(b"/out/missing.js"), 0);
    map.put(b"/out/other.js", b"x");
    assert!(map.get(b"/out/missing.js", 1).is_none());
}

#[test]
fn token_never_handed_out_is_not_diff_eligible() {
    let mut map = VersionedContentMap::new();
    map.put(b"/p", b"one");
    map.put(b"/p", b"two");
    assert!(!map.get(b"/p", 0).unwrap().diff_eligible);
    assert!(map.get(b"/p", 1).unwrap().diff_eligible);
    assert!(map.get(b"/p", 2).unwrap().diff_eligible);
    assert!(!map.get(b"/p", 3).unwrap().diff_eligible);
    assert_eq!(map.get(b"/p", 3).unwrap().bytes, b"two".to_vec());
}

#[test]
fn subscription_reports_each_change_once_until_cancelled() {
    let mut map = VersionedContentMap::new();
    map.put(b"/p", b"one");
    let mut first = Subscription::subscribe(&map, b"/p");
    let mut second = Subscription::subscribe(&map, b"/p");
    assert_eq!(first.next(&map), None);
    map.put(b"/p", b"two");
    map.put(b"/q", b"elsewhere");
    assert_eq!(first.next(&map), Some(2));
    assert_eq!(first.next(&map), None);
    map.put(b"/p", b"three");
    assert_eq!(second.next(&map), Some(3));
    first.cancel();
    assert_eq!(first.next(&map), None);
    assert_eq!(first.seen, 2);
}
