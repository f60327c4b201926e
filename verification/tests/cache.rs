use amescii::cache::{
    disk_segments, disk_usable, fetch_step, safe_seg, FetchAction, FetchEvent, TileCache,
};
use bytes::Bytes;

fn b(s: &str) -> Bytes {
    Bytes::from(s.to_string())
}

#[test]
fn get_put_hit_miss() {
    let mut c = TileCache::new(4);
    assert!(c.get("a").is_none());
    c.put("a".into(), b("AA"));
    assert_eq!(c.get("a").unwrap(), b("AA"));
    assert_eq!(c.len(), 1);
}

#[test]
fn lru_evicts_oldest() {
    let mut c = TileCache::new(2);
    c.put("a".into(), b("A"));
    c.put("b".into(), b("B"));
    assert!(c.get("a").is_some());
    c.put("c".into(), b("C"));
    assert_eq!(c.len(), 2);
    assert!(c.get("a").is_some(), "最近使った a は残る");
    assert!(c.get("c").is_some(), "新しい c は残る");
    assert!(c.get("b").is_none(), "最古の b が退避される");
}

#[test]
fn put_existing_updates_without_growth() {
    let mut c = TileCache::new(2);
    c.put("a".into(), b("A1"));
    c.put("a".into(), b("A2"));
    assert_eq!(c.len(), 1);
    assert_eq!(c.get("a").unwrap(), b("A2"));
}

#[test]
fn capacity_is_respected() {
    let mut c = TileCache::new(3);
    for i in 0..10 {
        c.put(format!("k{i}"), b("x"));
    }
    assert_eq!(c.len(), 3);
    assert!(c.get("k9").is_some());
    assert!(c.get("k8").is_some());
    assert!(c.get("k7").is_some());
    assert!(c.get("k6").is_none());
}

#[test]
fn capacity_is_at_least_one() {
    let mut c = TileCache::new(0);
    assert!(c.is_empty());
    c.put("a".into(), b("A"));
    c.put("b".into(), b("B"));
    assert_eq!(c.len(), 1);
    assert!(!c.is_empty());
    assert_eq!(c.get("b").unwrap(), b("B"));
}

#[test]
fn lookups_are_counted() {
    let mut c = TileCache::new(2);
    assert!(c.lookup("a").is_none());
    c.put("a".into(), b("A"));
    assert_eq!(c.lookup("a").unwrap(), b("A"));
    assert_eq!(c.lookup("a").unwrap(), b("A"));
    assert_eq!(c.stats(), (2, 1));
    c.record_hit();
    c.record_miss();
    assert_eq!(c.stats(), (3, 2));
    // A plain read counts nothing.
    c.get("a");
    assert_eq!(c.stats(), (3, 2));
}

#[test]
fn only_tiles_are_kept() {
    let mut c = TileCache::new(2);
    assert!(!c.keep_reply("a", false, &b("not found")));
    assert!(!c.keep_reply("a", true, &b("")));
    assert!(c.is_empty());
    assert!(c.keep_reply("a", true, &b("tile")));
    assert_eq!(c.get("a").unwrap(), b("tile"));
}

#[test]
fn tiles_on_disk_expire() {
    assert!(disk_usable(Some((0, 0)), 10));
    assert!(disk_usable(Some((604_799, 999_999_999)), 10));
    assert!(disk_usable(Some((604_800, 0)), 10));
    assert!(!disk_usable(Some((604_800, 1)), 10));
    assert!(!disk_usable(Some((604_801, 0)), 10));
    assert!(!disk_usable(None, 10));
    assert!(!disk_usable(Some((0, 0)), 0));
}

#[test]
fn memory_then_disk_then_server() {
    let take = |keep_in_memory: bool, keep_on_disk: bool| FetchAction::Take {
        keep_in_memory,
        keep_on_disk,
    };
    for on_disk in [false, true] {
        assert_eq!(
            fetch_step(on_disk, FetchEvent::Memory { found: true }),
            take(false, false)
        );
        assert_eq!(
            fetch_step(on_disk, FetchEvent::Memory { found: false }),
            if on_disk {
                FetchAction::AskDisk
            } else {
                FetchAction::AskServer
            }
        );
        assert_eq!(
            fetch_step(on_disk, FetchEvent::Disk { found: true }),
            take(true, false)
        );
        assert_eq!(
            fetch_step(on_disk, FetchEvent::Disk { found: false }),
            FetchAction::AskServer
        );
        let reply = |success: bool, empty: bool| fetch_step(on_disk, FetchEvent::Reply { success, empty });
        assert_eq!(reply(true, false), take(true, on_disk));
        assert_eq!(reply(true, true), take(false, false));
        assert_eq!(reply(false, false), take(false, false));
        assert_eq!(
            fetch_step(on_disk, FetchEvent::NoReply),
            FetchAction::GiveUp
        );
    }
}

#[test]
fn names_on_disk() {
    assert_eq!(
        disk_segments("https://host/map/8/227/100.pbf"),
        Some(("8", "227", "100.pbf"))
    );
    assert_eq!(disk_segments("8/227/100.pbf"), Some(("8", "227", "100.pbf")));
    assert_eq!(disk_segments("227/100.pbf"), None);
    assert_eq!(disk_segments("https://host/../8/100.pbf"), None);
    assert_eq!(disk_segments("https://host/8//100.pbf"), None);
    assert_eq!(disk_segments("https://host/8/227/"), None);
    assert_eq!(disk_segments("https://host/8/2 7/100.pbf"), None);
    assert_eq!(disk_segments("https://host/地図/227/100.pbf"), None);
}

#[test]
fn safe_names() {
    assert!(safe_seg("100.pbf"));
    assert!(safe_seg("Az09."));
    assert!(!safe_seg(""));
    assert!(!safe_seg(".."));
    assert!(!safe_seg("a..b"));
    assert!(!safe_seg("a-b"));
    assert!(!safe_seg("é"));
}
