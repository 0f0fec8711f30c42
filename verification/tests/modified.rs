use sevenz::modified::{FilesModified, ModifiedCache};
use sevenz::node::{OutputFile, Timestamp};

fn at(seconds: i128) -> Option<Timestamp> {
    Some(Timestamp { unix_nanos: seconds * 1_000_000_000, offset_seconds: 0 })
}

fn entry(path: &str, modified: Option<Timestamp>) -> OutputFile {
    OutputFile { path: path.to_string(), is_dir: false, modified }
}

#[test]
fn times_are_kept_by_path() {
    let mut times = FilesModified::new();
    assert_eq!(times.get("a"), None);
    times.insert("a".to_string(), at(1));
    times.insert("b".to_string(), None);
    assert_eq!(times.get("a"), Some(at(1)));
    assert_eq!(times.get("b"), Some(None));
    times.insert("a".to_string(), at(2));
    assert_eq!(times.get("a"), Some(at(2)));
    assert_eq!(times.get("c"), None);
}

#[test]
fn each_archive_has_its_own_times() {
    let mut cache = ModifiedCache::new();
    assert!(cache.get(&"one.7z".to_string()).is_none());
    entry("x", at(1)).cache_modified("one.7z".to_string(), &mut cache);
    entry("y", at(2)).cache_modified("one.7z".to_string(), &mut cache);
    entry("x", at(3)).cache_modified("two.7z".to_string(), &mut cache);
    let one = cache.get(&"one.7z".to_string()).unwrap();
    assert_eq!((one.get("x"), one.get("y")), (Some(at(1)), Some(at(2))));
    let two = cache.get(&"two.7z".to_string()).unwrap();
    assert_eq!((two.get("x"), two.get("y")), (Some(at(3)), None));
}

#[test]
fn the_archive_used_least_recently_goes_first() {
    let mut cache = ModifiedCache::new();
    for i in 0..1000 {
        entry("f", at(i)).cache_modified(format!("{}.7z", i), &mut cache);
    }
    assert!(cache.get(&"0.7z".to_string()).is_some());
    // Using the oldest archive again saves it from being the next to go.
    entry("g", at(7)).cache_modified("0.7z".to_string(), &mut cache);
    entry("f", at(0)).cache_modified("new.7z".to_string(), &mut cache);
    assert!(cache.get(&"0.7z".to_string()).is_some());
    assert!(cache.get(&"1.7z".to_string()).is_none());
    assert!(cache.get(&"2.7z".to_string()).is_some());
    assert!(cache.get(&"new.7z".to_string()).is_some());
    let first = cache.get(&"0.7z".to_string()).unwrap();
    assert_eq!((first.get("f"), first.get("g")), (Some(at(0)), Some(at(7))));
}
