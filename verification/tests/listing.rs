use sevenz::codepage::Codepage;
use sevenz::contents::archives_have_root_dir;
use sevenz::error::SevenzError;
use sevenz::listing::{build_contents, parse_listing, read_listing, LineType, Listing};
use sevenz::modified::ModifiedCache;
use sevenz::node::{FsNode, OutputFile, Timestamp};

const LISTING: &str = "\
7-Zip [64] 17.05 : Copyright (c) 1999-2021 Igor Pavlov : 2017-08-28\r\n\
\r\n\
Listing archive: pack.7z\r\n\
\r\n\
--\r\n\
Path = pack.7z\r\n\
Type = 7z\r\n\
Physical Size = 1234\r\n\
\r\n\
----------\r\n\
Path = a\\b\\d\r\n\
Size = 5\r\n\
Modified = 2024-01-02 03:04:05\r\n\
Attributes = A_ -rw-r--r--\r\n\
\r\n\
Path = a\\b\\c\r\n\
Folder = +\r\n\
Size = 0\r\n\
Modified = 2024-01-02 03:04:06\r\n\
Attributes = D_ drwxr-xr-x\r\n";

fn path_line(line: &str) -> Option<String> {
    match LineType::new(line, "UTC") {
        Some(LineType::Path(p)) => Some(p),
        _ => None,
    }
}

#[test]
fn lines_are_read_by_their_key() {
    assert_eq!(path_line("Path = a\\b"), Some("a\\b".to_string()));
    assert_eq!(path_line("Path = "), Some(String::new()));
    assert_eq!(path_line("Path = x Path = y"), Some("x y".to_string()));
    assert_eq!(path_line("Pathway"), Some("Pathway".to_string()));
    assert!(matches!(LineType::new("Folder = +", "UTC"), Some(LineType::Folder(true))));
    assert!(matches!(LineType::new("Folder = -", "UTC"), Some(LineType::Folder(false))));
    assert!(matches!(LineType::new("Folders: 3", "UTC"), Some(LineType::Folder(false))));
    assert!(matches!(
        LineType::new("Attributes = D_ drwxr-xr-x", "UTC"),
        Some(LineType::Attributes(true))
    ));
    assert!(matches!(
        LineType::new("Attributes = A_ -rw-r--r--", "UTC"),
        Some(LineType::Attributes(false))
    ));
    assert!(matches!(LineType::new("Volumes = 5", "UTC"), Some(LineType::Volumes(5))));
    assert!(matches!(LineType::new("Volumes = +12", "UTC"), Some(LineType::Volumes(12))));
    assert!(LineType::new("Volumes = many", "UTC").is_none());
    assert!(LineType::new("Volumes = ", "UTC").is_none());
    assert!(LineType::new("Volume Index = 0", "UTC").is_none());
    assert!(LineType::new("Size = 5", "UTC").is_none());
    assert!(LineType::new("", "UTC").is_none());
    assert!(LineType::new(" Path = a", "UTC").is_none());
}

#[test]
fn modified_is_read_in_the_zone_given() {
    let at = |line: &str, zone: &str| match LineType::new(line, zone) {
        Some(LineType::Modified(t)) => Some(t),
        _ => None,
    };
    assert_eq!(
        at("Modified = 2024-01-02 03:04:05", "UTC"),
        Some(Timestamp { unix_nanos: 1_704_164_645_000_000_000, offset_seconds: 0 })
    );
    assert_eq!(
        at("Modified = 2024-01-02 03:04:05", "Asia/Tokyo"),
        Some(Timestamp { unix_nanos: 1_704_132_245_000_000_000, offset_seconds: 32_400 })
    );
    assert_eq!(
        at("Modified = 2024-07-02 03:04:05.5", "Europe/London"),
        Some(Timestamp { unix_nanos: 1_719_885_845_500_000_000, offset_seconds: 3_600 })
    );
    assert_eq!(at("Modified = yesterday", "UTC"), None);
    assert_eq!(at("Modified = ", "UTC"), None);
    assert_eq!(at("Modified = 2024-01-02 03:04:05", "Nowhere/Land"), None);
}

#[test]
fn entries_come_in_the_order_of_the_listing() {
    let listing = parse_listing(LISTING, "UTC").unwrap();
    assert_eq!(listing.volumes, None);
    assert_eq!(listing.files.len(), 2);
    assert_eq!(listing.files[0].path, "a\\b\\d");
    assert!(!listing.files[0].is_dir);
    assert_eq!(
        listing.files[0].modified,
        Some(Timestamp { unix_nanos: 1_704_164_645_000_000_000, offset_seconds: 0 })
    );
    assert_eq!(listing.files[1].path, "a\\b\\c");
    assert!(listing.files[1].is_dir);
    assert_eq!(
        listing.files[1].modified,
        Some(Timestamp { unix_nanos: 1_704_164_646_000_000_000, offset_seconds: 0 })
    );
}

#[test]
fn folder_or_attributes_make_a_directory() {
    let text = "----------\nPath = one\nFolder = +\n\nPath = two\nAttributes = D\n\nPath = three\nFolder = -\nAttributes = A\n\nPath = four\nFolder = +\nAttributes = A";
    let listing = parse_listing(text, "UTC").unwrap();
    let dirs: Vec<bool> = listing.files.iter().map(|f| f.is_dir).collect();
    assert_eq!(dirs, vec![true, true, false, true]);
}

#[test]
fn every_empty_line_closes_a_block() {
    let listing = parse_listing("----------\nPath = a\n\n\nPath = b\n\n", "UTC").unwrap();
    let paths: Vec<&str> = listing.files.iter().map(|f| f.path.as_str()).collect();
    assert_eq!(paths, vec!["a", "", "b", ""]);
    let none = parse_listing("no divider here\nPath = a", "UTC").unwrap();
    assert_eq!(none.files.len(), 1);
    assert_eq!(none.files[0].path, "");
    let empty = parse_listing("", "UTC").unwrap();
    assert_eq!(empty.files.len(), 1);
}

#[test]
fn only_the_head_declares_volumes() {
    let head = parse_listing("Path = a.7z.001\nVolumes = 5\n----------\nPath = x", "UTC").unwrap();
    assert_eq!(head.volumes, Some(5));
    let one = parse_listing("Volumes = 1\n----------\nPath = x", "UTC").unwrap();
    assert_eq!(one.volumes, None);
    let last = parse_listing("Volumes = 3\nVolumes = 4\nVolumes = 1\n----------\n", "UTC").unwrap();
    assert_eq!(last.volumes, Some(4));
    let body = parse_listing("----------\nPath = x\nVolumes = 5", "UTC").unwrap();
    assert_eq!(body.volumes, None);
    let second = parse_listing("----------\nPath = x\n----------\nPath = y", "UTC").unwrap();
    assert_eq!(second.files.len(), 1);
    assert_eq!(second.files[0].path, "y");
}

#[test]
fn a_path_of_replacement_characters_is_an_encoding_failure() {
    let text = "----------\nPath = \u{FFFD}\u{FFFD}\u{FFFD}\u{FFFD}\n";
    match parse_listing(text, "UTC") {
        Err(SevenzError::InvalidUtf8(bad)) => assert_eq!(bad, "\u{FFFD}\u{FFFD}\u{FFFD}\u{FFFD}"),
        other => panic!("an encoding failure was expected, not {:?}", other),
    }
    let longer = "----------\nPath = \u{FFFD}\u{FFFD}\u{FFFD}\u{FFFD}.tx\n";
    assert!(matches!(parse_listing(longer, "UTC"), Err(SevenzError::InvalidUtf8(_))));
}

#[test]
fn half_of_the_characters_may_be_suspicious() {
    let half = parse_listing("----------\nPath = \u{FFFD}\u{FFFD}ab\n", "UTC").unwrap();
    assert_eq!(half.files[0].path, "\u{FFFD}\u{FFFD}ab");
    let eight = parse_listing("----------\nPath = \u{FFFD}\u{FFFD}\u{FFFD}\u{FFFD}.txt\n", "UTC").unwrap();
    assert_eq!(eight.files[0].path, "\u{FFFD}\u{FFFD}\u{FFFD}\u{FFFD}.txt");
    assert!(parse_listing("----------\nPath = \u{FFFD}\u{FF71}\u{00E9}ab\n", "UTC").is_err());
    assert!(parse_listing("----------\nPath = \n", "UTC").is_ok());
}

#[test]
fn the_failure_is_that_of_the_last_bad_block() {
    let text = "----------\nPath = \u{FFFD}\u{FFFD}1\nPath = \u{FFFD}\u{FFFD}2\n\nPath = good\n\nPath = \u{FFFD}\u{FFFD}3\nPath = \u{FFFD}\u{FFFD}4\n\nPath = fine";
    match parse_listing(text, "UTC") {
        Err(SevenzError::InvalidUtf8(bad)) => assert_eq!(bad, "\u{FFFD}\u{FFFD}3"),
        other => panic!("an encoding failure was expected, not {:?}", other),
    }
}

#[test]
fn contents_are_built_from_a_listing() {
    let mut cache = archives_have_root_dir();
    let mut times = ModifiedCache::new();
    let contents = read_listing(
        LISTING,
        "dir/pack.7z",
        "pw",
        Some(Codepage::GB2312),
        "UTC",
        &mut cache,
        &mut times,
    )
    .unwrap();
    let kept = times.get(&"dir/pack.7z".to_string()).unwrap();
    assert_eq!(
        kept.get("a\\b\\d"),
        Some(Some(Timestamp { unix_nanos: 1_704_164_645_000_000_000, offset_seconds: 0 }))
    );
    assert_eq!(
        kept.get("a\\b\\c"),
        Some(Some(Timestamp { unix_nanos: 1_704_164_646_000_000_000, offset_seconds: 0 }))
    );
    assert_eq!(kept.get("a\\b"), None);
    assert!(times.get(&"other.7z".to_string()).is_none());
    assert_eq!(contents.path(), "dir/pack.7z");
    assert_eq!(contents.password(), &Some("pw".to_string()));
    assert_eq!(contents.codepage(), Some(Codepage::GB2312));
    assert!(!contents.is_multi_volume());
    assert!(contents.has_root_dir());
    assert_eq!(cache.get("dir/pack.7z"), Some(true));
    assert_eq!(contents.contents().to_string(), "a\n└── b\n    ├── c\n    └── d\n");
    let tree = contents.contents().as_tree();
    let a = tree.root().first_child().unwrap();
    let b = a.first_child().unwrap();
    let kinds: Vec<(String, bool)> =
        b.children().map(|n| (n.value().name(), n.value().is_dir())).collect();
    assert_eq!(kinds, vec![("c".to_string(), true), ("d".to_string(), false)]);
    // The entry listed last is put in first, so that `a` and `b` carry its time.
    match a.value() {
        FsNode::Dir(fs) => assert_eq!(
            fs.modified,
            Some(Timestamp { unix_nanos: 1_704_164_646_000_000_000, offset_seconds: 0 })
        ),
        other => panic!("a directory was expected, not {:?}", other),
    }
}

#[test]
fn contents_of_a_split_archive_name_its_volumes() {
    let mut cache = archives_have_root_dir();
    let text = "Volumes = 3\n----------\nPath = readme.txt\n\nPath = src\nFolder = +\n";
    let mut times = ModifiedCache::new();
    let contents =
        read_listing(text, "x/data.7z.001", "", None, "UTC", &mut cache, &mut times).unwrap();
    let kept = times.get(&"x/data.7z.001".to_string()).unwrap();
    assert_eq!(kept.get("readme.txt"), Some(None));
    assert_eq!(kept.get("src"), Some(None));
    assert_eq!(kept.get(""), None);
    assert_eq!(contents.password(), &None);
    assert_eq!(contents.codepage(), None);
    assert!(!contents.has_root_dir());
    assert_eq!(cache.get("x/data.7z.001"), Some(false));
    let volumes = contents.multi_volume().as_ref().unwrap();
    assert_eq!(
        volumes.volumes(),
        &vec!["x/data.7z.001".to_string(), "x/data.7z.002".to_string(), "x/data.7z.003".to_string()]
    );
    assert_eq!(volumes.actual_path(), "");
}

#[test]
fn a_bad_listing_leaves_the_record_alone() {
    let mut cache = archives_have_root_dir();
    cache.insert("kept.7z".to_string(), true);
    let mut times = ModifiedCache::new();
    let result =
        read_listing("----------\nPath = \u{FFFD}", "bad.7z", "", None, "UTC", &mut cache, &mut times);
    assert!(times.get(&"bad.7z".to_string()).is_none());
    assert!(matches!(result, Err(SevenzError::InvalidUtf8(_))));
    assert_eq!(cache.get("bad.7z"), None);
    assert_eq!(cache.get("kept.7z"), Some(true));
}

#[test]
fn entries_are_put_in_from_the_last_to_the_first() {
    let mut cache = archives_have_root_dir();
    let listing = Listing {
        volumes: None,
        files: vec![
            OutputFile { path: "d/f".to_string(), is_dir: false, modified: None },
            OutputFile { path: "d".to_string(), is_dir: false, modified: None },
        ],
    };
    let mut times = ModifiedCache::new();
    let contents = build_contents("p.zip", listing, "", None, &mut cache, &mut times);
    let d = contents.contents().as_tree().root().first_child().unwrap();
    assert!(d.value().is_file());
    assert_eq!(contents.contents().to_string(), "d\n└── f\n");
    assert!(!contents.has_root_dir());
}
