use sevenz::contents::{archives_have_root_dir, ArchiveContents};
use sevenz::fs_tree::{path_segments, FsTree};
use sevenz::node::{FsNode, OutputFile, Timestamp};

fn entry(path: &str, is_dir: bool) -> OutputFile {
    OutputFile { path: path.to_string(), is_dir, modified: None }
}

fn names_below(tree: &FsTree, path: &[&str]) -> Vec<String> {
    let mut node = tree.as_tree().root();
    for part in path {
        node = node.children().find(|c| c.value().name() == *part).unwrap();
    }
    node.children().map(|c| c.value().to_string()).collect()
}

#[test]
fn new() {
    let tree = FsTree::new();
    assert_eq!(tree.to_string(), "");
}

#[test]
fn append_path() {
    let mut tree = FsTree::new();
    tree.append_file(OutputFile { path: "a\\b\\c".to_string(), is_dir: true, modified: None });
    tree.append_file(OutputFile { path: "a\\b\\d".to_string(), is_dir: false, modified: None });
    tree.append_file(OutputFile { path: "a\\e\\f".to_string(), is_dir: true, modified: None });
    assert_eq!(
        tree.to_string(),
        "a\n├── b\n│   ├── c\n│   └── d\n└── e\n    └── f\n"
    );
}

#[test]
fn segments_are_cut_at_both_separators() {
    assert_eq!(path_segments("a\\b/c"), vec!["a", "b", "c"]);
    assert_eq!(path_segments("/a//b\\"), vec!["a", "b"]);
    assert_eq!(path_segments(""), Vec::<String>::new());
    assert_eq!(path_segments("\\/"), Vec::<String>::new());
    assert_eq!(path_segments("plain"), vec!["plain"]);
}

#[test]
fn directory_and_file_below_the_same_node() {
    let mut tree = FsTree::new();
    tree.append_file(entry("a\\b\\d", false));
    tree.append_file(entry("a\\b\\c", true));
    tree.sort();
    assert_eq!(names_below(&tree, &[]), vec!["📁 a"]);
    assert_eq!(names_below(&tree, &["a"]), vec!["📁 b"]);
    assert_eq!(names_below(&tree, &["a", "b"]), vec!["📁 c", "📄 d"]);
    assert_eq!(tree.to_string(), "a\n└── b\n    ├── c\n    └── d\n");
}

#[test]
fn a_node_is_made_once() {
    let mut tree = FsTree::new();
    tree.append_file(entry("a/b", true));
    tree.append_file(entry("a/b", true));
    tree.append_file(entry("a", true));
    tree.append_file(entry("a/b/c.txt", false));
    assert_eq!(tree.as_tree().nodes().count(), 4);
    assert_eq!(tree.to_string(), "a\n└── b\n    └── c.txt\n");
}

#[test]
fn an_empty_path_changes_nothing() {
    let mut tree = FsTree::new();
    tree.append_file(entry("", false));
    tree.append_file(entry("//", true));
    assert_eq!(tree.as_tree().nodes().count(), 1);
    assert_eq!(tree.to_string(), "");
}

#[test]
fn new_nodes_carry_time_and_parent_name() {
    let stamp = Timestamp { unix_nanos: 1_704_164_645_000_000_000, offset_seconds: 3600 };
    let mut tree = FsTree::new();
    tree.append_file(OutputFile { path: "top/leaf".to_string(), is_dir: false, modified: Some(stamp) });
    let root = tree.as_tree().root();
    let top = root.first_child().unwrap();
    match top.value() {
        FsNode::Dir(fs) => {
            assert_eq!(fs.name, "top");
            assert_eq!(fs.parent, Some(String::new()));
            assert_eq!(fs.modified, Some(stamp));
        }
        other => panic!("a directory was expected, not {:?}", other),
    }
    match top.first_child().unwrap().value() {
        FsNode::File(fs) => {
            assert_eq!(fs.name, "leaf");
            assert_eq!(fs.parent, Some("top".to_string()));
            assert_eq!(fs.modified, Some(stamp));
        }
        other => panic!("a file was expected, not {:?}", other),
    }
}

#[test]
fn sort_orders_every_level_by_name() {
    let mut tree = FsTree::new();
    for path in ["z/b", "z/a", "m", "a/2", "a/10", "a/1", "B"] {
        tree.append_file(entry(path, false));
    }
    tree.sort();
    assert_eq!(names_below(&tree, &[]), vec!["📄 B", "📁 a", "📄 m", "📁 z"]);
    assert_eq!(names_below(&tree, &["a"]), vec!["📄 1", "📄 10", "📄 2"]);
    assert_eq!(names_below(&tree, &["z"]), vec!["📄 a", "📄 b"]);
    assert_eq!(
        tree.to_string(),
        "B\na\n├── 1\n├── 10\n└── 2\nm\nz\n├── a\n└── b\n"
    );
}

#[test]
fn sorted_tree_does_not_depend_on_the_order_of_entries() {
    let paths = ["x/y/z", "x/a", "b/c", "x/y/w", "b"];
    let dirs = [false, false, false, false, true];
    let orders: [[usize; 5]; 4] = [[0, 1, 2, 3, 4], [4, 3, 2, 1, 0], [2, 0, 4, 1, 3], [3, 4, 0, 2, 1]];
    let mut drawn: Vec<String> = Vec::new();
    for order in orders {
        let mut tree = FsTree::new();
        for i in order {
            tree.append_file(entry(paths[i], dirs[i]));
        }
        tree.sort();
        drawn.push(tree.to_string());
    }
    assert_eq!(drawn[0], "b\n└── c\nx\n├── a\n└── y\n    ├── w\n    └── z\n");
    assert_eq!(drawn[1], drawn[0]);
    assert_eq!(drawn[2], drawn[0]);
    assert_eq!(drawn[3], drawn[0]);
}

#[test]
fn root_directory_flag() {
    let mut tree = FsTree::new();
    assert!(tree.only_one_root_dir());
    tree.append_file(entry("only/inner.txt", false));
    assert!(tree.only_one_root_dir());
    tree.append_file(entry("second", true));
    assert!(!tree.only_one_root_dir());

    let mut file_only = FsTree::new();
    file_only.append_file(entry("readme.txt", false));
    assert!(!file_only.only_one_root_dir());
}

#[test]
fn node_names_and_kinds() {
    let dir = FsNode::Dir(sevenz::node::Fs { name: "d".to_string(), modified: None, parent: None });
    let file = FsNode::File(sevenz::node::Fs { name: "f".to_string(), modified: None, parent: None });
    assert_eq!(FsNode::Empty.name(), "\\");
    assert_eq!(FsNode::Empty.to_string(), "\\");
    assert!(FsNode::Empty.is_none() && !FsNode::Empty.is_dir() && !FsNode::Empty.is_file());
    assert_eq!(dir.to_string(), "📁 d");
    assert!(dir.is_dir() && !dir.is_file() && !dir.is_none());
    assert_eq!(file.to_string(), "📄 f");
    assert!(file.is_file() && !file.is_dir() && !file.is_none());
}

#[test]
fn contents_keep_what_they_are_given() {
    let mut cache = archives_have_root_dir();
    let mut contents = ArchiveContents::new("dir/pack.7z".to_string());
    assert_eq!(contents.path(), "dir/pack.7z");
    assert!(!contents.is_multi_volume());
    assert!(!contents.has_root_dir());
    assert_eq!(contents.password(), &None);
    contents.append_file(entry("top/b.txt", false));
    contents.append_file(entry("top/a.txt", false));
    contents.sort();
    contents.set_password("secret".to_string());
    assert_eq!(contents.password(), &Some("secret".to_string()));
    contents.set_password(String::new());
    assert_eq!(contents.password(), &None);
    contents.set_codepage(Some(sevenz::codepage::Codepage::BIG5));
    assert_eq!(contents.codepage(), Some(sevenz::codepage::Codepage::BIG5));
    assert_eq!(cache.get("dir/pack.7z"), None);
    assert!(contents.set_has_root_dir(&mut cache));
    assert!(contents.has_root_dir());
    assert_eq!(cache.get("dir/pack.7z"), Some(true));
    assert_eq!(contents.to_string(), "dir/pack.7z\ntop\n├── a.txt\n└── b.txt\n\n");

    contents.append_file(entry("loose.txt", false));
    assert!(!contents.set_has_root_dir(&mut cache));
    assert_eq!(cache.get("dir/pack.7z"), Some(false));
    assert_eq!(cache.get("other.7z"), None);
}

#[test]
fn actual_path_is_kept_for_split_archives_only() {
    let mut contents = ArchiveContents::new("a.7z.002".to_string());
    contents.set_actual_path("a.7z.002".to_string());
    assert!(contents.multi_volume().is_none());
    contents.set_multi_volume(sevenz::multi_volume::archive_multi_volume("a.7z.001", 2));
    assert!(contents.is_multi_volume());
    contents.set_actual_path("a.7z.002".to_string());
    let volumes = contents.multi_volume().as_ref().unwrap();
    assert_eq!(volumes.actual_path(), "a.7z.002");
    assert_eq!(volumes.volumes(), &vec!["a.7z.001".to_string(), "a.7z.002".to_string()]);
}
