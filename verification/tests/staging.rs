use sevenz::staging::{
    _relative_path, final_names, plan_staging, staging_name, trim_component, trim_target,
    unused_name, TempTargetDir,
};

fn strings(items: &[&str]) -> Vec<String> {
    items.iter().map(|s| s.to_string()).collect()
}

#[test]
fn two_entries_of_one_name() {
    assert_eq!(final_names(&strings(&["a", "a"]), &strings(&[])), strings(&["a", "a.1"]));
}

#[test]
fn the_smallest_unused_suffix_is_taken() {
    assert_eq!(unused_name("a", &strings(&[])), "a");
    assert_eq!(unused_name("a", &strings(&["b", "a.1"])), "a");
    assert_eq!(unused_name("a", &strings(&["a"])), "a.1");
    assert_eq!(unused_name("a", &strings(&["a", "a.1", "a.2"])), "a.3");
    assert_eq!(unused_name("a", &strings(&["a.2", "a", "a.3"])), "a.1");
    assert_eq!(unused_name("a", &strings(&["a", "a.1", "a.3", "a.1", "a"])), "a.2");
    assert_eq!(unused_name("x.tar.gz", &strings(&["x.tar.gz"])), "x.tar.gz.1");
    assert_eq!(unused_name("", &strings(&[""])), ".1");
    let many: Vec<String> =
        std::iter::once("n".to_string()).chain((1..=11).map(|k| format!("n.{}", k))).collect();
    assert_eq!(unused_name("n", &many), "n.12");
}

#[test]
fn names_given_out_are_in_use_for_the_next_entry() {
    assert_eq!(
        final_names(&strings(&["a", "b", "a", "a.1", "a"]), &strings(&["b"])),
        strings(&["a", "b.1", "a.1", "a.1.1", "a.2"])
    );
    assert_eq!(final_names(&strings(&[]), &strings(&["a"])), strings(&[]));
}

#[test]
fn trailing_blanks_are_cut() {
    assert_eq!(trim_component("out  "), "out");
    assert_eq!(trim_component("  out"), "  out");
    assert_eq!(trim_component("a b "), "a b");
    assert_eq!(trim_component("   "), "   ");
    assert_eq!(trim_component(""), "");
    assert_eq!(trim_component("tab\t "), "tab\t");
    assert_eq!(
        trim_target(&strings(&["C:", "\\", "My Files ", " ", "x"])),
        strings(&["C:", "\\", "My Files", " ", "x"])
    );
}

#[test]
fn the_staging_directory_is_named_by_the_time() {
    assert_eq!(staging_name(0), "_EZ0");
    assert_eq!(staging_name(1_700_000_000_123), "_EZ1700000000123");
    assert_eq!(staging_name(u128::MAX), "_EZ340282366920938463463374607431768211455");
}

#[test]
fn the_staging_directory_is_made_beside_the_target() {
    let archive = strings(&["/", "in", "a.7z"]);
    let plan = plan_staging(&strings(&["/", "out", "dir"]), true, &archive, true, 123);
    assert_eq!(plan.staging, strings(&["/", "out", "_EZ123"]));
    assert_eq!(plan.destination, strings(&["/", "out", "dir"]));
    let relative = plan_staging(&strings(&["out"]), true, &archive, true, 9);
    assert_eq!(relative.staging, strings(&["_EZ9"]));
    assert_eq!(relative.destination, strings(&["out"]));
    // A target of the very name that the staging directory would get.
    let same = plan_staging(&strings(&["x", "_EZ5"]), true, &archive, true, 5);
    assert_eq!(same.staging, strings(&["x", "_EZ5.1"]));
    assert_eq!(same.destination, strings(&["x", "_EZ5"]));
    // Nothing holds the root directory.
    let root = plan_staging(&strings(&["/"]), false, &archive, true, 7);
    assert_eq!(root.staging, strings(&["/", "_EZ7"]));
    assert_eq!(root.destination, strings(&["/"]));
}

#[test]
fn without_a_target_the_archive_says_where() {
    let archive = strings(&["/", "in", "a.7z"]);
    let beside = plan_staging(&strings(&[]), false, &archive, true, 42);
    assert_eq!(beside.staging, strings(&["/", "in", "_EZ42"]));
    assert_eq!(beside.destination, strings(&["/", "in"]));
    let inside = plan_staging(&strings(&[]), false, &archive, false, 42);
    assert_eq!(inside.staging, strings(&["/", "in", "a.7z", "_EZ42"]));
    assert_eq!(inside.destination, archive);
    let nothing = plan_staging(&strings(&[]), false, &strings(&[]), true, 1);
    assert_eq!(nothing.staging, strings(&["_EZ1"]));
    assert_eq!(nothing.destination, strings(&[]));
}

#[test]
fn where_the_tool_extracts_to() {
    let wrapped = TempTargetDir::new(strings(&["out", "_EZ1"]), Some(true));
    assert_eq!(wrapped.output_path(), strings(&["out", "_EZ1"]));
    let loose = TempTargetDir::new(strings(&["out", "_EZ1"]), Some(false));
    assert_eq!(loose.output_path(), strings(&["out", "_EZ1", "*"]));
    let unknown = TempTargetDir::new(strings(&["out", "_EZ1"]), None);
    assert!(!unknown.has_root_dir);
    assert_eq!(unknown.output_path(), strings(&["out", "_EZ1", "*"]));
}

#[test]
fn paths_inside_the_staging_directory() {
    let dest = strings(&["/", "out", "_EZ1"]);
    assert_eq!(_relative_path(&dest, false, &strings(&["/", "out", "_EZ1", "a", "b"])), strings(&["a", "b"]));
    assert_eq!(_relative_path(&dest, false, &strings(&["/", "out", "_EZ1"])), strings(&[]));
    assert_eq!(_relative_path(&dest, false, &strings(&["/", "else", "a"])), strings(&["/", "else", "a"]));
    assert_eq!(_relative_path(&dest, false, &strings(&["/", "out"])), strings(&["/", "out"]));
    let rel = strings(&["..", "out"]);
    assert_eq!(_relative_path(&rel, true, &strings(&["/", "cwd", "..", "out", "a"])), strings(&["a"]));
    assert_eq!(_relative_path(&rel, true, &strings(&["/", "cwd", "out", "a"])), strings(&[]));
    assert_eq!(_relative_path(&rel, false, &strings(&["/", "cwd", "..", "out", "a"])), strings(&["/", "cwd", "..", "out", "a"]));

    let dir = TempTargetDir::new(dest.clone(), Some(true));
    let inside = strings(&["/", "out", "_EZ1", "top", "f"]);
    assert_eq!(dir.relative_path(false, &inside), strings(&["top", "f"]));
    assert_eq!(dir.archive_relative_path(false, &inside), strings(&["_EZ1", "top", "f"]));
    let loose = TempTargetDir::new(dest, Some(false));
    assert_eq!(loose.archive_relative_path(false, &inside), strings(&["top", "f"]));
    let nowhere = TempTargetDir::new(strings(&[]), Some(true));
    assert_eq!(nowhere.archive_relative_path(false, &inside), inside);
}
