use sevenz::multi_volume::{
    archive_multi_volume, get_first_volume, ArchiveMultiRank, ArchiveMultiVolume, RankReplacer,
};

#[test]
fn first_volume_of_rar_parts() {
    assert_eq!(get_first_volume("archive.part2.rar"), Some("archive.part1.rar".to_string()));
    let all = archive_multi_volume("archive.part1.rar", 5);
    assert_eq!(
        all.volumes(),
        &vec![
            "archive.part1.rar".to_string(),
            "archive.part2.rar".to_string(),
            "archive.part3.rar".to_string(),
            "archive.part4.rar".to_string(),
            "archive.part5.rar".to_string(),
        ]
    );
    assert_eq!(all.actual_path(), "");
}

#[test]
fn first_volume_of_numbered_extension() {
    assert_eq!(get_first_volume("data.7z.003"), Some("data.7z.001".to_string()));
    let all = archive_multi_volume("data.7z.001", 4);
    assert_eq!(
        all.volumes(),
        &vec![
            "data.7z.001".to_string(),
            "data.7z.002".to_string(),
            "data.7z.003".to_string(),
            "data.7z.004".to_string(),
        ]
    );
    assert_eq!(get_first_volume("pack.zip.012"), Some("pack.zip.001".to_string()));
}

#[test]
fn first_volume_of_r_numbers() {
    assert_eq!(get_first_volume("old.r07"), Some("old.r01".to_string()));
    let all = archive_multi_volume("old.r07", 3);
    assert_eq!(
        all.volumes(),
        &vec!["old.r01".to_string(), "old.r02".to_string(), "old.r03".to_string()]
    );
}

#[test]
fn the_first_volume_needs_no_other_name() {
    assert_eq!(get_first_volume("archive.part1.rar"), None);
    assert_eq!(get_first_volume("archive.part01.rar"), None);
    assert_eq!(get_first_volume("data.7z.001"), None);
    assert_eq!(get_first_volume("old.r01"), None);
}

#[test]
fn other_names_are_no_volumes() {
    assert_eq!(get_first_volume("archive.rar"), None);
    assert_eq!(get_first_volume("data.7z"), None);
    assert_eq!(get_first_volume("data.tar.002"), None);
    assert_eq!(get_first_volume("archive.part2.rar.bak"), None);
    assert_eq!(get_first_volume(""), None);
    assert!(archive_multi_volume("archive.rar", 3).volumes().is_empty());
    assert!(ArchiveMultiRank::new("notes.txt".to_string()).is_none());
}

#[test]
fn a_rank_too_large_for_the_machine_is_no_rank() {
    assert_eq!(get_first_volume("big.part99999999999999999999999999.rar"), None);
    assert!(archive_multi_volume("big.part99999999999999999999999999.rar", 2).volumes().is_empty());
}

#[test]
fn the_directory_of_a_volume_stays() {
    assert_eq!(
        get_first_volume("some dir/archive.part12.rar"),
        Some("some dir/archive.part1.rar".to_string())
    );
    assert_eq!(
        get_first_volume("C:\\packs\\data.zip.002"),
        Some("C:\\packs\\data.zip.001".to_string())
    );
}

#[test]
fn suffix_of_each_family() {
    assert_eq!(RankReplacer::RarPart.replace(1), ".part1.rar");
    assert_eq!(RankReplacer::RarPart.replace(12), ".part12.rar");
    assert_eq!(RankReplacer::RNum.replace(1), ".r01");
    assert_eq!(RankReplacer::RNum.replace(45), ".r45");
    assert_eq!(RankReplacer::RNum.replace(123), ".r123");
    assert_eq!(RankReplacer::ExtNum.replace(7), ".$ext.007");
    assert_eq!(RankReplacer::ExtNum.replace(70), ".$ext.070");
    assert_eq!(RankReplacer::ExtNum.replace(1000), ".$ext.1000");
    assert_eq!(RankReplacer::RarPart.replace(0), ".part0.rar");
}

#[test]
fn rank_is_read_from_the_first_group_that_took_part() {
    let name = "x".to_string();
    let both = ArchiveMultiRank::from_groups(name.clone(), Some("3".to_string()), Some("4".to_string()), None).unwrap();
    assert!(!both.is_first());
    assert_eq!(both.replace(2), Some("x".to_string()));
    let first = ArchiveMultiRank::from_groups(name.clone(), None, None, Some("001".to_string())).unwrap();
    assert!(first.is_first());
    assert!(ArchiveMultiRank::from_groups(name.clone(), None, None, None).is_none());
    assert!(ArchiveMultiRank::from_groups(name.clone(), Some("".to_string()), Some("4".to_string()), None).is_none());
    assert!(ArchiveMultiRank::from_groups(name, Some("１".to_string()), None, None).is_none());
}

#[test]
fn names_for_all_ranks() {
    let rank = ArchiveMultiRank::new("movie.part3.rar".to_string()).unwrap();
    assert_eq!(rank.replace_iter(0), Vec::<String>::new());
    assert_eq!(rank.replace_iter(2), vec!["movie.part1.rar", "movie.part2.rar"]);
    assert_eq!(rank.replace(10), Some("movie.part10.rar".to_string()));
}

#[test]
fn volumes_are_appended_in_order() {
    let mut volumes = ArchiveMultiVolume::default();
    assert!(volumes.volumes().is_empty());
    volumes.append_archive("a.001".to_string());
    volumes.append_archive("a.002".to_string());
    volumes.set_actual_path("a.002".to_string());
    assert_eq!(volumes.volumes(), &vec!["a.001".to_string(), "a.002".to_string()]);
    assert_eq!(volumes.actual_path(), "a.002");
}
