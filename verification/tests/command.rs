use sevenz::codepage::{
    codepage_candidates, is_halfwidth_katakana, is_latin_capital_letter, is_mis_decoded,
    is_replacement_character, Codepage,
};
use sevenz::command::{
    check_7z_version, extract_command, list_command, list_result, need_password, sevenz_test,
    test_command, wrong_password, ArchiveCount,
};
use sevenz::error::{IoError, SevenzError};
use sevenz::text::{chars_of, contains, parse_bounded, split_lines, to_decimal, to_padded_decimal, without};

fn chars(s: &str) -> Vec<char> {
    s.chars().collect()
}

#[test]
fn characters_that_tell_a_wrong_codepage() {
    assert!(is_replacement_character('\u{FFFD}'));
    assert!(!is_replacement_character('?'));
    assert!(is_halfwidth_katakana('\u{FF61}') && is_halfwidth_katakana('\u{FF9F}'));
    assert!(!is_halfwidth_katakana('\u{FF60}') && !is_halfwidth_katakana('\u{FFA0}'));
    assert!(is_latin_capital_letter('\u{0080}') && is_latin_capital_letter('\u{00FF}'));
    assert!(!is_latin_capital_letter('\u{007F}') && !is_latin_capital_letter('\u{0100}'));
    assert!(is_mis_decoded(&chars("\u{FFFD}\u{FFFD}\u{FFFD}\u{FFFD}")));
    assert!(is_mis_decoded(&chars("\u{FFFD}\u{FFFD}\u{FFFD}\u{FFFD}.tx")));
    assert!(!is_mis_decoded(&chars("\u{FFFD}\u{FFFD}\u{FFFD}\u{FFFD}.txt")));
    assert!(is_mis_decoded(&chars("é")));
    assert!(!is_mis_decoded(&chars("éa")));
    assert!(is_mis_decoded(&chars("éaｱ")));
    assert!(!is_mis_decoded(&chars("plain.txt")));
    assert!(!is_mis_decoded(&chars("")));
    assert!(!is_mis_decoded(&chars("文件夹/文件.txt")));
}

#[test]
fn codepages_and_their_switches() {
    assert_eq!(Codepage::SHIFT_JIS.as_u16(), 932);
    assert_eq!(Codepage::GB2312.as_u16(), 936);
    assert_eq!(Codepage::BIG5.as_u16(), 950);
    assert_eq!(Codepage::UTF_8.as_u16(), 65001);
    assert_eq!(Codepage::Other(1252).as_u16(), 1252);
    assert_eq!(Codepage::SHIFT_JIS.to_string(), "-mcp=932");
    assert_eq!(Codepage::UTF_8.to_string(), "-mcp=65001");
    assert_eq!(Codepage::Other(0).to_string(), "-mcp=0");
    assert_eq!(
        codepage_candidates(),
        vec![Codepage::SHIFT_JIS, Codepage::GB2312, Codepage::BIG5, Codepage::UTF_8, Codepage::Other(0)]
    );
}

#[test]
fn command_lines() {
    assert_eq!(list_command("", None, "a.7z"), vec!["l", "-slt", "-sccUTF-8", "a.7z"]);
    assert_eq!(
        list_command("p w", Some(Codepage::GB2312), "dir/a.7z"),
        vec!["l", "-slt", "-sccUTF-8", "-pp w", "-mcp=936", "dir/a.7z"]
    );
    assert_eq!(test_command(&None, "a.7z"), vec!["t", "-sccUTF-8", "a.7z"]);
    assert_eq!(test_command(&Some(String::new()), "a.7z"), vec!["t", "-sccUTF-8", "a.7z"]);
    assert_eq!(test_command(&Some("s".to_string()), "a.7z"), vec!["t", "-sccUTF-8", "-ps", "a.7z"]);
    assert_eq!(
        extract_command("out/_EZ1/*", &Some("s".to_string()), Some(Codepage::Other(437)), "a.7z"),
        vec!["x", "-aou", "-sccUTF-8", "-oout/_EZ1/*", "-ps", "-mcp=437", "a.7z"]
    );
    assert_eq!(
        extract_command("out/_EZ1", &None, None, "a.7z"),
        vec!["x", "-aou", "-sccUTF-8", "-oout/_EZ1", "a.7z"]
    );
}

#[test]
fn what_the_end_of_a_listing_means() {
    assert_eq!(list_result(Some(0), "the listing", "", "a.7z").ok(), Some("the listing".to_string()));
    assert!(need_password(Some(255), "...\nEnter password (will not be echoed):"));
    assert!(!need_password(Some(2), "Enter password"));
    assert!(!need_password(Some(255), "enter password"));
    assert!(!need_password(None, "Enter password"));
    assert!(wrong_password(Some(2), "ERROR: a.7z : Can not open encrypted archive. Wrong password?"));
    assert!(!wrong_password(Some(255), "Wrong password?"));
    assert!(!wrong_password(Some(2), "Wrong password"));
    match list_result(Some(255), "Enter password", "", "a.7z") {
        Err(SevenzError::NeedPassword(p)) => assert_eq!(p, "a.7z"),
        other => panic!("not {:?}", other),
    }
    match list_result(Some(2), "", "Wrong password?", "b.7z") {
        Err(SevenzError::NeedPassword(p)) => assert_eq!(p, "b.7z"),
        other => panic!("not {:?}", other),
    }
    match list_result(Some(2), "Enter password", "Cannot open the file as archive", "b.7z") {
        Err(SevenzError::CommandError(m)) => assert_eq!(m, "Cannot open the file as archive"),
        other => panic!("not {:?}", other),
    }
    match list_result(None, "out", "killed", "b.7z") {
        Err(SevenzError::CommandError(m)) => assert_eq!(m, "killed"),
        other => panic!("not {:?}", other),
    }
}

#[test]
fn the_version_is_the_first_line_that_names_the_tool() {
    let help = "\n7-Zip (z) 23.01 (x64) : Copyright (c) 1999-2023 Igor Pavlov\n\nUsage: 7zz <command>\n7-Zip again";
    assert_eq!(
        check_7z_version(Some(0), help).ok(),
        Some("7-Zip 已安装: 7-Zip (z) 23.01 (x64) : Copyright (c) 1999-2023 Igor Pavlov".to_string())
    );
    match check_7z_version(Some(0), "p7zip Version 16.02") {
        Err(SevenzError::CommandError(m)) => assert_eq!(m, "7-Zip 已安装，但版本信息解析失败。"),
        other => panic!("not {:?}", other),
    }
    assert!(matches!(check_7z_version(Some(1), help), Err(SevenzError::NotFound7z)));
    assert!(matches!(check_7z_version(None, help), Err(SevenzError::NotFound7z)));
}

#[test]
fn the_counts_of_a_test() {
    let report = "Everything is Ok\n\nFolders: 3\nFiles: 12\nSize:       1234\nCompressed: 567\n";
    assert_eq!(sevenz_test(Some(0), report), Some(ArchiveCount { folder: 3, file: 12 }));
    assert_eq!(sevenz_test(Some(0), "Files: 1"), Some(ArchiveCount { folder: 0, file: 1 }));
    assert_eq!(sevenz_test(Some(0), ""), Some(ArchiveCount { folder: 0, file: 0 }));
    assert_eq!(sevenz_test(Some(0), "Folders: 2\nFolders: 5\nFiles: x"), Some(ArchiveCount { folder: 5, file: 0 }));
    assert_eq!(sevenz_test(Some(0), "Folders: 4294967295\nFiles: 4294967296"), Some(ArchiveCount { folder: 4294967295, file: 0 }));
    assert_eq!(sevenz_test(Some(0), " Folders: 2"), Some(ArchiveCount { folder: 0, file: 0 }));
    assert_eq!(sevenz_test(Some(2), report), None);
    assert_eq!(sevenz_test(None, report), None);
}

#[test]
fn errors_in_words() {
    assert_eq!(SevenzError::NotFound7z.to_string(), "7-Zip 未安装");
    assert_eq!(SevenzError::NeedPassword("a.7z".to_string()).to_string(), "需要密码输入: \"a.7z\"");
    assert_eq!(SevenzError::CommandError("boom".to_string()).to_string(), "执行 7z 命令时出错: boom");
    assert_eq!(
        SevenzError::CommandIoError(IoError("gone".to_string())).to_string(),
        "执行 7z 命令时出错: gone"
    );
    assert_eq!(SevenzError::InvalidUtf8("���".to_string()).to_string(), "无效的 UTF-8 字符串: ���");
    assert_eq!(SevenzError::UnsupportedFile("d".to_string()).to_string(), "不支持的文件: d");
}

#[test]
fn text_helpers() {
    assert_eq!(chars_of("añ文"), vec!['a', 'ñ', '文']);
    let lines: Vec<String> =
        split_lines(&chars("a\r\nb\n\nc\r")).iter().map(|l| l.iter().collect()).collect();
    assert_eq!(lines, vec!["a", "b", "", "c\r"]);
    assert_eq!(split_lines(&chars("")).len(), 0);
    assert_eq!(split_lines(&chars("\n")).len(), 1);
    assert_eq!(split_lines(&chars("x\n")).len(), 1);
    assert_eq!(without(&chars("aXYbXYXYc"), &chars("XY")), chars("abc"));
    assert_eq!(without(&chars("aaa"), &chars("aa")), chars("a"));
    assert_eq!(without(&chars("abc"), &chars("")), chars("abc"));
    assert!(contains(&chars("hello"), &chars("ell")) && contains(&chars("hello"), &chars("")));
    assert!(!contains(&chars("hello"), &chars("elo")) && contains(&chars(""), &chars("")));
    assert_eq!(to_decimal(0), chars("0"));
    assert_eq!(to_decimal(907), chars("907"));
    assert_eq!(to_padded_decimal(7, 3), chars("007"));
    assert_eq!(to_padded_decimal(1234, 3), chars("1234"));
    assert_eq!(to_padded_decimal(0, 0), chars("0"));
    assert_eq!(parse_bounded(&chars("0042"), 100), Some(42));
    assert_eq!(parse_bounded(&chars("+7"), 100), Some(7));
    assert_eq!(parse_bounded(&chars("100"), 100), Some(100));
    assert_eq!(parse_bounded(&chars("101"), 100), None);
    assert_eq!(parse_bounded(&chars("340282366920938463463374607431768211455"), u128::MAX), Some(u128::MAX));
    assert_eq!(parse_bounded(&chars("340282366920938463463374607431768211456"), u128::MAX), None);
    assert_eq!(parse_bounded(&chars("-1"), 100), None);
    assert_eq!(parse_bounded(&chars("+"), 100), None);
    assert_eq!(parse_bounded(&chars(""), 100), None);
    assert_eq!(parse_bounded(&chars("1 "), 100), None);
    assert_eq!(parse_bounded(&chars("++1"), 100), None);
}
