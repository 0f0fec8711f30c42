use sevenz::codepage::{codepage_candidates, Codepage};
use sevenz::contents::ArchiveContents;
use sevenz::error::{IoError, SevenzError};
use sevenz::multi_volume::archive_multi_volume;
use sevenz::retry::{show_archive_content, Attempt, Step};

fn attempt_of(step: Step) -> Attempt {
    match step {
        Step::Retry(a) => a,
        Step::Done(_) => panic!("another attempt was expected"),
    }
}

fn failure_of(step: Step) -> SevenzError {
    match step {
        Step::Done(Err(e)) => e,
        _ => panic!("a failure was expected"),
    }
}

fn need_password() -> Result<ArchiveContents, SevenzError> {
    Err(SevenzError::NeedPassword("a.7z".to_string()))
}

fn bad_name(name: &str) -> Result<ArchiveContents, SevenzError> {
    Err(SevenzError::InvalidUtf8(name.to_string()))
}

#[test]
fn what_is_no_file_is_refused() {
    let r = show_archive_content("some/dir", false, "", None, vec![], vec![]);
    match r {
        Err(SevenzError::UnsupportedFile(p)) => assert_eq!(p, "some/dir"),
        _ => panic!("the path should have been refused"),
    }
}

#[test]
fn the_first_attempt_uses_what_was_given() {
    let (_, first) =
        show_archive_content("a.7z", true, "pw", Some(Codepage::BIG5), vec![], vec![]).ok().unwrap();
    assert_eq!(first.path, "a.7z");
    assert_eq!(first.password, "pw");
    assert_eq!(first.codepage, Some(Codepage::BIG5));
}

#[test]
fn passwords_are_used_up_before_codepages() {
    let passwords = vec!["one".to_string(), "two".to_string()];
    let codepages = vec![Codepage::SHIFT_JIS, Codepage::GB2312, Codepage::BIG5];
    let (mut search, first) =
        show_archive_content("a.7z", true, "", None, passwords, codepages).ok().unwrap();
    assert_eq!((first.password.as_str(), first.codepage), ("", None));

    let second = attempt_of(search.next(need_password()));
    assert_eq!((second.password.as_str(), second.codepage), ("one", None));
    let third = attempt_of(search.next(need_password()));
    assert_eq!((third.password.as_str(), third.codepage), ("two", None));

    let fourth = attempt_of(search.next(bad_name("x1")));
    assert_eq!((fourth.password.as_str(), fourth.codepage), ("two", Some(Codepage::SHIFT_JIS)));
    let fifth = attempt_of(search.next(bad_name("x2")));
    assert_eq!((fifth.password.as_str(), fifth.codepage), ("two", Some(Codepage::GB2312)));
    let sixth = attempt_of(search.next(bad_name("x3")));
    assert_eq!((sixth.password.as_str(), sixth.codepage), ("two", Some(Codepage::BIG5)));

    match failure_of(search.next(bad_name("the last one"))) {
        SevenzError::InvalidUtf8(s) => assert_eq!(s, "the last one"),
        other => panic!("the encoding failure was expected, not {:?}", other),
    }
}

#[test]
fn a_password_retry_keeps_the_codepage_of_the_last_attempt() {
    let (mut search, _) = show_archive_content(
        "a.7z",
        true,
        "start",
        Some(Codepage::UTF_8),
        vec!["next".to_string()],
        vec![Codepage::BIG5],
    )
    .ok()
    .unwrap();
    let second = attempt_of(search.next(bad_name("x")));
    assert_eq!((second.password.as_str(), second.codepage), ("start", Some(Codepage::BIG5)));
    let third = attempt_of(search.next(need_password()));
    assert_eq!((third.password.as_str(), third.codepage), ("next", Some(Codepage::BIG5)));
    assert!(matches!(failure_of(search.next(need_password())), SevenzError::NeedPassword(_)));
}

#[test]
fn without_candidates_the_failure_comes_at_once() {
    let (mut search, _) = show_archive_content("a.7z", true, "", None, vec![], vec![]).ok().unwrap();
    match failure_of(search.next(need_password())) {
        SevenzError::NeedPassword(p) => assert_eq!(p, "a.7z"),
        other => panic!("not {:?}", other),
    }
    assert!(matches!(failure_of(search.next(bad_name("n"))), SevenzError::InvalidUtf8(_)));
}

#[test]
fn other_failures_end_the_search() {
    let candidates = || (vec!["one".to_string()], codepage_candidates());
    let failures = vec![
        SevenzError::NotFound7z,
        SevenzError::CommandError("broken".to_string()),
        SevenzError::CommandIoError(IoError("no such file".to_string())),
        SevenzError::UnsupportedFile("a.7z".to_string()),
    ];
    for failure in failures {
        let (passwords, codepages) = candidates();
        let (mut search, _) =
            show_archive_content("a.7z", true, "", None, passwords, codepages).ok().unwrap();
        let told = failure.to_string();
        assert_eq!(failure_of(search.next(Err(failure))).to_string(), told);
    }
}

#[test]
fn a_later_volume_is_listed_by_the_first() {
    let (mut search, first) =
        show_archive_content("d/data.7z.003", true, "", None, vec!["pw".to_string()], vec![]).ok().unwrap();
    assert_eq!(first.path, "d/data.7z.001");
    let second = attempt_of(search.next(need_password()));
    assert_eq!(second.path, "d/data.7z.001");

    let mut contents = ArchiveContents::new("d/data.7z.001".to_string());
    contents.set_multi_volume(archive_multi_volume("d/data.7z.001", 3));
    match search.next(Ok(contents)) {
        Step::Done(Ok(found)) => {
            assert_eq!(found.path(), "d/data.7z.001");
            let volumes = found.multi_volume().as_ref().unwrap();
            assert_eq!(volumes.actual_path(), "d/data.7z.003");
            assert_eq!(volumes.volumes().len(), 3);
        }
        _ => panic!("the contents were expected"),
    }
}

#[test]
fn contents_of_a_single_file_are_handed_out_as_they_are() {
    let (mut search, _) = show_archive_content("a.7z", true, "", None, vec![], vec![]).ok().unwrap();
    match search.next(Ok(ArchiveContents::new("a.7z".to_string()))) {
        Step::Done(Ok(found)) => {
            assert_eq!(found.path(), "a.7z");
            assert!(found.multi_volume().is_none());
        }
        _ => panic!("the contents were expected"),
    }
}
