use sevenz::codepage::Codepage;
use sevenz::command::ArchiveCount;
use sevenz::config::AppConfig;
use sevenz::error::SevenzError;
use sevenz::events::{DeletedArchiveEvent, UnzipedArchiveEvent};
use sevenz::unzip::{unzip, Action, Archive, Event, Phase, Unzip, UnzipedArchiveStatus};

fn archive(password: Option<&str>) -> Archive {
    Archive {
        path: "in/pack.7z".to_string(),
        password: password.map(|p| p.to_string()),
        codepage: Some(Codepage::SHIFT_JIS),
    }
}

fn config(passwords: &[&str]) -> AppConfig {
    AppConfig { passwords: passwords.iter().map(|p| p.to_string()).collect(), ..AppConfig::default() }
}

fn shape(actions: &[Action]) -> Vec<String> {
    actions
        .iter()
        .map(|a| match a {
            Action::Send(UnzipedArchiveStatus::Running) => "send running".to_string(),
            Action::Send(UnzipedArchiveStatus::Completed) => "send completed".to_string(),
            Action::Send(UnzipedArchiveStatus::FileStaged(p)) => format!("send staged {}", p),
            Action::Send(UnzipedArchiveStatus::Failed(e)) => format!("send failed {:?}", e),
            Action::Test(p) => format!("test {:?}", p),
            Action::MakeStaging => "make staging".to_string(),
            Action::Extract { password, codepage } => format!("extract {:?} {:?}", password, codepage),
            Action::Poll => "poll".to_string(),
            Action::Await => "await".to_string(),
            Action::Finalize => "finalize".to_string(),
            Action::Discard => "discard".to_string(),
        })
        .collect()
}

fn started(password: Option<&str>, global: Option<&str>, passwords: &[&str]) -> Unzip {
    let target = vec!["out ".to_string(), "sub".to_string()];
    let (state, actions) =
        unzip(archive(password), &target, &global.map(|p| p.to_string()), &config(passwords));
    assert_eq!(actions.len(), 2);
    state
}

#[test]
fn an_extraction_starts_by_testing() {
    let target = vec!["/".to_string(), "out  ".to_string(), "   ".to_string(), "a b ".to_string()];
    let (state, actions) = unzip(archive(None), &target, &Some("all".to_string()), &config(&["x"]));
    assert_eq!(state.phase(), Phase::Probing);
    assert_eq!(state.target(), &vec!["/".to_string(), "out".to_string(), "   ".to_string(), "a b".to_string()]);
    assert_eq!(state.archive().path, "in/pack.7z");
    assert_eq!(shape(&actions), vec!["send running", "test Some(\"all\")"]);
}

#[test]
fn the_password_of_the_archive_goes_before_the_one_for_all() {
    let target: Vec<String> = vec![];
    let (_, own) = unzip(archive(Some("own")), &target, &Some("all".to_string()), &config(&[]));
    assert_eq!(shape(&own)[1], "test Some(\"own\")");
    let (_, none) = unzip(archive(None), &target, &None, &config(&[]));
    assert_eq!(shape(&none)[1], "test None");
    let fresh = Unzip::new(archive(None), &target, &None, vec![]);
    assert_eq!(fresh.phase(), Phase::Init);
}

#[test]
fn a_good_extraction_runs_through_all_phases() {
    let mut state = started(Some("pw"), None, &[]);
    let a = state.next(Event::Probed(Some(ArchiveCount { folder: 1, file: 2 })));
    assert_eq!((state.phase(), shape(&a)), (Phase::Staging, vec!["make staging".to_string()]));
    let a = state.next(Event::Staged);
    assert_eq!(state.phase(), Phase::Extracting);
    assert_eq!(shape(&a), vec!["extract Some(\"pw\") Some(SHIFT_JIS)", "poll"]);
    let a = state.next(Event::Created { folder: true, path: "top".to_string() });
    assert_eq!(shape(&a), vec!["send staged top"]);
    let a = state.next(Event::Polled(None));
    assert_eq!((state.phase(), shape(&a)), (Phase::Extracting, vec!["poll".to_string()]));
    let a = state.next(Event::Created { folder: false, path: "top/1".to_string() });
    assert_eq!(shape(&a), vec!["send staged top/1"]);
    let a = state.next(Event::Created { folder: false, path: "top/2".to_string() });
    assert_eq!(shape(&a), vec!["send staged top/2"]);
    // All that the test counted was seen: only the end of the tool is waited for.
    let a = state.next(Event::Polled(None));
    assert_eq!((state.phase(), shape(&a)), (Phase::Extracting, vec!["await".to_string()]));
    let a = state.next(Event::Polled(Some(true)));
    assert_eq!((state.phase(), shape(&a)), (Phase::Finalizing, vec!["finalize".to_string()]));
    let a = state.next(Event::Finalized);
    assert_eq!((state.phase(), shape(&a)), (Phase::Completed, vec!["send completed".to_string()]));
    let a = state.next(Event::Polled(Some(true)));
    assert_eq!((state.phase(), a.len()), (Phase::Completed, 0));
}

#[test]
fn a_failed_test_tries_the_next_password() {
    let mut state = started(None, Some("all"), &["one", "two"]);
    let a = state.next(Event::Probed(None));
    assert_eq!((state.phase(), shape(&a)), (Phase::Probing, vec!["test Some(\"one\")".to_string()]));
    let a = state.next(Event::Probed(None));
    assert_eq!((state.phase(), shape(&a)), (Phase::Probing, vec!["test Some(\"two\")".to_string()]));
    let a = state.next(Event::Probed(None));
    assert_eq!(state.phase(), Phase::Failed);
    match &a[..] {
        [Action::Send(UnzipedArchiveStatus::Failed(SevenzError::NeedPassword(p)))] => {
            assert_eq!(p, "in/pack.7z")
        }
        other => panic!("the failure was expected, not {:?}", other),
    }
    let a = state.next(Event::Probed(Some(ArchiveCount { folder: 0, file: 0 })));
    assert_eq!((state.phase(), a.len()), (Phase::Failed, 0));
}

#[test]
fn the_password_that_passed_the_test_is_used() {
    let mut state = started(None, None, &["one", "two"]);
    state.next(Event::Probed(None));
    state.next(Event::Probed(Some(ArchiveCount { folder: 0, file: 0 })));
    let a = state.next(Event::Staged);
    assert_eq!(shape(&a)[0], "extract Some(\"one\") Some(SHIFT_JIS)");
}

#[test]
fn a_failed_tool_discards_the_staging_directory() {
    let mut state = started(None, None, &["unused"]);
    state.next(Event::Probed(Some(ArchiveCount { folder: 0, file: 0 })));
    state.next(Event::Staged);
    let a = state.next(Event::Polled(Some(false)));
    assert_eq!(state.phase(), Phase::Failed);
    assert_eq!(shape(&a)[0], "discard");
    match &a[1] {
        Action::Send(UnzipedArchiveStatus::Failed(SevenzError::CommandError(m))) => {
            assert_eq!(m, "7z extract failed")
        }
        other => panic!("the failure was expected, not {:?}", other),
    }
    assert_eq!(a.len(), 2);
}

#[test]
fn an_archive_without_entries_is_finalized_at_once() {
    let mut state = started(None, None, &[]);
    state.next(Event::Probed(Some(ArchiveCount { folder: 0, file: 0 })));
    state.next(Event::Staged);
    let a = state.next(Event::Polled(Some(true)));
    assert_eq!((state.phase(), shape(&a)), (Phase::Finalizing, vec!["finalize".to_string()]));
}

#[test]
fn events_that_do_not_fit_are_ignored() {
    let mut state = started(None, None, &[]);
    for event in [
        Event::Start,
        Event::Staged,
        Event::Created { folder: true, path: "x".to_string() },
        Event::Polled(Some(true)),
        Event::Polled(Some(false)),
        Event::Finalized,
    ] {
        let a = state.next(event);
        assert_eq!((state.phase(), a.len()), (Phase::Probing, 0));
    }
}

#[test]
fn more_entries_than_counted_still_settle() {
    let mut state = started(None, None, &[]);
    state.next(Event::Probed(Some(ArchiveCount { folder: 1, file: 1 })));
    state.next(Event::Staged);
    state.next(Event::Created { folder: true, path: "a".to_string() });
    let a = state.next(Event::Polled(None));
    assert_eq!(shape(&a), vec!["poll"]);
    state.next(Event::Created { folder: true, path: "b".to_string() });
    state.next(Event::Created { folder: false, path: "c".to_string() });
    let a = state.next(Event::Polled(None));
    assert_eq!((state.phase(), shape(&a)), (Phase::Extracting, vec!["await".to_string()]));
}

#[test]
fn the_end_of_the_tool_decides_even_before_all_was_seen() {
    let mut state = started(None, None, &[]);
    state.next(Event::Probed(Some(ArchiveCount { folder: 3, file: 9 })));
    state.next(Event::Staged);
    state.next(Event::Created { folder: true, path: "a".to_string() });
    let a = state.next(Event::Polled(Some(true)));
    assert_eq!((state.phase(), shape(&a)), (Phase::Finalizing, vec!["finalize".to_string()]));
}

#[test]
fn events_for_the_listener() {
    let e = UnzipedArchiveEvent::new("a.7z".to_string(), UnzipedArchiveStatus::Running);
    assert_eq!(e.path, "a.7z");
    assert!(matches!(e.status, UnzipedArchiveStatus::Running));
    let gone = DeletedArchiveEvent::new("a.7z".to_string(), Ok(()));
    assert_eq!((gone.path.as_str(), gone.error), ("a.7z", None));
    let kept = DeletedArchiveEvent::new("b.7z".to_string(), Err("denied".to_string()));
    assert_eq!((kept.path.as_str(), kept.error), ("b.7z", Some("denied".to_string())));
}

#[test]
fn settings_hand_out_their_passwords() {
    let c = config(&["a", "b"]);
    assert_eq!(c.passwords(), vec!["a", "b"]);
    let d = AppConfig::default();
    assert!(d.passwords().is_empty());
    assert!(!d.auto_delete && !d.target.can_input);
    assert_eq!(d.target.dir, "");
}
