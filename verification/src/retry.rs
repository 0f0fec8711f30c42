//! The search for the password and the codepage that open a listing: which
//! attempt follows which failure.

use vstd::prelude::*;
use crate::codepage::Codepage;
use crate::contents::{ArchiveContents, ContentsView};
use crate::error::{ErrorView, SevenzError};
use crate::multi_volume::{first_volume, get_first_volume, MultiVolumeView};
use crate::text::string_views;

verus! {

/// One run of the listing command: on which file, with which password
/// (the empty one for none) and which codepage.
#[derive(Debug, Clone)]
pub struct Attempt {
    pub path: String,
    pub password: String,
    pub codepage: Option<Codepage>,
}

/// An attempt as the contracts see it.
pub struct AttemptView {
    pub path: Seq<char>,
    pub password: Seq<char>,
    pub codepage: Option<Codepage>,
}

impl View for Attempt {
    type V = AttemptView;

    open spec fn view(&self) -> AttemptView {
        AttemptView { path: self.path@, password: self.password@, codepage: self.codepage }
    }
}

/// Where the search stands.
#[derive(Debug, Clone)]
pub struct ContentRetry {
    requested: String,
    listed: String,
    codepage: Option<Codepage>,
    password: String,
    passwords: Vec<String>,
    next_password: usize,
    codepages: Vec<Codepage>,
    next_codepage: usize,
}

/// The search as the contracts see it.
pub struct RetryView {
    /// The path that was asked for.
    pub requested: Seq<char>,
    /// The path that is listed: that of the first volume where the path
    /// asked for is that of a later one.
    pub listed: Seq<char>,
    /// The codepage of the last attempt.
    pub codepage: Option<Codepage>,
    /// The password of the last attempt.
    pub password: Seq<char>,
    /// The passwords not tried yet.
    pub passwords: Seq<Seq<char>>,
    /// The codepages not tried yet.
    pub codepages: Seq<Codepage>,
}

impl View for ContentRetry {
    type V = RetryView;

    closed spec fn view(&self) -> RetryView {
        RetryView {
            requested: self.requested@,
            listed: self.listed@,
            codepage: self.codepage,
            password: self.password@,
            passwords: string_views(self.passwords@).skip(self.next_password as int),
            codepages: self.codepages@.skip(self.next_codepage as int),
        }
    }
}

/// What follows an attempt.
#[derive(Debug)]
pub enum Step {
    /// Another attempt.
    Retry(Attempt),
    /// The end of the search, with what it found or why it failed.
    Done(Result<ArchiveContents, SevenzError>),
}

/// What follows an attempt, as the contracts see it.
pub enum StepView {
    Retry(AttemptView),
    Done(Result<ContentsView, ErrorView>),
}

impl View for Step {
    type V = StepView;

    open spec fn view(&self) -> StepView {
        match *self {
            Step::Retry(a) => StepView::Retry(a@),
            Step::Done(Ok(c)) => StepView::Done(Ok(c@)),
            Step::Done(Err(e)) => StepView::Done(Err(e@)),
        }
    }
}

/// The end of an attempt as the contracts see it.
pub open spec fn outcome_view(r: Result<ArchiveContents, SevenzError>) -> Result<
    ContentsView,
    ErrorView,
> {
    match r {
        Ok(c) => Ok(c@),
        Err(e) => Err(e@),
    }
}

/// The path to list for the path asked for.
pub open spec fn path_to_list(requested: Seq<char>) -> Seq<char> {
    match first_volume(requested) {
        Some(first) => first,
        None => requested,
    }
}

/// The search at its start, and its first attempt.
pub open spec fn first_attempt(
    requested: Seq<char>,
    password: Seq<char>,
    codepage: Option<Codepage>,
    passwords: Seq<Seq<char>>,
    codepages: Seq<Codepage>,
) -> (RetryView, AttemptView) {
    (
        RetryView {
            requested,
            listed: path_to_list(requested),
            codepage,
            password,
            passwords,
            codepages,
        },
        AttemptView { path: path_to_list(requested), password, codepage },
    )
}

/// The contents that the search hands out: where the archive is split
/// into volumes, they name the path that was asked for.
pub open spec fn with_requested_path(c: ContentsView, requested: Seq<char>) -> ContentsView {
    ContentsView {
        multi_volume: match c.multi_volume {
            Some(m) => Some(MultiVolumeView { actual_path: requested, ..m }),
            None => None,
        },
        ..c
    }
}

/// What follows an attempt that ended in `outcome`. A listing ends the
/// search. Where a password is needed and one is left to try, the next
/// attempt is made with it and with the codepage of the last attempt. Where
/// a name was mis-decoded and a codepage is left to try, the next attempt is
/// made with it and with the password of the last attempt. Every other
/// failure ends the search and is handed out as it is.
pub open spec fn next_step(s: RetryView, outcome: Result<ContentsView, ErrorView>) -> (
    RetryView,
    StepView,
) {
    match outcome {
        Ok(c) => (s, StepView::Done(Ok(with_requested_path(c, s.requested)))),
        Err(ErrorView::NeedPassword(_)) if s.passwords.len() > 0 => (
            RetryView { password: s.passwords[0], passwords: s.passwords.skip(1), ..s },
            StepView::Retry(
                AttemptView { path: s.listed, password: s.passwords[0], codepage: s.codepage },
            ),
        ),
        Err(ErrorView::InvalidUtf8(_)) if s.codepages.len() > 0 => (
            RetryView { codepage: Some(s.codepages[0]), codepages: s.codepages.skip(1), ..s },
            StepView::Retry(
                AttemptView {
                    path: s.listed,
                    password: s.password,
                    codepage: Some(s.codepages[0]),
                },
            ),
        ),
        Err(e) => (s, StepView::Done(Err(e))),
    }
}

impl RetryView {
    /// How many attempts the search can still make.
    pub open spec fn attempts_left(self) -> nat {
        self.passwords.len() + self.codepages.len()
    }
}

/// Each further attempt uses up one password or one codepage, so that a
/// search makes no more attempts after its first than it was given
/// passwords and codepages; and the end of a search leaves it as it is.
pub proof fn lemma_search_is_bounded(s: RetryView, outcome: Result<ContentsView, ErrorView>)
    ensures
        next_step(s, outcome).1 is Retry ==> next_step(s, outcome).0.attempts_left() + 1
            == s.attempts_left(),
        next_step(s, outcome).1 is Done ==> next_step(s, outcome).0 == s,
{
}

/// A failure that ends the search is the failure of the last attempt.
pub proof fn lemma_failure_is_handed_out(s: RetryView, e: ErrorView)
    requires
        next_step(s, Err(e)).1 is Done,
    ensures
        next_step(s, Err(e)).1 == StepView::Done(Err(e)),
{
}

/// Passwords are tried before codepages come into play: as long as the
/// attempts fail for want of a password and one is left, the next attempt
/// takes the next password and no codepage is used up.
pub proof fn lemma_password_first(s: RetryView, path: Seq<char>)
    requires
        s.passwords.len() > 0,
    ensures
        next_step(s, Err(ErrorView::NeedPassword(path))).0.codepages == s.codepages,
        next_step(s, Err(ErrorView::NeedPassword(path))).0.passwords == s.passwords.skip(1),
        next_step(s, Err(ErrorView::NeedPassword(path))).1 is Retry,
{
}

impl ContentRetry {
    /// What holds of every search: it has used up no more candidates than
    /// it was given.
    pub closed spec fn wf(&self) -> bool {
        self.next_password <= self.passwords@.len() && self.next_codepage <= self.codepages@.len()
    }

    /// What follows an attempt that ended in `outcome`.
    pub fn next(&mut self, outcome: Result<ArchiveContents, SevenzError>) -> (r: Step)
        requires
            old(self).wf(),
            outcome matches Ok(c) ==> c.wf(),
        ensures
            final(self).wf(),
            (final(self)@, r@) == next_step(old(self)@, outcome_view(outcome)),
            r matches Step::Done(Ok(c)) ==> c.wf(),
    {
        match outcome {
            Ok(mut contents) => {
                if contents.is_multi_volume() {
                    contents.set_actual_path(self.requested.clone());
                }
                Step::Done(Ok(contents))
            },
            Err(e) => {
                let ghost all = string_views(self.passwords@);
                match e {
                    SevenzError::NeedPassword(p) => {
                        if self.next_password < self.passwords.len() {
                            proof {
                                assert(all.skip(self.next_password as int)[0]
                                    == self.passwords@[self.next_password as int]@);
                                assert(all.skip(self.next_password as int).skip(1) == all.skip(
                                    self.next_password + 1,
                                ));
                            }
                            self.password = self.passwords[self.next_password].clone();
                            self.next_password += 1;
                            Step::Retry(
                                Attempt {
                                    path: self.listed.clone(),
                                    password: self.password.clone(),
                                    codepage: self.codepage,
                                },
                            )
                        } else {
                            Step::Done(Err(SevenzError::NeedPassword(p)))
                        }
                    },
                    SevenzError::InvalidUtf8(s) => {
                        if self.next_codepage < self.codepages.len() {
                            proof {
                                assert(self.codepages@.skip(self.next_codepage as int).skip(1)
                                    == self.codepages@.skip(self.next_codepage + 1));
                            }
                            self.codepage = Some(self.codepages[self.next_codepage]);
                            self.next_codepage += 1;
                            Step::Retry(
                                Attempt {
                                    path: self.listed.clone(),
                                    password: self.password.clone(),
                                    codepage: self.codepage,
                                },
                            )
                        } else {
                            Step::Done(Err(SevenzError::InvalidUtf8(s)))
                        }
                    },
                    other => Step::Done(Err(other)),
                }
            },
        }
    }
}

/// The start of a search as the contracts see it.
pub open spec fn start_view(r: Result<(ContentRetry, Attempt), SevenzError>) -> Result<
    (RetryView, AttemptView),
    ErrorView,
> {
    match r {
        Ok((s, a)) => Ok((s@, a@)),
        Err(e) => Err(e@),
    }
}

/// Begins the inspection of an archive. What is no regular file is
/// refused. Else the search starts with the password and codepage given, on
/// the first volume where the path is that of a later one; `passwords` and
/// `codepages` are what it may try after that, in their order.
pub fn show_archive_content(
    archive_path: &str,
    is_file: bool,
    password: &str,
    codepage: Option<Codepage>,
    passwords: Vec<String>,
    codepages: Vec<Codepage>,
) -> (r: Result<(ContentRetry, Attempt), SevenzError>)
    ensures
        r matches Ok((s, _)) ==> s.wf(),
        start_view(r) == if is_file {
            Ok::<_, ErrorView>(
                first_attempt(
                    archive_path@,
                    password@,
                    codepage,
                    string_views(passwords@),
                    codepages@,
                ),
            )
        } else {
            Err(ErrorView::UnsupportedFile(archive_path@))
        },
{
    if !is_file {
        return Err(SevenzError::UnsupportedFile(archive_path.to_string()));
    }
    let listed = match get_first_volume(archive_path) {
        Some(first) => first,
        None => archive_path.to_string(),
    };
    let attempt = Attempt { path: listed.clone(), password: password.to_string(), codepage };
    proof {
        assert(string_views(passwords@).skip(0) == string_views(passwords@));
        assert(codepages@.skip(0) == codepages@);
    }
    let state = ContentRetry {
        requested: archive_path.to_string(),
        listed,
        codepage,
        password: password.to_string(),
        passwords,
        next_password: 0,
        codepages,
        next_codepage: 0,
    };
    Ok((state, attempt))
}

} // verus!
