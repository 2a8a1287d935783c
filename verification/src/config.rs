//! What has to hold before a run touches anything, and the errors that end
//! a run that asks for something else.

use vstd::prelude::*;
use vstd::string::StringExecFns;

use crate::names::{decimal, decimal_of};
use crate::templates::{is_supported, is_supported_repo_url};
use crate::text::{append, chars_of, string_of};

verus! {

/// A run that cannot be carried out as it was asked for. Each of these ends
/// the run before anything is written.
#[derive(Debug, Clone, Copy, PartialEq, Eq)]
pub enum ConfigError {
    /// No repository was named, and nobody can be asked for one.
    MissingRepoUrl,
    /// The repository to clone has an address that cannot be cloned from.
    UnsupportedRepoUrl,
    /// The repository that holds the list of templates has such an address.
    UnsupportedTemplateSource,
    /// The directory to merge into does not exist.
    DestinationMissing,
    /// What was named as the directory to merge into is no directory.
    DestinationNotDirectory,
}

/// What is done about the repository URL that was given when the run began.
#[derive(Debug, Clone, Copy, PartialEq, Eq)]
pub enum UrlStep {
    /// It is used as it is.
    Use,
    /// The user is asked whether to use it.
    Confirm,
    /// The user is asked for one.
    Ask,
}

/// The text of `error`. `subject` is the path or the address that the error
/// is about; the errors about the repository to clone name none.
pub open spec fn message_text(error: ConfigError, subject: Seq<char>) -> Seq<char> {
    match error {
        ConfigError::MissingRepoUrl => "repo URL must be provided when running non-interactively"@,
        ConfigError::UnsupportedRepoUrl =>
            "Repo URL must be HTTPS, SSH (ssh://), or SCP-like (git@host:owner/repo.git)"@,
        ConfigError::UnsupportedTemplateSource => "Template source repo URL is not supported: "@
            + subject,
        ConfigError::DestinationMissing => "Destination directory does not exist: "@ + subject,
        ConfigError::DestinationNotDirectory => "Destination is not a directory: "@ + subject,
    }
}

impl ConfigError {
    /// The text that tells the user of this error.
    pub fn message(&self, subject: &str) -> (text: String)
        ensures
            text@ == message_text(*self, subject@),
    {
        let mut text = String::new();
        match self {
            ConfigError::MissingRepoUrl => {
                text.append("repo URL must be provided when running non-interactively");
            },
            ConfigError::UnsupportedRepoUrl => {
                text.append(
                    "Repo URL must be HTTPS, SSH (ssh://), or SCP-like (git@host:owner/repo.git)",
                );
            },
            ConfigError::UnsupportedTemplateSource => {
                text.append("Template source repo URL is not supported: ");
                text.append(subject);
            },
            ConfigError::DestinationMissing => {
                text.append("Destination directory does not exist: ");
                text.append(subject);
            },
            ConfigError::DestinationNotDirectory => {
                text.append("Destination is not a directory: ");
                text.append(subject);
            },
        }
        assert(text@ =~= message_text(*self, subject@));
        text
    }
}

/// What is done about a repository URL that the run began with. An empty
/// one has to be asked for, which fails where `assume_yes` forbids all
/// questions. One that is there is used, after a question unless
/// `assume_yes` forbids it.
pub open spec fn url_step_for(repo_url: Seq<char>, assume_yes: bool) -> Result<
    UrlStep,
    ConfigError,
> {
    if repo_url.len() == 0 {
        if assume_yes {
            Err(ConfigError::MissingRepoUrl)
        } else {
            Ok(UrlStep::Ask)
        }
    } else if assume_yes {
        Ok(UrlStep::Use)
    } else {
        Ok(UrlStep::Confirm)
    }
}

/// Whether an address is accepted: `Ok` if a repository can be cloned from
/// it, else the error `otherwise`.
pub open spec fn address_check(repo_url: Seq<char>, otherwise: ConfigError) -> Result<
    (),
    ConfigError,
> {
    if is_supported(repo_url) {
        Ok(())
    } else {
        Err(otherwise)
    }
}

/// Whether a directory to merge into is accepted: it has to exist, and it
/// has to be a directory.
pub open spec fn destination_check(exists: bool, is_directory: bool) -> Result<(), ConfigError> {
    if !exists {
        Err(ConfigError::DestinationMissing)
    } else if !is_directory {
        Err(ConfigError::DestinationNotDirectory)
    } else {
        Ok(())
    }
}

/// What is done about the repository URL `repo_url` that the run began
/// with: it is used, the user is asked about it or for one, or the run ends
/// because no URL was given and nobody can be asked.
pub fn repo_url_step(repo_url: &str, assume_yes: bool) -> (step: Result<UrlStep, ConfigError>)
    ensures
        step == url_step_for(repo_url@, assume_yes),
{
    if repo_url.is_empty() {
        if assume_yes {
            Err(ConfigError::MissingRepoUrl)
        } else {
            Ok(UrlStep::Ask)
        }
    } else if assume_yes {
        Ok(UrlStep::Use)
    } else {
        Ok(UrlStep::Confirm)
    }
}

/// Accepts the address of the repository to clone, or says why not.
pub fn check_repo_url(repo_url: &str) -> (r: Result<(), ConfigError>)
    ensures
        r == address_check(repo_url@, ConfigError::UnsupportedRepoUrl),
{
    if is_supported_repo_url(repo_url) {
        Ok(())
    } else {
        Err(ConfigError::UnsupportedRepoUrl)
    }
}

/// Accepts the address of the repository that holds the list of templates,
/// or says why not.
pub fn check_template_repo(repo_url: &str) -> (r: Result<(), ConfigError>)
    ensures
        r == address_check(repo_url@, ConfigError::UnsupportedTemplateSource),
{
    if is_supported_repo_url(repo_url) {
        Ok(())
    } else {
        Err(ConfigError::UnsupportedTemplateSource)
    }
}

/// Accepts the directory to merge into, or says why not. A directory that
/// is refused is never written to: the merge does not begin.
pub fn check_destination(exists: bool, is_directory: bool) -> (r: Result<(), ConfigError>)
    ensures
        r == destination_check(exists, is_directory),
{
    if !exists {
        Err(ConfigError::DestinationMissing)
    } else if !is_directory {
        Err(ConfigError::DestinationNotDirectory)
    } else {
        Ok(())
    }
}

/// The name of the directory that a new project is written to: the
/// project's name, or if that is taken, the name with `_from_template`
/// behind it.
pub fn project_directory(new_name: &str, taken: bool) -> (name: String)
    ensures
        name@ == (if taken {
            new_name@ + "_from_template"@
        } else {
            new_name@
        }),
{
    let mut name = String::new();
    name.append(new_name);
    if taken {
        name.append("_from_template");
    }
    assert(name@ =~= (if taken {
        new_name@ + "_from_template"@
    } else {
        new_name@
    }));
    name
}

// ---------------------------------------------------------------------------
// When git fails
// ---------------------------------------------------------------------------

/// `i` written in decimal, with a minus sign if it is negative.
pub open spec fn signed_decimal(i: int) -> Seq<char> {
    if i < 0 {
        seq!['-'] + decimal((-i) as nat)
    } else {
        decimal(i as nat)
    }
}

/// The exit code that is reported of a clone that failed: the code that git
/// ended with, or -1 if it ended without one.
pub open spec fn reported_code(code: Option<i32>) -> int {
    match code {
        Some(c) => c as int,
        None => -1,
    }
}

/// The text that tells the user that the clone failed, with the exit code
/// of git.
pub fn clone_failure(code: Option<i32>) -> (text: String)
    ensures
        text@ == "git clone failed with code: "@ + signed_decimal(reported_code(code)),
{
    let n: i64 = match code {
        Some(c) => c as i64,
        None => -1,
    };
    let mut text = chars_of("git clone failed with code: ");
    if n < 0 {
        text.push('-');
        let digits = decimal_of((-n) as usize);
        append(&mut text, &digits);
    } else {
        let digits = decimal_of(n as usize);
        append(&mut text, &digits);
    }
    assert(text@ =~= "git clone failed with code: "@ + signed_decimal(reported_code(code)));
    string_of(&text)
}

/// The text that tells the user that git could not be run, with the
/// `error` that was met.
pub fn git_unavailable(error: &str) -> (text: String)
    ensures
        text@ == "Failed to run git: "@ + error@,
{
    let mut text = String::new();
    text.append("Failed to run git: ");
    text.append(error);
    assert(text@ =~= "Failed to run git: "@ + error@);
    text
}

} // verus!
