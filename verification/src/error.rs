//! The tool's error value and the constructors the git and configuration
//! phases use: every error carries a message naming what failed.

use vstd::prelude::*;
use vstd::string::StringExecFns;

verus! {

/// The result type used across the tool.
pub type GtrResult<T> = Result<T, GtrError>;

/// An error with a human-readable message naming the phase that failed.
#[derive(Debug, Clone, PartialEq)]
pub struct GtrError {
    message: String,
}

impl GtrError {
    /// The message as a mathematical value.
    pub closed spec fn spec_message(&self) -> Seq<char> {
        self.message@
    }

    /// Wraps a ready message.
    pub fn new(message: String) -> (e: GtrError)
        ensures
            e.spec_message() == message@,
    {
        GtrError { message }
    }

    /// The message, for the caller to display.
    pub fn message(&self) -> (m: &str)
        ensures
            m@ == self.spec_message(),
    {
        self.message.as_str()
    }
}

/// The errors of the git phases: what each constructor's message says is
/// part of the contract, so a caller can rely on which phase is named.
pub trait GitError: Sized {
    /// The message the error carries.
    spec fn msg(&self) -> Seq<char>;

    /// A directory that is not a git repository.
    fn not_git_repo(dir: &str) -> (e: Self)
        ensures
            e.msg() == dir@ + " is not a git repository"@,
    ;

    /// A git command that could not be run.
    fn command_failed(detail: &str) -> (e: Self)
        ensures
            e.msg() == "Error running git command, "@ + detail@,
    ;

    /// The ignore file could not be updated.
    fn ignore_failed(detail: &str) -> (e: Self)
        ensures
            e.msg() == "Error persisting git ignore, "@ + detail@,
    ;

    /// The pack stream could not be read.
    fn pack_read_failed(detail: &str) -> (e: Self)
        ensures
            e.msg() == "Error requesting pack file: "@ + detail@,
    ;

    /// The pack file could not be written.
    fn pack_write_failed(detail: &str) -> (e: Self)
        ensures
            e.msg() == "Error reading pack file content: "@ + detail@,
    ;
}

impl GitError for GtrError {
    closed spec fn msg(&self) -> Seq<char> {
        self.message@
    }

    fn not_git_repo(dir: &str) -> (e: GtrError) {
        GtrError { message: dir.to_owned().concat(" is not a git repository") }
    }

    fn command_failed(detail: &str) -> (e: GtrError) {
        GtrError { message: "Error running git command, ".to_owned().concat(detail) }
    }

    fn ignore_failed(detail: &str) -> (e: GtrError) {
        GtrError { message: "Error persisting git ignore, ".to_owned().concat(detail) }
    }

    fn pack_read_failed(detail: &str) -> (e: GtrError) {
        GtrError { message: "Error requesting pack file: ".to_owned().concat(detail) }
    }

    fn pack_write_failed(detail: &str) -> (e: GtrError) {
        GtrError { message: "Error reading pack file content: ".to_owned().concat(detail) }
    }
}

/// The errors of the configuration store, named the same way.
pub trait ConfigError: Sized {
    /// The message the error carries.
    spec fn msg(&self) -> Seq<char>;

    /// The configuration could not be saved.
    fn save_failed(detail: &str) -> (e: Self)
        ensures
            e.msg() == "Cant save configuration to file "@ + detail@,
    ;

    /// The configuration could not be read.
    fn read_failed(detail: &str) -> (e: Self)
        ensures
            e.msg() == "Cant read configuration from file "@ + detail@,
    ;

    /// The settings directory could not be created.
    fn dir_creation_failed(detail: &str) -> (e: Self)
        ensures
            e.msg() == "Cant create  gtr directory "@ + detail@,
    ;
}

impl ConfigError for GtrError {
    closed spec fn msg(&self) -> Seq<char> {
        self.message@
    }

    fn save_failed(detail: &str) -> (e: GtrError) {
        GtrError { message: "Cant save configuration to file ".to_owned().concat(detail) }
    }

    fn read_failed(detail: &str) -> (e: GtrError) {
        GtrError { message: "Cant read configuration from file ".to_owned().concat(detail) }
    }

    fn dir_creation_failed(detail: &str) -> (e: GtrError) {
        GtrError { message: "Cant create  gtr directory ".to_owned().concat(detail) }
    }
}

} // verus!
