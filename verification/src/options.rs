//! Settings for a search: the working directory, the type filter, how symbolic
//! links are treated, and two scheduling settings that a serial, in-order search
//! does not need.
use vstd::prelude::*;

use crate::path_type::PathType;
use crate::resolve::{components, same_components};
use vstd::std_specs::cmp::PartialEqSpecImpl;

verus! {

/// Where the working directory comes from.
///
/// Candidate paths are resolved against this directory before the existence
/// check. A relative directory is itself resolved against the process working
/// directory, so resolution always produces an absolute path.
///
/// Two working directories are equal as paths are: by their components, so
/// `/tmp/x/`, `/tmp//x` and `/tmp/./x` name the same directory.
#[derive(Debug, Eq)]
pub enum Cwd {
    /// Use the process working directory. This is the default.
    Process,
    /// Use an explicit path. May be relative or absolute.
    Path(String),
}

impl PartialEq for Cwd {
    fn eq(&self, other: &Self) -> (r: bool) {
        match (self, other) {
            (Cwd::Process, Cwd::Process) => true,
            (Cwd::Path(a), Cwd::Path(b)) => same_components(a.as_str(), b.as_str()),
            _ => false,
        }
    }
}

impl PartialEqSpecImpl for Cwd {
    open spec fn obeys_eq_spec() -> bool {
        true
    }

    open spec fn eq_spec(&self, other: &Cwd) -> bool {
        match (self, other) {
            (Cwd::Process, Cwd::Process) => true,
            (Cwd::Path(a), Cwd::Path(b)) => components(a@) == components(b@),
            _ => false,
        }
    }
}

impl Cwd {
    /// The text of an explicit working directory, or `None` for the process
    /// directory.
    pub open spec fn text(self) -> Option<Seq<char>> {
        match self {
            Cwd::Process => None,
            Cwd::Path(p) => Some(p@),
        }
    }
}

/// A value that names a working directory: a string, a `String`, or a [`Cwd`].
pub trait IntoCwd: Sized {
    /// The text of the directory this value names, or `None` for the process
    /// directory.
    spec fn cwd_text(&self) -> Option<Seq<char>>;

    /// The working directory this value names.
    fn into_cwd(self) -> (r: Cwd)
        ensures
            r.text() == self.cwd_text(),
    ;
}

impl IntoCwd for Cwd {
    open spec fn cwd_text(&self) -> Option<Seq<char>> {
        self.text()
    }

    fn into_cwd(self) -> (r: Cwd)
        ensures
            r == self,
    {
        self
    }
}

impl IntoCwd for String {
    open spec fn cwd_text(&self) -> Option<Seq<char>> {
        Some(self@)
    }

    fn into_cwd(self) -> (r: Cwd) {
        Cwd::Path(self)
    }
}

impl<'a> IntoCwd for &'a str {
    open spec fn cwd_text(&self) -> Option<Seq<char>> {
        Some(self@)
    }

    fn into_cwd(self) -> (r: Cwd) {
        Cwd::Path(self.to_owned())
    }
}

/// Converting a string into a working directory keeps its text: the result is
/// an explicit directory, never the process directory.
pub proof fn law_cwd_from_string_keeps_text(path: String)
    ensures
        <Cwd as vstd::std_specs::convert::FromSpec<String>>::from_spec(path).text() == Some(path@),
        <Cwd as vstd::std_specs::convert::FromSpec<String>>::obeys_from_spec(),
{
}

impl Clone for Cwd {
    fn clone(&self) -> (r: Self)
        ensures
            r == *self,
    {
        match self {
            Cwd::Process => Cwd::Process,
            Cwd::Path(p) => Cwd::Path(p.clone()),
        }
    }
}

impl Default for Cwd {
    fn default() -> (r: Self)
        ensures
            r == Cwd::Process,
    {
        Cwd::Process
    }
}

impl From<String> for Cwd {
    fn from(path: String) -> (r: Self)
        ensures
            r.text() == Some(path@),
    {
        Cwd::Path(path)
    }
}

impl vstd::std_specs::convert::FromSpecImpl<String> for Cwd {
    open spec fn obeys_from_spec() -> bool {
        true
    }

    open spec fn from_spec(path: String) -> Self {
        Cwd::Path(path)
    }
}

impl<'a> From<&'a str> for Cwd {
    fn from(path: &'a str) -> (r: Self)
        ensures
            r matches Cwd::Path(p) && p@ == path@,
            r.text() == Some(path@),
    {
        Cwd::Path(path.to_owned())
    }
}

/// A string built from a slice is a new value: only its text is known, so the
/// conversion from a slice states its result by its `ensures` alone and does
/// not claim a spec value; `from_spec` is left unspecified.
impl<'a> vstd::std_specs::convert::FromSpecImpl<&'a str> for Cwd {
    open spec fn obeys_from_spec() -> bool {
        false
    }

    open spec fn from_spec(path: &'a str) -> Self {
        arbitrary()
    }
}

/// Error returned when `concurrency` is set to zero.
#[derive(Debug, Clone, Copy, PartialEq, Eq, Structural)]
pub struct ConcurrencyError;

impl ConcurrencyError {
    /// The message of this error.
    pub open spec fn message() -> Seq<char> {
        "Expected `concurrency` to be a number from 1 and up"@
    }

    /// The error message: ``Expected `concurrency` to be a number from 1 and up``.
    pub fn to_string(&self) -> (r: String)
        ensures
            r@ == Self::message(),
    {
        "Expected `concurrency` to be a number from 1 and up".to_owned()
    }
}

/// Settings for a search.
///
/// `Options` is a builder. Start from [`Options::default`] and chain the
/// setters. Each setter takes `self` and returns `self`, so calls compose.
///
/// Defaults: the working directory is the process directory, the type filter is
/// [`PathType::File`], symbolic links are followed, no concurrency limit is set
/// and order is preserved.
#[derive(Debug, PartialEq, Eq)]
pub struct Options {
    cwd: Cwd,
    kind: PathType,
    allow_symlinks: bool,
    concurrency: Option<usize>,
    preserve_order: bool,
}

/// The same settings, under the name the asynchronous entry point uses.
pub type AsyncOptions = Options;

impl Default for Options {
    fn default() -> (r: Self)
        ensures
            r.cwd_setting() == Cwd::Process,
            r.kind_setting() == PathType::File,
            r.follows_symlinks(),
            r.concurrency_setting() == None::<usize>,
            r.keeps_order(),
    {
        Options {
            cwd: Cwd::Process,
            kind: PathType::File,
            allow_symlinks: true,
            concurrency: None,
            preserve_order: true,
        }
    }
}

impl Clone for Options {
    fn clone(&self) -> (r: Self)
        ensures
            r == *self,
    {
        Options {
            cwd: self.cwd.clone(),
            kind: self.kind,
            allow_symlinks: self.allow_symlinks,
            concurrency: self.concurrency,
            preserve_order: self.preserve_order,
        }
    }
}

impl Options {
    /// The working directory that candidates resolve against.
    pub closed spec fn cwd_setting(&self) -> Cwd {
        self.cwd
    }

    /// The type filter.
    pub closed spec fn kind_setting(&self) -> PathType {
        self.kind
    }

    /// Whether symbolic links are followed.
    pub closed spec fn follows_symlinks(&self) -> bool {
        self.allow_symlinks
    }

    /// The concurrency limit, if one was set.
    pub closed spec fn concurrency_setting(&self) -> Option<usize> {
        self.concurrency
    }

    /// Whether results are kept in order.
    pub closed spec fn keeps_order(&self) -> bool {
        self.preserve_order
    }

    /// The working directory, borrowed.
    pub(crate) fn cwd_ref(&self) -> (r: &Cwd)
        ensures
            *r == self.cwd_setting(),
    {
        &self.cwd
    }

    /// The type filter.
    pub(crate) fn kind_ref(&self) -> (r: PathType)
        ensures
            r == self.kind_setting(),
    {
        self.kind
    }

    /// Whether symbolic links are followed.
    pub(crate) fn follows_ref(&self) -> (r: bool)
        ensures
            r == self.follows_symlinks(),
    {
        self.allow_symlinks
    }

    /// Set the working directory. Accepts a string, a `String`, or a [`Cwd`]:
    /// a string becomes a [`Cwd::Path`] with its text, and a [`Cwd`] is kept as
    /// it is.
    pub fn cwd<T: IntoCwd>(self, cwd: T) -> (r: Self)
        ensures
            r.cwd_setting().text() == cwd.cwd_text(),
            r.kind_setting() == self.kind_setting(),
            r.follows_symlinks() == self.follows_symlinks(),
            r.concurrency_setting() == self.concurrency_setting(),
            r.keeps_order() == self.keeps_order(),
    {
        Options { cwd: cwd.into_cwd(), ..self }
    }

    /// Set the type filter.
    pub fn kind(self, kind: PathType) -> (r: Self)
        ensures
            r.kind_setting() == kind,
            r.cwd_setting() == self.cwd_setting(),
            r.follows_symlinks() == self.follows_symlinks(),
            r.concurrency_setting() == self.concurrency_setting(),
            r.keeps_order() == self.keeps_order(),
    {
        Options { kind, ..self }
    }

    /// Set whether symbolic links are followed.
    pub fn allow_symlinks(self, allow: bool) -> (r: Self)
        ensures
            r.follows_symlinks() == allow,
            r.cwd_setting() == self.cwd_setting(),
            r.kind_setting() == self.kind_setting(),
            r.concurrency_setting() == self.concurrency_setting(),
            r.keeps_order() == self.keeps_order(),
    {
        Options { allow_symlinks: allow, ..self }
    }

    /// Set the concurrency limit. Scanning is serial, so it does not change the
    /// result; zero is rejected by [`Options::concurrency_or_error`].
    pub fn concurrency(self, limit: Option<usize>) -> (r: Self)
        ensures
            r.concurrency_setting() == limit,
            r.cwd_setting() == self.cwd_setting(),
            r.kind_setting() == self.kind_setting(),
            r.follows_symlinks() == self.follows_symlinks(),
            r.keeps_order() == self.keeps_order(),
    {
        Options { concurrency: limit, ..self }
    }

    /// Set whether results keep the input order. Scanning is in order, so the
    /// result is always deterministic.
    pub fn preserve_order(self, preserve: bool) -> (r: Self)
        ensures
            r.keeps_order() == preserve,
            r.cwd_setting() == self.cwd_setting(),
            r.kind_setting() == self.kind_setting(),
            r.follows_symlinks() == self.follows_symlinks(),
            r.concurrency_setting() == self.concurrency_setting(),
    {
        Options { preserve_order: preserve, ..self }
    }

    /// The concurrency limit, or an error when it is zero.
    pub fn concurrency_or_error(&self) -> (r: Result<Option<usize>, ConcurrencyError>)
        ensures
            r == (if self.concurrency_setting() == Some(0usize) {
                Err::<Option<usize>, ConcurrencyError>(ConcurrencyError)
            } else {
                Ok(self.concurrency_setting())
            }),
    {
        match self.concurrency {
            Some(0) => Err(ConcurrencyError),
            other => Ok(other),
        }
    }
}

} // verus!
