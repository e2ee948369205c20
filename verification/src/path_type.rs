use vstd::prelude::*;

use crate::text::str_equal;
use std::str::FromStr;

verus! {

/// The kind of path that counts as a match.
///
/// A path that exists but is neither a regular file nor a directory, such as a
/// socket or a FIFO, never matches any variant.
#[derive(Debug, Clone, Copy, PartialEq, Eq, Hash, Structural)]
pub enum PathType {
    /// Match regular files only. This is the default.
    File,
    /// Match directories only.
    Directory,
    /// Match both files and directories.
    Both,
}

/// What a look-up of a path on disk found there.
#[derive(Debug, Clone, Copy, PartialEq, Eq, Hash, Structural)]
pub enum EntryKind {
    /// A regular file.
    File,
    /// A directory.
    Directory,
    /// Anything else: a socket, a FIFO, a device, or a symbolic link that was
    /// not followed.
    Other,
}

impl PathType {
    /// Whether an entry of kind `entry` satisfies this filter.
    pub open spec fn accepts(self, entry: EntryKind) -> bool {
        match self {
            PathType::File => entry == EntryKind::File,
            PathType::Directory => entry == EntryKind::Directory,
            PathType::Both => entry == EntryKind::File || entry == EntryKind::Directory,
        }
    }

    /// Test whether an entry of kind `entry` satisfies this filter.
    pub fn matches(self, entry: EntryKind) -> (r: bool)
        ensures
            r == self.accepts(entry),
    {
        match self {
            PathType::File => entry == EntryKind::File,
            PathType::Directory => entry == EntryKind::Directory,
            PathType::Both => entry == EntryKind::File || entry == EntryKind::Directory,
        }
    }
}

/// An entry that is neither a regular file nor a directory never matches, under
/// any filter.
pub proof fn law_other_entries_never_match(kind: PathType)
    ensures
        !kind.accepts(EntryKind::Other),
{
}

/// `Both` matches exactly what `File` or `Directory` matches.
pub proof fn law_both_is_file_or_directory(entry: EntryKind)
    ensures
        PathType::Both.accepts(entry) == (PathType::File.accepts(entry) || PathType::Directory.accepts(entry)),
{
}

impl Default for PathType {
    fn default() -> (r: Self)
        ensures
            r == PathType::File,
    {
        PathType::File
    }
}

/// The type that a name stands for: `file`, `directory` or `both`, matched
/// exactly; any other text names no type.
pub open spec fn named_type(name: Seq<char>) -> Option<PathType> {
    if name == "file"@ {
        Some(PathType::File)
    } else if name == "directory"@ {
        Some(PathType::Directory)
    } else if name == "both"@ {
        Some(PathType::Both)
    } else {
        None
    }
}

/// Exactly three names are accepted, each for its own type: `file` for
/// [`PathType::File`], `directory` for [`PathType::Directory`] and `both` for
/// [`PathType::Both`]; any other text names no type.
pub proof fn law_only_three_names(name: Seq<char>)
    ensures
        (named_type(name) == Some(PathType::File)) == (name == "file"@),
        (named_type(name) == Some(PathType::Directory)) == (name == "directory"@),
        (named_type(name) == Some(PathType::Both)) == (name == "both"@),
        named_type(name) is None == (name != "file"@ && name != "directory"@ && name != "both"@),
{
    reveal_strlit("file");
    reveal_strlit("directory");
    reveal_strlit("both");
    assert("file"@ != "directory"@) by {
        assert("file"@.len() != "directory"@.len());
    }
    assert("file"@ != "both"@) by {
        assert("file"@[0] != "both"@[0]);
    }
    assert("directory"@ != "both"@) by {
        assert("directory"@.len() != "both"@.len());
    }
}

/// Error returned when a string does not name a valid [`PathType`].
///
/// The message is `Invalid type specified: <value>`, where `<value>` is the
/// rejected input.
#[derive(Debug, PartialEq, Eq)]
pub struct InvalidType {
    value: String,
}

impl Clone for InvalidType {
    fn clone(&self) -> (r: Self)
        ensures
            r == *self,
    {
        InvalidType { value: self.value.clone() }
    }
}

impl InvalidType {
    /// The text of the rejected input.
    pub closed spec fn rejected(&self) -> Seq<char> {
        self.value@
    }

    /// The message of an error for the rejected input `value`.
    pub open spec fn message_for(value: Seq<char>) -> Seq<char> {
        "Invalid type specified: "@ + value
    }

    /// The rejected input.
    pub fn value(&self) -> (r: &str)
        ensures
            r@ == self.rejected(),
    {
        self.value.as_str()
    }

    /// The error message: `Invalid type specified: <value>`.
    pub fn to_string(&self) -> (r: String)
        ensures
            r@ == Self::message_for(self.rejected()),
    {
        let mut out = "Invalid type specified: ".to_owned();
        out.append(self.value.as_str());
        out
    }
}

impl FromStr for PathType {
    type Err = InvalidType;

    /// Parse `"file"`, `"directory"`, or `"both"`. Reject everything else.
    ///
    /// Rejection returns [`InvalidType`] carrying the input verbatim, so the
    /// message matches the input exactly.
    fn from_str(s: &str) -> (r: Result<Self, Self::Err>)
        ensures
            match named_type(s@) {
                Some(t) => r == Ok::<PathType, InvalidType>(t),
                None => r matches Err(e) && e.rejected() == s@,
            },
            (r == Ok::<PathType, InvalidType>(PathType::File)) == (s@ == "file"@),
            (r == Ok::<PathType, InvalidType>(PathType::Directory)) == (s@ == "directory"@),
            (r == Ok::<PathType, InvalidType>(PathType::Both)) == (s@ == "both"@),
            r is Err == (s@ != "file"@ && s@ != "directory"@ && s@ != "both"@),
    {
        proof {
            law_only_three_names(s@);
        }
        if str_equal(s, "file") {
            Ok(PathType::File)
        } else if str_equal(s, "directory") {
            Ok(PathType::Directory)
        } else if str_equal(s, "both") {
            Ok(PathType::Both)
        } else {
            Err(InvalidType { value: s.to_owned() })
        }
    }
}

impl<'a> TryFrom<&'a str> for PathType {
    type Error = InvalidType;

    /// Parse a type name, as [`FromStr`] does.
    fn try_from(s: &'a str) -> (r: Result<Self, Self::Error>)
        ensures
            match named_type(s@) {
                Some(t) => r == Ok::<PathType, InvalidType>(t),
                None => r matches Err(e) && e.rejected() == s@,
            },
            (r == Ok::<PathType, InvalidType>(PathType::File)) == (s@ == "file"@),
            (r == Ok::<PathType, InvalidType>(PathType::Directory)) == (s@ == "directory"@),
            (r == Ok::<PathType, InvalidType>(PathType::Both)) == (s@ == "both"@),
            r is Err == (s@ != "file"@ && s@ != "directory"@ && s@ != "both"@),
    {
        PathType::from_str(s)
    }
}

/// A rejection carries a new string, of which only the text is known, so the
/// conversion states its result by its `ensures` alone and does not claim a
/// spec value; `try_from_spec` is left unspecified.
impl<'a> vstd::std_specs::convert::TryFromSpecImpl<&'a str> for PathType {
    open spec fn obeys_try_from_spec() -> bool {
        false
    }

    open spec fn try_from_spec(s: &'a str) -> Result<Self, Self::Error> {
        arbitrary()
    }
}

} // verus!
