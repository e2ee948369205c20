//! Find the first path that exists on disk from an ordered list of candidates.
//!
//! The library holds the decisions: parsing of type names and `file://` URLs,
//! lexical path resolution against a working directory, and the search that
//! picks the first candidate whose entry matches the type filter. The search
//! returns the candidate exactly as supplied, not the resolved path. Reading the
//! file system is left to the caller, which answers the search's probes.

pub mod file_url;
pub mod options;
pub mod path_type;
pub mod resolve;
pub mod search;
mod text;

pub use file_url::FileUrlError;
pub use options::{AsyncOptions, ConcurrencyError, Cwd, IntoCwd, Options};
pub use path_type::{EntryKind, InvalidType, PathType};
pub use resolve::{base_dir, normalize, resolve, Platform};
pub use search::{Action, Search, Stage};
