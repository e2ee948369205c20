# locate_path

Find the first path that exists on disk from an ordered list of candidates,
with the decisions verified by Verus.

- `src/path_type.rs`: the type filter (`file`, `directory`, `both`), its parser
  and the kinds of entry a look-up can find.
- `src/file_url.rs`: `file://` URLs as working directories; scheme and host
  checks and percent-decoding of the path.
- `src/options.rs`: the working directory and the search settings.
- `src/resolve.rs`: lexical resolution of a candidate against a base directory,
  by the path rules of a `Platform` (Unix, or Windows with drive prefixes and
  both separators), with the normal form of a path and its laws (idempotence,
  absolute results), and the comparison of paths by their components.
- `src/search.rs`: the search as a state machine. It takes candidates one at a
  time, asks for one look-up at a time, and ends with the first candidate,
  exactly as supplied, whose entry matches the filter; the laws on the first
  match (prefixes, later candidates, absolute candidates) stand beside it.
- `app/lib.rs`: the entry points `locate_path` and `locate_path_sync`, which
  pick the platform the crate is built for, read the process directory and the
  file system, and drive the search.
