# eruspy

File and directory transfer over HTTP, with a verified core.

- `src/` is the library, verified with Verus:
  - `util` joins a client-supplied relative path onto the storage root and
    refuses `..` components; the joined path provably stays below the root.
  - `archive` packs directory entries into an in-memory zip archive and
    reads them back, through the `zip` crate.
  - `server` sorts directory listings (directories first, then by name) and
    decides, step by step, how each transfer request is answered.
  - `client` builds request URLs and judges the server's answers.
- `app/` is the I/O around it: the actix-web routes (`transfer_scope`), the
  blocking `reqwest` client (`EruspyClient`), and the file-system side of
  zipping and unzipping directories.
- `tests/` runs the library on concrete values.
