# terax

The workspace logic of the Terax terminal's back end, verified with Verus.

- `src/` — the library. Every function carries a contract over
  mathematical models (`Seq<char>` for strings, `Set` for the authorized
  roots) and is proved by Verus:
  - `text` — whitespace, trimming, words, lines, string building;
  - `path` — POSIX path components, component-wise prefix and join;
    `path::platform` reads paths as the platform does (on Windows with the
    drive, UNC and verbatim `//?/` prefixes, written with `/`) for their
    parent and file name, kept as text like `Path::parent`, and for
    `Path::join`, with the normalization std applies to verbatim bases;
    and the laws relating them;
  - `workspace` — the registry of authorized roots, the workspace
    environment (local or WSL), the active environment and home override;
  - `wsl` — distro-name validation, WSL path translation (drvfs mounts and
    UNC shares), decoding of `wsl.exe` output, the distro listing;
  - `startup` — the command-line start-up path, read one check at a time;
  - `git` — repository root and repository path checks with their errors.
- `tests/` — tests against concrete values and against the standard
  library's own path and text functions.
- `app/` — the handlers around the library: file-system queries, `wsl.exe`
  runs, global state, and the serde forms the front end exchanges.
