//! Workspace logic of the Terax terminal: which paths lie in authorized
//! workspaces, where WSL paths are reached from Windows, how the
//! command-line start-up path and `wsl.exe` output are read. Each function
//! states its behaviour as a contract over `Seq<char>` models, proved by
//! Verus; file-system and process work stays with the caller.
pub mod git;
pub mod path;
pub mod startup;
pub mod text;
pub mod workspace;
pub mod wsl;
