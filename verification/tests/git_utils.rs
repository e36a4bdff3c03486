use terax::git::errors::{GitError, IoFailure};
use terax::git::utils::{
    authorized_repo_root, canonical_dir, display_path, is_wsl_posix_path,
    resolve_within_repo, split_upstream, DirProbe,
};
use terax::path::join;
use terax::path::platform::join_on;
use terax::workspace::{WorkspaceEnv, WorkspaceRegistry};

fn missing() -> IoFailure {
    IoFailure { not_found: true, message: "No such file or directory (os error 2)".to_string() }
}

fn wsl() -> WorkspaceEnv {
    WorkspaceEnv::Wsl { distro: "Ubuntu".to_string() }
}

#[test]
fn split_upstream_at_first_slash() {
    assert_eq!(
        split_upstream("origin/feature/x"),
        (Some("origin".to_string()), Some("feature/x".to_string()))
    );
    assert_eq!(split_upstream("main"), (None, Some("main".to_string())));
    assert_eq!(split_upstream("/x"), (Some(String::new()), Some("x".to_string())));
    // Rejoining remote and branch with `/` gives the upstream back.
    for u in ["origin/feature/x", "a/b", "/", "x/"] {
        let (remote, branch) = split_upstream(u);
        assert_eq!(format!("{}/{}", remote.unwrap(), branch.unwrap()), u);
    }
}

#[test]
fn display_path_uses_forward_slashes() {
    assert_eq!(display_path("C:\\Users\\me\\repo"), "C:/Users/me/repo");
    assert_eq!(display_path("/already/fine"), "/already/fine");
    let once = display_path("\\\\server\\share\\x");
    assert_eq!(once, "//server/share/x");
    assert_eq!(display_path(&once), once);
}

#[test]
fn posix_path_detection() {
    assert!(is_wsl_posix_path("/home/user"));
    assert!(!is_wsl_posix_path("C:\\Users"));
    assert!(!is_wsl_posix_path("/mixed\\path"));
    assert!(!is_wsl_posix_path("relative/path"));
    assert!(!is_wsl_posix_path(""));
}

#[test]
fn canonical_dir_outcomes() {
    let local = WorkspaceEnv::Local;
    assert_eq!(
        canonical_dir("/home/u/repo", &wsl(), DirProbe::NotADirectory),
        Ok("/home/u/repo".to_string())
    );
    assert_eq!(
        canonical_dir("/home/u/repo", &local, DirProbe::NotADirectory),
        Err(GitError::NotADirectory("/home/u/repo".to_string()))
    );
    assert_eq!(
        canonical_dir("repo", &local, DirProbe::Directory(Ok("/abs/repo".to_string()))),
        Ok("/abs/repo".to_string())
    );
    assert_eq!(
        canonical_dir("repo", &local, DirProbe::Directory(Err(IoFailure { not_found: false, message: "denied".to_string() }))),
        Err(GitError::Io("denied".to_string()))
    );
}

#[test]
fn authorized_repo_root_checks_registry() {
    let mut reg = WorkspaceRegistry::new();
    reg.authorize("/work".to_string());
    let local = WorkspaceEnv::Local;
    assert_eq!(
        authorized_repo_root(&reg, "/work/repo", &local, DirProbe::Directory(Ok("/work/repo".to_string()))),
        Ok("/work/repo".to_string())
    );
    assert_eq!(
        authorized_repo_root(&reg, "/etc", &local, DirProbe::Directory(Ok("/etc".to_string()))),
        Err(GitError::PathOutsideWorkspace("/etc".to_string()))
    );
    assert_eq!(
        authorized_repo_root(&reg, "/etc", &wsl(), DirProbe::NotADirectory),
        Ok("/etc".to_string())
    );
    assert_eq!(
        authorized_repo_root(&reg, "/gone", &local, DirProbe::NotADirectory),
        Err(GitError::NotADirectory("/gone".to_string()))
    );
}

#[test]
fn resolve_within_repo_outcomes() {
    let root = "/repo";
    let none = Err(missing());
    assert_eq!(
        resolve_within_repo(root, "", false, Ok("/repo".to_string()), Err(missing())),
        Err(GitError::InvalidPath(String::new()))
    );
    assert_eq!(
        resolve_within_repo(root, "src/a.rs", false, Ok("/repo/src/a.rs".to_string()), Err(missing())),
        Ok("/repo/src/a.rs".to_string())
    );
    assert_eq!(
        resolve_within_repo(root, "../etc/passwd", false, Ok("/etc/passwd".to_string()), Err(missing())),
        Err(GitError::PathOutsideWorkspace("/etc/passwd".to_string()))
    );
    // A file that does not exist yet lands in its canonical parent.
    assert_eq!(
        resolve_within_repo(root, "src/new.rs", false, none, Ok("/repo/src".to_string())),
        Ok("/repo/src/new.rs".to_string())
    );
    assert_eq!(
        resolve_within_repo(root, "link/new.rs", false, Err(missing()), Ok("/elsewhere".to_string())),
        Err(GitError::PathOutsideWorkspace("/elsewhere".to_string()))
    );
    assert_eq!(
        resolve_within_repo(root, "gone/new.rs", false, Err(missing()), Err(missing())),
        Err(GitError::Io("No such file or directory (os error 2)".to_string()))
    );
    assert_eq!(
        resolve_within_repo(
            root,
            "x", false,
            Err(IoFailure { not_found: false, message: "denied".to_string() }),
            Ok("/repo".to_string())
        ),
        Err(GitError::Io("denied".to_string()))
    );
    // `..` names no file.
    assert_eq!(
        resolve_within_repo(root, "..", false, Err(missing()), Ok("/repo".to_string())),
        Err(GitError::InvalidPath("..".to_string()))
    );
    // An absolute `rel` replaces the root; the parent of `/` is none.
    assert_eq!(
        resolve_within_repo(root, "/", false, Err(missing()), Ok("/".to_string())),
        Err(GitError::InvalidPath("/".to_string()))
    );
}

#[test]
fn repo_paths_join() {
    assert_eq!(join("/repo", "src/a.rs"), "/repo/src/a.rs");
    assert_eq!(join("/repo/", "a"), "/repo/a");
    assert_eq!(join("/repo", "/abs"), "/abs");
}

#[test]
fn windows_drive_paths_replace_the_root() {
    // On Windows a drive-qualified `rel` replaces the root, and a rooted
    // one keeps the root's drive; on Unix both are relative or rooted as
    // POSIX paths.
    assert_eq!(join_on("C:/repo", "D:/x", true), "D:/x");
    assert_eq!(join_on("C:/repo", "d:x", true), "d:x");
    assert_eq!(join_on("C:/repo", "/x", true), "C:/x");
    assert_eq!(join_on("C:/repo", "src/a.rs", true), "C:/repo/src/a.rs");
    assert_eq!(join_on("C:/repo", "D:/x", false), "C:/repo/D:/x");
    assert_eq!(join_on("/repo", "/x", true), "/x");
    // A missing drive-qualified file is placed in its own drive's
    // directory, which lies outside the workspace.
    assert_eq!(
        resolve_within_repo("C:/repo", "D:/x", true, Err(missing()), Ok("D:/".to_string())),
        Err(GitError::PathOutsideWorkspace("D:/".to_string()))
    );
    assert_eq!(
        resolve_within_repo("C:/repo", "D:/x", false, Err(missing()), Ok("C:/repo/D:".to_string())),
        Ok("C:/repo/D:/x".to_string())
    );
}

#[test]
fn verbatim_repository_paths_resolve() {
    // Canonical Windows paths are verbatim: a new file lands in its
    // canonical parent, with `..` and `.` in `rel` resolved by the join.
    let root = "//?/C:/repo";
    let parent_ok = || Ok("//?/C:/repo".to_string());
    assert_eq!(
        resolve_within_repo(root, "new.rs", true, Err(missing()), parent_ok()),
        Ok("//?/C:/repo/new.rs".to_string())
    );
    assert_eq!(
        resolve_within_repo(root, "sub/../new.rs", true, Err(missing()), parent_ok()),
        Ok("//?/C:/repo/new.rs".to_string())
    );
    assert_eq!(
        resolve_within_repo(root, "./new.rs", true, Err(missing()), parent_ok()),
        Ok("//?/C:/repo/new.rs".to_string())
    );
    assert_eq!(
        resolve_within_repo(root, "../x", true, Err(missing()), Ok("//?/C:/".to_string())),
        Err(GitError::PathOutsideWorkspace("//?/C:/".to_string()))
    );
    assert_eq!(
        resolve_within_repo(root, "src/a.rs", true, Ok("//?/C:/repo/src/a.rs".to_string()), parent_ok()),
        Ok("//?/C:/repo/src/a.rs".to_string())
    );
}
