use terax::workspace::{resolve_path, WorkspaceEnv, WorkspaceRegistry, WorkspaceState};

#[test]
fn registry_authorizes_below_roots_only() {
    let mut reg = WorkspaceRegistry::new();
    assert!(!reg.is_authorized("/home/user"));
    reg.authorize("/home/user".to_string());
    assert!(reg.is_authorized("/home/user"));
    assert!(reg.is_authorized("/home/user/project/src"));
    assert!(reg.is_authorized("/home/user/"));
    assert!(reg.is_authorized("/home//user/./x"));
    // Whole components only: a sibling with a common text prefix is outside.
    assert!(!reg.is_authorized("/home/user2"));
    assert!(!reg.is_authorized("/home"));
    assert!(!reg.is_authorized("home/user"));
}

#[test]
fn registry_authorization_is_monotone() {
    let mut reg = WorkspaceRegistry::default();
    reg.authorize("/a".to_string());
    reg.authorize("/b/c".to_string());
    reg.authorize("/a".to_string());
    assert!(reg.is_authorized("/a/x"));
    assert!(reg.is_authorized("/b/c/d"));
    assert!(!reg.is_authorized("/b"));
}

#[test]
fn workspace_env_basics() {
    assert_eq!(WorkspaceEnv::from_option(None), WorkspaceEnv::Local);
    let wsl = WorkspaceEnv::Wsl { distro: "Ubuntu".to_string() };
    assert_eq!(WorkspaceEnv::from_option(Some(wsl.duplicate())), wsl);
    assert!(wsl.is_wsl());
    assert!(!WorkspaceEnv::Local.is_wsl());
    assert_eq!(WorkspaceEnv::default(), WorkspaceEnv::Local);
}

#[test]
fn active_env_reads_back_what_was_set() {
    let mut st = WorkspaceState::new();
    assert_eq!(st.active_env(), WorkspaceEnv::Local);
    st.set_active_env(WorkspaceEnv::Wsl { distro: "Debian".to_string() });
    assert_eq!(st.active_env(), WorkspaceEnv::Wsl { distro: "Debian".to_string() });
    st.set_active_env(WorkspaceEnv::Local);
    assert_eq!(st.active_env(), WorkspaceEnv::Local);
}

#[test]
fn custom_home_set_refused_and_cleared() {
    let mut st = WorkspaceState::default();
    assert_eq!(st.custom_home_path(), None);
    assert_eq!(st.set_custom_home(Some("/home/me".to_string()), true), Ok(()));
    assert_eq!(st.custom_home_path(), Some("/home/me".to_string()));
    assert_eq!(
        st.set_custom_home(Some("/nope".to_string()), false),
        Err("not a directory: /nope".to_string())
    );
    assert_eq!(st.custom_home_path(), Some("/home/me".to_string()));
    assert_eq!(st.set_custom_home(Some(String::new()), false), Ok(()));
    assert_eq!(st.custom_home_path(), None);
    assert_eq!(st.set_custom_home(Some("/x".to_string()), true), Ok(()));
    assert_eq!(st.set_custom_home(None, false), Ok(()));
    assert_eq!(st.custom_home_path(), None);
}

#[test]
fn resolve_path_per_environment() {
    let local = resolve_path("C:\\work\\repo", &WorkspaceEnv::Local);
    assert_eq!(local.resolve(false), "C:\\work\\repo");
    let wsl = WorkspaceEnv::Wsl { distro: "Ubuntu".to_string() };
    assert_eq!(resolve_path("/mnt/c/work", &wsl).resolve(false), r"C:\work");
    assert_eq!(resolve_path("/home/me", &wsl).resolve(true), r"\\wsl.localhost\Ubuntu\home\me");
}
