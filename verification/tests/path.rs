use std::path::{Component, Path};

use terax::path::platform::{file_name, join_on, parent};
use terax::path::{join, starts_with};

const SAMPLES: &[&str] = &[
    "", "/", "//", "/a", "/a/", "/a//b", "/a/./b", "/a/../b", "a", "a/", "a/b", ".", "./", "./a",
    "./a/.", "..", "../x", "a/..", "/..", "/.", ".a", "a/.b", "...", "a b/c d", "/home/user",
    "/home/user2", "/home/user/x", "home/user",
];

fn std_components(p: &str) -> Vec<String> {
    Path::new(p)
        .components()
        .map(|c| match c {
            Component::RootDir => "/".to_string(),
            Component::CurDir => ".".to_string(),
            Component::ParentDir => "..".to_string(),
            Component::Normal(n) => n.to_string_lossy().into_owned(),
            Component::Prefix(_) => unreachable!(),
        })
        .collect()
}

#[test]
fn starts_with_matches_std() {
    for a in SAMPLES {
        for b in SAMPLES {
            assert_eq!(
                starts_with(a, b),
                Path::new(a).starts_with(b),
                "{a:?} starts with {b:?}"
            );
        }
    }
}

#[test]
fn join_matches_std() {
    for a in SAMPLES {
        for b in SAMPLES {
            assert_eq!(join(a, b), Path::new(a).join(b).to_string_lossy(), "{a:?} join {b:?}");
        }
    }
}

#[test]
fn parent_matches_std() {
    for a in SAMPLES.iter().chain(["//a/b", "//a", "a//b/c", "/a/b/.", "./", "///"].iter()) {
        assert_eq!(
            parent(a, false),
            Path::new(a).parent().map(|p| p.to_string_lossy().into_owned()),
            "parent of {a:?}"
        );
        // The parent keeps the components the path had before its last one.
        if let Some(o) = parent(a, false) {
            let mut mine = std_components(a);
            mine.pop();
            assert_eq!(std_components(&o), mine, "parent of {a:?}");
        }
    }
    assert_eq!(parent("/a/b/", false), Some("/a".to_string()));
    assert_eq!(parent("//a/b", false), Some("//a".to_string()));
    assert_eq!(parent("a", false), Some(String::new()));
    assert_eq!(parent("/", false), None);
}

#[test]
fn file_name_matches_std() {
    for a in SAMPLES {
        assert_eq!(
            file_name(a, false),
            Path::new(a).file_name().map(|n| n.to_string_lossy().into_owned()),
            "file name of {a:?}"
        );
    }
}

#[test]
fn join_on_unix_matches_std() {
    for a in SAMPLES {
        for b in SAMPLES {
            assert_eq!(join_on(a, b, false), Path::new(a).join(b).to_string_lossy(), "{a:?} join {b:?}");
        }
    }
}

#[test]
fn windows_parents_keep_their_prefix() {
    let w = |p: &str| parent(p, true);
    assert_eq!(w("//?/C:/repo/new.rs"), Some("//?/C:/repo".to_string()));
    assert_eq!(w("//?/C:/x"), Some("//?/C:/".to_string()));
    assert_eq!(w("//?/C:/"), None);
    assert_eq!(w("//?/C:"), None);
    assert_eq!(w("//?/UNC/srv/share/a/b"), Some("//?/UNC/srv/share/a".to_string()));
    assert_eq!(w("//server/share/x"), Some("//server/share/".to_string()));
    assert_eq!(w("//server/share"), None);
    assert_eq!(w("C:/a/b"), Some("C:/a".to_string()));
    assert_eq!(w("C:/a"), Some("C:/".to_string()));
    assert_eq!(w("C:a"), Some("C:".to_string()));
    assert_eq!(w("C:"), None);
    // In a verbatim path `.` is a component of its own.
    assert_eq!(w("//?/C:/a/."), Some("//?/C:/a".to_string()));
}

#[test]
fn windows_file_names() {
    let w = |p: &str| file_name(p, true);
    assert_eq!(w("//?/C:/repo/f.txt"), Some("f.txt".to_string()));
    assert_eq!(w("//?/C:/a/."), None);
    assert_eq!(w("//?/C:"), None);
    assert_eq!(w("//server/share"), None);
    assert_eq!(w("C:x"), Some("x".to_string()));
}

#[test]
fn windows_joins() {
    let w = |a: &str, b: &str| join_on(a, b, true);
    // A verbatim base takes the components one by one.
    assert_eq!(w("//?/C:/repo", "sub/../f"), "//?/C:/repo/f");
    assert_eq!(w("//?/C:/repo", "./a/./b"), "//?/C:/repo/a/b");
    assert_eq!(w("//?/C:/repo", "../../.."), "//?/C:/");
    assert_eq!(w("//?/C:/repo", "/x"), "//?/C:/x");
    assert_eq!(w("//?/C:/repo", "new.rs"), "//?/C:/repo/new.rs");
    assert_eq!(w("//?/UNC/srv/share/repo", "a"), "//?/UNC/srv/share/repo/a");
    assert_eq!(w("//?/C:/repo", ""), "//?/C:/repo/");
    // A rooted `rel` keeps only the prefix; a prefixed one replaces all.
    assert_eq!(w("//server/share/repo", "/x"), "//server/share/x");
    assert_eq!(w("C:/repo", "/x"), "C:/x");
    assert_eq!(w("C:/repo", "D:/x"), "D:/x");
    assert_eq!(w("C:/repo", "//?/D:/x"), "//?/D:/x");
    // A drive alone takes `rel` without a separator.
    assert_eq!(w("C:", "x"), "C:x");
    assert_eq!(w("C:/repo", "a/b"), "C:/repo/a/b");
}
