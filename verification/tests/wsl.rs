use terax::wsl::{
    decode_command_output, default_distro, drvfs_mount_to_windows, is_safe_distro_name,
    looks_utf16le, parse_distro_list, wsl_command_result, wsl_home_from, wsl_path_to_unc,
    WslDistro,
};

/// The path reached for `path` in `distro`, with `exists` standing for the
/// existence check of the primary UNC path.
fn unc(distro: &str, path: &str, exists: bool) -> String {
    wsl_path_to_unc(distro, path).resolve(exists)
}

fn utf16le(s: &str, bom: bool) -> Vec<u8> {
    let mut out = Vec::new();
    if bom {
        out.extend_from_slice(&[0xff, 0xfe]);
    }
    for u in s.encode_utf16() {
        out.extend_from_slice(&u.to_le_bytes());
    }
    out
}

#[test]
fn distro_validator_accepts_real_names() {
    assert!(is_safe_distro_name("Ubuntu"));
    assert!(is_safe_distro_name("Ubuntu-22.04"));
    assert!(is_safe_distro_name("Debian"));
    assert!(is_safe_distro_name("Alpine_3.18"));
    assert!(is_safe_distro_name("openSUSE-Tumbleweed"));
}

#[test]
fn distro_validator_rejects_path_traversal() {
    assert!(!is_safe_distro_name(".."));
    assert!(!is_safe_distro_name("..\\..\\Windows"));
    assert!(!is_safe_distro_name("../foo"));
    assert!(!is_safe_distro_name("foo/bar"));
    assert!(!is_safe_distro_name("foo\\bar"));
    assert!(!is_safe_distro_name("foo..bar"));
}

#[test]
fn distro_validator_rejects_special_chars() {
    assert!(!is_safe_distro_name("foo:bar"));
    assert!(!is_safe_distro_name("foo?bar"));
    assert!(!is_safe_distro_name("foo*bar"));
    assert!(!is_safe_distro_name("foo\0bar"));
    assert!(!is_safe_distro_name(""));
    assert!(!is_safe_distro_name(".hidden"));
}

#[test]
fn distro_validator_length_limit() {
    assert!(is_safe_distro_name(&"a".repeat(255)));
    assert!(!is_safe_distro_name(&"a".repeat(256)));
    assert!(is_safe_distro_name("My Distro"));
    assert!(!is_safe_distro_name("Übuntu"));
}

#[test]
fn wsl_path_to_unc_blocks_traversal_distro() {
    let s = unc("..\\..\\..\\Windows", "/etc/passwd", false);
    assert!(s.contains("__terax_invalid_distro__"), "got: {s}");
    assert!(!s.contains("\\..\\"), "got: {s}");
    let plan = wsl_path_to_unc("..\\..\\..\\Windows", "/etc/passwd");
    assert_eq!(plan.primary, "\\\\wsl.localhost\\__terax_invalid_distro__");
    assert!(plan.fallback.is_none());
}

#[test]
fn wsl_path_to_unc_accepts_valid_distro() {
    let s = unc("Ubuntu", "/etc/hosts", false);
    assert!(!s.contains("__terax_invalid_distro__"), "got: {s}");
}

#[test]
fn drvfs_mount_short_circuits_to_native_windows() {
    assert_eq!(drvfs_mount_to_windows("/mnt/c"), Some(r"C:\".to_string()));
    assert_eq!(
        drvfs_mount_to_windows("/mnt/c/Users/me"),
        Some(r"C:\Users\me".to_string())
    );
    assert_eq!(
        drvfs_mount_to_windows("/mnt/d/projects"),
        Some(r"D:\projects".to_string())
    );
    assert_eq!(drvfs_mount_to_windows("/mnt/wsl"), None);
    assert_eq!(drvfs_mount_to_windows("/mnt/wslg"), None);
    assert_eq!(drvfs_mount_to_windows("/home/paul"), None);
    assert_eq!(drvfs_mount_to_windows("/etc/hosts"), None);
    assert_eq!(drvfs_mount_to_windows("/mnt/1"), None);
    assert_eq!(drvfs_mount_to_windows("/mnt/."), None);
}

#[test]
fn drvfs_mount_edge_cases() {
    assert_eq!(drvfs_mount_to_windows("/mnt/"), None);
    assert_eq!(drvfs_mount_to_windows("/mnt"), None);
    assert_eq!(drvfs_mount_to_windows("/mnt/C/x/"), Some(r"C:\x\".to_string()));
    assert_eq!(drvfs_mount_to_windows("/mnt/é"), None);
}

#[test]
fn wsl_path_to_unc_returns_native_for_drvfs() {
    let s = unc("Ubuntu", "/mnt/c/Users", false);
    assert_eq!(s, r"C:\Users");
    assert!(!s.contains("wsl.localhost"), "got: {s}");
}

#[test]
fn wsl_path_to_unc_keeps_unc_for_non_drvfs() {
    let s = unc("Ubuntu", "/home/paul", std::path::Path::new(r"\\wsl.localhost\Ubuntu\home\paul").exists());
    assert!(s.contains("wsl.localhost") || s.contains("wsl$"), "got: {s}");
}

#[test]
fn unc_candidates_are_exact() {
    let plan = wsl_path_to_unc("Ubuntu", "//home\\paul/x");
    assert_eq!(plan.primary, r"\\wsl.localhost\Ubuntu\home\paul\x");
    assert_eq!(plan.fallback.as_deref(), Some(r"\\wsl$\Ubuntu\home\paul\x"));
    assert_eq!(unc("Ubuntu", "/home/paul", true), r"\\wsl.localhost\Ubuntu\home\paul");
    assert_eq!(unc("Ubuntu", "/home/paul", false), r"\\wsl$\Ubuntu\home\paul");
    assert_eq!(unc("Ubuntu", r"\mnt\d\src", false), r"D:\src");
}

#[test]
fn looks_utf16le_heuristic() {
    assert!(!looks_utf16le(&[0x41, 0x00, 0x42]));
    assert!(!looks_utf16le(&[0x41, 0x00]));
    assert!(looks_utf16le(&[0x41, 0x00, 0x42, 0x00]));
    assert!(looks_utf16le(&[0x41, 0x00, 0x42, 0x43]));
    assert!(!looks_utf16le(&[0x41, 0x42, 0x43, 0x44]));
    assert!(!looks_utf16le(b"hello world!"));
}

#[test]
fn decode_command_output_handles_both_encodings() {
    assert_eq!(decode_command_output(&utf16le("Ubuntu", true)), "Ubuntu");
    assert_eq!(decode_command_output(&utf16le("Ubuntu Running", false)), "Ubuntu Running");
    assert_eq!(decode_command_output("héllo\n".as_bytes()), "héllo\n");
    assert_eq!(decode_command_output(&[0x61, 0xff, 0x62]), "a\u{fffd}b");
    assert_eq!(decode_command_output(&[]), "");
    // A lone mark decodes to nothing; a trailing odd byte is dropped.
    assert_eq!(decode_command_output(&[0xff, 0xfe]), "");
    assert_eq!(decode_command_output(&[0xff, 0xfe, 0x41, 0x00, 0x42]), "A");
}

#[test]
fn utf16le_with_mark_round_trips() {
    // Text outside the Basic Multilingual Plane travels as surrogate pairs.
    for text in ["", "Ubuntu-22.04", "d\u{e9}j\u{e0} vu", "\u{1f600} ok", "\u{10ffff}\u{10000}"] {
        assert_eq!(decode_command_output(&utf16le(text, true)), text);
    }
}

#[test]
fn unpaired_surrogates_become_replacement_characters() {
    // A lone high surrogate, then a lone low one, then a proper pair.
    let bytes = [0xff, 0xfe, 0x3d, 0xd8, 0x41, 0x00, 0x00, 0xde, 0x3d, 0xd8, 0x00, 0xde];
    assert_eq!(decode_command_output(&bytes), "\u{fffd}A\u{fffd}\u{1f600}");
}

#[test]
fn utf8_text_without_nul_decodes_to_itself() {
    for text in ["a", "ab", "abcd", "Ubuntu Running\n", "h\u{e9}llo", "\u{1f600}\u{1f600}", "\u{fffe}x"] {
        assert_eq!(decode_command_output(text.as_bytes()), text);
    }
}

#[test]
fn wsl_command_result_trims_errors() {
    assert_eq!(
        wsl_command_result(false, b"", b"  no such distro \r\n"),
        Err("no such distro".to_string())
    );
    assert_eq!(
        wsl_command_result(true, &utf16le("out\n", true), b"ignored"),
        Ok("out\n".to_string())
    );
}

#[test]
fn parses_distro_listing() {
    let out = "  NAME                   STATE           VERSION\r\n\
               * Ubuntu-22.04           Running         2\r\n\
                 Debian                 Stopped         2\r\n\
               \r\n\
                 My Custom Distro       RUNNING         1\r\n\
                 broken\r\n";
    let ds = parse_distro_list(out);
    assert_eq!(ds.len(), 3);
    assert_eq!(ds[0].name, "Ubuntu-22.04");
    assert!(ds[0].default);
    assert!(ds[0].running);
    assert_eq!(ds[1].name, "Debian");
    assert!(!ds[1].default);
    assert!(!ds[1].running);
    assert_eq!(ds[2].name, "My Custom Distro");
    assert!(!ds[2].default);
    assert!(ds[2].running);
}

#[test]
fn distro_listing_edge_cases() {
    assert!(parse_distro_list("").is_empty());
    assert!(parse_distro_list("NAME STATE VERSION").is_empty());
    let ds = parse_distro_list("header\n**  Arch   Stopped 2");
    assert_eq!(ds.len(), 1);
    assert_eq!(ds[0].name, "Arch");
    assert!(ds[0].default);
    // Decoded straight from wsl.exe's UTF-16 output.
    let bytes = utf16le("NAME STATE VERSION\r\n* Alpine Running 2\r\n", true);
    let ds = parse_distro_list(&decode_command_output(&bytes));
    assert_eq!(ds.len(), 1);
    assert_eq!(ds[0].name, "Alpine");
}

#[test]
fn default_distro_prefers_marked() {
    let d = |name: &str, default: bool| WslDistro { name: name.to_string(), default, running: false };
    assert_eq!(default_distro(&[d("A", false), d("B", true), d("C", true)]), Some("B".to_string()));
    assert_eq!(default_distro(&[d("A", false), d("B", false)]), Some("A".to_string()));
    assert_eq!(default_distro(&[]), None);
}

#[test]
fn wsl_home_from_output() {
    assert_eq!(wsl_home_from("Ubuntu", Ok("/home/me\n".to_string())), Ok("/home/me".to_string()));
    assert_eq!(
        wsl_home_from("Ubuntu", Ok("  \n".to_string())),
        Err("could not resolve WSL home for Ubuntu".to_string())
    );
    assert_eq!(wsl_home_from("Ubuntu", Err("boom".to_string())), Err("boom".to_string()));
}
