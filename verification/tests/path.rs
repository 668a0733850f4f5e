use just_fmt::fmt_path::{
    fmt_path, fmt_path_bytes, fmt_path_custom, fmt_path_str, fmt_path_str_custom, fmt_path_text,
    normalize_path, PathFormatConfig, PathFormatError,
};
use std::path::PathBuf;

fn all_disabled() -> PathFormatConfig {
    PathFormatConfig {
        strip_ansi: false,
        strip_unfriendly_chars: false,
        resolve_parent_dirs: false,
        collapse_consecutive_slashes: false,
        escape_backslashes: false,
    }
}

#[test]
fn default_enables_every_step() {
    let config = PathFormatConfig::default();
    assert!(config.strip_ansi);
    assert!(config.strip_unfriendly_chars);
    assert!(config.resolve_parent_dirs);
    assert!(config.collapse_consecutive_slashes);
    assert!(config.escape_backslashes);
}

#[test]
fn backslashes_become_slashes() {
    assert_eq!(fmt_path_str("C:\\Users\\\\test").unwrap(), "C:/Users/test");
}

#[test]
fn unfriendly_chars_are_removed() {
    assert_eq!(
        fmt_path_str("/path/with/*unfriendly?chars").unwrap(),
        "/path/with/unfriendlychars"
    );
    assert_eq!(fmt_path_str("a*b?c\"d<e>f|g").unwrap(), "abcdefg");
}

#[test]
fn escape_sequences_are_removed() {
    assert_eq!(fmt_path_str("\x1b[31m/path\x1b[0m").unwrap(), "/path");
    assert_eq!(fmt_path_str("/a/\x1b[1;32mb\x1b[m/c/").unwrap(), "/a/b/c/");
}

#[test]
fn trailing_slash_is_kept() {
    assert_eq!(fmt_path_str("/home/user/dir/").unwrap(), "/home/user/dir/");
    assert_eq!(fmt_path_str("/home/user/file.txt").unwrap(), "/home/user/file.txt");
    assert_eq!(fmt_path_str("./home/path/").unwrap(), "home/path/");
    assert_eq!(fmt_path_str("a/").unwrap(), "a/");
    assert_eq!(fmt_path_str("/").unwrap(), "/");
}

#[test]
fn parent_components_are_resolved() {
    assert_eq!(
        fmt_path_str("/home/my_user/DOCS/JVCS_TEST/Workspace/../Vault/").unwrap(),
        "/home/my_user/DOCS/JVCS_TEST/Vault/"
    );
    assert_eq!(fmt_path_str("a/b/../../c").unwrap(), "c");
    assert_eq!(fmt_path_str("a/b/c/../..").unwrap(), "a");
}

#[test]
fn current_components_are_dropped() {
    assert_eq!(fmt_path_str("./home/file.txt").unwrap(), "home/file.txt");
    assert_eq!(fmt_path_str("a/./b/.").unwrap(), "a/b");
    assert_eq!(fmt_path_str("/./a").unwrap(), "/a");
}

#[test]
fn current_directory_with_slash_becomes_empty() {
    assert_eq!(fmt_path_str("./").unwrap(), "");
    assert_eq!(fmt_path_str("../").unwrap(), "");
    assert_eq!(fmt_path_str("a/../").unwrap(), "");
    assert_eq!(fmt_path_str_custom("./", &all_disabled()).unwrap(), "");
}

#[test]
fn nothing_left_is_the_current_directory() {
    assert_eq!(fmt_path_str("").unwrap(), ".");
    assert_eq!(fmt_path_str(".").unwrap(), ".");
    assert_eq!(fmt_path_str("a/..").unwrap(), ".");
    assert_eq!(fmt_path_str("..").unwrap(), ".");
}

#[test]
fn leading_parents_are_dropped() {
    assert_eq!(normalize_path("../a"), "a");
    assert_eq!(normalize_path("../../a/b"), "a/b");
    assert_eq!(normalize_path("a/../../b"), "b");
    assert_eq!(normalize_path("../.."), ".");
    assert_eq!(fmt_path_str("../a").unwrap(), "a");
}

#[test]
fn a_parent_can_take_the_root() {
    assert_eq!(normalize_path("/.."), ".");
    assert_eq!(normalize_path("/../a"), "a");
    assert_eq!(normalize_path("/a/.."), "/");
    assert_eq!(normalize_path("/a/../b"), "/b");
}

#[test]
fn normalize_path_reads_components() {
    assert_eq!(normalize_path("a//b///c/"), "a/b/c");
    assert_eq!(normalize_path("/a/b"), "/a/b");
    assert_eq!(normalize_path("//a"), "/a");
    assert_eq!(normalize_path("..."), "...");
    assert_eq!(normalize_path("a/..b/.c"), "a/..b/.c");
    assert_eq!(normalize_path(""), ".");
}

#[test]
fn all_steps_disabled_keeps_the_path() {
    let config = all_disabled();
    for path in [
        "C:\\Users\\\\test",
        "/path/with/*unfriendly?chars",
        "a//b/../c/./d/",
        "\x1b[31m/path\x1b[0m",
        "..",
        "",
        "/",
    ] {
        assert_eq!(fmt_path_str_custom(path, &config).unwrap(), path);
    }
}

#[test]
fn each_step_alone() {
    let mut config = all_disabled();
    config.escape_backslashes = true;
    assert_eq!(fmt_path_str_custom("a\\b//c*/../d", &config).unwrap(), "a/b//c*/../d");

    let mut config = all_disabled();
    config.collapse_consecutive_slashes = true;
    assert_eq!(fmt_path_str_custom("a\\b///c*//../d//", &config).unwrap(), "a\\b/c*/../d/");

    let mut config = all_disabled();
    config.strip_unfriendly_chars = true;
    assert_eq!(fmt_path_str_custom("a\\b//c*?\"<>|/../d", &config).unwrap(), "a\\b//c/../d");

    let mut config = all_disabled();
    config.resolve_parent_dirs = true;
    assert_eq!(fmt_path_str_custom("a//b/./c*/../d", &config).unwrap(), "a/b/d");

    let mut config = all_disabled();
    config.strip_ansi = true;
    assert_eq!(
        fmt_path_str_custom("\x1b[31ma//b/../c*\x1b[0m", &config).unwrap(),
        "a//b/../c*"
    );
}

#[test]
fn steps_run_in_order() {
    // The backslashes become slashes before the slashes collapse, and the
    // unfriendly characters go before the components are read.
    assert_eq!(fmt_path_str("a\\/\\b").unwrap(), "a/b");
    assert_eq!(fmt_path_str("a/.*/b").unwrap(), "a/b");
    assert_eq!(fmt_path_str("a/b/.?./c").unwrap(), "a/c");

    let mut config = PathFormatConfig::default();
    config.collapse_consecutive_slashes = false;
    config.resolve_parent_dirs = false;
    assert_eq!(fmt_path_str_custom("a/*/b", &config).unwrap(), "a//b");
}

#[test]
fn text_entry_point() {
    let config = PathFormatConfig::default();
    assert_eq!(fmt_path_text("a\\b//c", false, &config), "a/b/c");
    assert_eq!(fmt_path_text("a/b", true, &config), "a/b/");
    assert_eq!(fmt_path_text("a/b/", true, &config), "a/b/");
    assert_eq!(fmt_path_text("a/b/", false, &config), "a/b");
    assert_eq!(fmt_path_text(".", true, &config), "");
    assert_eq!(fmt_path_text(".", true, &all_disabled()), "");
    assert_eq!(fmt_path_text(".", false, &all_disabled()), ".");
}

#[test]
fn bytes_entry_point() {
    let config = PathFormatConfig::default();
    assert_eq!(fmt_path_bytes(b"/a/../b".to_vec(), false, &config).unwrap(), "/b");
    assert_eq!(
        fmt_path_bytes("/caf\u{e9}//x".as_bytes().to_vec(), true, &config).unwrap(),
        "/caf\u{e9}/x/"
    );
}

#[test]
fn invalid_bytes_are_an_error() {
    let config = PathFormatConfig::default();
    let result = fmt_path_bytes(vec![b'/', 0xff, 0xfe], false, &config);
    assert!(matches!(result, Err(PathFormatError::InvalidUtf8(_))));
    let error = result.unwrap_err();
    assert!(error.to_string().starts_with("Invalid UTF-8 after ANSI stripping: "));
    assert_eq!(
        error.to_string(),
        format!("Invalid UTF-8 after ANSI stripping: {}", error.source())
    );
    assert_eq!(error.source().as_bytes(), &[b'/', 0xff, 0xfe]);

    let truncated = fmt_path_bytes(vec![b'a', 0xc3], false, &all_disabled());
    assert!(truncated.is_err());
}

#[test]
fn error_from_decode_failure() {
    let failure = String::from_utf8(vec![0xc0]).unwrap_err();
    let error = PathFormatError::from(failure.clone());
    assert_eq!(error.source(), &failure);
}

#[test]
fn path_values() {
    assert_eq!(
        fmt_path(PathBuf::from("/home/user/../docs//a*b")).unwrap(),
        PathBuf::from("/home/docs/ab")
    );
    assert_eq!(fmt_path(PathBuf::from("./")).unwrap(), PathBuf::from(""));
    assert_eq!(
        fmt_path_custom(PathBuf::from("a//b/../c"), &all_disabled()).unwrap(),
        PathBuf::from("a//b/../c")
    );
    let mut config = all_disabled();
    config.collapse_consecutive_slashes = true;
    assert_eq!(
        fmt_path_custom(PathBuf::from("a//b/../c"), &config).unwrap().display().to_string(),
        "a/b/../c"
    );
}

#[test]
fn config_is_a_plain_value() {
    let config = PathFormatConfig::default();
    let copy = config;
    assert_eq!(config, copy);
    assert_ne!(config, all_disabled());
}
