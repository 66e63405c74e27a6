use dshe::paths::{
    canonicalized_path_to_string, expand_home, get_export_path, join_path, read_last_name, same_path,
    validate_path_component, PathError,
};

fn name(path: &str, relative: bool) -> Result<String, String> {
    canonicalized_path_to_string(path.as_bytes(), relative).map_err(|e| e.message())
}

fn export(root: &str, name: &str) -> String {
    String::from_utf8(get_export_path(root.as_bytes(), name).unwrap()).unwrap()
}

#[test]
fn canonical_paths_become_names() {
    assert_eq!(name("data/dir-1/file", true).unwrap(), "data/dir-1/file");
    assert_eq!(name("a//b/", true).unwrap(), "a/b");
    assert_eq!(name("/a/b", false).unwrap(), "/a/b");
    assert_eq!(name("/", false).unwrap(), "/");
    assert_eq!(name("", true).unwrap(), "");
    assert_eq!(name("ü/…", true).unwrap(), "ü/…");
    assert_eq!(name("...", true).unwrap(), "...");
}

#[test]
fn paths_that_are_not_canonical_are_refused() {
    assert_eq!(name("a/../b", true).unwrap_err(), "invalid path component ParentDir");
    assert_eq!(name("./a", true).unwrap_err(), "invalid path component CurDir");
    assert_eq!(name("a/./b", true).unwrap_err(), "invalid path component CurDir");
    assert_eq!(name("/a", true).unwrap_err(), "invalid path component RootDir");
    assert_eq!(name("a\\b", true).unwrap_err(), "invalid path component \"a\\\\b\"");
    assert_eq!(name("/a/../b", true).unwrap_err(), "invalid path component RootDir");
}

#[test]
fn names_are_text() {
    let r = canonicalized_path_to_string(b"a/\xff", true);
    assert!(matches!(r, Err(PathError::InvalidCharacter)));
    assert_eq!(r.unwrap_err().message(), "invalid character in path");
}

#[test]
fn components_hold_no_separator() {
    assert!(validate_path_component("a").is_ok());
    assert!(validate_path_component("").is_ok());
    assert!(validate_path_component("a\\b").is_ok());
    assert_eq!(
        validate_path_component("a/b").unwrap_err().message(),
        "path components must not contain the only correct path separator, /"
    );
}

#[test]
fn export_paths_lie_below_the_root() {
    assert_eq!(export("/tmp", "data/x"), "/tmp/data/x");
    assert_eq!(export("/tmp/", "x"), "/tmp/x");
    assert_eq!(export("", "a/b"), "a/b");
    assert_eq!(export("/tmp", ""), "/tmp/");
    assert_eq!(export("/tmp", "/x"), "/tmp/x");
    assert_eq!(export("/tmp", "a//b"), "/tmp/a/b");
}

#[test]
fn export_restores_a_shared_path() {
    for path in ["data/dir-1/sub/file", "x", "a//b/", "ö/ß"] {
        let name = name(path, true).unwrap();
        let there = get_export_path(b"/dest/dir", &name).unwrap();
        let expected = join_path(b"/dest/dir", path.as_bytes());
        assert!(same_path(&there, &expected), "{path}");
    }
}

#[test]
fn joining_agrees_with_std() {
    for base in ["", "/", "a", "a/", "/a/b"] {
        for part in ["", "x", "x/y", "/x", "..", "."] {
            let ours = join_path(base.as_bytes(), part.as_bytes());
            let theirs = std::path::Path::new(base).join(part);
            assert_eq!(ours, theirs.to_str().unwrap().as_bytes(), "{base:?} {part:?}");
        }
    }
}

#[test]
fn comparing_and_last_names_agree_with_std() {
    let all = ["", "/", "a", "./a", "a/", "a/.", "a//b", "a/b", "/a", "//a", "..", ".", "a/..", "./", "/.", "a/./b"];
    for a in all {
        let theirs = std::path::Path::new(a).file_name().and_then(|n| n.to_str()).map(String::from);
        assert_eq!(read_last_name(a.as_bytes()), theirs, "{a:?}");
        for b in all {
            let same = std::path::Path::new(a) == std::path::Path::new(b);
            assert_eq!(same_path(a.as_bytes(), b.as_bytes()), same, "{a:?} {b:?}");
        }
    }
    assert_eq!(read_last_name(b"a/\xff"), None);
}

#[test]
fn a_leading_tilde_stands_for_home() {
    let expand = |path: &str, home: Option<&str>| {
        String::from_utf8(expand_home(path.as_bytes(), home)).unwrap()
    };
    assert_eq!(expand("~", Some("/home/u")), "/home/u");
    assert_eq!(expand("~/x/y", Some("/home/u")), "/home/u/x/y");
    assert_eq!(expand("~/", Some("/home/u")), "/home/u/");
    assert_eq!(expand("~//x", Some("/home/u")), "/home/u/x");
    assert_eq!(expand("~//etc", Some("/home/u")), "/home/u/etc");
    assert_eq!(expand("~///etc//x", Some("/home/u")), "/home/u/etc//x");
    assert_eq!(expand("~//", Some("/home/u")), "/home/u/");
    assert_eq!(expand("~x", Some("/home/u")), "~x");
    assert_eq!(expand("a/~", Some("/home/u")), "a/~");
    assert_eq!(expand("~/x", None), "~/x");
    assert_eq!(expand("~", None), "~");
    assert_eq!(expand_home(b"~/\xff", Some("/home/u")), b"~/\xff".to_vec());
}
