use forensic_adb::UnixPath;

fn joined(base: &str, path: &str) -> String {
    UnixPath::new(base).join(path).display()
}

fn parent(path: &str) -> Option<String> {
    UnixPath::new(path).parent().map(|p| p.display())
}

fn under(path: &str, base: &str) -> bool {
    UnixPath::new(path).starts_with(&UnixPath::new(base))
}

#[test]
fn paths_are_joined() {
    assert_eq!(joined("/data/data/", "org.mozilla"), "/data/data/org.mozilla");
    assert_eq!(joined("/data/data", "org.mozilla"), "/data/data/org.mozilla");
    assert_eq!(joined("", "a"), "a");
    assert_eq!(joined("a", ""), "a/");
    assert_eq!(joined("/data", "/sdcard"), "/sdcard");
}

#[test]
fn parents() {
    assert_eq!(parent("/sdcard/test/foo.txt"), Some("/sdcard/test".to_string()));
    assert_eq!(parent("/sdcard//foo.txt/"), Some("/sdcard".to_string()));
    assert_eq!(parent("/sdcard"), Some("/".to_string()));
    assert_eq!(parent("/"), None);
    assert_eq!(parent("foo"), Some("".to_string()));
    assert_eq!(parent("./foo"), Some(".".to_string()));
    assert_eq!(parent("a/./b"), Some("a".to_string()));
    assert_eq!(parent("."), Some("".to_string()));
    assert_eq!(parent(""), None);
}

#[test]
fn a_path_lies_under_its_base() {
    assert!(under("/data/data/org.mozilla/files/x", "/data/data/org.mozilla"));
    assert!(under("/data/data/org.mozilla", "/data/data/org.mozilla/"));
    assert!(under("/data//data/./org.mozilla", "/data/data"));
    assert!(!under("/data/data/org.mozilla2", "/data/data/org.mozilla"));
    assert!(!under("data/data", "/data"));
    assert!(!under("./a", "a"));
    assert!(under("a", ""));
    assert!(!under("/a/../b", "/b"));
}

#[test]
fn what_is_joined_lies_under_the_base() {
    for base in ["", "/", "/a", "/a/", "./a", "a/.", ".."] {
        for path in ["", "b", "b/c", "./b", "../b", "."] {
            let base = UnixPath::new(base);
            assert!(base.join(path).starts_with(&base));
        }
    }
}

#[test]
fn bytes_that_are_not_text_are_shown_in_some_way() {
    let path = UnixPath {
        bytes: vec![b'/', 0xff, b'a'],
    };
    assert_eq!(path.display(), "/\u{fffd}a");
    assert_eq!(UnixPath::new("/gr\u{fc}n").display(), "/gr\u{fc}n");
    assert_eq!(UnixPath::new("/a").to_path_buf().bytes, b"/a");
}
