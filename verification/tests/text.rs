use forensic_adb::info::{is_less, InfoMap};
use forensic_adb::text::{
    chars_of, concat4, contains, lines, list_contains, replace, split, split_whitespace,
    starts_with, str_eq, string_of, Separator,
};

#[test]
fn white_space_is_that_of_unicode() {
    for u in 0..0x11_0000u32 {
        if let Some(c) = char::from_u32(u) {
            assert_eq!(Separator::WhiteSpace.is_at(c), c.is_whitespace(), "{:x}", u);
        }
    }
}

#[test]
fn text_functions_agree_with_those_of_strings() {
    let texts = [
        "", "a", ",", "a,b", ",a,,b,", "a\nb", "a\r\nb\r\n", "\r", "\n\n", "a\r", "\r\r\n", "a b\tc",
        "  lead", "trail  ", "'", "it's 'so'", "\u{e9},\u{20ac}\n", "sudo", "su",
    ];
    for s in texts {
        assert_eq!(split(s, Separator::Char(',')), s.split(',').collect::<Vec<_>>());
        assert_eq!(split_whitespace(s), s.split_whitespace().collect::<Vec<_>>());
        assert_eq!(lines(s), s.lines().collect::<Vec<_>>(), "{:?}", s);
        assert_eq!(replace(s, "\r\n", "\n"), s.replace("\r\n", "\n"));
        assert_eq!(replace(s, "'", "'\"'\"'"), s.replace('\'', "'\"'\"'"));
        assert_eq!(string_of(&chars_of(s)), s);
        for t in texts {
            assert_eq!(contains(s, t), s.contains(t), "{:?} {:?}", s, t);
            assert_eq!(starts_with(s, t), s.starts_with(t));
            assert_eq!(str_eq(s, t), s == t);
            assert_eq!(is_less(s, t), s < t);
        }
    }
    assert_eq!(concat4("a", "", "b", "c"), "abc");
    let list = vec!["a".to_string(), "b".to_string()];
    assert!(list_contains(&list, "b"));
    assert!(!list_contains(&list, "c"));
}

#[test]
fn occurrences_do_not_overlap() {
    assert_eq!(replace("aaa", "aa", "b"), "ba");
}

#[test]
fn a_map_keeps_its_keys_in_order() {
    let map = InfoMap::new()
        .with("product".to_string(), "x".to_string())
        .with("device".to_string(), "y".to_string())
        .with("usb".to_string(), "z".to_string())
        .with("product".to_string(), "w".to_string());
    let expected: Vec<(String, String)> = vec![
        ("device".to_string(), "y".to_string()),
        ("product".to_string(), "w".to_string()),
        ("usb".to_string(), "z".to_string()),
    ];
    assert_eq!(map.entries(), &expected);
    assert_eq!(map.get("product"), Some(&"w".to_string()));
    assert_eq!(map.get("model"), None);
    assert_eq!(map.clone(), map);
}
