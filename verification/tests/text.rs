use runseal::ordered::{comes_before, insert_text, TextMap};
use runseal::path::{components, is_absolute, join, starts_with, Component};
use runseal::text::{
    contains_pair, is_whitespace, split, strip_prefix, text_after, text_after_last, text_before,
    to_decimal, trim, trim_trailing, Separator,
};

fn bytes(text: &str) -> Vec<u8> {
    text.as_bytes().to_vec()
}

#[test]
fn trimming_agrees_with_the_standard_library() {
    for text in ["", " ", "a", " a b\t", "\u{3000}\u{e9}\u{85}", "\u{200b} x"] {
        assert_eq!(trim(text), text.trim());
    }
    for code in 0..0x3100u32 {
        if let Some(c) = char::from_u32(code) {
            assert_eq!(is_whitespace(c), c.is_whitespace(), "U+{code:04X}");
        }
    }
}

#[test]
fn splitting_agrees_with_the_standard_library() {
    for text in ["", ",", "a", "a,b", ",a,,b,"] {
        let expected: Vec<&str> = text.split(',').collect();
        assert_eq!(split(text, Separator::Char(',')), expected);
    }
    assert_eq!(split("a\r\nb", Separator::LineBreak), vec!["a", "", "b"]);
    assert_eq!(split("a\u{a0}b", Separator::Whitespace), vec!["a", "b"]);
}

#[test]
fn texts_are_cut_at_separators() {
    assert_eq!(text_before("a:b:c", Separator::Char(':')), "a");
    assert_eq!(text_after("a:b:c", Separator::Char(':')), "b:c");
    assert_eq!(text_before("abc", Separator::Char(':')), "abc");
    assert_eq!(text_after("abc", Separator::Char(':')), "");
    assert_eq!(text_after_last("a@b@c", '@'), "c");
    assert_eq!(text_after_last("abc", '@'), "abc");
    assert_eq!(trim_trailing("a//", '/'), "a");
    assert_eq!(strip_prefix("abc", "ab"), Some("c"));
    assert_eq!(strip_prefix("abc", "b"), None);
    assert!(contains_pair("a${b", '$', '{'));
    assert!(!contains_pair("a$ {b", '$', '{'));
}

#[test]
fn numbers_are_written_in_decimal() {
    for n in [0, 9, 10, 65536, u64::MAX] {
        assert_eq!(to_decimal(n), n.to_string());
    }
}

#[test]
fn texts_are_ordered_as_the_standard_library_does() {
    let texts = ["", "a", "ab", "b", "B", "\u{e9}", "\u{10000}", "\u{ffff}"];
    for a in texts {
        for b in texts {
            assert_eq!(comes_before(a, b), a < b, "{a:?} {b:?}");
        }
    }
}

#[test]
fn a_set_of_texts_is_kept_in_order() {
    let mut keys = Vec::new();
    for key in ["b", "a", "c", "b"] {
        insert_text(&mut keys, key.to_string());
    }
    assert_eq!(keys, vec!["a", "b", "c"]);
}

#[test]
fn a_map_keeps_the_last_value_of_a_key() {
    let mut map = TextMap::new();
    map.insert("b".to_string(), 1);
    map.insert("a".to_string(), 2);
    map.insert("b".to_string(), 3);
    assert_eq!(map.keys, vec!["a", "b"]);
    assert_eq!(map.values, vec![2, 3]);
}

#[test]
fn paths_are_read_as_the_standard_library_does() {
    let paths = [
        "", "/", ".", "..", "a", "./a", "a/.", "a//b", "/a/./b/../c/", "./.", "/.", "//a", ".a",
    ];
    for path in paths {
        let expected: Vec<String> = std::path::Path::new(path)
            .components()
            .map(|part| part.as_os_str().to_string_lossy().into_owned())
            .collect();
        let found: Vec<String> = components(&bytes(path))
            .into_iter()
            .map(|part| match part {
                Component::RootDir => "/".to_string(),
                Component::CurDir => ".".to_string(),
                Component::ParentDir => "..".to_string(),
                Component::Normal(name) => String::from_utf8(name).expect("text"),
            })
            .collect();
        assert_eq!(found, expected, "{path:?}");
        for base in paths {
            let std_path = std::path::Path::new(path);
            assert_eq!(
                starts_with(&bytes(path), &bytes(base)),
                std_path.starts_with(base),
                "{path:?} {base:?}"
            );
            assert_eq!(
                join(&bytes(base), &bytes(path)),
                std::path::Path::new(base)
                    .join(std_path)
                    .to_string_lossy()
                    .as_bytes(),
                "{base:?} {path:?}"
            );
        }
        assert_eq!(
            is_absolute(&bytes(path)),
            std::path::Path::new(path).is_absolute()
        );
    }
}
