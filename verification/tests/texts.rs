use aanote::bytes::{char_count, count_before, width_of};
use aanote::clock::{fine_stamp, millis_or_zero, parse_rfc3339_to_ms, stamp};
use aanote::paths::{file_name, join, parent, stem, strip_prefix};
use aanote::sort::sort;
use aanote::text::{
    chars_of, decimal_text, has_char, has_prefix, has_suffix, has_text, not_after, replace,
    same_text, trim, white_space,
};
use std::path::Path;

const PATHS: [&str; 34] = [
    "", "/", ".", "..", "a", "a/", "/a", "a/b", "a//b", "a/./b", "a/b/.", "a/b/..", "./a", "./", "..",
    "../a", "a/..", "//", "//a", "/.", "/./a", "/a/b/", "/a/b.md", "a.md", ".md", "a.b.c", "a.", "...",
    "a/.b", "./.", "notes/x y.md", "é/ü.md", "/notes/.aanote-trash/x", "a/b//",
];

fn text(p: &Path) -> String {
    p.to_string_lossy().to_string()
}

#[test]
fn parents_are_those_of_the_platform() {
    for p in PATHS {
        assert_eq!(parent(p), Path::new(p).parent().map(text), "{:?}", p);
    }
}

#[test]
fn file_names_are_those_of_the_platform() {
    for p in PATHS {
        let expected = Path::new(p).file_name().map(|n| n.to_string_lossy().to_string());
        assert_eq!(file_name(p), expected, "{:?}", p);
    }
}

#[test]
fn stems_are_those_of_the_platform() {
    for p in PATHS {
        if let Some(name) = file_name(p) {
            let expected = Path::new(&name).file_stem().unwrap().to_string_lossy().to_string();
            assert_eq!(stem(&name), expected, "{:?}", p);
        }
    }
}

#[test]
fn joining_is_that_of_the_platform() {
    for a in PATHS {
        for b in PATHS {
            assert_eq!(join(a, b), text(&Path::new(a).join(b)), "{:?} {:?}", a, b);
        }
    }
}

#[test]
fn stripping_is_that_of_the_platform() {
    for a in PATHS {
        for b in PATHS {
            let expected = Path::new(a).strip_prefix(b).ok().map(text);
            assert_eq!(strip_prefix(a, b), expected, "{:?} {:?}", a, b);
        }
    }
}

#[test]
fn white_space_is_that_of_unicode() {
    for n in 0..=0x10ffffu32 {
        if let Some(c) = char::from_u32(n) {
            assert_eq!(white_space(c), c.is_whitespace(), "{:x}", n);
        }
    }
}

#[test]
fn trimming_takes_both_ends() {
    for s in ["", " ", "a", "  a b\t", "\u{3000}x\u{85}", "\n\n", "x "] {
        assert_eq!(trim(s), s.trim());
    }
}

#[test]
fn searching_finds_what_is_there() {
    let texts = ["", "a", "aa", "aab", "hello skiathos", "ünï", "a-b-c"];
    for s in texts {
        for p in texts {
            assert_eq!(has_text(s, p), s.contains(p), "{:?} {:?}", s, p);
            assert_eq!(has_prefix(s, p), s.starts_with(p));
            assert_eq!(has_suffix(s, p), s.ends_with(p));
            assert_eq!(same_text(s, p), s == p);
            assert_eq!(not_after(s, p), s <= p);
        }
        assert_eq!(has_char(s, 'b'), s.contains('b'));
    }
}

#[test]
fn replacing_goes_from_the_left() {
    for s in ["", "/", "a/b", "__", "___", "____", "a__b", "\r\n\r\r\n"] {
        assert_eq!(replace(s, "/", "__"), s.replace('/', "__"));
        assert_eq!(replace(s, "__", "/"), s.replace("__", "/"));
        assert_eq!(replace(s, "\r\n", "\n"), s.replace("\r\n", "\n"));
    }
}

#[test]
fn numerals_are_decimal() {
    for n in [0u64, 1, 9, 10, 99, 100, 12345, u64::MAX] {
        assert_eq!(decimal_text(n), n.to_string());
    }
}

#[test]
fn characters_are_counted_in_bytes_and_back() {
    let s = "aé€😀z";
    let v = chars_of(s);
    assert_eq!(v, vec!['a', 'é', '€', '😀', 'z']);
    for c in &v {
        assert_eq!(width_of(*c), c.len_utf8());
    }
    assert_eq!(char_count(&s.as_bytes().to_vec()), 5);
    assert_eq!(char_count(&Vec::new()), 0);
    let starts: Vec<usize> = s.char_indices().map(|(i, _)| i).collect();
    assert_eq!(starts, vec![0, 1, 3, 6, 10]);
    for (n, i) in starts.iter().enumerate() {
        assert_eq!(count_before(&v, *i), n);
    }
    assert_eq!(count_before(&v, 2), 2);
    assert_eq!(count_before(&v, usize::MAX), 5);
}

#[test]
fn sorting_is_by_text() {
    let words = ["b", "a", "", "ab", "é", "Z", "a"];
    let mut expected: Vec<String> = words.iter().map(|w| w.to_string()).collect();
    let sorted = sort(expected.clone());
    expected.sort();
    assert_eq!(sorted, expected);
}

#[test]
fn stamps_show_the_time_in_utc() {
    assert_eq!(stamp(1_704_067_200_000), "20240101-000000");
    assert_eq!(stamp(1_704_067_200_999), "20240101-000000");
    assert_eq!(stamp(1_709_210_096_789), "20240229-123456");
    assert_eq!(stamp(0), "19700101-000000");
    assert_eq!(stamp(-1), "19691231-235959");
    assert_eq!(stamp(253_402_300_799_999), "99991231-235959");
    assert_eq!(stamp(253_402_300_800_000), "+100000101-000000");
    assert_eq!(stamp(8_210_266_876_799_999), "+2621421231-235959");
    assert_eq!(fine_stamp(1_709_210_096_789), "20240229-123456789");
    assert_eq!(fine_stamp(7), "19700101-000000007");
}

#[test]
fn times_before_1970_wrap() {
    assert_eq!(millis_or_zero(None), 0);
    assert_eq!(millis_or_zero(Some(5)), 5);
    assert_eq!(millis_or_zero(Some(-1)), u64::MAX);
    assert_eq!(parse_rfc3339_to_ms("1969-12-31T23:59:59.999Z"), u64::MAX);
    assert_eq!(parse_rfc3339_to_ms("2024-02-29T12:34:56.789Z"), 1_709_210_096_789);
}
