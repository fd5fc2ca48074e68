use wifi_manager::number::{append_i32, only_digits, parse_i32};
use wifi_manager::text::{
    chars_of, contains, contains_char, is_whitespace, lines, same_text, split_once, splitn,
    strip_prefix, trim,
};

#[test]
fn white_space_agrees_with_the_standard_library() {
    for n in 0u32..=0x10ffff {
        if let Some(c) = char::from_u32(n) {
            assert_eq!(is_whitespace(c), c.is_whitespace(), "U+{:04X}", n);
        }
    }
}

#[test]
fn lines_agree_with_the_standard_library() {
    let texts = [
        "", "\n", "a", "a\n", "a\nb", "a\r\nb\r\n", "a\r", "a\r\r\n", "\r\n\r\n", "\n\n", "ж\r\nю\tя",
        "a\rb\n", "\r",
    ];
    for t in texts {
        let expected: Vec<&str> = t.lines().collect();
        assert_eq!(lines(t), expected, "{:?}", t);
    }
}

#[test]
fn bare_carriage_return_stays_at_the_end_of_the_text() {
    assert_eq!(lines("a\r\nb\r"), vec!["a", "b\r"]);
}

#[test]
fn trimming_agrees_with_the_standard_library() {
    for t in ["", " ", "\t a b \r\n", "\u{2003}x\u{a0}", "x", "  ", "\u{200b}x", "\u{3000}ж\u{85}"] {
        assert_eq!(trim(t), t.trim(), "{:?}", t);
    }
}

#[test]
fn splitting_agrees_with_the_standard_library() {
    for t in ["", "a", "\t", "a\tb", "a\tb\tc", "\t\t\t\t\t\t", "1\t2\t3\t4\t5\t6", "ж\tю"] {
        assert_eq!(split_once(t, '\t'), t.split_once('\t'), "{:?}", t);
        for n in 0..7 {
            let expected: Vec<&str> = t.splitn(n, '\t').collect();
            assert_eq!(splitn(t, '\t', n), expected, "{:?} {}", t, n);
        }
    }
}

#[test]
fn searching_agrees_with_the_standard_library() {
    let texts = ["", "a", "ab", "aab", "aaab", "[WPA2-PSK-CCMP][ESS]", "WEP", "жюжюя", "id=3"];
    let parts = ["", "a", "ab", "aab", "WPA", "WEP", "жюя", "id=", "ssid="];
    for t in texts {
        for p in parts {
            assert_eq!(contains(t, p), t.contains(p), "{:?} {:?}", t, p);
            assert_eq!(strip_prefix(t, p), t.strip_prefix(p), "{:?} {:?}", t, p);
            assert_eq!(same_text(t, p), t == p, "{:?} {:?}", t, p);
        }
        assert_eq!(contains_char(t, 'ю'), t.contains('ю'));
        let cs: Vec<char> = t.chars().collect();
        assert_eq!(chars_of(t), cs);
    }
}

#[test]
fn numbers_agree_with_the_standard_library() {
    let texts = [
        "", "-", "+", "0", "-0", "+7", "-42", "007", "2147483647", "2147483648", "-2147483648",
        "-2147483649", "99999999999999999999999", "-99999999999999999999999", "1x", " 1", "1 ",
        "--1", "+-1", "1_000", "٣", "0000000000000000000000000000012",
    ];
    for t in texts {
        assert_eq!(parse_i32(t), t.parse::<i32>().ok(), "{:?}", t);
    }
}

#[test]
fn numbers_are_written_as_the_standard_library_writes_them() {
    for n in [0, 1, 9, 10, 99, 100, 4711, -1, -9, -10, -50, -100, i32::MAX, i32::MIN] {
        let mut s = String::from("=");
        append_i32(&mut s, n);
        assert_eq!(s, format!("={}", n));
    }
}

#[test]
fn a_written_number_is_read_back() {
    for n in [0, 7, -7, 12345, -100, i32::MAX, i32::MIN] {
        let mut s = String::new();
        append_i32(&mut s, n);
        assert_eq!(parse_i32(&s), Some(n));
    }
}

#[test]
fn digits_are_ascii_digits() {
    assert!(only_digits("0123456789"));
    assert!(only_digits(""));
    assert!(!only_digits("12a"));
    assert!(!only_digits("-1"));
    assert!(!only_digits("٣"));
}
