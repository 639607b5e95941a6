use rdp_anchor::number::{read_digits, read_unsigned, write_decimal, write_signed};
use rdp_anchor::text::{
    chars_of, has, has_char, index_of, joined, lines_of, position_of, same_text, split_at_each,
    starts_with, string_of, trim, white_space,
};

fn all(s: &str) -> Vec<char> {
    s.chars().collect()
}

fn strings(parts: Vec<&[char]>) -> Vec<String> {
    parts.iter().map(|p| p.iter().collect()).collect()
}

const SAMPLES: [&str; 14] = [
    "",
    "a",
    "\n",
    "\r\n",
    "a\nb",
    "a\r\nb\r\n",
    "a\r\r\nb\r",
    "\n\n",
    "a;b;;c;",
    ";",
    " \u{3000}x y\u{a0}\t",
    "  ",
    "\u{1f600};\u{e9}\n",
    " - a - b",
];

#[test]
fn white_space_is_that_of_unicode() {
    for n in 0..=0x10ffffu32 {
        if let Some(c) = char::from_u32(n) {
            assert_eq!(white_space(c), c.is_whitespace());
        }
    }
}

#[test]
fn trimming_lines_and_splitting_agree_with_strings() {
    for s in SAMPLES {
        let chars = all(s);
        assert_eq!(chars_of(s), chars);
        assert_eq!(string_of(&chars), s);
        assert_eq!(string_of(trim(&chars)), s.trim());
        assert_eq!(strings(lines_of(&chars)), s.lines().collect::<Vec<&str>>());
        assert_eq!(strings(split_at_each(&chars, ';')), s.split(';').collect::<Vec<&str>>());
    }
}

#[test]
fn searching() {
    let s = all("abcabd");
    assert_eq!(index_of(&s, 'c'), 2);
    assert_eq!(index_of(&s, 'z'), 6);
    assert_eq!(position_of(&s, &all("abd")), 3);
    assert_eq!(position_of(&s, &all("abx")), 6);
    assert!(has(&s, &all("cab")));
    assert!(has(&s, &all("")));
    assert!(has(&[], &[]));
    assert!(!has(&s, &all("abcabda")));
    assert!(has_char(&s, 'd'));
    assert!(!has_char(&s, 'e'));
    assert!(starts_with(&s, &all("abc")));
    assert!(!starts_with(&s, &all("bc")));
    assert!(same_text("x\u{e9}", "x\u{e9}"));
    assert!(!same_text("x", "xy"));
}

#[test]
fn joining() {
    let parts = vec!["a".to_string(), String::new(), "b".to_string()];
    assert_eq!(joined(&parts, ", "), "a, , b");
    assert_eq!(joined(&[], ", "), "");
}

#[test]
fn splitting_undoes_joining() {
    let parts = vec!["a".to_string(), String::new(), "bc".to_string()];
    assert_eq!(strings(split_at_each(&all(&joined(&parts, ";")), ';')), parts);
}

#[test]
fn lines_undo_joining() {
    let parts = vec!["a".to_string(), String::new(), "b\r".to_string()];
    assert_eq!(strings(lines_of(&all(&joined(&parts, "\r\n")))), parts);
    let blank_end = vec!["a".to_string(), String::new()];
    assert_eq!(strings(lines_of(&all(&joined(&blank_end, "\r\n")))), vec!["a"]);
}

#[test]
fn reading_numbers_agrees_with_strings() {
    for s in ["", "+", "-", "0", "+5", "++5", "-0", "007", "65535", "65536", "4294967295",
        "4294967296", "99999999999999999999", " 1", "1 ", "1a", "\u{661}"] {
        assert_eq!(read_unsigned(&all(s), u32::MAX), s.parse::<u32>().ok());
        assert_eq!(
            read_unsigned(&all(s), 65535),
            s.parse::<u16>().ok().map(u32::from)
        );
    }
    assert_eq!(read_digits(&all("+1"), 9), None);
    assert_eq!(read_digits(&all("9"), 9), Some(9));
    assert_eq!(read_digits(&all("10"), 9), None);
}

#[test]
fn writing_numbers_agrees_with_strings() {
    for n in [0u64, 1, 9, 10, 99, 100, 1080, 4294967295, u64::MAX] {
        assert_eq!(write_decimal(n), n.to_string());
    }
    for n in [0i64, -1, -10, 7, -2147483648, i64::MAX, i64::MIN + 1] {
        assert_eq!(write_signed(n), n.to_string());
    }
}
