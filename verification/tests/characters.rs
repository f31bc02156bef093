use launcher::hex::{read_hex_byte, HexError};
use launcher::numeral::parse_numeral;
use launcher::offsets::{bytes_of_char, count_bytes, cut_at, slice_bytes};
use launcher::text::{
    chars_of, find_char, find_text, has_prefix, read_trimmed_lines, same_ignoring_case, same_text,
    split_at_char, string_of, trimmed, white_space, without_end, without_start,
};

fn chars(s: &str) -> Vec<char> {
    s.chars().collect()
}

#[test]
fn white_space_is_that_of_the_standard_library() {
    for c in '\0'..=char::MAX {
        assert_eq!(white_space(c), c.is_whitespace(), "{:?}", c);
    }
}

#[test]
fn trimming_is_that_of_the_standard_library() {
    for s in ["", " ", "a", " a b\t", "\u{a0}x\u{3000}\n", "x\r", "\u{200b}x"] {
        assert_eq!(string_of(trimmed(&chars(s))), s.trim(), "{:?}", s);
    }
}

#[test]
fn characters_and_back() {
    let s = "aé€😀";
    assert_eq!(chars_of(s), chars(s));
    assert_eq!(string_of(&chars(s)), s);
    for c in s.chars() {
        assert_eq!(bytes_of_char(c), c.len_utf8());
    }
    assert_eq!(count_bytes(&chars(s)), Some(s.len()));
}

#[test]
fn lines_are_those_of_the_standard_library() {
    for s in ["a\r\n b \n\nc", "x", "\n"] {
        let mut mine: Vec<String> = read_trimmed_lines(s).iter().map(|l| string_of(l)).collect();
        if mine.last().map_or(false, |l| l.is_empty()) {
            mine.pop();
        }
        let theirs: Vec<&str> = s.lines().map(|l| l.trim()).collect();
        assert_eq!(mine, theirs);
    }
}

#[test]
fn splitting_and_finding() {
    let parts: Vec<String> = split_at_char(&chars("a::b"), ':')
        .iter()
        .map(|p| string_of(p))
        .collect();
    assert_eq!(parts, ["a", "", "b"]);
    assert_eq!(find_char(&chars("abc"), 'c'), 2);
    assert_eq!(find_char(&chars("abc"), 'x'), 3);
    assert!(find_text(&chars("launcher"), &chars("aunch")));
    assert!(find_text(&chars("x"), &[]));
    assert!(!find_text(&chars("ab"), &chars("abc")));
    assert!(has_prefix(&chars("Name=x"), &chars("Name=")));
    assert!(!has_prefix(&chars("Nam"), &chars("Name=")));
    assert!(same_text(&chars("ab"), &chars("ab")));
    assert!(!same_text(&chars("ab"), &chars("aB")));
    assert!(same_ignoring_case(&chars("XpM"), &chars("xPm")));
    assert!(!same_ignoring_case(&chars("É"), &chars("é")));
    assert_eq!(without_start(&chars("##a#"), '#'), chars("a#"));
    assert_eq!(without_end(&chars(",a,,"), ','), chars(",a"));
}

#[test]
fn cutting_at_byte_offsets() {
    let s = chars("aé€");
    assert_eq!(cut_at(&s, 0), Some(0));
    assert_eq!(cut_at(&s, 1), Some(1));
    assert_eq!(cut_at(&s, 2), None);
    assert_eq!(cut_at(&s, 3), Some(2));
    assert_eq!(cut_at(&s, 6), Some(3));
    assert_eq!(cut_at(&s, 7), None);
    assert_eq!(slice_bytes(&s, 1, 6), Some(&s[1..3]));
    assert_eq!(slice_bytes(&s, 1, 2), None);
}

#[test]
fn numerals_are_those_of_the_standard_library() {
    for s in [
        "", "+", "-", "-1", "0", "+7", "++7", "255", "256", "00255", "ff", "+f", "Fg", " 1", "1 ",
        "é", "4294967295", "4294967296",
    ] {
        let c = chars(s);
        assert_eq!(
            parse_numeral(&c, 16, 255),
            u8::from_str_radix(s, 16).ok().map(u64::from),
            "{:?}",
            s
        );
        assert_eq!(
            parse_numeral(&c, 10, u32::MAX as u64),
            s.parse::<u32>().ok().map(u64::from),
            "{:?}",
            s
        );
        assert_eq!(
            parse_numeral(&c, 10, u64::MAX),
            s.parse::<u64>().ok(),
            "{:?}",
            s
        );
    }
}

#[test]
fn hexadecimal_bytes() {
    let s = chars("0aé+f");
    assert_eq!(read_hex_byte(&s, 0, 2), Ok(10));
    assert_eq!(read_hex_byte(&s, 2, 4), Err(HexError::NotHex));
    assert_eq!(read_hex_byte(&s, 2, 3), Err(HexError::Cut));
    assert_eq!(read_hex_byte(&s, 4, 6), Ok(15));
    assert_eq!(read_hex_byte(&s, 4, 7), Err(HexError::Cut));
}
