use sysfacts::table::TextMap;
use sysfacts::text::{
    chars_of, lines_of, parse_hex_u32_of, parse_u32_of, parse_u64_of, split_of, splitn_of, strings_of,
    trim_chars, words_of,
};

fn strings(v: Vec<Vec<char>>) -> Vec<String> {
    strings_of(&v)
}

#[test]
fn lines_follow_str_lines() {
    for s in ["", "a", "a\n", "a\r\nb\r\n", "a\n\nb", "\n", "x\r", "a\rb\n"] {
        let expected: Vec<String> = s.lines().map(|l| l.to_string()).collect();
        assert_eq!(strings(lines_of(&chars_of(s))), expected, "{:?}", s);
    }
}

#[test]
fn words_follow_split_whitespace() {
    for s in ["", "  ", "a b", " a\tb\u{3000}c\u{a0}d ", "x\u{2003}y"] {
        let expected: Vec<String> = s.split_whitespace().map(|l| l.to_string()).collect();
        assert_eq!(strings(words_of(&chars_of(s))), expected, "{:?}", s);
    }
}

#[test]
fn trim_and_split_follow_str() {
    for s in ["", " a ", "\u{85}a\u{2028}", "a,,b,", ","] {
        assert_eq!(strings_of(&[trim_chars(&chars_of(s))])[0], s.trim());
        let expected: Vec<String> = s.split(',').map(|l| l.to_string()).collect();
        assert_eq!(strings(split_of(&chars_of(s), ',')), expected);
        let expected3: Vec<String> = s.splitn(3, ',').map(|l| l.to_string()).collect();
        assert_eq!(strings(splitn_of(&chars_of(s), 3, ',')), expected3);
    }
}

#[test]
fn numbers_follow_from_str() {
    for s in ["0", "+7", "-7", "", "+", "12a", "4294967295", "4294967296", "18446744073709551615", "18446744073709551616", "007"] {
        assert_eq!(parse_u32_of(&chars_of(s)), s.parse::<u32>().ok(), "{:?}", s);
        assert_eq!(parse_u64_of(&chars_of(s)), s.parse::<u64>().ok(), "{:?}", s);
    }
    for s in ["ff", "FF", "+a", "g", "ffffffff", "100000000", ""] {
        assert_eq!(parse_hex_u32_of(&chars_of(s)), u32::from_str_radix(s, 16).ok(), "{:?}", s);
    }
}

#[test]
fn text_map_replaces_values() {
    let mut m: TextMap<u32> = TextMap::new();
    m.insert("a".to_string(), 1);
    m.insert("b".to_string(), 2);
    m.insert("a".to_string(), 3);
    assert_eq!(m.len(), 2);
    assert_eq!(m.get("a"), Some(&3));
    assert_eq!(m.get("c"), None);
    let keys: Vec<&str> = m.entries().iter().map(|e| e.0.as_str()).collect();
    assert_eq!(keys, vec!["a", "b"]);
}
