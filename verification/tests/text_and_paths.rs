use huggingfacedownloader::paths::{file_name, file_stem, join, parent};
use huggingfacedownloader::text::{
    decimal_text, find_text, chars_of, first_word, hex_text, parse_whole_number, replace_char,
    same_text, strip_prefixes_text, strip_text, text_precedes, whitespace, Fringe,
};

#[test]
fn blanks_are_those_of_unicode() {
    for code in 0..=0x10ffffu32 {
        if let Some(c) = char::from_u32(code) {
            assert_eq!(whitespace(c), c.is_whitespace(), "{:x}", code);
        }
    }
}

#[test]
fn stripping_agrees_with_the_standard_library() {
    for s in ["", " ", "a", "  a b \t", "\u{3000}x\u{85}", "\"q\"", "\"\"", "\"a\"b\"", "é è"] {
        assert_eq!(strip_text(s, Fringe::Blanks), s.trim());
        assert_eq!(strip_text(s, Fringe::Quotes), s.trim_matches('"'));
        assert_eq!(first_word(s), s.split_whitespace().next().map(|w| w.to_string()));
    }
    for s in ["", "ab", "abab", "aba", "xab", "ababab!"] {
        assert_eq!(strip_prefixes_text(s, "ab"), s.trim_start_matches("ab"));
    }
}

#[test]
fn searching_finds_the_first_place() {
    let s = chars_of("aéxaéx");
    assert_eq!(find_text(&s, &chars_of("éx")), Some(1));
    assert_eq!(find_text(&s, &chars_of("xx")), None);
    assert_eq!(find_text(&s, &chars_of("aéxaéxa")), None);
    assert_eq!(find_text(&s, &chars_of("aéxaéx")), Some(0));
}

#[test]
fn numbers_read_back() {
    for n in [0, 7, 10, 99, 100, 12345, u64::MAX] {
        assert_eq!(decimal_text(n), n.to_string());
        assert_eq!(parse_whole_number(&decimal_text(n)), Some(n));
    }
    for s in ["", "+", "+5", "-5", "1 ", "18446744073709551615", "18446744073709551616", "007", "1_0"]
    {
        assert_eq!(parse_whole_number(s), s.parse::<u64>().ok(), "{}", s);
    }
}

#[test]
fn bytes_are_written_in_hexadecimal() {
    let all: Vec<u8> = (0..=255).collect();
    let expected: String = all.iter().map(|b| format!("{:02x}", b)).collect();
    assert_eq!(hex_text(&all), expected);
    assert_eq!(hex_text(&vec![]), "");
}

#[test]
fn texts_are_compared_and_ordered_like_strings() {
    let words = ["", "a", "A", "ab", "b", "é", "z", "\u{ffff}", "\u{10000}", "a/b", "a-b"];
    for a in words {
        for b in words {
            assert_eq!(same_text(a, b), a == b);
            assert_eq!(text_precedes(a, b), a < b);
        }
    }
    assert_eq!(replace_char("a/b/c", '/', '_'), "a_b_c");
}

#[test]
fn paths_agree_with_the_standard_library() {
    let paths = [
        "", "/", "//", ".", "..", "./", "a", "a/", "a//", "/a", "//a", "a/b", "a//b", "a/./b",
        "a/.", "a/..", "./a", "../a.b", "a.b.c", ".a", ".a.b", "a.", "..a", "x/.y/z.w/", "/./a",
        "a/b/.", "...",
    ];
    for p in paths {
        let std_path = std::path::Path::new(p);
        assert_eq!(file_name(p), std_path.file_name().and_then(|s| s.to_str()).map(|s| s.to_string()), "{}", p);
        assert_eq!(file_stem(p), std_path.file_stem().and_then(|s| s.to_str()).map(|s| s.to_string()), "{}", p);
        assert_eq!(parent(p), std_path.parent().map(|q| q.to_str().unwrap().to_string()), "{}", p);
        assert_eq!(join(p, "tmp"), std_path.join("tmp").to_str().unwrap(), "{}", p);
    }
}
