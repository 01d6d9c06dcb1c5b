use http_compression::text::{
    characters, check_white_space, find, parse_word, skip_digits, spells, spells_ignoring_case,
    split, starts_with, to_ascii_lower, trim,
};

fn chars(text: &str) -> Vec<char> {
    text.chars().collect()
}

#[test]
fn white_space_is_that_of_unicode() {
    for n in 0..=0x10ffff_u32 {
        if let Some(c) = char::from_u32(n) {
            assert_eq!(check_white_space(c), c.is_whitespace(), "{n:x}");
            assert_eq!(to_ascii_lower(c), c.to_ascii_lowercase(), "{n:x}");
        }
    }
}

#[test]
fn trimming() {
    for text in ["", " ", "a", " a", "a ", "\t a b\r\n", "\u{2003}x\u{85}", "   "] {
        assert_eq!(trim(&chars(text)), chars(text.trim()), "{text:?}");
    }
}

#[test]
fn splitting() {
    for text in ["", ",", "a", "a,b", ",a,,b,", "é,ü"] {
        let expected: Vec<Vec<char>> = text.split(',').map(chars).collect();
        assert_eq!(split(&chars(text), ','), expected, "{text:?}");
    }
}

#[test]
fn finding() {
    assert_eq!(find(&chars("a;b;c"), ';'), 1);
    assert_eq!(find(&chars("abc"), ';'), 3);
    assert_eq!(find(&chars(""), ';'), 0);
    assert_eq!(skip_digits(&chars("12a34"), 0), 2);
    assert_eq!(skip_digits(&chars("12a34"), 3), 5);
    assert_eq!(skip_digits(&chars("12a34"), 2), 2);
}

#[test]
fn comparing() {
    assert_eq!(characters("aé"), ['a', 'é']);
    assert!(spells(&chars("gzip"), "gzip"));
    assert!(!spells(&chars("gzip"), "gzi"));
    assert!(!spells(&chars("gzip"), "gziq"));
    assert!(starts_with(&chars("image/png"), "image/"));
    assert!(!starts_with(&chars("image"), "image/"));
    assert!(!starts_with(&chars("text/html"), "image/"));
    assert!(spells_ignoring_case(&chars("Accept-ENCODING"), "accept-encoding"));
    assert!(!spells_ignoring_case(&chars("accept_encoding"), "accept-encoding"));
    assert!(!spells_ignoring_case(&chars("No!"), "no"));
}

#[test]
fn machine_words() {
    let most = usize::MAX.to_string();
    let over = format!("{most}0");
    let zeros = format!("{}7", "0".repeat(100));
    let next = (usize::MAX as u128 + 1).to_string();
    for text in [
        "", "+", "-", "0", "5", "+5", "-5", "-0", "++5", "200", "00200", " 5", "5 ", "5.0", "1e3",
        "0x10", "\u{665}", &most, &over, &zeros, &next,
    ] {
        assert_eq!(parse_word(&chars(text)), text.parse::<usize>().ok(), "{text}");
    }
}
