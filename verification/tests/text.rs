use ravito_gpx::text::{
    chars_of, contains_word, is_digit, is_lower_case, is_white_space, parse_i32, same_text, split, split_once,
    trim,
};

const SAMPLES: [&str; 12] = [
    "",
    " ",
    "a",
    " a ",
    "\u{3000}\u{e9}t\u{e9}\u{2029}",
    "a,b",
    ",",
    ",,a,,",
    "Mo-Fr 07:00-19:00; Sa",
    "caf\u{e9},\u{1f600},x",
    "\u{200b} not white \u{200b}",
    "a  b",
];

#[test]
fn white_space_is_that_of_std() {
    for n in 0..=0x10ffff_u32 {
        if let Some(c) = char::from_u32(n) {
            assert_eq!(is_white_space(c), c.is_whitespace(), "{n:x}");
            assert_eq!(is_digit(c), c.is_ascii_digit(), "{n:x}");
        }
    }
}

#[test]
fn only_these_characters_have_an_ascii_lower_case() {
    for n in 0..=0x10ffff_u32 {
        if let Some(c) = char::from_u32(n) {
            let lower: String = c.to_lowercase().collect();
            for l in (0..128_u8).map(char::from).filter(|l| !l.is_ascii_uppercase()) {
                let word = l.to_string();
                assert_eq!(is_lower_case(&c.to_string(), &word), lower == word, "{n:x} {l}");
            }
        }
    }
}

#[test]
fn lower_case_of_words() {
    for (s, word) in [
        ("BaKeRy", "bakery"),
        ("ba\u{212a}ery", "bakery"),
        ("FOUNTA\u{130}N", "fountain"),
        ("Bar_Tabac", "bar_tabac"),
        ("bakery ", "bakery"),
        ("", ""),
        ("CLO\u{17f}ED", "closed"),
    ] {
        assert_eq!(is_lower_case(s, word), s.to_lowercase() == word, "{s}");
    }
}

#[test]
fn trimming_is_that_of_std() {
    for s in SAMPLES {
        assert_eq!(trim(s), s.trim());
        assert_eq!(trim(trim(s)), s.trim());
    }
}

#[test]
fn splitting_is_that_of_std() {
    for s in SAMPLES {
        for sep in [',', '-', ';', '\u{e9}'] {
            assert_eq!(split(s, sep), s.split(sep).collect::<Vec<_>>());
            assert_eq!(split_once(s, sep), s.split_once(sep));
        }
    }
}

#[test]
fn integers_are_those_of_std() {
    for s in [
        "0", "7", "-7", "+7", "007", "-", "+", "", "+-1", "--1", "2147483647", "2147483648",
        "-2147483648", "-2147483649", "99999999999999999999999", "-99999999999999999999999", "1 ",
        " 1", "1_0", "\u{661}", "0x1", "00000000000000000000000001", "+0", "-0", "1.0", "12a",
    ] {
        assert_eq!(parse_i32(s), s.parse::<i32>().ok(), "{s}");
    }
}

#[test]
fn texts_are_compared() {
    for a in SAMPLES {
        for b in SAMPLES {
            assert_eq!(same_text(a, b), a == b);
        }
        assert_eq!(chars_of(a), a.chars().collect::<Vec<_>>());
    }
}

#[test]
fn words_stand_alone() {
    for s in ["PH", "PH off", "Mo,PH", "(PH)", "x PHPH PH1"] {
        assert!(contains_word(s, "PH"), "{s}");
    }
    for s in ["", "P", "PHx", "xPH", "ph", "P H"] {
        assert!(!contains_word(s, "PH"), "{s}");
    }
    assert!(contains_word("week01-10", "week"));
    assert!(!contains_word("weekend", "week"));
}
