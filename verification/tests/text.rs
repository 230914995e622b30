use pocket_tts_deploy::text::{
    contains_chars, count_words, decimal_text, find_chars, is_white_space, joined, owned,
    parse_number, same_text, trim_chars,
};

fn chars(s: &str) -> Vec<char> {
    s.chars().collect()
}

#[test]
fn white_space_is_the_unicode_property() {
    for n in 0..=0x10ffffu32 {
        if let Some(c) = char::from_u32(n) {
            assert_eq!(is_white_space(c), c.is_whitespace(), "U+{n:04X}");
        }
    }
}

#[test]
fn trimming_and_counting_follow_the_standard_library() {
    let samples = [
        "", " ", "a", " a ", "\t a b \u{3000}", "one  two\nthree", "\u{a0}x\u{2003}y\u{85}", "끝. ",
    ];
    for s in samples {
        let trimmed: String = trim_chars(&chars(s)).into_iter().collect();
        assert_eq!(trimmed, s.trim());
        assert_eq!(count_words(&chars(s)), s.split_whitespace().count());
    }
}

#[test]
fn joining_keeps_both_parts() {
    assert_eq!(joined("off", "12"), "off12");
    assert_eq!(joined("", ""), "");
    assert_eq!(owned("초과"), "초과");
    assert!(same_text("CPU", "CPU"));
    assert!(!same_text("CPU", "GPU"));
    assert!(!same_text("CPU", "CPU "));
}

#[test]
fn decimals_have_no_leading_zero() {
    assert_eq!(decimal_text(0), "0");
    assert_eq!(decimal_text(9), "9");
    assert_eq!(decimal_text(10), "10");
    assert_eq!(decimal_text(8080), "8080");
    assert_eq!(decimal_text(usize::MAX), usize::MAX.to_string());
}

#[test]
fn searching_finds_the_first_place() {
    let s = chars("cache_off_cache");
    assert_eq!(find_chars(&s, &chars("cache"), 0), Some(0));
    assert_eq!(find_chars(&s, &chars("cache"), 1), Some(10));
    assert_eq!(find_chars(&s, &chars("cache"), 11), None);
    assert!(contains_chars(&s, &chars("off")));
    assert!(!contains_chars(&s, &chars("offs")));
    assert!(contains_chars(&s, &chars("")));
}

#[test]
fn numbers_are_parsed_like_the_standard_library_does() {
    let samples = [
        "0", "7", "+7", "-7", "", "+", "++1", "12a", "007", "18446744073709551615",
        "18446744073709551616", "99999999999999999999999", " 1", "１",
        "99999999999999999999999a", "1a99999999999999999999999", "+18446744073709551616",
        "18446744073709551615x", "18446744073709551616x",
    ];
    for s in samples {
        match (parse_number(&chars(s)), s.parse::<usize>()) {
            (Ok(a), Ok(b)) => assert_eq!(a, b),
            (Err(a), Err(b)) => assert_eq!(a.message(), b.to_string(), "{s:?}"),
            _ => panic!("{s:?}"),
        }
    }
}
