use pymemprofile_api::text::{
    char_is_whitespace, chars_of, digit_char, push_chars, push_decimal, trimmed_len,
};
use pymemprofile_api::util::{debug_mode, hash_seed, new_hashmap, SeedSetting};
use std::collections::HashMap;

#[test]
fn debug_mode_is_on_for_one_only() {
    assert!(debug_mode(Some("1")));
    assert!(!debug_mode(Some("0")));
    assert!(!debug_mode(Some("")));
    assert!(!debug_mode(Some("11")));
    assert!(!debug_mode(Some("true")));
    assert!(!debug_mode(None));
}

#[test]
fn the_seed_of_the_hashers() {
    assert_eq!(hash_seed(None), SeedSetting::Random);
    assert_eq!(hash_seed(Some("random")), SeedSetting::Random);
    assert_eq!(hash_seed(Some("0")), SeedSetting::Seed(0));
    assert_eq!(hash_seed(Some("42")), SeedSetting::Seed(42));
    assert_eq!(hash_seed(Some("+42")), SeedSetting::Seed(42));
    assert_eq!(hash_seed(Some("0042")), SeedSetting::Seed(42));
    assert_eq!(hash_seed(Some("4294967295")), SeedSetting::Seed(4294967295));
    assert_eq!(
        hash_seed(Some("9223372036854775807")),
        SeedSetting::Seed(i64::MAX as u64)
    );
    assert_eq!(hash_seed(Some("-1")), SeedSetting::Seed(u64::MAX));
    assert_eq!(hash_seed(Some("-0")), SeedSetting::Seed(0));
    assert_eq!(
        hash_seed(Some("-9223372036854775808")),
        SeedSetting::Seed(1u64 << 63)
    );
    for invalid in [
        "",
        "+",
        "-",
        "Random",
        "random ",
        " 1",
        "1 ",
        "1.5",
        "0x10",
        "--1",
        "9223372036854775808",
        "-9223372036854775809",
        "123456789012345678901234567890123456789012345678901234567890",
    ] {
        assert_eq!(hash_seed(Some(invalid)), SeedSetting::Invalid, "{}", invalid);
        assert!(invalid.parse::<i64>().is_err());
    }
}

#[test]
fn a_new_hash_map_is_empty_and_works() {
    let mut seeded: HashMap<usize, u32, ahash::RandomState> = new_hashmap(Some(99));
    let mut random: HashMap<usize, u32, ahash::RandomState> = new_hashmap(None);
    assert!(seeded.is_empty());
    assert!(random.is_empty());
    for i in 0..100 {
        seeded.insert(i * 8, i as u32);
        random.insert(i * 8, i as u32);
    }
    assert_eq!(seeded.len(), 100);
    assert_eq!(seeded[&80], 10);
    assert_eq!(random[&792], 99);
}

#[test]
fn numbers_in_decimal() {
    for n in [0usize, 7, 10, 99, 100, 1234567890, usize::MAX] {
        let mut text = "n=".to_string();
        push_decimal(&mut text, n);
        assert_eq!(text, format!("n={}", n));
    }
    assert_eq!(digit_char(0), '0');
    assert_eq!(digit_char(9), '9');
}

#[test]
fn characters_of_a_text() {
    assert_eq!(chars_of("a\u{ff1b}b"), vec!['a', '\u{ff1b}', 'b']);
    assert!(chars_of("").is_empty());
    let mut text = String::from(">");
    push_chars(&mut text, &chars_of("hello"), 1, 4);
    assert_eq!(text, ">ell");
    push_chars(&mut text, &chars_of("hello"), 2, 2);
    assert_eq!(text, ">ell");
}

#[test]
fn white_space_is_what_unicode_says() {
    for code in 0..0x3100u32 {
        if let Some(c) = char::from_u32(code) {
            assert_eq!(char_is_whitespace(c), c.is_whitespace(), "{:x}", code);
        }
    }
    assert_eq!(trimmed_len(&chars_of("ab \t\r\n")), 2);
    assert_eq!(trimmed_len(&chars_of(" \n")), 0);
    assert_eq!(trimmed_len(&chars_of("")), 0);
    assert_eq!(trimmed_len(&chars_of(" a\u{12e4}")), 3);
    for text in ["x  ", "  x", "\u{a0}x\u{a0}\u{2003}", "x\ny\n\n"] {
        assert_eq!(
            trimmed_len(&chars_of(text)),
            text.trim_end().chars().count()
        );
    }
}
