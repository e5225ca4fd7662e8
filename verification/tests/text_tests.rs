use dbprobe::clock::clamp_nanos;
use dbprobe::text::{
    char_is_blank, char_is_digit, char_is_ident, char_is_letter, char_lower, chars_of, string_of,
    truncate,
};

#[test]
fn text_that_fits_is_unchanged() {
    assert_eq!(truncate("", 0), "");
    assert_eq!(truncate("hello", 5), "hello");
    assert_eq!(truncate("hello", 80), "hello");
}

#[test]
fn long_text_is_cut_and_marked() {
    assert_eq!(truncate("hello", 4), "hell...");
    assert_eq!(truncate("hello", 0), "...");
}

#[test]
fn a_cut_never_splits_a_character() {
    // Each of these characters takes two bytes.
    assert_eq!(truncate("ééé", 6), "ééé");
    assert_eq!(truncate("ééé", 5), "éé...");
    assert_eq!(truncate("ééé", 4), "éé...");
    assert_eq!(truncate("ééé", 1), "...");
    // And this one takes four.
    assert_eq!(truncate("a\u{1F600}b", 4), "a...");
    assert_eq!(truncate("a\u{1F600}b", 5), "a\u{1F600}...");
}

#[test]
fn strings_and_characters_convert_both_ways() {
    assert_eq!(chars_of("aé\u{1F600}"), vec!['a', 'é', '\u{1F600}']);
    assert_eq!(chars_of(""), Vec::<char>::new());
    assert_eq!(string_of(&['a', 'é', '\u{1F600}']), "aé\u{1F600}");
    assert_eq!(string_of(&[]), "");
}

#[test]
fn character_classes() {
    for c in '0'..='9' {
        assert!(char_is_digit(c) && char_is_ident(c) && !char_is_letter(c));
    }
    for c in ('a'..='z').chain('A'..='Z') {
        assert!(char_is_letter(c) && char_is_ident(c) && !char_is_digit(c));
    }
    assert!(char_is_ident('_') && !char_is_letter('_'));
    for c in ['/', ':', '@', '[', '`', '{', 'é', '$', ' '] {
        assert!(!char_is_ident(c), "{c:?}");
    }
    for c in [' ', '\t', '\n', '\x0C', '\r'] {
        assert!(char_is_blank(c));
    }
    assert!(!char_is_blank('\x0B') && !char_is_blank('a'));
    assert_eq!(char_lower('A'), 'a');
    assert_eq!(char_lower('Z'), 'z');
    assert_eq!(char_lower('a'), 'a');
    assert_eq!(char_lower('@'), '@');
    assert_eq!(char_lower('['), '[');
    assert_eq!(char_lower('É'), 'É');
}

#[test]
fn nanoseconds_are_clamped_to_64_bits() {
    assert_eq!(clamp_nanos(0), 0);
    assert_eq!(clamp_nanos(1_500_000_000), 1_500_000_000);
    assert_eq!(clamp_nanos(u64::MAX as u128), u64::MAX);
    assert_eq!(clamp_nanos(u64::MAX as u128 + 1), u64::MAX);
    assert_eq!(clamp_nanos(u128::MAX), u64::MAX);
}
