//! Numbers in words, Roman numerals and letters.
use jsntrs::stdlib::number_words::{
    int_to_words, int_to_words_ordinal, is_unicode_digit, ordinal_suffix, roman_value, split_picture_modifier, to_alphabetic,
    to_roman, unicode_digit_zero,
};

#[test]
fn words() {
    assert_eq!(int_to_words(0), "zero");
    assert_eq!(int_to_words(-3), "minus three");
    assert_eq!(int_to_words(42), "forty-two");
    assert_eq!(
        int_to_words(1984),
        "one thousand, nine hundred and eighty-four"
    );
    assert_eq!(int_to_words(2018), "two thousand and eighteen");
    assert_eq!(int_to_words_ordinal(42), "forty-second");
    assert_eq!(int_to_words_ordinal(20), "twentieth");
}

#[test]
fn roman() {
    assert_eq!(to_roman(2018, true), "MMXVIII");
    assert_eq!(to_roman(1984, true), "MCMLXXXIV");
    assert_eq!(to_roman(3, false), "iii");
    assert_eq!(to_roman(0, true), "");
    assert_eq!(roman_value('m'), Some(1000));
    assert_eq!(roman_value('q'), None);
}

#[test]
fn alphabetic() {
    assert_eq!(to_alphabetic(1, 'a'), "a");
    assert_eq!(to_alphabetic(26, 'a'), "z");
    assert_eq!(to_alphabetic(27, 'A'), "AA");
    assert_eq!(to_alphabetic(0, 'a'), "");
}

#[test]
fn ordinal_suffixes() {
    assert_eq!(ordinal_suffix(1), "st");
    assert_eq!(ordinal_suffix(2), "nd");
    assert_eq!(ordinal_suffix(3), "rd");
    assert_eq!(ordinal_suffix(4), "th");
    assert_eq!(ordinal_suffix(11), "th");
    assert_eq!(ordinal_suffix(12), "th");
    assert_eq!(ordinal_suffix(13), "th");
    assert_eq!(ordinal_suffix(21), "st");
}

#[test]
fn picture_modifier() {
    assert_eq!(split_picture_modifier("w;o"), ("w".to_string(), "o".to_string()));
    assert_eq!(split_picture_modifier("999"), ("999".to_string(), "c".to_string()));
}

#[test]
fn digit_families() {
    assert_eq!(unicode_digit_zero('٣'), Some('\u{0660}'));
    assert_eq!(unicode_digit_zero('7'), None);
    assert!(is_unicode_digit('٠'));
    assert!(!is_unicode_digit('x'));
}
