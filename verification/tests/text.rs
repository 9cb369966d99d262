use ztreamer::text::{number_text, optional_text, text_with_number, word_text};

#[test]
fn numbers_have_no_leading_zeros() {
    for number in [0, 7, 10, 909, 4_194_304, u64::MAX] {
        assert_eq!(number_text(number), number.to_string());
    }
    assert_eq!(text_with_number("block ", 20, " is late"), "block 20 is late");
}

#[test]
fn words_have_all_their_digits() {
    for number in [0, 7, 0x1234_abcd, 0x8000_0005, u32::MAX] {
        assert_eq!(word_text(number), format!("{number:#010x}"));
    }
}

#[test]
fn missing_numbers_are_shown() {
    for number in [None, Some(0), Some(u32::MAX)] {
        assert_eq!(optional_text(number), format!("{number:?}"));
    }
}
