use textkit::stats::{char_is_control, count};

#[test]
fn counts_of_a_small_text() {
    assert_eq!(count("hello\nworld\n"), (10, 2));
    assert_eq!(count("hello\nworld"), (10, 2));
    assert_eq!(count("one two\r\nthree\r\n\r\nfour"), (16, 4));
}

#[test]
fn counts_of_an_empty_text() {
    assert_eq!(count(""), (0, 0));
}

#[test]
fn a_lone_line_feed_is_one_empty_line() {
    assert_eq!(count("\n"), (0, 1));
    assert_eq!(count("\n\n\n"), (0, 3));
    assert_eq!(count("a\n\n"), (1, 2));
}

#[test]
fn the_last_line_needs_no_line_feed() {
    assert_eq!(count("a"), (1, 1));
    assert_eq!(count("a\nb\nc"), (3, 3));
}

#[test]
fn control_characters_are_not_counted() {
    assert_eq!(count("a\tb\u{7f}c\u{85}d\u{0}"), (4, 1));
    assert_eq!(count("caf\u{e9} \u{4e2d}\u{6587}"), (7, 1));
}

#[test]
fn counts_agree_with_the_standard_iterators() {
    let samples = ["", "x", "\n", "a\nb", "a\r\nb\r\n", "tab\tseparated\n\nlines\n", " \n \n "];
    for text in samples {
        let chars = text.chars().filter(|c| !c.is_control()).count() as i32;
        let lines = text.lines().count() as i32;
        assert_eq!(count(text), (chars, lines));
    }
}

#[test]
fn control_characters_are_the_category_cc() {
    for u in 0u32..0x300 {
        let c = char::from_u32(u).unwrap();
        assert_eq!(char_is_control(c), c.is_control());
    }
    assert!(!char_is_control('\u{2028}'));
}
