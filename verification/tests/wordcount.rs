use textkit::wordcount::process_input;

#[test]
fn test_empty_input() {
    let result = process_input("");
    assert!(result.is_empty());
}

#[test]
fn test_basic_counting() {
    let input = "apple banana pear banana apple banana";
    let result = process_input(input);
    assert_eq!(
        result,
        vec![
            ("banana".into(), 3),
            ("apple".into(), 2),
            ("pear".into(), 1)
        ]
    );
}

#[test]
fn counting_ignores_case() {
    let result = process_input("Tree tree TREE bush");
    assert_eq!(result, vec![("tree".to_string(), 3), ("bush".to_string(), 1)]);
}

#[test]
fn equal_counts_come_in_byte_order() {
    let result = process_input("pear fig apple fig pear apple kiwi");
    assert_eq!(
        result,
        vec![
            ("apple".to_string(), 2),
            ("fig".to_string(), 2),
            ("pear".to_string(), 2),
            ("kiwi".to_string(), 1),
        ]
    );
}

#[test]
fn any_whitespace_separates_words() {
    let result = process_input("  one\ttwo\n\none \u{3000}two   one ");
    assert_eq!(result, vec![("one".to_string(), 3), ("two".to_string(), 2)]);
}

#[test]
fn only_whitespace_has_no_words() {
    assert!(process_input(" \t\n ").is_empty());
}

#[test]
fn a_prefix_sorts_before_the_longer_word() {
    let result = process_input("ab a abc");
    assert_eq!(
        result,
        vec![("a".to_string(), 1), ("ab".to_string(), 1), ("abc".to_string(), 1)]
    );
}

#[test]
fn every_word_is_counted_once_per_occurrence() {
    let input = "x y z x y x";
    let result = process_input(input);
    let total: usize = result.iter().map(|e| e.1).sum();
    assert_eq!(total, input.split_whitespace().count());
    for (word, count) in &result {
        let expected = input.split_whitespace().filter(|w| w == word).count();
        assert_eq!(*count, expected);
    }
}
