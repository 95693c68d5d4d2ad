use textkit::fizzbuzz::{line_for, question1};

#[test]
fn test_question1() {
    let test_cases = vec![
        (1, vec!["1"]),
        (3, vec!["1", "2", "3Fizz"]),
        (5, vec!["1", "2", "3Fizz", "4", "5Buzz"]),
        (
            15,
            vec![
                "1", "2", "3Fizz", "4", "5Buzz", "6Fizz", "7", "8", "9Fizz", "10Buzz", "11",
                "12Fizz", "13", "14", "FizzBuzz",
            ],
        ),
    ];

    for (input, expected) in test_cases {
        let lines = question1(input);
        assert_eq!(lines, expected);
    }
}

#[test]
fn nothing_below_one() {
    assert!(question1(0).is_empty());
    assert!(question1(-7).is_empty());
}

#[test]
fn lines_of_larger_numbers() {
    assert_eq!(line_for(30), "FizzBuzz");
    assert_eq!(line_for(99), "99Fizz");
    assert_eq!(line_for(100), "100Buzz");
    assert_eq!(line_for(101), "101");
    assert_eq!(line_for(4294967291), "4294967291");
}

#[test]
fn one_line_for_each_number() {
    let lines = question1(1000);
    assert_eq!(lines.len(), 1000);
    assert_eq!(lines[999], "1000Buzz");
    assert_eq!(lines[998], "999Fizz");
}
