use textkit::downloads::{completion_message, sort_messages};

#[test]
fn test_download_tasks() {
    let test_urls = ["url1".to_string(), "url2".to_string(), "url3".to_string()];

    let finished: Vec<String> = test_urls.iter().rev().map(|u| completion_message(u)).collect();
    let test_result = sort_messages(finished);

    let expected = vec![
        "url1 下载完成".to_string(),
        "url2 下载完成".to_string(),
        "url3 下载完成".to_string(),
    ];
    assert_eq!(test_result, expected);
}

#[test]
fn message_follows_the_address() {
    assert_eq!(completion_message("https://example.com/file1"), "https://example.com/file1 下载完成");
    assert_eq!(completion_message(""), " 下载完成");
}

#[test]
fn messages_are_listed_in_byte_order() {
    let input: Vec<String> = ["b", "a", "c", "a", "", "ab", "B"].iter().map(|s| s.to_string()).collect();
    let mut expected = input.clone();
    expected.sort();
    assert_eq!(sort_messages(input), expected);
    assert_eq!(expected, vec!["", "B", "a", "a", "ab", "b", "c"]);
}

#[test]
fn sorting_nothing_gives_nothing() {
    assert!(sort_messages(Vec::new()).is_empty());
}

#[test]
fn sorting_agrees_with_the_standard_sort() {
    let mut seed: u32 = 99;
    let mut input = Vec::new();
    for _ in 0..300 {
        seed = seed.wrapping_mul(1664525).wrapping_add(1013904223);
        input.push(format!("u{}\u{e9}{}", (seed >> 8) % 50, (seed >> 20) % 7));
    }
    let mut expected = input.clone();
    expected.sort();
    assert_eq!(sort_messages(input), expected);
}
