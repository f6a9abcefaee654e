use tag_query::text::{chars_of, compare, starts_with, Order};

#[test]
fn compare_orders_by_the_first_difference() {
    assert_eq!(compare("abc", "abd"), Order::Before);
    assert_eq!(compare("abd", "abc"), Order::After);
    assert_eq!(compare("b", "abc"), Order::After);
    assert_eq!(compare("B", "a"), Order::Before);
    assert_eq!(compare("10", "9"), Order::Before);
}

#[test]
fn compare_puts_a_prefix_first() {
    assert_eq!(compare("", "a"), Order::Before);
    assert_eq!(compare("a", ""), Order::After);
    assert_eq!(compare("ab", "abc"), Order::Before);
    assert_eq!(compare("abc", "ab"), Order::After);
}

#[test]
fn compare_finds_equal_texts_equal() {
    assert_eq!(compare("", ""), Order::Equal);
    assert_eq!(compare("path/to/file.md", "path/to/file.md"), Order::Equal);
    assert_eq!(compare("日本語", "日本語"), Order::Equal);
}

#[test]
fn compare_agrees_with_the_order_of_str() {
    let samples = ["", "a", "A", "ab", "b", "é", "e", "z", "日本", "日本語", "\u{10000}", "\u{ffff}", "~"];
    for a in samples {
        for b in samples {
            let expected = match a.cmp(b) {
                std::cmp::Ordering::Less => Order::Before,
                std::cmp::Ordering::Equal => Order::Equal,
                std::cmp::Ordering::Greater => Order::After,
            };
            assert_eq!(compare(a, b), expected, "{:?} against {:?}", a, b);
        }
    }
}

#[test]
fn starts_with_tells_prefixes() {
    assert!(starts_with("work", ""));
    assert!(starts_with("work", "w"));
    assert!(starts_with("work", "work"));
    assert!(!starts_with("work", "works"));
    assert!(!starts_with("work", "W"));
    assert!(!starts_with("", "w"));
    assert!(starts_with("", ""));
    assert!(starts_with("été", "é"));
    assert!(!starts_with("été", "e"));
}

#[test]
fn chars_of_lists_the_characters() {
    assert_eq!(chars_of(""), Vec::<char>::new());
    assert_eq!(chars_of("a&b"), vec!['a', '&', 'b']);
    assert_eq!(chars_of("é日"), vec!['é', '日']);
}
