use std::collections::hash_map::DefaultHasher;
use std::collections::HashSet;
use std::hash::{Hash, Hasher};

use tag_query::location::Location;
use tag_query::text::Order;

fn location(file: &str, address: &str, extra: &str) -> Location {
    Location { file: file.into(), address: address.into(), extra: extra.into() }
}

#[test]
fn locations_are_equal_by_file_and_address() {
    assert_eq!(location("a.md", "10", "x"), location("a.md", "10", "y"));
    assert_ne!(location("a.md", "10", "x"), location("a.md", "11", "x"));
    assert_ne!(location("a.md", "10", "x"), location("b.md", "10", "x"));
}

#[test]
fn locations_are_ordered_by_file_then_address() {
    assert_eq!(location("a.md", "9", "").compare(&location("b.md", "1", "")), Order::Before);
    assert_eq!(location("b.md", "1", "").compare(&location("a.md", "9", "")), Order::After);
    assert_eq!(location("a.md", "1", "").compare(&location("a.md", "2", "")), Order::Before);
    assert_eq!(location("a.md", "10", "").compare(&location("a.md", "9", "")), Order::Before);
    assert_eq!(location("a.md", "2", "").compare(&location("a.md", "1", "")), Order::After);
}

#[test]
fn the_order_of_locations_ignores_extra_data() {
    assert_eq!(location("a.md", "1", "x").compare(&location("a.md", "1", "y")), Order::Equal);
    assert_eq!(location("a.md", "1", "z").compare(&location("a.md", "2", "a")), Order::Before);
}

#[test]
fn a_clone_keeps_all_three_fields() {
    let first = location("a.md", "1", "x");
    let copy = first.clone();
    assert_eq!(copy.file, "a.md");
    assert_eq!(copy.address, "1");
    assert_eq!(copy.extra, "x");
}

#[test]
fn locations_compare_with_the_operators() {
    assert!(location("a.md", "9", "") < location("b.md", "1", ""));
    assert!(location("a.md", "1", "z") < location("a.md", "2", "a"));
    assert!(location("a.md", "2", "") > location("a.md", "1", ""));
    assert!(location("a.md", "1", "x") <= location("a.md", "1", "y"));
    assert!(location("a.md", "1", "x") >= location("a.md", "1", "y"));
    assert!(!(location("a.md", "1", "x") < location("a.md", "1", "y")));
    assert_eq!(
        location("a.md", "1", "x").partial_cmp(&location("a.md", "1", "y")),
        Some(std::cmp::Ordering::Equal)
    );
}

#[test]
fn locations_hash_by_file_and_address() {
    let digest = |place: &Location| {
        let mut hasher = DefaultHasher::new();
        place.hash(&mut hasher);
        hasher.finish()
    };
    assert_eq!(digest(&location("a.md", "10", "x")), digest(&location("a.md", "10", "y")));
    assert_ne!(digest(&location("a.md", "10", "x")), digest(&location("a.md", "11", "x")));
    assert_ne!(digest(&location("a.md", "10", "x")), digest(&location("b.md", "10", "x")));
    assert_ne!(digest(&location("ab", "c", "")), digest(&location("a", "bc", "")));

    let mut places = HashSet::new();
    assert!(places.insert(location("a.md", "10", "x")));
    assert!(!places.insert(location("a.md", "10", "y")));
    assert!(places.insert(location("a.md", "11", "x")));
    assert_eq!(places.len(), 2);
    assert_eq!(places.get(&location("a.md", "10", "")).unwrap().extra, "x");
}
