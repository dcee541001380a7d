use dbgcore::ranges::Ranges;

#[test]
fn test_ranges() {
    let mut ranges = Ranges::new();

    assert_eq!(ranges.find_value(10), None);
    assert_eq!(ranges.find_range(10), None);

    ranges.add(10, 20, "foo");
    ranges.add(30, 50, "bar");
    ranges.add(60, 90, "baz");

    assert_eq!(ranges.find_value(10), Some(&"foo"));
    assert_eq!(ranges.find_value(40), Some(&"bar"));
    assert_eq!(ranges.find_value(90), Some(&"baz"));

    assert_eq!(ranges.find_value(100), None);

    assert_eq!(ranges.find_range(15), Some((10, 20)));
    assert_eq!(ranges.find_range(0), None);
}
