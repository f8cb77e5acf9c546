use humanesort::{humane_order, humane_order_checked, HumaneString};
use std::cmp::Ordering;

#[test]
fn sort() {
    let strings = vec!["11", "2", "a", "1"];
    let mut humans: Vec<HumaneString> = strings.iter().map(|s| HumaneString::new(s)).collect();
    humans.sort_by(|a, b| humane_order(&a.data, &b.data));
    let sorted_strings: Vec<String> = humans.into_iter().map(|hs| hs.data).collect();
    assert_eq!(vec!["1", "2", "11", "a"], sorted_strings);
}

#[test]
fn numeric_runs_compare_by_value() {
    assert_eq!(humane_order("file2", "file10"), Ordering::Less);
    assert_eq!(humane_order("file10", "file2"), Ordering::Greater);
    assert_eq!(humane_order("2", "11"), Ordering::Less);
}

#[test]
fn leading_zeros_are_insignificant() {
    assert_eq!(humane_order("007", "7"), Ordering::Equal);
    assert_eq!(humane_order("007", "07"), Ordering::Equal);
    assert_eq!(humane_order("007a", "7b"), Ordering::Less);
}

#[test]
fn shorter_token_stream_is_less() {
    assert_eq!(humane_order("ab", "ab2"), Ordering::Less);
    assert_eq!(humane_order("ab2", "ab"), Ordering::Greater);
}

#[test]
fn empty_string_is_least() {
    assert_eq!(humane_order("", ""), Ordering::Equal);
    assert_eq!(humane_order("", "a"), Ordering::Less);
    assert_eq!(humane_order("", "0"), Ordering::Less);
    assert_eq!(humane_order("a", ""), Ordering::Greater);
}

#[test]
fn numeric_token_sorts_before_non_numeric() {
    assert_eq!(humane_order("1", "a"), Ordering::Less);
    assert_eq!(humane_order("a", "1"), Ordering::Greater);
}

#[test]
fn non_numeric_runs_compare_lexicographically() {
    assert_eq!(humane_order("2-lul", "11-lul"), Ordering::Less);
    assert_eq!(humane_order("alpha", "beta"), Ordering::Less);
    assert_eq!(humane_order("beta", "alpha"), Ordering::Greater);
    assert_eq!(humane_order("abc", "abc"), Ordering::Equal);
}

#[test]
fn order_is_transitive_on_samples() {
    let sample = ["", "1", "007", "7", "file2", "file10", "ab", "ab2", "a", "z9z"];
    for a in sample {
        assert_eq!(humane_order(a, a), Ordering::Equal);
        for b in sample {
            let ab = humane_order(a, b);
            let ba = humane_order(b, a);
            match ab {
                Ordering::Less => assert_eq!(ba, Ordering::Greater),
                Ordering::Equal => assert_eq!(ba, Ordering::Equal),
                Ordering::Greater => assert_eq!(ba, Ordering::Less),
            }
            for c in sample {
                if humane_order(a, b) == Ordering::Less && humane_order(b, c) == Ordering::Less {
                    assert_eq!(humane_order(a, c), Ordering::Less);
                }
                if humane_order(a, b) == Ordering::Equal {
                    assert_eq!(humane_order(a, c), humane_order(b, c));
                }
            }
        }
    }
}

#[test]
fn oversized_numeral_fails_the_comparison() {
    let big = "99999999999999999999999999";
    assert_eq!(humane_order_checked(big, "7"), None);
    assert_eq!(humane_order_checked("7", big), None);
    assert_eq!(humane_order_checked(big, big), None);
    // The largest value that fits is still ordered.
    assert_eq!(humane_order_checked("18446744073709551615", "7"), Some(Ordering::Greater));
}

#[test]
fn oversized_numeral_unreached_pairs_still_order() {
    let big = "99999999999999999999999999";
    // The first pair decides before the oversized pair is parsed.
    assert_eq!(humane_order_checked(big, "z"), Some(Ordering::Less));
    assert_eq!(humane_order_checked("zz", &format!("za{}", big)), Some(Ordering::Greater));
}

#[test]
fn checked_order_agrees_where_defined() {
    assert_eq!(humane_order_checked("file2", "file10"), Some(Ordering::Less));
    assert_eq!(humane_order_checked("", ""), Some(Ordering::Equal));
    assert_eq!(humane_order_checked("007", "7"), Some(Ordering::Equal));
}

#[test]
fn humane_string_wraps_and_orders() {
    let a = HumaneString::new("007");
    let b = HumaneString::new("7");
    assert_eq!(a.data, "007");
    // The order is coarser than equality: distinct numerals of one value
    // compare Equal while the strings stay unequal.
    assert_eq!(a.partial_cmp(&b), Some(Ordering::Equal));
    assert!(a != b);

    let big = HumaneString::new("99999999999999999999999999");
    assert_eq!(a.partial_cmp(&big), None);
    assert!(HumaneString::new("file2") < HumaneString::new("file10"));
}

#[test]
fn sort_mixed_list() {
    let strings = vec!["x10", "x2", "x10a", "x", "10", "9", "x02", "y"];
    let mut humans: Vec<HumaneString> = strings.iter().map(|s| HumaneString::new(s)).collect();
    humans.sort_by(|a, b| humane_order(&a.data, &b.data));
    let sorted: Vec<String> = humans.into_iter().map(|hs| hs.data).collect();
    assert_eq!(vec!["9", "10", "x", "x2", "x02", "x10", "x10a", "y"], sorted);
}
