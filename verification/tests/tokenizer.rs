use humanesort::{sorting_type, NumericClassifier, SortingType, TokenIterator};

#[test]
fn it_works() {
    let s = "11LOL";
    let mut it = TokenIterator::new(s, NumericClassifier);
    assert_eq!(it.next().unwrap().0, "11");
    assert_eq!(it.next().unwrap().0, "LOL");
}

#[test]
fn tokenizer_example_full() {
    let mut it = TokenIterator::new("11LOL", NumericClassifier);
    let first = it.next().unwrap();
    assert_eq!(first.0, "11");
    assert_eq!(first.1, SortingType::Numeric);
    let second = it.next().unwrap();
    assert_eq!(second.0, "LOL");
    assert_eq!(second.1, SortingType::NonNumeric);
    assert!(it.next().is_none());
}

#[test]
fn tokenizer_empty_yields_nothing() {
    let mut it = TokenIterator::new("", NumericClassifier);
    assert!(it.next().is_none());
    assert!(it.next().is_none());
}

#[test]
fn tokenizer_single_grapheme() {
    let mut it = TokenIterator::new("a", NumericClassifier);
    let tok = it.next().unwrap();
    assert_eq!(tok.0, "a");
    assert_eq!(tok.1, SortingType::NonNumeric);
    assert!(it.next().is_none());

    let mut it = TokenIterator::new("7", NumericClassifier);
    let tok = it.next().unwrap();
    assert_eq!(tok.0, "7");
    assert_eq!(tok.1, SortingType::Numeric);
    assert!(it.next().is_none());
}

#[test]
fn tokenizer_one_classification_one_token() {
    let mut it = TokenIterator::new("20260101", NumericClassifier);
    let tok = it.next().unwrap();
    assert_eq!(tok.0, "20260101");
    assert_eq!(tok.1, SortingType::Numeric);
    assert!(it.next().is_none());
}

#[test]
fn tokenizer_combining_mark_stays_with_base() {
    // 'e' followed by a combining acute accent is one grapheme; the digit
    // run that follows is a separate token.
    let mut it = TokenIterator::new("e\u{301}27", NumericClassifier);
    let first = it.next().unwrap();
    assert_eq!(first.0, "e\u{301}");
    assert_eq!(first.1, SortingType::NonNumeric);
    let second = it.next().unwrap();
    assert_eq!(second.0, "27");
    assert_eq!(second.1, SortingType::Numeric);
    assert!(it.next().is_none());
}

fn concat_of_tokens(s: &str) -> String {
    let mut it = TokenIterator::new(s, NumericClassifier);
    let mut out = String::new();
    while let Some(tok) = it.next() {
        out.push_str(&tok.0);
    }
    out
}

#[test]
fn tokenizer_coverage_reconstructs_input() {
    for s in ["", "11LOL", "abc123def", "h\u{301}42x", "a\u{301}", "🇷🇺🇸🇹9", "file10part2"] {
        assert_eq!(concat_of_tokens(s), s);
    }
}

#[test]
fn sorting_type_numeric_iff_digit_run() {
    assert_eq!(sorting_type("123"), SortingType::Numeric);
    assert_eq!(sorting_type("0"), SortingType::Numeric);
    assert_eq!(sorting_type(""), SortingType::NonNumeric);
    assert_eq!(sorting_type("12a"), SortingType::NonNumeric);
    assert_eq!(sorting_type("+7"), SortingType::NonNumeric);
    assert_eq!(sorting_type(" 7"), SortingType::NonNumeric);
    assert_eq!(sorting_type("1.5"), SortingType::NonNumeric);
    assert_eq!(sorting_type("٣"), SortingType::NonNumeric);
    // Classification is unbounded: an oversized numeral is still numeric.
    assert_eq!(sorting_type("99999999999999999999999999"), SortingType::Numeric);
}
