use tokenizers_core::normalizer::{NormError, NormalizedString};
use tokenizers_core::pretokenizer::{PatternRule, SplitDelimiterBehavior, SplitPattern};

fn texts(n: &NormalizedString, pattern: &SplitPattern, b: SplitDelimiterBehavior) -> Vec<String> {
    n.split(pattern, b).unwrap().iter().map(|f| f.get()).collect()
}

fn dash() -> SplitPattern {
    SplitPattern { rule: PatternRule::Regex("-".to_string()), inverted: false }
}

#[test]
fn delimiter_removed() {
    let n = NormalizedString::from("the-final--countdown".to_string());
    assert_eq!(texts(&n, &dash(), SplitDelimiterBehavior::Removed), vec!["the", "final", "countdown"]);
}

#[test]
fn delimiter_isolated() {
    let n = NormalizedString::from("the-final--countdown".to_string());
    assert_eq!(texts(&n, &dash(), SplitDelimiterBehavior::Isolated), vec!["the", "-", "final", "-", "-", "countdown"]);
}

#[test]
fn delimiter_merged_with_previous() {
    let n = NormalizedString::from("the-final--countdown".to_string());
    assert_eq!(texts(&n, &dash(), SplitDelimiterBehavior::MergedWithPrevious), vec!["the-", "final-", "-", "countdown"]);
}

#[test]
fn delimiter_merged_with_next() {
    let n = NormalizedString::from("the-final--countdown".to_string());
    assert_eq!(texts(&n, &dash(), SplitDelimiterBehavior::MergedWithNext), vec!["the", "-final", "-", "-countdown"]);
}

#[test]
fn delimiter_contiguous() {
    let n = NormalizedString::from("the-final--countdown".to_string());
    assert_eq!(texts(&n, &dash(), SplitDelimiterBehavior::Contiguous), vec!["the", "-", "final", "--", "countdown"]);
}

#[test]
fn inverted_pattern_keeps_matches() {
    let n = NormalizedString::from("ab12cd3".to_string());
    let p = SplitPattern { rule: PatternRule::Regex("[0-9]+".to_string()), inverted: true };
    assert_eq!(texts(&n, &p, SplitDelimiterBehavior::Removed), vec!["12", "3"]);
    let frags = n.split(&p, SplitDelimiterBehavior::Removed).unwrap();
    assert_eq!(frags[0].original_shift(), 2);
    assert_eq!(frags[1].original_shift(), 6);
}

#[test]
fn no_empty_fragments_between_adjacent_delimiters() {
    let n = NormalizedString::from("  a  ".to_string());
    let p = SplitPattern { rule: PatternRule::WhitespaceChar, inverted: false };
    assert_eq!(texts(&n, &p, SplitDelimiterBehavior::Removed), vec!["a"]);
}

#[test]
fn bad_pattern_is_reported() {
    let n = NormalizedString::from("abc".to_string());
    let p = SplitPattern { rule: PatternRule::Regex("(".to_string()), inverted: false };
    assert_eq!(n.split(&p, SplitDelimiterBehavior::Removed).err(), Some(NormError::InvalidPattern));
}
