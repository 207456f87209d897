use tokenizers_core::normalizer::{NormError, NormalizedString};

#[test]
fn slice_out_of_bounds() {
    let n = NormalizedString::from("abc".to_string());
    assert_eq!(n.slice(2, 4).err(), Some(NormError::OutOfBounds));
    assert_eq!(n.slice(2, 1).err(), Some(NormError::OutOfBounds));
    let empty = n.slice(1, 1).unwrap();
    assert!(empty.is_empty());
    assert_eq!(empty.original_shift(), 1);
}

#[test]
fn slice_rebases_alignment() {
    let n = NormalizedString::from("hello world".to_string());
    let w = n.slice(6, 11).unwrap();
    assert_eq!(w.get(), "world");
    assert_eq!(w.get_original(), "world");
    assert_eq!(w.original_shift(), 6);
    assert_eq!(w.alignments(), vec![(0, 1), (1, 2), (2, 3), (3, 4), (4, 5)]);
}

#[test]
fn prepend_and_append_collapse_onto_edges() {
    let mut n = NormalizedString::from("abc".to_string());
    n.prepend(" ");
    n.append("!!");
    assert_eq!(n.get(), " abc!!");
    assert_eq!(n.get_original(), "abc");
    assert_eq!(n.alignments(), vec![(0, 0), (0, 1), (1, 2), (2, 3), (3, 3), (3, 3)]);
}

#[test]
fn from_is_identity() {
    let n = NormalizedString::from("h\u{e9}!".to_string());
    assert_eq!(n.get(), "h\u{e9}!");
    assert_eq!(n.get_original(), "h\u{e9}!");
    assert_eq!(n.alignments(), vec![(0, 1), (1, 2), (2, 3)]);
    assert_eq!(n.alignments_in_bytes(), vec![(0, 1), (1, 3), (3, 4)]);
    assert_eq!(n.len(), 3);
    assert_eq!(n.len_original(), 3);
    assert!(!n.is_empty());
}

#[test]
fn round_trip_whole_range() {
    let n = NormalizedString::from("round trip".to_string());
    let whole = n.slice(0, n.len()).unwrap();
    assert_eq!(whole.get(), "round trip");
    assert_eq!(whole.get_original(), "round trip");
}

#[test]
fn empty_buffer() {
    let n = NormalizedString::from(String::new());
    assert!(n.is_empty());
    assert_eq!(n.alignments(), vec![]);
    assert_eq!(n.alignments_original(), vec![]);
}

#[test]
fn transform_fan_out_and_resync() {
    let mut n = NormalizedString::from("abc".to_string());
    n.transform(&vec![('x', 0), ('y', 0), ('z', 0), ('c', 2)], 0).unwrap();
    assert_eq!(n.get(), "xyzc");
    assert_eq!(n.alignments(), vec![(0, 1), (0, 1), (0, 1), (2, 3)]);
    let part = n.slice(1, 2).unwrap();
    assert_eq!(part.get_original(), "a");
}

#[test]
fn transform_with_start_cursor() {
    let mut n = NormalizedString::from("abc".to_string());
    n.transform(&vec![('B', 0), ('C', 1)], 1).unwrap();
    assert_eq!(n.get(), "BC");
    assert_eq!(n.alignments(), vec![(1, 2), (2, 3)]);
}

#[test]
fn transform_past_end_fails_and_keeps_buffer() {
    let mut n = NormalizedString::from("ab".to_string());
    assert_eq!(n.transform(&vec![('a', 0), ('b', 2)], 0), Err(NormError::InvalidRewrite));
    assert_eq!(n.get(), "ab");
    assert_eq!(n.transform(&vec![('a', -1)], 0), Err(NormError::InvalidRewrite));
    assert_eq!(n.alignments(), vec![(0, 1), (1, 2)]);
}

#[test]
fn range_in_both_spaces() {
    let n = NormalizedString::from("Hello".to_string());
    assert_eq!(n.get_range(0, n.len()).unwrap(), "Hello");
    assert_eq!(n.get_range_original(0, 5).unwrap(), "Hello");
    assert_eq!(n.get_range_original(1, 3).unwrap(), "el");
    assert_eq!(n.get_range(4, 6), Err(NormError::OutOfBounds));
    assert_eq!(n.get_range_original(0, 6), Err(NormError::OutOfBounds));
}

#[test]
fn original_range_after_expansion() {
    let mut n = NormalizedString::from("a\u{fb01}b".to_string());
    n.transform(&vec![('a', 0), ('f', 1), ('i', 0), ('B', 1)], 0).unwrap();
    assert_eq!(n.get_range_original(1, 2).unwrap(), "fi");
    assert_eq!(n.get_range_original(0, 2).unwrap(), "afi");
    assert_eq!(n.get_range_original(2, 3).unwrap(), "B");
    assert_eq!(n.get_range_original(1, 1).unwrap(), "");
}
