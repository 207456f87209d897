use tokenizers_core::pre_tokenizers::{EditBoundaries, EditBoundariesBehavior, Whitespace, WhitespaceSplit, default_none};
use tokenizers_core::pretokenizer::{OffsetReferential, OffsetType, PreTokenizedString};
use tokenizers_core::normalizer::NormError;

fn owned(v: Vec<(&str, (usize, usize))>) -> Vec<(String, (usize, usize))> {
    v.into_iter().map(|(s, o)| (s.to_string(), o)).collect()
}

#[test]
fn basic() {
    let tests = vec![
        (
            "Hey man!",
            vec![("Hey", (0, 3)), ("man", (4, 7)), ("!", (7, 8))],
        ),
        (
            "How are you doing?",
            vec![
                ("How", (0, 3)),
                ("are", (4, 7)),
                ("you", (8, 11)),
                ("doing", (12, 17)),
                ("?", (17, 18)),
            ],
        ),
        ("\n", vec![]),
    ];
    let pretok = Whitespace {};
    for (s, res) in tests {
        let mut pretokenized = PreTokenizedString::from(s);
        pretok.pre_tokenize(&mut pretokenized).unwrap();
        assert_eq!(
            pretokenized
                .get_splits(OffsetReferential::Original, OffsetType::Byte)
                .into_iter()
                .map(|(s, o)| (s, o))
                .collect::<Vec<_>>(),
            owned(res)
        );
    }
}

#[test]
fn whitespace_split() {
    let tests = vec![
        ("Hey man!", vec![("Hey", (0, 3)), ("man!", (4, 8))]),
        (
            "Hey, man, Good?",
            vec![("Hey,", (0, 4)), ("man,", (5, 9)), ("Good?", (10, 15))],
        ),
    ];
    let pretok = WhitespaceSplit;
    for (s, res) in tests {
        let mut pretokenized = PreTokenizedString::from(s);
        pretok.pre_tokenize(&mut pretokenized).unwrap();
        assert_eq!(
            pretokenized
                .get_splits(OffsetReferential::Original, OffsetType::Byte)
                .into_iter()
                .map(|(s, o)| (s, o))
                .collect::<Vec<_>>(),
            owned(res)
        );
    }
}

#[test]
fn whitespace_offsets_in_chars_and_normalized() {
    let mut p = PreTokenizedString::from("d\u{e9}j\u{e0} vu");
    WhitespaceSplit.pre_tokenize(&mut p).unwrap();
    assert_eq!(p.get_splits(OffsetReferential::Original, OffsetType::Byte), owned(vec![("d\u{e9}j\u{e0}", (0, 6)), ("vu", (7, 9))]));
    assert_eq!(p.get_splits(OffsetReferential::Original, OffsetType::Char), owned(vec![("d\u{e9}j\u{e0}", (0, 4)), ("vu", (5, 7))]));
    assert_eq!(p.get_splits(OffsetReferential::Normalized, OffsetType::Char), owned(vec![("d\u{e9}j\u{e0}", (0, 4)), ("vu", (4, 6))]));
    assert_eq!(p.get_splits(OffsetReferential::Normalized, OffsetType::Byte), owned(vec![("d\u{e9}j\u{e0}", (0, 6)), ("vu", (6, 8))]));
}

#[test]
fn projection_is_stable() {
    let mut p = PreTokenizedString::from("one two  three");
    Whitespace.pre_tokenize(&mut p).unwrap();
    let a = p.get_splits(OffsetReferential::Original, OffsetType::Byte);
    let b = p.get_splits(OffsetReferential::Original, OffsetType::Byte);
    assert_eq!(a, b);
    assert_eq!(a, owned(vec![("one", (0, 3)), ("two", (4, 7)), ("three", (9, 14))]));
}

#[test]
fn split_fragments_keep_order_in_original() {
    let mut p = PreTokenizedString::from("a bb  ccc d");
    WhitespaceSplit.pre_tokenize(&mut p).unwrap();
    let spans: Vec<(usize, usize)> = p.get_splits(OffsetReferential::Original, OffsetType::Char).into_iter().map(|(_, o)| o).collect();
    assert_eq!(spans, vec![(0, 1), (2, 4), (6, 9), (10, 11)]);
    for w in spans.windows(2) {
        assert!(w[0].1 <= w[1].0);
    }
    let frags = p.fragments();
    assert_eq!(frags[2].original_shift(), 6);
    assert_eq!(frags[2].get_original(), "ccc");
}

#[test]
fn whitespace_split_only_spaces_is_empty() {
    let mut p = PreTokenizedString::from(" \t\n ");
    WhitespaceSplit.pre_tokenize(&mut p).unwrap();
    assert_eq!(p.get_splits(OffsetReferential::Original, OffsetType::Byte), vec![]);
}

#[test]
fn edit_boundaries_ensure_space_left() {
    let mut p = PreTokenizedString::from("abc");
    EditBoundaries::new(EditBoundariesBehavior::EnsureSpace, EditBoundariesBehavior::Unchanged).pre_tokenize(&mut p).unwrap();
    let frags = p.fragments();
    assert_eq!(frags.len(), 1);
    assert_eq!(frags[0].get(), " abc");
    assert_eq!(frags[0].alignments(), vec![(0, 0), (0, 1), (1, 2), (2, 3)]);
    assert_eq!(p.get_splits(OffsetReferential::Original, OffsetType::Byte), owned(vec![(" abc", (0, 3))]));
}

#[test]
fn edit_boundaries_strip_both_sides() {
    let mut p = PreTokenizedString::from(" abc ");
    EditBoundaries::new(EditBoundariesBehavior::StripSpace, EditBoundariesBehavior::StripSpace).pre_tokenize(&mut p).unwrap();
    assert_eq!(p.get_splits(OffsetReferential::Original, OffsetType::Byte), owned(vec![("abc", (1, 4))]));
}

#[test]
fn edit_boundaries_strip_single_space_drops_fragment() {
    let mut p = PreTokenizedString::from(" ");
    EditBoundaries::new(EditBoundariesBehavior::StripSpace, EditBoundariesBehavior::StripSpace).pre_tokenize(&mut p).unwrap();
    assert_eq!(p.split_texts(), Vec::<String>::new());
    assert_eq!(p.get_splits(OffsetReferential::Original, OffsetType::Byte), vec![]);
    let mut q = PreTokenizedString::from("  ");
    EditBoundaries::new(EditBoundariesBehavior::StripSpace, EditBoundariesBehavior::StripSpace).pre_tokenize(&mut q).unwrap();
    assert_eq!(q.get_splits(OffsetReferential::Original, OffsetType::Byte), vec![]);
}

#[test]
fn edit_boundaries_ensure_right_and_unchanged() {
    let mut p = PreTokenizedString::from("ab");
    EditBoundaries::new(default_none(), EditBoundariesBehavior::EnsureSpace).pre_tokenize(&mut p).unwrap();
    assert_eq!(p.split_texts(), vec!["ab ".to_string()]);
    let frags = p.fragments();
    assert_eq!(frags[0].alignments(), vec![(0, 1), (1, 2), (2, 2)]);
    let mut q = PreTokenizedString::from(" ab ");
    EditBoundaries::new(EditBoundariesBehavior::EnsureSpace, EditBoundariesBehavior::EnsureSpace).pre_tokenize(&mut q).unwrap();
    assert_eq!(q.split_texts(), vec![" ab ".to_string()]);
}

#[test]
fn edit_boundaries_on_empty_fragment() {
    let mut p = PreTokenizedString::from("");
    let r = EditBoundaries::new(EditBoundariesBehavior::EnsureSpace, EditBoundariesBehavior::Unchanged).pre_tokenize(&mut p);
    assert_eq!(r, Err(NormError::EmptyFragment));
    assert_eq!(p.split_texts(), vec![String::new()]);
    let r2 = EditBoundaries::new(EditBoundariesBehavior::Unchanged, EditBoundariesBehavior::Unchanged).pre_tokenize(&mut p);
    assert_eq!(r2, Ok(()));
    assert_eq!(p.split_texts(), Vec::<String>::new());
}
