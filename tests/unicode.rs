use tokenizers_core::normalizer::{NormError, NormalizedString};
use tokenizers_core::normalizers::{normalize_all, AnyASCII, Nmt, NormalizerKind, NFC, NFD, NFKC, NFKD};

#[test]
fn test_nfkc() {
    let original = "\u{fb01}".to_string();
    let normalized = "fi".to_string();
    let mut n = NormalizedString::from(original.clone());
    NFKC.normalize(&mut n).unwrap();

    assert_eq!(n.get(), normalized);
    assert_eq!(n.get_original(), original);
    assert_eq!(n.alignments_in_bytes(), vec![(0, 3), (0, 3)]);
    assert_eq!(n.original_shift(), 0);

    assert_eq!(n.alignments_original(), vec![(0, 2), (0, 2), (0, 2)]);
}

#[test]
fn nfkc_fan_out_shares_one_original_char() {
    let mut n = NormalizedString::from("a\u{fb01}b".to_string());
    NFKC.normalize(&mut n).unwrap();
    assert_eq!(n.get(), "afib");
    assert_eq!(n.alignments(), vec![(0, 1), (1, 2), (1, 2), (2, 3)]);
    assert_eq!(n.alignments_in_bytes(), vec![(0, 1), (1, 4), (1, 4), (4, 5)]);
}

#[test]
fn nfd_then_nfc_round_trip() {
    let mut n = NormalizedString::from("\u{e9}t\u{e9}".to_string());
    NFD.normalize(&mut n).unwrap();
    assert_eq!(n.get(), "e\u{301}te\u{301}");
    assert_eq!(n.alignments(), vec![(0, 1), (0, 1), (1, 2), (2, 3), (2, 3)]);
    NFC.normalize(&mut n).unwrap();
    assert_eq!(n.get(), "\u{e9}t\u{e9}");
    assert_eq!(n.alignments(), vec![(0, 1), (1, 2), (2, 3)]);
}

#[test]
fn nfkd_expands_ligature() {
    let mut n = NormalizedString::from("x\u{fb01}".to_string());
    NFKD.normalize(&mut n).unwrap();
    assert_eq!(n.get(), "xfi");
    assert_eq!(n.alignments(), vec![(0, 1), (1, 2), (1, 2)]);
}

#[test]
fn nmt_removes_controls_and_maps_spaces() {
    let mut n = NormalizedString::from("a\u{1}b\tc\u{200b}".to_string());
    Nmt.normalize(&mut n).unwrap();
    assert_eq!(n.get(), "ab c ");
    assert_eq!(n.alignments(), vec![(0, 1), (2, 3), (3, 4), (4, 5), (5, 6)]);
    assert_eq!(n.get_original(), "a\u{1}b\tc\u{200b}");
}

#[test]
fn any_ascii_transliterates_outside_kept_pattern() {
    let norm = AnyASCII::new(Some("[0-9]+".to_string()), Some(vec![('\u{e9}', "E".to_string())])).unwrap();
    let mut n = NormalizedString::from("\u{e9}\u{4e2d}x\u{0661}1".to_string());
    norm.normalize(&mut n).unwrap();
    assert_eq!(n.get(), "EZhongx11");
    assert_eq!(n.alignments(), vec![(0, 1), (1, 2), (1, 2), (1, 2), (1, 2), (1, 2), (2, 3), (3, 4), (4, 5)]);
}

#[test]
fn any_ascii_keeps_pattern_matches() {
    let norm = AnyASCII::new(Some("\u{e9}+".to_string()), None).unwrap();
    let mut n = NormalizedString::from("\u{e9}\u{e9}\u{e8}".to_string());
    norm.normalize(&mut n).unwrap();
    assert_eq!(n.get(), "\u{e9}\u{e9}e");
    assert_eq!(n.alignments(), vec![(0, 1), (1, 2), (2, 3)]);
}

#[test]
fn any_ascii_rejects_bad_pattern() {
    assert_eq!(AnyASCII::new(Some("(".to_string()), None).err(), Some(NormError::InvalidPattern));
}

#[test]
fn any_ascii_empty_replacement_deletes() {
    let norm = AnyASCII::new(None, Some(vec![('b', String::new())])).unwrap();
    let mut n = NormalizedString::from("abc".to_string());
    norm.normalize(&mut n).unwrap();
    assert_eq!(n.get(), "ac");
    assert_eq!(n.alignments(), vec![(0, 1), (2, 3)]);
}

#[test]
fn pipeline_runs_stages_in_order() {
    let stages = vec![NormalizerKind::Nmt, NormalizerKind::NFKC];
    let mut n = NormalizedString::from("a\u{1}\u{fb01}".to_string());
    assert_eq!(normalize_all(&stages, &mut n), Ok(()));
    assert_eq!(n.get(), "afi");
    assert_eq!(n.alignments(), vec![(0, 1), (2, 3), (2, 3)]);
}
