use tokenizers_core::noop::{Noop, NoopTrainer};

#[test]
fn noop_keeps_piece_whole() {
    let m = Noop {};
    let toks = m.tokenize("h\u{e9}llo").unwrap();
    assert_eq!(toks.len(), 1);
    assert_eq!(toks[0].id, 0);
    assert_eq!(toks[0].value, "h\u{e9}llo");
    assert_eq!(toks[0].offsets, (0, 6));
    assert_eq!(m.token_to_id("x"), None);
    assert_eq!(m.id_to_token(3), None);
    assert_eq!(m.get_vocab_size(), 0);
    assert!(m.get_vocab().is_empty());
}

#[test]
fn noop_trainer_learns_nothing() {
    let mut m = Noop {};
    let mut t = m.get_trainer();
    assert!(!t.should_show_progress());
    assert_eq!(t.feed(&vec!["a b".to_string()]), Ok(()));
    assert_eq!(t.train(&mut m).unwrap().len(), 0);
    assert_eq!(t, NoopTrainer {});
}
