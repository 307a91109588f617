use markov_text::Vocab;

#[test]
fn tokens_are_assigned_in_first_seen_order() {
    let mut v = Vocab::new();
    assert_eq!(v.to_token("the"), 0);
    assert_eq!(v.to_token("cat"), 1);
    assert_eq!(v.to_token("the"), 0);
    assert_eq!(v.to_token("sat"), 2);
    assert_eq!(v.len(), 3);
}

#[test]
fn word_round_trips_through_token() {
    let mut v = Vocab::new();
    for w in ["alpha", "beta", "gamma", "beta", "café"] {
        let t = v.to_token(w);
        assert_eq!(v.to_word(t), w);
        assert_eq!(v.to_token(w), t);
    }
}

#[test]
fn unknown_token_reads_as_empty_word() {
    let mut v = Vocab::default();
    assert_eq!(v.to_word(0), "");
    v.to_token("x");
    assert_eq!(v.to_word(1), "");
    assert_eq!(v.to_word(u32::MAX), "");
}

#[test]
fn lookup_does_not_register() {
    let mut v = Vocab::new();
    assert_eq!(v.to_token_opt("a"), None);
    assert_eq!(v.len(), 0);
    let t = v.to_token("a");
    assert_eq!(v.to_token_opt("a"), Some(t));
}
