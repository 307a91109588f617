use markov_text::chain::Edge;
use markov_text::Chain;

const B: u32 = 100;
const E: u32 = 101;

#[test]
fn single_sentence_always_generates_itself() {
    let chain = Chain::new(&vec![vec![1, 2, 3]], B, E);
    for _ in 0..50 {
        assert_eq!(chain.generate(None), vec![1, 2, 3]);
    }
}

#[test]
fn empty_corpus_generates_nothing() {
    let chain = Chain::new(&vec![], B, E);
    assert!(!chain.has_start());
    assert_eq!(chain.find_init_states(B), Some(vec![]));
}

#[test]
fn empty_sentence_only_reaches_end() {
    let chain = Chain::new(&vec![vec![]], B, E);
    assert!(chain.has_start());
    assert_eq!(chain.generate(None), Vec::<u32>::new());
}

#[test]
fn default_chain_is_empty() {
    let chain = Chain::default(B, E);
    assert!(!chain.has_start());
    assert_eq!(chain.find_init_states(1), Some(vec![]));
}

#[test]
fn generated_tokens_never_hold_sentinels() {
    let data = vec![vec![1, 2, 3, 4], vec![1, 3, 2, 4], vec![2, 2, 1], vec![4, 3, 3, 1]];
    let chain = Chain::new(&data, B, E);
    for _ in 0..200 {
        let r = chain.generate(None);
        assert!(!r.contains(&B));
        assert!(!r.contains(&E));
        assert!(r.iter().all(|t| (1..=4).contains(t)));
    }
}

#[test]
fn generation_from_a_given_state() {
    let chain = Chain::new(&vec![vec![1, 2, 3, 4]], B, E);
    assert_eq!(chain.generate(Some((2, 3))), vec![4]);
    assert_eq!(chain.generate(Some((1, 2))), vec![3, 4]);
    assert!(chain.has_start());
}

#[test]
fn weighted_draws_follow_counts() {
    let data = vec![vec![1], vec![2], vec![2], vec![2]];
    let chain = Chain::new(&data, B, E);
    let mut ones = 0u32;
    let mut twos = 0u32;
    for _ in 0..20000 {
        match chain.next(&(B, B)) {
            1 => ones += 1,
            2 => twos += 1,
            other => panic!("unexpected token {}", other),
        }
    }
    let ratio = twos as f64 / ones as f64;
    assert!(ratio > 2.6 && ratio < 3.4, "ratio {}", ratio);
}

#[test]
fn next_from_single_successor() {
    let chain = Chain::new(&vec![vec![5, 6]], B, E);
    assert_eq!(chain.next(&(B, B)), 5);
    assert_eq!(chain.next(&(B, 5)), 6);
    assert_eq!(chain.next(&(5, 6)), E);
}

#[test]
fn pick_uses_bisect_right_on_prefix_sums() {
    let choices = vec![10, 20, 30];
    let cum = vec![1, 4, 6];
    assert_eq!(Chain::pick(&choices, &cum, 0), 10);
    assert_eq!(Chain::pick(&choices, &cum, 1), 20);
    assert_eq!(Chain::pick(&choices, &cum, 3), 20);
    assert_eq!(Chain::pick(&choices, &cum, 4), 30);
    assert_eq!(Chain::pick(&choices, &cum, 5), 30);
}

#[test]
fn find_init_states_lists_each_window_once() {
    let chain = Chain::new(&vec![vec![1, 2, 1], vec![1, 2]], B, E);
    let states = chain.find_init_states(1).unwrap();
    assert_eq!(states, vec![(B, 1), (1, 2), (2, 1)]);
    let states = chain.find_init_states(2).unwrap();
    assert_eq!(states, vec![(1, 2), (2, 1)]);
    assert_eq!(chain.find_init_states(9), Some(vec![]));
}

#[test]
fn edge_is_plain_data() {
    let e = Edge { from: (1, 2), to: 3, count: 4 };
    let f = e;
    assert_eq!(f.count, 4);
    assert_eq!(e.from, (1, 2));
}
