use markov_text::text::{join, sentence_input, MAX_OVERLAP_RATIO_TENTHS, MAX_OVERLAP_TOTAL};
use markov_text::{Text, TextOptions};

fn words(ws: &[&str]) -> Vec<String> {
    ws.iter().map(|w| w.to_string()).collect()
}

#[test]
fn verify_rejects_corpus_substring() {
    let text = Text::new("the quick brown fox".to_string());
    assert!(!text.verify(&words(&["the", "quick", "brown"]), MAX_OVERLAP_RATIO_TENTHS, 15));
    assert!(!text.verify(&words(&["the", "quick", "brown"]), MAX_OVERLAP_RATIO_TENTHS, 3));
}

#[test]
fn verify_accepts_new_words() {
    let text = Text::new("the quick brown fox".to_string());
    assert!(text.verify(&words(&["lazy", "dog", "jumps"]), MAX_OVERLAP_RATIO_TENTHS, 15));
}

#[test]
fn verify_window_spans_lines() {
    let text = Text::new("a b\nc d".to_string());
    assert!(!text.verify(&words(&["b", "c"]), 7, MAX_OVERLAP_TOTAL));
    assert!(text.verify(&words(&["d", "a"]), 7, MAX_OVERLAP_TOTAL));
}

#[test]
fn verify_window_size_follows_ratio() {
    let text = Text::new("one two three four five six seven eight nine ten".to_string());
    // ten words: round(0.7 * 10) = 7 may repeat, windows of 8 are checked
    let cand = words(&["one", "two", "three", "four", "five", "six", "seven", "x", "y", "z"]);
    assert!(text.verify(&cand, 7, 15));
    let cand = words(&["one", "two", "three", "four", "five", "six", "seven", "eight", "y", "z"]);
    assert!(!text.verify(&cand, 7, 15));
    // a cap of 2 checks windows of 3
    let cand = words(&["x", "two", "three", "four", "y", "z", "w", "v", "u", "t"]);
    assert!(!text.verify(&cand, 7, 2));
    assert!(text.verify(&cand, 7, 15));
}

#[test]
fn zero_tries_give_empty_string() {
    let text = Text::new("a b c\nd e f".to_string());
    let opts = TextOptions { tries: 0, min_words: 0, max_words: 100 };
    assert_eq!(text.generate(opts), "");
    let opts = TextOptions { tries: -5, min_words: 0, max_words: 100 };
    assert_eq!(text.generate(opts), "");
}

#[test]
fn only_path_reproduces_corpus_and_is_rejected() {
    let text = Text::new("a b c".to_string());
    assert_eq!(text.generate(TextOptions::default()), "");
}

#[test]
fn empty_corpus_generates_empty_string() {
    let text = Text::new(String::new());
    assert_eq!(text.generate(TextOptions::default()), "");
}

#[test]
fn generated_text_uses_corpus_words() {
    let corpus = "the cat sat on the mat\nthe dog sat on the rug\na cat ran to the dog\nthe mat was on a rug";
    let text = Text::new(corpus.to_string());
    let known: Vec<&str> = corpus.split_whitespace().collect();
    for _ in 0..20 {
        let out = text.generate(TextOptions::default());
        for w in out.split(' ').filter(|w| !w.is_empty()) {
            assert!(known.contains(&w));
        }
        assert!(!corpus.split('\n').any(|l| !out.is_empty() && l.contains(out.as_str())));
    }
}

#[test]
fn length_limits_filter_candidates() {
    let text = Text::new("a b c d e f".to_string());
    let opts = TextOptions { tries: 50, min_words: 10, max_words: 100 };
    assert_eq!(text.generate(opts), "");
    let opts = TextOptions { tries: 50, min_words: 0, max_words: -1 };
    assert_eq!(text.generate(opts), "");
}

#[test]
fn default_options() {
    let o = TextOptions::default();
    assert_eq!(o.tries, 999);
    assert_eq!(o.min_words, 0);
    assert_eq!(o.max_words, 100);
}

#[test]
fn sentence_filter() {
    assert!(sentence_input("a plain line"));
    assert!(sentence_input("it's fine"));
    assert!(sentence_input("café au lait"));
    assert!(!sentence_input(""));
    assert!(!sentence_input("   \t "));
    assert!(!sentence_input("with (brackets)"));
    assert!(!sentence_input("with [brackets]"));
    assert!(!sentence_input("say \"hi\""));
    assert!(!sentence_input("'quoted"));
    assert!(!sentence_input("end quote'"));
    assert!(!sentence_input("a 'b c"));
}

#[test]
fn sentence_filter_transliterates_first() {
    assert!(!sentence_input("say \u{201c}hi\u{201d}"));
}

#[test]
fn rejected_lines_are_left_out_of_corpus() {
    let text = Text::new("a b\n(x y)\n\nc d".to_string());
    assert!(!text.verify(&words(&["b", "c"]), 7, 15));
    assert!(text.verify(&words(&["x", "y"]), 7, 15));
}

#[test]
fn join_uses_single_spaces() {
    assert_eq!(join(&words(&["a", "bc", "d"])), "a bc d");
    assert_eq!(join(&words(&["solo"])), "solo");
    assert_eq!(join(&Vec::new()), "");
}

#[test]
fn accept_applies_length_and_overlap_filters() {
    let text = Text::new("a b c\nd e f".to_string());
    let opts = TextOptions { tries: 1, min_words: 0, max_words: 100 };
    // a=0 b=1 c=2 d=3 e=4 f=5
    assert_eq!(text.accept(&vec![0, 4], &opts), Some("a e".to_string()));
    assert_eq!(text.accept(&vec![0, 1], &opts), None);
    assert_eq!(text.accept(&vec![], &opts), None);
    let short = TextOptions { tries: 1, min_words: 0, max_words: 1 };
    assert_eq!(text.accept(&vec![0, 4], &short), None);
    let long = TextOptions { tries: 1, min_words: 3, max_words: 100 };
    assert_eq!(text.accept(&vec![0, 4], &long), None);
    assert_eq!(text.accept(&vec![0, 4, 2], &long), Some("a e c".to_string()));
}

#[test]
fn kept_lines_tokenized_in_first_seen_order() {
    let text = Text::new("a b\n\n(x) y\nb c".to_string());
    let opts = TextOptions { tries: 1, min_words: 0, max_words: 100 };
    // a=0 b=1 c=2, then the sentinel words; x and y are never registered
    assert_eq!(text.accept(&vec![2, 0], &opts), Some("c a".to_string()));
    assert_eq!(text.accept(&vec![3, 4], &opts), Some("___BEGIN__ ___END__".to_string()));
    assert_eq!(text.accept(&vec![5, 0], &opts), Some(" a".to_string()));
}
