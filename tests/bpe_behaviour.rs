use bpe::{build_initial_vocab, decode, encode, get_stats, merge, most_frequent_pair, train, words_to_tokens};
use bpe::{Rule, Token, Vocab};

fn ids(tokens: &[Token]) -> Vec<usize> {
    tokens.iter().map(|t| t.tok_id).collect()
}

fn tok(s: &str, tok_id: usize, word_id: usize) -> Token {
    Token { slice: s.to_string(), tok_id, word_id }
}

#[test]
fn initial_vocab_in_first_encounter_order() {
    let words = ["low", "lower", "hard", "harder"];
    let vocab = build_initial_vocab(&words);
    let expected = ["l", "o", "w", "e", "r", "h", "a", "d"];
    assert_eq!(vocab.len(), 8);
    for (i, c) in expected.iter().enumerate() {
        assert_eq!(vocab.entries[i], c.to_string());
        assert_eq!(vocab.id_of(&c.to_string()), Some(i));
    }
}

#[test]
fn train_low_lower_hard_harder() {
    let words = ["low", "lower", "hard", "harder"];
    let (vocab, tree) = train(&words, 6);
    let expected: Vec<Rule> = vec![
        ((0, 1), 8),
        ((3, 4), 9),
        ((4, 7), 10),
        ((5, 6), 11),
        ((8, 2), 12),
        ((11, 10), 13),
    ];
    assert_eq!(tree, expected);
    assert_eq!(vocab.len(), 14);
    let merged = ["lo", "er", "rd", "ha", "low", "hard"];
    for (k, s) in merged.iter().enumerate() {
        assert_eq!(vocab.content_of(8 + k), Some(&s.to_string()));
    }
    let tokens = encode(&words, &vocab, &tree).unwrap();
    assert_eq!(ids(&tokens), vec![12, 12, 9, 13, 13, 9]);
    let low = encode(&["low"], &vocab, &tree).unwrap();
    assert_eq!(decode(&low), vec!["low".to_string()]);
}

#[test]
fn train_on_no_words() {
    let words: [&str; 0] = [];
    let (vocab, tree) = train(&words, 10);
    assert_eq!(vocab.len(), 0);
    assert!(tree.is_empty());
}

#[test]
fn train_on_one_letter() {
    let (vocab, tree) = train(&["a"], 10);
    assert_eq!(vocab.len(), 1);
    assert!(tree.is_empty());
}

#[test]
fn single_letter_words_never_fuse() {
    let words = ["a", "b", "a"];
    let (vocab, tree) = train(&words, 50);
    assert!(tree.is_empty());
    let tokens = encode(&words, &vocab, &tree).unwrap();
    assert_eq!(tokens.len(), 3);
    assert_eq!(decode(&tokens), vec!["a".to_string(), "b".to_string(), "a".to_string()]);
}

#[test]
fn budget_is_respected() {
    let words = ["low", "lower", "hard", "harder"];
    for n in 0..6 {
        let (vocab, tree) = train(&words, n);
        assert_eq!(tree.len(), n);
        assert_eq!(vocab.len(), 8 + n);
    }
}

#[test]
fn training_stops_when_every_word_is_one_token() {
    let words = ["low", "lower", "hard", "harder"];
    let (vocab, tree) = train(&words, 100);
    assert!(tree.len() < 100);
    let tokens = encode(&words, &vocab, &tree).unwrap();
    assert_eq!(tokens.len(), words.len());
    assert_eq!(ids(&tokens).len(), 4);
    for (i, t) in tokens.iter().enumerate() {
        assert_eq!(t.word_id, i);
        assert_eq!(t.slice, words[i]);
    }
}

#[test]
fn merge_tree_is_monotone() {
    let words = ["banana", "bandana", "ananas", "nab"];
    let (vocab, tree) = train(&words, 20);
    let base = build_initial_vocab(&words).len();
    let mut highest = base;
    for (k, ((l, r), new)) in tree.iter().enumerate() {
        assert_eq!(*new, base + k);
        assert!(*l < *new && *r < *new);
        assert!(*new >= highest);
        highest = *new;
    }
    assert_eq!(vocab.len(), base + tree.len());
}

#[test]
fn round_trip_for_any_budget() {
    let words = ["aaa", "aaaa", "abab", "ba", "aaaaa"];
    for n in 0..12 {
        let (vocab, tree) = train(&words, n);
        let tokens = encode(&words, &vocab, &tree).unwrap();
        let expected: Vec<String> = words.iter().map(|w| w.to_string()).collect();
        assert_eq!(decode(&tokens), expected);
    }
}

#[test]
fn re_encoding_gives_the_same_ids() {
    let words = ["low", "lower", "hard", "harder"];
    let (vocab, tree) = train(&words, 4);
    let first = encode(&words, &vocab, &tree).unwrap();
    let second = encode(&words, &vocab, &tree).unwrap();
    assert_eq!(ids(&first), ids(&second));
    let (vocab2, tree2) = train(&words, 4);
    assert_eq!(tree, tree2);
    assert_eq!(vocab.entries, vocab2.entries);
}

#[test]
fn ties_go_to_the_smallest_pair() {
    let (_, tree) = train(&["cd", "ab"], 1);
    assert_eq!(tree, vec![((0, 1), 4)]);
    let (_, tree) = train(&["ab", "ac"], 1);
    assert_eq!(tree, vec![((0, 1), 3)]);
}

#[test]
fn encode_rejects_an_unknown_character() {
    let (vocab, tree) = train(&["abc"], 2);
    assert!(encode(&["abz"], &vocab, &tree).is_none());
    assert!(encode(&["cab"], &vocab, &tree).is_some());
}

#[test]
fn encode_applies_rules_to_new_words() {
    let (vocab, tree) = train(&["abab"], 1);
    assert_eq!(tree, vec![((0, 1), 2)]);
    let tokens = encode(&["aab", "b"], &vocab, &tree).unwrap();
    assert_eq!(ids(&tokens), vec![0, 2, 1]);
    assert_eq!(tokens[1].slice, "ab");
}

#[test]
fn encode_of_no_words_is_empty() {
    let (vocab, tree) = train(&["ab"], 1);
    let words: [&str; 0] = [];
    assert!(encode(&words, &vocab, &tree).unwrap().is_empty());
}

#[test]
fn decode_of_no_tokens_is_empty() {
    assert!(decode(&[]).is_empty());
}

#[test]
fn decode_groups_by_word() {
    let tokens = vec![tok("ab", 3, 0), tok("c", 2, 0), tok("d", 4, 1), tok("e", 5, 2), tok("f", 6, 2)];
    assert_eq!(decode(&tokens), vec!["abc".to_string(), "d".to_string(), "ef".to_string()]);
}

#[test]
fn merge_fuses_without_overlap() {
    let tokens = vec![tok("a", 0, 0), tok("a", 0, 0), tok("a", 0, 0)];
    let merged = merge(&tokens, (0, 0), 1);
    assert_eq!(merged.len(), 2);
    assert_eq!(merged[0].slice, "aa");
    assert_eq!(merged[0].tok_id, 1);
    assert_eq!(merged[1].slice, "a");
    assert_eq!(merged[1].tok_id, 0);
}

#[test]
fn merge_skips_word_boundaries() {
    let tokens = vec![tok("a", 0, 0), tok("b", 1, 1), tok("a", 0, 1), tok("b", 1, 1)];
    let merged = merge(&tokens, (0, 1), 2);
    assert_eq!(ids(&merged), vec![0, 1, 2]);
    assert_eq!(merged[2].slice, "ab");
    assert_eq!(merged[2].word_id, 1);
}

#[test]
fn merge_of_empty_stream() {
    assert!(merge(&vec![], (0, 1), 2).is_empty());
}

#[test]
fn stats_count_only_same_word_pairs() {
    let tokens = vec![tok("a", 0, 0), tok("b", 1, 0), tok("a", 0, 1), tok("b", 1, 1), tok("a", 0, 1)];
    let mut stats = get_stats(&tokens);
    stats.sort();
    assert_eq!(stats, vec![((0, 1), 2), ((1, 0), 1)]);
    assert_eq!(most_frequent_pair(&tokens), Some((0, 1)));
    assert!(get_stats(&vec![tok("a", 0, 0)]).is_empty());
    assert_eq!(most_frequent_pair(&vec![tok("a", 0, 0), tok("b", 1, 1)]), None);
}

#[test]
fn words_to_tokens_tags_words() {
    let vocab = build_initial_vocab(&["ab", "b"]);
    let tokens = words_to_tokens(&["ab", "b"], &vocab).unwrap();
    assert_eq!(ids(&tokens), vec![0, 1, 1]);
    let words: Vec<usize> = tokens.iter().map(|t| t.word_id).collect();
    assert_eq!(words, vec![0, 0, 1]);
    assert!(words_to_tokens(&["c"], &vocab).is_none());
}

#[test]
fn multibyte_characters_are_single_tokens() {
    let words = ["été", "ét"];
    let (vocab, tree) = train(&words, 3);
    assert_eq!(build_initial_vocab(&words).len(), 2);
    let tokens = encode(&words, &vocab, &tree).unwrap();
    assert_eq!(decode(&tokens), vec!["été".to_string(), "ét".to_string()]);
}

#[test]
fn vocab_table_operations() {
    let mut vocab = Vocab::new();
    assert_eq!(vocab.insert("x".to_string()), 0);
    assert_eq!(vocab.insert("yz".to_string()), 1);
    assert_eq!(vocab.id_of(&"yz".to_string()), Some(1));
    assert_eq!(vocab.id_of(&"q".to_string()), None);
    assert_eq!(vocab.content_of(0), Some(&"x".to_string()));
    assert_eq!(vocab.content_of(2), None);
    assert_eq!(vocab.len(), 2);
}
