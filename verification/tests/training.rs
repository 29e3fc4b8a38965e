use bpe_trainer::engine::{apply_merge, byte_length, count_pair, initial_state, select_pair};
use bpe_trainer::token::clone_tokens;
use bpe_trainer::vocabulary::Vocabulary;
use bpe_trainer::{BPEEngine, MergeStep, Token, TrainingResult};

fn token(id: usize, value: &str) -> Token {
    Token { id, value: value.to_string(), byte_length: value.len() }
}

fn values(tokens: &[Token]) -> Vec<String> {
    tokens.iter().map(|t| t.value.clone()).collect()
}

fn joined(tokens: &[Token]) -> String {
    tokens.iter().map(|t| t.value.as_str()).collect()
}

fn train(text: &str, vocab_size: usize) -> TrainingResult {
    BPEEngine::new().train(text, vocab_size)
}

const SAMPLES: [&str; 8] = [
    "",
    "a",
    "aaaa",
    "aaabdaaabac",
    "abababab",
    "the cat sat on the mat",
    "héllo wörld héllo",
    "日本語日本語🙂🙂",
];

const TARGETS: [usize; 6] = [0, 1, 3, 6, 12, 256];

#[test]
fn empty_text_gives_single_empty_step() {
    let result = train("", 256);
    assert_eq!(result.final_tokens, vec![]);
    assert_eq!(result.merge_history.len(), 1);
    assert_eq!(result.merge_history[0].step_number, 0);
    assert_eq!(result.merge_history[0].tokens, vec![]);
    assert_eq!(result.merge_history[0].pair, (String::new(), String::new()));
    assert_eq!(result.merge_history[0].merged, "");
    assert_eq!(result.vocabulary, vec![]);
}

#[test]
fn empty_text_with_zero_target() {
    let result = train("", 0);
    assert_eq!(result.final_tokens, vec![]);
    assert_eq!(result.merge_history.len(), 1);
    assert_eq!(result.vocabulary, vec![]);
}

#[test]
fn target_at_or_below_distinct_characters_performs_no_merge() {
    for target in [0usize, 1, 2, 3, 4] {
        let result = train("aaabdaaabac", target);
        assert_eq!(result.merge_history.len(), 1);
        let expected: Vec<Token> = vec![
            token(0, "a"), token(0, "a"), token(0, "a"), token(1, "b"), token(2, "d"),
            token(0, "a"), token(0, "a"), token(0, "a"), token(1, "b"), token(0, "a"),
            token(3, "c"),
        ];
        assert_eq!(result.final_tokens, expected);
        assert_eq!(result.merge_history[0].tokens, expected);
        assert_eq!(
            result.vocabulary,
            vec![
                ("a".to_string(), 0),
                ("b".to_string(), 1),
                ("d".to_string(), 2),
                ("c".to_string(), 3)
            ]
        );
    }
}

#[test]
fn sample_text_first_merge() {
    let result = train("aaabdaaabac", 5);
    assert_eq!(result.merge_history.len(), 2);
    let step = &result.merge_history[1];
    assert_eq!(step.pair, ("a".to_string(), "a".to_string()));
    assert_eq!(step.merged, "aa");
    assert_eq!(step.step_number, 1);
    assert_eq!(
        step.tokens,
        vec![
            token(4, "aa"), token(0, "a"), token(1, "b"), token(2, "d"), token(4, "aa"),
            token(0, "a"), token(1, "b"), token(0, "a"), token(3, "c"),
        ]
    );
    assert_eq!(result.final_tokens, step.tokens);
    assert_eq!(result.vocabulary.len(), 5);
    assert_eq!(result.vocabulary[4], ("aa".to_string(), 4));
}

#[test]
fn sample_text_full_run() {
    let result = train("aaabdaaabac", 256);
    let merged: Vec<&str> = result.merge_history.iter().map(|s| s.merged.as_str()).collect();
    assert_eq!(
        merged,
        vec!["", "aa", "aaa", "aaab", "aaabd", "aaabdaaab", "aaabdaaaba", "aaabdaaabac"]
    );
    let pairs: Vec<(&str, &str)> =
        result.merge_history.iter().map(|s| (s.pair.0.as_str(), s.pair.1.as_str())).collect();
    assert_eq!(
        pairs,
        vec![
            ("", ""),
            ("a", "a"),
            ("aa", "a"),
            ("aaa", "b"),
            ("aaab", "d"),
            ("aaabd", "aaab"),
            ("aaabdaaab", "a"),
            ("aaabdaaaba", "c"),
        ]
    );
    let lengths: Vec<usize> = result.merge_history.iter().map(|s| s.tokens.len()).collect();
    assert_eq!(lengths, vec![11, 9, 7, 5, 4, 3, 2, 1]);
    assert_eq!(result.final_tokens, vec![token(10, "aaabdaaabac")]);
    let listed: Vec<(&str, usize)> =
        result.vocabulary.iter().map(|(v, id)| (v.as_str(), *id)).collect();
    assert_eq!(
        listed,
        vec![
            ("a", 0), ("b", 1), ("d", 2), ("c", 3), ("aa", 4), ("aaa", 5), ("aaab", 6),
            ("aaabd", 7), ("aaabdaaab", 8), ("aaabdaaaba", 9), ("aaabdaaabac", 10),
        ]
    );
    for step in &result.merge_history {
        assert_eq!(joined(&step.tokens), "aaabdaaabac");
    }
}

#[test]
fn sample_text_stops_at_target() {
    let result = train("aaabdaaabac", 6);
    assert_eq!(result.merge_history.len(), 3);
    assert_eq!(values(&result.final_tokens), vec!["aaa", "b", "d", "aaa", "b", "a", "c"]);
    assert_eq!(result.vocabulary.len(), 6);
}

#[test]
fn ties_go_to_the_leftmost_pair() {
    let result = train("abcd", 5);
    assert_eq!(result.merge_history[1].pair, ("a".to_string(), "b".to_string()));
    assert_eq!(values(&result.final_tokens), vec!["ab", "c", "d"]);
    let result = train("dcba", 5);
    assert_eq!(result.merge_history[1].pair, ("d".to_string(), "c".to_string()));
    let result = train("xyabab", 5);
    assert_eq!(result.merge_history[1].pair, ("a".to_string(), "b".to_string()));
    let result = train("xyxyabab", 6);
    assert_eq!(result.merge_history[1].pair, ("x".to_string(), "y".to_string()));
}

#[test]
fn overlapping_run_merges_once_per_pass() {
    let result = train("aaa", 2);
    assert_eq!(result.merge_history.len(), 2);
    assert_eq!(result.final_tokens, vec![token(1, "aa"), token(0, "a")]);
    let result = train("aaaaa", 2);
    assert_eq!(values(&result.final_tokens), vec!["aa", "aa", "a"]);
}

#[test]
fn single_character_text() {
    let result = train("a", 256);
    assert_eq!(result.merge_history.len(), 1);
    assert_eq!(result.final_tokens, vec![token(0, "a")]);
    assert_eq!(result.vocabulary, vec![("a".to_string(), 0)]);
}

#[test]
fn byte_lengths_follow_utf8() {
    let result = train("é日🙂a", 4);
    let lengths: Vec<usize> = result.final_tokens.iter().map(|t| t.byte_length).collect();
    assert_eq!(lengths, vec![2, 3, 4, 1]);
    let result = train("日本日本", 3);
    assert_eq!(result.final_tokens, vec![
        Token { id: 2, value: "日本".to_string(), byte_length: 6 },
        Token { id: 2, value: "日本".to_string(), byte_length: 6 },
    ]);
    assert_eq!(byte_length(&"héllo".to_string()), 6);
    assert_eq!(byte_length(&String::new()), 0);
}

#[test]
fn history_starts_with_the_character_segmentation() {
    for text in SAMPLES {
        let (_, initial) = initial_state(text);
        assert_eq!(initial.len(), text.chars().count());
        for target in TARGETS {
            let result = train(text, target);
            let first = &result.merge_history[0];
            assert_eq!(first.pair, (String::new(), String::new()));
            assert_eq!(first.merged, "");
            assert_eq!(first.step_number, 0);
            assert_eq!(first.tokens, initial);
            let chars: Vec<String> = text.chars().map(|c| c.to_string()).collect();
            assert_eq!(values(&first.tokens), chars);
        }
    }
}

#[test]
fn vocabulary_ids_count_up_from_zero() {
    for text in SAMPLES {
        for target in TARGETS {
            let result = train(text, target);
            for (i, (value, id)) in result.vocabulary.iter().enumerate() {
                assert_eq!(*id, i);
                for (other, _) in &result.vocabulary[..i] {
                    assert_ne!(other, value);
                }
            }
            let mut seen: Vec<String> = Vec::new();
            for c in text.chars() {
                if !seen.contains(&c.to_string()) {
                    seen.push(c.to_string());
                }
            }
            for step in &result.merge_history[1..] {
                if !seen.contains(&step.merged) {
                    seen.push(step.merged.clone());
                }
            }
            let listed: Vec<String> = result.vocabulary.iter().map(|(v, _)| v.clone()).collect();
            assert_eq!(listed, seen);
        }
    }
}

#[test]
fn tokens_carry_the_ids_of_the_vocabulary() {
    for text in SAMPLES {
        for target in TARGETS {
            let result = train(text, target);
            for step in &result.merge_history {
                for t in &step.tokens {
                    assert_eq!(result.vocabulary[t.id].0, t.value);
                    assert_eq!(t.byte_length, t.value.len());
                }
            }
        }
    }
}

#[test]
fn token_count_shrinks_with_every_merge() {
    for text in SAMPLES {
        for target in TARGETS {
            let result = train(text, target);
            for k in 1..result.merge_history.len() {
                let before = &result.merge_history[k - 1].tokens;
                let step = &result.merge_history[k];
                assert!(step.tokens.len() < before.len());
                let replaced = step.tokens.iter().filter(|t| t.value == step.merged).count()
                    - before.iter().filter(|t| t.value == step.merged).count();
                assert_eq!(before.len() - step.tokens.len(), replaced);
                assert_eq!(step.step_number, k);
                assert_eq!(step.merged, format!("{}{}", step.pair.0, step.pair.1));
            }
        }
    }
}

#[test]
fn merges_are_bounded() {
    for text in SAMPLES {
        let distinct = train(text, 0).vocabulary.len();
        for target in TARGETS {
            let result = train(text, target);
            let merges = result.merge_history.len() - 1;
            assert!(merges <= target.saturating_sub(distinct));
            assert!(merges <= text.chars().count().saturating_sub(1));
            assert_eq!(result.vocabulary.len(), distinct + merges);
            assert!(result.vocabulary.len() <= target.max(distinct));
            assert!(result.final_tokens.len() <= 1 || result.vocabulary.len() >= target);
        }
    }
}

#[test]
fn final_tokens_spell_the_text() {
    for text in SAMPLES {
        for target in TARGETS {
            let result = train(text, target);
            assert_eq!(joined(&result.final_tokens), text);
            for step in &result.merge_history {
                assert_eq!(joined(&step.tokens), text);
            }
            assert_eq!(&result.final_tokens, &result.merge_history.last().unwrap().tokens);
        }
    }
}

#[test]
fn every_merge_adds_one_new_value() {
    for text in SAMPLES {
        let result = train(text, 256);
        let distinct = train(text, 0).vocabulary.len();
        for k in 1..result.merge_history.len() {
            let step = &result.merge_history[k];
            assert_eq!(result.vocabulary[distinct + k - 1], (step.merged.clone(), distinct + k - 1));
            for earlier in &result.merge_history[..k] {
                assert_ne!(earlier.merged, step.merged);
            }
        }
    }
}

#[test]
fn ids_stay_with_values() {
    for text in SAMPLES {
        let result = train(text, 256);
        let all: Vec<&Token> = result.merge_history.iter().flat_map(|s| s.tokens.iter()).collect();
        for x in &all {
            for y in &all {
                assert_eq!(x.id == y.id, x.value == y.value);
            }
        }
    }
}

#[test]
fn training_is_deterministic() {
    for text in SAMPLES {
        assert_eq!(train(text, 12), BPEEngine::default().train(text, 12));
    }
}

#[test]
fn count_pair_counts_every_adjacent_position() {
    let (_, tokens) = initial_state("aaabdaaabac");
    assert_eq!(count_pair(&tokens, &"a".to_string(), &"a".to_string()), 4);
    assert_eq!(count_pair(&tokens, &"a".to_string(), &"b".to_string()), 2);
    assert_eq!(count_pair(&tokens, &"a".to_string(), &"c".to_string()), 1);
    assert_eq!(count_pair(&tokens, &"c".to_string(), &"a".to_string()), 0);
    let (_, single) = initial_state("a");
    assert_eq!(count_pair(&single, &"a".to_string(), &"a".to_string()), 0);
    assert_eq!(count_pair(&Vec::new(), &"a".to_string(), &"a".to_string()), 0);
}

#[test]
fn select_pair_prefers_frequency_then_position() {
    let (_, tokens) = initial_state("aaabdaaabac");
    assert_eq!(select_pair(&tokens), 0);
    let (_, tokens) = initial_state("xyabab");
    assert_eq!(select_pair(&tokens), 2);
    let (_, tokens) = initial_state("abcd");
    assert_eq!(select_pair(&tokens), 0);
    let (_, tokens) = initial_state("ab");
    assert_eq!(select_pair(&tokens), 0);
}

#[test]
fn apply_merge_replaces_without_overlap() {
    let (mut vocabulary, tokens) = initial_state("aaaba");
    let a = "a".to_string();
    let id = vocabulary.intern(&"aa".to_string());
    assert_eq!(id, 2);
    let merged = token(id, "aa");
    let out = apply_merge(&vocabulary, &tokens, &a, &a, &merged);
    assert_eq!(out, vec![token(2, "aa"), token(0, "a"), token(1, "b"), token(0, "a")]);
    let unchanged = apply_merge(&vocabulary, &tokens, &"b".to_string(), &"b".to_string(), &merged);
    assert_eq!(unchanged, tokens);
}

#[test]
fn initial_state_seeds_in_order_of_first_occurrence() {
    let (vocabulary, tokens) = initial_state("banana");
    assert_eq!(vocabulary.values, vec!["b", "a", "n"]);
    let ids: Vec<usize> = tokens.iter().map(|t| t.id).collect();
    assert_eq!(ids, vec![0, 1, 2, 1, 2, 1]);
    assert_eq!(
        vocabulary.entries(),
        vec![("b".to_string(), 0), ("a".to_string(), 1), ("n".to_string(), 2)]
    );
}

#[test]
fn vocabulary_interns_each_value_once() {
    let mut vocabulary = Vocabulary::new();
    assert_eq!(vocabulary.len(), 0);
    assert_eq!(vocabulary.find(&"x".to_string()), None);
    assert_eq!(vocabulary.intern(&"x".to_string()), 0);
    assert_eq!(vocabulary.intern(&"y".to_string()), 1);
    assert_eq!(vocabulary.intern(&"x".to_string()), 0);
    assert_eq!(vocabulary.len(), 2);
    assert_eq!(vocabulary.find(&"y".to_string()), Some(1));
    assert_eq!(vocabulary.entries(), vec![("x".to_string(), 0), ("y".to_string(), 1)]);
}

#[test]
fn clones_are_equal_to_their_source() {
    let result = train("abab", 3);
    let step: MergeStep = result.merge_history[1].clone();
    assert_eq!(step, result.merge_history[1]);
    assert_eq!(clone_tokens(&result.final_tokens), result.final_tokens);
    let t = token(7, "xyz");
    assert_eq!(t.clone(), t);
}
