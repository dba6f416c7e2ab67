use std::collections::HashMap;
use wordle_generator::{Seed, Wordle, WordleError};

/// A deterministic stand-in word list of `n` distinct items.
fn make_words(n: usize) -> Vec<String> {
    (0..n).map(|i| format!("w{:05}", i)).collect()
}

#[test]
fn first_window() {
    let seed: Seed = [0; 32];
    let words = make_words(400);
    let mut wordle = Wordle::from_seed(words.clone(), 365, seed).unwrap();

    let picks = vec![
        wordle.get(0),
        wordle.get(1),
        wordle.get(2),
        wordle.get(246),
        wordle.get(364),
    ];
    for pick in &picks {
        assert!(words.contains(pick));
    }
    for i in 0..picks.len() {
        for j in 0..i {
            assert_ne!(picks[i], picks[j]);
        }
    }

    // The next window re-derives its keys, so its opening days read
    // differently from the first window's.
    let opening0: Vec<String> = (0..3).map(|day| wordle.get(day)).collect();
    let opening1: Vec<String> = (365..368).map(|day| wordle.get(day)).collect();
    assert_ne!(opening0, opening1);
}

#[test]
fn same_seed() {
    let seed: Seed = [0xF0; 32];
    let other_seed = seed.clone();
    let words = make_words(300);
    let mut first = Wordle::from_seed(words.clone(), 200, seed).unwrap();
    let mut second = Wordle::from_seed(words, 200, other_seed).unwrap();

    assert_eq!(first.get(0), second.get(0));
    assert_eq!(first.get(1), second.get(1));
    assert_eq!(first.get(2349234), second.get(2349234));
}

#[test]
fn different_seed() {
    let seed: Seed = [0; 32];
    let other_seed: Seed = [1; 32];
    let words = make_words(5757);
    let mut first = Wordle::from_seed(words.clone(), 365, seed).unwrap();
    let mut second = Wordle::from_seed(words, 365, other_seed).unwrap();

    assert_ne!(first.get(0), second.get(0));
    assert_ne!(first.get(434484), second.get(434484));
}

#[test]
fn change_windows() {
    let seed: Seed = [0xF0; 32];
    let words = make_words(50);
    let mut wordle = Wordle::from_seed(words.clone(), 50, seed).unwrap();

    let window0: Vec<String> = (0..50).map(|day| wordle.get(day)).collect();
    let window1: Vec<String> = (50..100).map(|day| wordle.get(day)).collect();

    // Each window runs through every word once ...
    let mut sorted0 = window0.clone();
    let mut sorted1 = window1.clone();
    sorted0.sort();
    sorted1.sort();
    let mut all = words.clone();
    all.sort();
    assert_eq!(sorted0, all);
    assert_eq!(sorted1, all);
    // ... but under freshly derived keys, so the orders disagree.
    assert_ne!(window0, window1);

    // Days far into later windows still pick valid words.
    let words2 = make_words(400);
    let mut far = Wordle::from_seed(words2.clone(), 365, seed).unwrap();
    for day in [0, 365, 429, 730, 14556] {
        assert!(words2.contains(&far.get(day)));
    }
}

#[test]
fn all_words_before_new_start() {
    let seed: Seed = [0xAB; 32];
    let words = make_words(5757);
    let window_len = words.len() as u64;
    let mut wordle = Wordle::from_seed(words.clone(), window_len, seed).unwrap();

    let mut occurrences = HashMap::new();
    for i in 1..=5 {
        for day in 0..words.len() as u64 {
            let word = wordle.get(day);
            let entry = occurrences.entry(word).or_insert(0);
            *entry += 1;
        }

        assert_eq!(occurrences.len(), words.len());
        assert!(occurrences.values().all(|&x| x == i));
    }
}

#[test]
fn single_item() {
    let seed: Seed = [3; 32];
    let words = vec![String::from("only")];
    let mut wordle = Wordle::from_seed(words, 1, seed).unwrap();
    assert_eq!(wordle.get(0), "only");
    assert_eq!(wordle.get(5), "only");
    assert_eq!(wordle.get(123456789), "only");
}

#[test]
fn repeated_queries_agree() {
    let seed: Seed = [9; 32];
    let words = make_words(30);
    let mut wordle = Wordle::from_seed(words, 30, seed).unwrap();
    let first = wordle.get(7);
    // Querying other days, in any order, never disturbs day 7's answer.
    let _ = wordle.get(29);
    let _ = wordle.get(0);
    let _ = wordle.get(700);
    assert_eq!(wordle.get(7), first);
    assert_eq!(wordle.get(7), first);
}

#[test]
fn construction_errors() {
    let seed: Seed = [0; 32];
    assert_eq!(
        Wordle::from_seed(Vec::new(), 5, seed).map(|_| ()),
        Err(WordleError::EmptyItemList)
    );
    assert_eq!(
        Wordle::from_seed(make_words(3), 0, seed).map(|_| ()),
        Err(WordleError::ZeroWindowLength)
    );
    assert_eq!(
        Wordle::new(Vec::new(), 5).map(|_| ()),
        Err(WordleError::EmptyItemList)
    );
    assert_eq!(
        Wordle::new(make_words(3), 0).map(|_| ()),
        Err(WordleError::ZeroWindowLength)
    );
}

#[test]
fn random_seed_construction() {
    let words = make_words(10);
    let mut wordle = Wordle::new(words.clone(), 10).unwrap();
    let pick = wordle.get(3);
    assert!(words.contains(&pick));
}
