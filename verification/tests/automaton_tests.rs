use automaton::generator::{build_remaining, intersect_words, Generator};
use automaton::model::{Automaton, ConfigError, State, Transition};
use automaton::ops::{generate, intersect, match_word, union};

/// The automaton accepting {"ac", "abc", "abbc"}: states {0 initial,
/// 1, 2 terminal}, edges 0->1 'a' (capacity 1), 1->1 'b' (capacity 2),
/// 1->2 'c' (capacity 1).
fn automaton_a() -> Automaton {
    let states = vec![
        State::new(true, false, 0),
        State::new(false, false, 1),
        State::new(false, true, 2),
    ];
    let mut matrix = vec![
        vec![Transition::e(), Transition::e(), Transition::e()],
        vec![Transition::e(), Transition::e(), Transition::e()],
        vec![Transition::e(), Transition::e(), Transition::e()],
    ];
    matrix[0][1] = Transition::new('a', 1);
    matrix[1][1] = Transition::new('b', 2);
    matrix[1][2] = Transition::new('c', 1);
    Automaton::new(states, matrix).unwrap()
}

/// The automaton accepting {"abc", "ad"}: a chain 0 -'a'-> 1 -'b'-> 2
/// -'c'-> 3 with a shortcut 1 -'d'-> 3, state 3 terminal.
fn automaton_b() -> Automaton {
    let states = vec![
        State::new(true, false, 0),
        State::new(false, false, 1),
        State::new(false, false, 2),
        State::new(false, true, 3),
    ];
    let mut matrix = vec![
        vec![Transition::e(), Transition::e(), Transition::e(), Transition::e()],
        vec![Transition::e(), Transition::e(), Transition::e(), Transition::e()],
        vec![Transition::e(), Transition::e(), Transition::e(), Transition::e()],
        vec![Transition::e(), Transition::e(), Transition::e(), Transition::e()],
    ];
    matrix[0][1] = Transition::new('a', 1);
    matrix[1][2] = Transition::new('b', 1);
    matrix[2][3] = Transition::new('c', 1);
    matrix[1][3] = Transition::new('d', 1);
    Automaton::new(states, matrix).unwrap()
}

fn as_sorted(words: &[String]) -> Vec<String> {
    let mut v: Vec<String> = words.to_vec();
    v.sort();
    v
}

#[test]
fn generate_scenario_words() {
    let a = automaton_a();
    let start = a.initial_index();
    let words = generate(&a, start, 10).unwrap();
    assert_eq!(as_sorted(&words), vec!["abbc".to_string(), "abc".to_string(), "ac".to_string()]);
}

#[test]
fn generate_has_no_duplicates() {
    let a = automaton_a();
    let words = generate(&a, 0, 10).unwrap();
    for i in 0..words.len() {
        for j in 0..words.len() {
            if i != j {
                assert_ne!(words[i], words[j]);
            }
        }
    }
}

#[test]
fn generate_respects_length_bound() {
    let a = automaton_a();
    let words = generate(&a, 0, 3).unwrap();
    assert_eq!(as_sorted(&words), vec!["abc".to_string(), "ac".to_string()]);
    let words = generate(&a, 0, 2).unwrap();
    assert_eq!(words, vec!["ac".to_string()]);
}

#[test]
fn generate_from_another_start() {
    let a = automaton_a();
    let words = generate(&a, 1, 10).unwrap();
    assert_eq!(as_sorted(&words), vec!["bbc".to_string(), "bc".to_string(), "c".to_string()]);
}

#[test]
fn generate_rejects_zero_bound() {
    let a = automaton_a();
    assert_eq!(generate(&a, 0, 0).unwrap_err(), ConfigError::InvalidBound);
}

#[test]
fn generate_rejects_start_out_of_range() {
    let a = automaton_a();
    assert_eq!(generate(&a, 3, 10).unwrap_err(), ConfigError::StartOutOfRange);
}

#[test]
fn every_generated_word_is_matched() {
    let a = automaton_a();
    let words = generate(&a, a.initial_index(), 10).unwrap();
    assert!(!words.is_empty());
    for w in &words {
        let (found, _) = match_word(&a, w.as_str());
        assert!(found, "generated word {} was not matched", w);
    }
}

#[test]
fn accepted_short_words_are_generated() {
    let a = automaton_a();
    let words = generate(&a, a.initial_index(), 4).unwrap();
    for accepted in ["ac", "abc", "abbc"] {
        assert!(words.iter().any(|w| w == accepted), "{} missing", accepted);
    }
}

#[test]
fn match_scenario_path() {
    let a = automaton_a();
    let (found, path) = match_word(&a, "abc");
    assert!(found);
    assert_eq!(path, vec![0, 1, 1, 2]);
}

#[test]
fn match_rejects_word_over_capacity() {
    let a = automaton_a();
    let (found, _) = match_word(&a, "abbbc");
    assert!(!found);
}

#[test]
fn match_accepts_capacity_limit_word() {
    let a = automaton_a();
    let (found, path) = match_word(&a, "abbc");
    assert!(found);
    assert_eq!(path, vec![0, 1, 1, 1, 2]);
}

#[test]
fn match_rejects_foreign_word() {
    let a = automaton_a();
    let (found, path) = match_word(&a, "ab");
    assert!(!found);
    assert_eq!(path, vec![0]);
}

#[test]
fn empty_word_needs_terminal_initial_state() {
    let a = automaton_a();
    let (found, _) = match_word(&a, "");
    assert!(!found);

    let states = vec![State::new(true, true, 0)];
    let matrix = vec![vec![Transition::e()]];
    let t = Automaton::new(states, matrix).unwrap();
    let (found, path) = match_word(&t, "");
    assert!(found);
    assert_eq!(path, vec![0]);
    let words = generate(&t, 0, 5).unwrap();
    assert_eq!(words, vec![String::new()]);
}

#[test]
fn intersect_scenario() {
    let a = automaton_a();
    let b = automaton_b();
    let words = intersect(&a, &b, 10).unwrap();
    assert_eq!(words, vec!["abc".to_string()]);
}

#[test]
fn intersect_is_subset_of_both_generations() {
    let a = automaton_a();
    let b = automaton_b();
    let words = intersect(&a, &b, 10).unwrap();
    let gen_a = generate(&a, a.initial_index(), 10).unwrap();
    let gen_b = generate(&b, b.initial_index(), 10).unwrap();
    for w in &words {
        assert!(gen_a.contains(w));
        assert!(gen_b.contains(w));
    }
}

#[test]
fn intersect_rejects_zero_bound() {
    let a = automaton_a();
    let b = automaton_b();
    assert_eq!(intersect(&a, &b, 0).unwrap_err(), ConfigError::InvalidBound);
}

#[test]
fn union_is_both_generations_concatenated() {
    let a = automaton_a();
    let b = automaton_b();
    let words = union(&a, &b, 10).unwrap();
    let gen_a = generate(&a, a.initial_index(), 10).unwrap();
    let gen_b = generate(&b, b.initial_index(), 10).unwrap();
    let mut expected = gen_a.clone();
    expected.extend(gen_b.clone());
    assert_eq!(words, expected);
    // a word both accept appears twice
    assert_eq!(words.iter().filter(|w| w.as_str() == "abc").count(), 2);
}

#[test]
fn union_rejects_zero_bound() {
    let a = automaton_a();
    let b = automaton_b();
    assert_eq!(union(&a, &b, 0).unwrap_err(), ConfigError::InvalidBound);
}

#[test]
fn shared_labels_backtrack_and_deduplicate() {
    // two edges out of the initial state carry the same label: one leads
    // to a dead end, the other to a terminal state
    let states = vec![
        State::new(true, false, 0),
        State::new(false, false, 1),
        State::new(false, true, 2),
    ];
    let mut matrix = vec![
        vec![Transition::e(), Transition::e(), Transition::e()],
        vec![Transition::e(), Transition::e(), Transition::e()],
        vec![Transition::e(), Transition::e(), Transition::e()],
    ];
    matrix[0][1] = Transition::new('a', 1);
    matrix[0][2] = Transition::new('a', 1);
    matrix[1][2] = Transition::new('b', 1);
    let a = Automaton::new(states, matrix).unwrap();

    // the dead-end branch is tried first and rolled back off the path
    let (found, path) = match_word(&a, "a");
    assert!(found);
    assert_eq!(path, vec![0, 2]);

    // "a" is reachable along both edges but listed once
    let words = generate(&a, 0, 5).unwrap();
    assert_eq!(as_sorted(&words), vec!["a".to_string(), "ab".to_string()]);
}

#[test]
fn construction_rejects_non_square_matrix() {
    let states = vec![State::new(true, true, 0), State::new(false, false, 1)];
    let matrix = vec![vec![Transition::e(), Transition::e()]];
    assert_eq!(
        Automaton::new(states, matrix).unwrap_err(),
        ConfigError::DimensionMismatch
    );

    let states = vec![State::new(true, true, 0)];
    let matrix = vec![vec![Transition::e(), Transition::e()]];
    assert_eq!(
        Automaton::new(states, matrix).unwrap_err(),
        ConfigError::DimensionMismatch
    );
}

#[test]
fn construction_rejects_misnumbered_states() {
    let states = vec![State::new(true, true, 1)];
    let matrix = vec![vec![Transition::e()]];
    assert_eq!(
        Automaton::new(states, matrix).unwrap_err(),
        ConfigError::StateIndexMismatch
    );
}

#[test]
fn construction_rejects_wrong_initial_count() {
    // no initial state at all
    let states = vec![State::new(false, true, 0)];
    let matrix = vec![vec![Transition::e()]];
    assert_eq!(
        Automaton::new(states, matrix).unwrap_err(),
        ConfigError::InitialStateCount
    );

    // two initial states
    let states = vec![State::new(true, true, 0), State::new(true, false, 1)];
    let matrix = vec![
        vec![Transition::e(), Transition::e()],
        vec![Transition::e(), Transition::e()],
    ];
    assert_eq!(
        Automaton::new(states, matrix).unwrap_err(),
        ConfigError::InitialStateCount
    );

    // no state at all, hence no initial one
    let states: Vec<State> = vec![];
    let matrix: Vec<Vec<Transition>> = vec![];
    assert_eq!(
        Automaton::new(states, matrix).unwrap_err(),
        ConfigError::InitialStateCount
    );
}

#[test]
fn generator_lists_words_directly() {
    let a = automaton_a();
    let generator = Generator::new(&a.states);
    let remaining = build_remaining(&a.matrix);
    let mut words: Vec<String> = Vec::new();
    generator.list_all_words(&mut words, 0, "", &a.matrix, &remaining, 10);
    assert_eq!(as_sorted(&words), vec!["abbc".to_string(), "abc".to_string(), "ac".to_string()]);
}

#[test]
fn generator_matches_word_directly() {
    let a = automaton_a();
    let generator = Generator::new(&a.states);
    let remaining = build_remaining(&a.matrix);
    let mut path: Vec<usize> = vec![0];
    let found = generator.match_word_path("ac", 0, 0, &a.matrix, &remaining, &mut path);
    assert!(found);
    assert_eq!(path, vec![0, 1, 2]);
}

/// A second matrix over automaton A's states, accepting {"ac"} alone.
fn second_matrix() -> Vec<Vec<Transition>> {
    let mut matrix = vec![
        vec![Transition::e(), Transition::e(), Transition::e()],
        vec![Transition::e(), Transition::e(), Transition::e()],
        vec![Transition::e(), Transition::e(), Transition::e()],
    ];
    matrix[0][1] = Transition::new('a', 1);
    matrix[1][2] = Transition::new('c', 1);
    matrix
}

#[test]
fn generator_union_over_shared_states() {
    let a = automaton_a();
    let matrix_2 = second_matrix();
    let generator = Generator::new(&a.states);
    let mut words: Vec<String> = Vec::new();
    generator.union(&mut words, &a.matrix, &matrix_2, 10);
    assert_eq!(words.len(), 4);
    assert_eq!(words.iter().filter(|w| w.as_str() == "ac").count(), 2);
    for w in ["ac", "abc", "abbc"] {
        assert!(words.iter().any(|x| x == w));
    }
}

#[test]
fn generator_inter_over_shared_states() {
    let a = automaton_a();
    let matrix_2 = second_matrix();
    let generator = Generator::new(&a.states);
    let mut words: Vec<String> = Vec::new();
    generator.inter(&mut words, &a.matrix, &matrix_2, 10);
    assert_eq!(words, vec!["ac".to_string()]);
}

#[test]
fn intersect_words_deduplicates() {
    let left = vec!["x".to_string(), "y".to_string(), "z".to_string()];
    let right = vec!["z".to_string(), "x".to_string(), "w".to_string()];
    let both = intersect_words(&left, &right);
    assert_eq!(as_sorted(&both), vec!["x".to_string(), "z".to_string()]);
}
