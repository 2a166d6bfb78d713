//! The traversal state machine: transitions, backoff, and predictions.

use language_model::Bigram;
use language_model::LMContext;
use language_model::LMState;
use language_model::LanguageModel;
use language_model::Trigram;
use language_model::Unigram;

/// A log-probability in fixed-point nanonats.
fn lp(x: f64) -> i64 {
    (x * 1e9).round() as i64
}

fn uni(log_prob: f64, child_offset: u32, child_count: u16) -> Unigram {
    Unigram { log_prob: lp(log_prob), child_offset, child_count }
}

fn bi(dest_label: u32, log_prob: f64, child_offset: u32, child_count: u16) -> Bigram {
    Bigram { dest_label, log_prob: lp(log_prob), child_offset, child_count }
}

fn tri(dest_label: u32, log_prob: f64, suffix_ref: u32) -> Trigram {
    Trigram { dest_label, log_prob: lp(log_prob), suffix_ref }
}

/// The two-token test model (vocabulary `a`, `b`).
fn test_model() -> LanguageModel {
    let symbols = vec!["a".to_string(), "b".to_string()];
    let unigrams = vec![uni(-0.6931472, 0, 1), uni(-0.6931472, 1, 2)];
    let bigrams = vec![
        bi(1, -0.40546507, 0, 2),
        bi(0, -0.40546507, 2, 1),
        bi(1, -1.0986123, 3, 1),
    ];
    let trigrams = vec![
        tri(0, -0.6931472, 1),
        tri(1, -0.6931472, 2),
        tri(1, -0.6931472, 0),
        tri(0, 0.0, 1),
    ];
    let model = LanguageModel::new(symbols, unigrams, bigrams, trigrams);
    assert!(model.is_well_formed());
    model
}

fn get_test_state_no(state_no: usize) -> LMState {
    let last_processed_label: u32;
    let ngrams_offset: usize;
    let ngrams_no: usize;
    let context_len;

    match state_no {
        0 => {
            last_processed_label = 0;
            ngrams_offset = 0;
            ngrams_no = usize::MAX;
            context_len = LMContext::Zero
        }
        1 => {
            last_processed_label = 0;
            ngrams_offset = 0;
            ngrams_no = 1;
            context_len = LMContext::One
        }
        2 => {
            last_processed_label = 1;
            ngrams_offset = 1;
            ngrams_no = 2;
            context_len = LMContext::One
        }
        3 => {
            last_processed_label = 1;
            ngrams_offset = 0;
            ngrams_no = 2;
            context_len = LMContext::Two
        }
        4 => {
            last_processed_label = 0;
            ngrams_offset = 2;
            ngrams_no = 1;
            context_len = LMContext::Two
        }
        5 => {
            last_processed_label = 1;
            ngrams_offset = 3;
            ngrams_no = 1;
            context_len = LMContext::Two
        }
        _ => {
            println!("Asked for the invalid state no: {}", state_no);
            panic!()
        }
    }

    LMState {
        last_processed_label,
        ngrams_offset,
        ngrams_no,
        context_len,
    }
}

// Check if the two prediction lists are equal up to rounding
fn cmp(a: Vec<(String, i64)>, b: Vec<(&str, f64)>) -> bool {
    println!("len a: {}, len b: {}", a.len(), b.len());
    println!("a:");
    for (word, lpv) in &a {
        println!("  ({}, {})", word, *lpv as f64 / 1e9);
    }
    println!("b:");
    for &(word, lpv) in &b {
        println!("  ({}, {})", word, lpv);
    }

    if a.len() != b.len() {
        return false;
    }
    for idx in 0..a.len() {
        if a[idx].0 != b[idx].0 {
            return false;
        }
        if (a[idx].1 as f64 / 1e9 - b[idx].1).abs() > 0.00001 {
            return false;
        }
    }
    true
}

#[test]
/// Test transitioning to the next state (no backoff required)
fn test_valid_transitions() {
    let language_model = test_model();

    let mut start_state;
    let mut dest_state;
    let mut correct_state;

    // Transitions from the initial state (state 0)
    println!("Transitions from the initial state (state 0)");
    start_state = LMState::default();
    correct_state = get_test_state_no(0);
    println!("correct: {:?}", correct_state);
    println!("dest   : {:?}", start_state);
    assert!(start_state == correct_state);

    // Transition from state 0 to 1
    println!("Transition from state 0 to 1");
    dest_state = language_model.get_next_state(start_state, "a");
    correct_state = get_test_state_no(1);
    assert!(dest_state == correct_state);

    // Transition from state 0 to 2
    println!("Transition from state 0 to 2");
    dest_state = language_model.get_next_state(start_state, "b");
    correct_state = get_test_state_no(2);
    assert!(dest_state == correct_state);

    // Transition from state 1 to 3
    println!("Transition from state 1 to 3");
    start_state = get_test_state_no(1);
    dest_state = language_model.get_next_state(start_state, "b");
    correct_state = get_test_state_no(3);
    assert!(dest_state == correct_state);

    // Transition from state 2 to 4
    println!("Transition from state 2 to 4");
    start_state = get_test_state_no(2);
    dest_state = language_model.get_next_state(start_state, "a");
    correct_state = get_test_state_no(4);
    assert!(dest_state == correct_state);

    // Transition from state 2 to 5
    println!("Transition from state 2 to 5");
    start_state = get_test_state_no(2);
    dest_state = language_model.get_next_state(start_state, "b");
    correct_state = get_test_state_no(5);
    assert!(dest_state == correct_state);

    // Transition from state 3 to 4
    println!("Transition from state 3 to 4");
    start_state = get_test_state_no(3);
    dest_state = language_model.get_next_state(start_state, "a");
    correct_state = get_test_state_no(4);
    assert!(dest_state == correct_state);

    // Transition from state 3 to 5
    println!("Transition from state 3 to 5");
    start_state = get_test_state_no(3);
    dest_state = language_model.get_next_state(start_state, "b");
    correct_state = get_test_state_no(5);
    assert!(dest_state == correct_state);

    // Transition from state 4 to 3
    println!("Transition from state 4 to 3");
    start_state = get_test_state_no(4);
    dest_state = language_model.get_next_state(start_state, "b");
    correct_state = get_test_state_no(3);
    assert!(dest_state == correct_state);

    // Transition from state 5 to 4
    println!("Transition from state 5 to 4");
    start_state = get_test_state_no(5);
    dest_state = language_model.get_next_state(start_state, "a");
    correct_state = get_test_state_no(4);
    assert!(dest_state == correct_state);
}

#[test]
/// Test transitioning to the next state (backoff required)
fn test_invalid_transitions() {
    let language_model = test_model();

    let mut lm_state;
    let mut correct_state;

    // Start in state 1 and read input label "a"
    println!("Start in state 1 and read input label \"a\"");
    lm_state = get_test_state_no(1);
    lm_state = language_model.get_next_state(lm_state, "a");
    correct_state = get_test_state_no(1);
    assert!(lm_state == correct_state);

    // Start in state 4 and read input label "a"
    println!("Start in state 4 and read input label \"a\"");
    lm_state = get_test_state_no(4);
    lm_state = language_model.get_next_state(lm_state, "a");
    correct_state = get_test_state_no(1);
    assert!(lm_state == correct_state);

    // Start in state 5 and read input label "b"
    println!("Start in state 5 and read input label \"b\"");
    lm_state = get_test_state_no(5);
    lm_state = language_model.get_next_state(lm_state, "b");
    correct_state = get_test_state_no(5);
    assert!(lm_state == correct_state);
}

#[test]
/// Backoff to the state associated with the suffix
fn test_backoff() {
    let language_model = test_model();

    let mut lm_state;
    let mut correct_state;

    // Backoff from the initial state (state 0)
    println!("Backoff from the initial state (state 0)");
    correct_state = get_test_state_no(0);
    lm_state = language_model.backoff(get_test_state_no(0));
    assert!(lm_state == correct_state);

    // Backoff from state 1
    println!("Backoff from state 1");
    correct_state = get_test_state_no(0);
    lm_state = language_model.backoff(get_test_state_no(1));
    assert!(lm_state == correct_state);

    // Backoff from state 2
    println!("Backoff from state 2");
    correct_state = get_test_state_no(0);
    lm_state = language_model.backoff(get_test_state_no(2));
    assert!(lm_state == correct_state);

    // Backoff from state 3
    println!("Backoff from state 3");
    correct_state = get_test_state_no(2);
    lm_state = language_model.backoff(get_test_state_no(3));
    assert!(lm_state == correct_state);

    // Backoff from state 4
    println!("Backoff from state 4");
    correct_state = get_test_state_no(1);
    lm_state = language_model.backoff(get_test_state_no(4));
    assert!(lm_state == correct_state);

    // Backoff from state 5
    println!("Backoff from state 5");
    correct_state = get_test_state_no(2);
    lm_state = language_model.backoff(get_test_state_no(5));
    assert!(lm_state == correct_state);
}

#[test]
/// Test transitions, backoffs and predictions
fn test_transitions_and_backoffs() {
    let language_model = test_model();

    let mut predictions;
    let mut lm_state;
    let mut correct_prediction;
    let mut correct_state;

    // Start in initial state
    lm_state = LMState::default();
    correct_state = LMState {
        last_processed_label: 0,
        ngrams_offset: 0,
        ngrams_no: usize::MAX,
        context_len: LMContext::Zero,
    };
    assert!(lm_state == correct_state);
    predictions = language_model.predict(lm_state, 10);
    correct_prediction = vec![("a", -0.6931472), ("b", -0.6931472)];
    assert!(cmp(predictions, correct_prediction));
    println!("Initial state okay");

    // Transition to state 1
    lm_state = language_model.get_next_state(lm_state, "a");
    correct_state = LMState {
        last_processed_label: 0,
        ngrams_offset: 0,
        ngrams_no: 1,
        context_len: LMContext::One,
    };
    assert!(lm_state == correct_state);
    predictions = language_model.predict(lm_state, 10);
    correct_prediction = vec![("b", -0.40546507), ("a", -1.60943796)];
    assert!(cmp(predictions, correct_prediction));
    println!("State 1 okay");

    // Transition to state 3
    lm_state = language_model.get_next_state(lm_state, "b");
    correct_state = LMState {
        last_processed_label: 1,
        ngrams_offset: 0,
        ngrams_no: 2,
        context_len: LMContext::Two,
    };
    assert!(lm_state == correct_state);
    predictions = language_model.predict(lm_state, 10);
    correct_prediction = vec![("a", -0.6931472), ("b", -0.6931472)];
    assert!(cmp(predictions, correct_prediction));
    println!("State 3 okay");

    // Transition to state 5
    lm_state = language_model.get_next_state(lm_state, "b");
    correct_state = LMState {
        last_processed_label: 1,
        ngrams_offset: 3,
        ngrams_no: 1,
        context_len: LMContext::Two,
    };
    assert!(lm_state == correct_state);
    predictions = language_model.predict(lm_state, 10);
    correct_prediction = vec![("a", 0.0), ("b", -2.01490306)];
    assert!(cmp(predictions, correct_prediction));
    println!("State 5 okay");

    // Backoff to state 2
    lm_state = language_model.backoff(lm_state);
    correct_state = LMState {
        last_processed_label: 1,
        ngrams_offset: 1,
        ngrams_no: 2,
        context_len: LMContext::One,
    };
    assert!(lm_state == correct_state);
    predictions = language_model.predict(lm_state, 10);
    correct_prediction = vec![("a", -0.40546507), ("b", -1.0986123)];
    assert!(cmp(predictions, correct_prediction));
    println!("Backoff okay");
}

#[test]
/// An out-of-vocabulary token resets every context to the initial state.
fn test_unknown_token_resets() {
    let language_model = test_model();
    for no in 0..6 {
        let s = language_model.get_next_state(get_test_state_no(no), "zzz");
        assert!(s == LMState::default());
    }
    // the empty string is out of vocabulary too
    let s = language_model.get_next_state(get_test_state_no(3), "");
    assert!(s == LMState::default());
}

#[test]
/// `predict` returns min(k, vocabulary size) candidates from every state.
fn test_prediction_cardinality() {
    let language_model = test_model();
    for no in 0..6 {
        for k in 1..5 {
            let predictions = language_model.predict(get_test_state_no(no), k);
            assert_eq!(predictions.len(), k.min(2));
        }
    }
}

#[test]
/// A label found in the order-3 run keeps its order-3 log-probability: in
/// state 5 the trigram gives `a` probability 0.0, and the order-2 fallback
/// value for `a` (-0.40546507 plus the backoff penalty) never overwrites it.
fn test_order_priority() {
    let language_model = test_model();
    let predictions = language_model.predict(get_test_state_no(5), 10);
    assert_eq!(predictions[0].0, "a");
    assert_eq!(predictions[0].1, 0);
}

#[test]
/// Repeated backoff always reaches the initial state and stays there.
fn test_backoff_reaches_initial() {
    let language_model = test_model();
    for no in 0..6 {
        let mut s = get_test_state_no(no);
        s = language_model.backoff(s);
        s = language_model.backoff(s);
        s = language_model.backoff(s);
        assert!(s == LMState::default());
    }
}
