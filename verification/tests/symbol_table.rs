//! The symbol table and the well-formedness audit.

use language_model::Bigram;
use language_model::LanguageModel;
use language_model::SymbolTable;
use language_model::Trigram;
use language_model::Unigram;

#[test]
/// Labels are dense insertion indices; a repeated token keeps its first.
fn test_symbol_table_labels() {
    let mut table = SymbolTable::new();
    assert_eq!(table.len(), 0);
    assert!(table.insert("the".to_string()));
    assert!(table.insert("cat".to_string()));
    assert!(!table.insert("the".to_string()));
    assert!(table.insert("sat".to_string()));
    assert_eq!(table.len(), 3);
    assert_eq!(table.label_of("the"), Some(0));
    assert_eq!(table.label_of("cat"), Some(1));
    assert_eq!(table.label_of("sat"), Some(2));
    assert_eq!(table.label_of("dog"), None);
    assert_eq!(table.token_of(0), "the");
    assert_eq!(table.token_of(1), "cat");
    assert_eq!(table.token_of(2), "sat");
    let all = table.to_vec();
    assert_eq!(all, vec!["the".to_string(), "cat".to_string(), "sat".to_string()]);
}

#[test]
/// Construction deduplicates the symbol list in first-seen order.
fn test_model_construction_dedups() {
    let symbols = vec![
        "b".to_string(),
        "a".to_string(),
        "b".to_string(),
        "c".to_string(),
        "a".to_string(),
    ];
    let model = LanguageModel::new(symbols, vec![], vec![], vec![]);
    assert_eq!(model.symt.label_of("b"), Some(0));
    assert_eq!(model.symt.label_of("a"), Some(1));
    assert_eq!(model.symt.label_of("c"), Some(2));
    assert_eq!(model.symt.len(), 3);
}

#[test]
/// The audit accepts a well-formed model and rejects broken invariants.
fn test_is_well_formed() {
    let symbols = vec!["a".to_string(), "b".to_string()];
    let unigrams = vec![
        Unigram { log_prob: -693147180, child_offset: 0, child_count: 2 },
        Unigram { log_prob: -693147180, child_offset: 2, child_count: 0 },
    ];
    let bigrams = vec![
        Bigram { dest_label: 0, log_prob: -1, child_offset: 0, child_count: 1 },
        Bigram { dest_label: 1, log_prob: -2, child_offset: 1, child_count: 0 },
    ];
    let trigrams = vec![Trigram { dest_label: 1, log_prob: -3, suffix_ref: 1 }];
    let good = LanguageModel::new(
        symbols.clone(),
        unigrams.clone(),
        bigrams.clone(),
        trigrams.clone(),
    );
    assert!(good.is_well_formed());

    // a bigram run that is not ascending by destination label
    let unsorted = LanguageModel::new(
        symbols.clone(),
        vec![
            Unigram { log_prob: -1, child_offset: 0, child_count: 2 },
            Unigram { log_prob: -1, child_offset: 2, child_count: 0 },
        ],
        vec![
            Bigram { dest_label: 1, log_prob: -1, child_offset: 0, child_count: 0 },
            Bigram { dest_label: 0, log_prob: -2, child_offset: 0, child_count: 0 },
        ],
        vec![],
    );
    assert!(!unsorted.is_well_formed());

    // a child range that runs past the next array
    let out_of_range = LanguageModel::new(
        symbols.clone(),
        vec![
            Unigram { log_prob: -1, child_offset: 0, child_count: 5 },
            Unigram { log_prob: -1, child_offset: 0, child_count: 0 },
        ],
        vec![],
        vec![],
    );
    assert!(!out_of_range.is_well_formed());

    // a destination label outside the vocabulary
    let bad_label = LanguageModel::new(
        symbols.clone(),
        vec![
            Unigram { log_prob: -1, child_offset: 0, child_count: 0 },
            Unigram { log_prob: -1, child_offset: 0, child_count: 0 },
        ],
        vec![],
        vec![Trigram { dest_label: 7, log_prob: -1, suffix_ref: 0 }],
    );
    assert!(!bad_label.is_well_formed());

    // one unigram per vocabulary token is required
    let missing_unigram = LanguageModel::new(symbols, vec![], vec![], vec![]);
    assert!(!missing_unigram.is_well_formed());
}
