//! The compressed model image: round-trip fidelity and corrupt images.

use language_model::Bigram;
use language_model::LanguageModel;
use language_model::Trigram;
use language_model::Unigram;

fn lp(x: f64) -> i64 {
    (x * 1e9).round() as i64
}

fn test_model() -> LanguageModel {
    let symbols = vec!["a".to_string(), "b".to_string()];
    let unigrams = vec![
        Unigram { log_prob: lp(-0.6931472), child_offset: 0, child_count: 1 },
        Unigram { log_prob: lp(-0.6931472), child_offset: 1, child_count: 2 },
    ];
    let bigrams = vec![
        Bigram { dest_label: 1, log_prob: lp(-0.40546507), child_offset: 0, child_count: 2 },
        Bigram { dest_label: 0, log_prob: lp(-0.40546507), child_offset: 2, child_count: 1 },
        Bigram { dest_label: 1, log_prob: lp(-1.0986123), child_offset: 3, child_count: 1 },
    ];
    let trigrams = vec![
        Trigram { dest_label: 0, log_prob: lp(-0.6931472), suffix_ref: 1 },
        Trigram { dest_label: 1, log_prob: lp(-0.6931472), suffix_ref: 2 },
        Trigram { dest_label: 1, log_prob: lp(-0.6931472), suffix_ref: 0 },
        Trigram { dest_label: 0, log_prob: lp(0.0), suffix_ref: 1 },
    ];
    LanguageModel::new(symbols, unigrams, bigrams, trigrams)
}

#[test]
/// Convert the record collections to a model, write it to a compressed
/// image and load it back: the loaded model equals the one written.
fn test_convert_and_load_model() {
    let model = test_model();
    let image = model.write_image();
    println!("Loading language model from the image...");
    let loaded = LanguageModel::read_image(&image).unwrap();
    println!("Done loading");

    let correct_lm = test_model();
    assert!(loaded.equals(&correct_lm));
}

#[test]
/// The round trip keeps an empty model and multi-byte symbols alike.
fn test_round_trip_varied_models() {
    let empty = LanguageModel::new(vec![], vec![], vec![], vec![]);
    let image = empty.write_image();
    let loaded = LanguageModel::read_image(&image).unwrap();
    assert!(loaded.equals(&empty));

    let symbols = vec!["hello".to_string(), "wörld".to_string(), "こんにちは".to_string()];
    let unigrams = vec![
        Unigram { log_prob: lp(-1.0), child_offset: 0, child_count: 0 },
        Unigram { log_prob: lp(-2.5), child_offset: 0, child_count: 0 },
        Unigram { log_prob: lp(0.25), child_offset: 0, child_count: 0 },
    ];
    let model = LanguageModel::new(symbols, unigrams, vec![], vec![]);
    let image = model.write_image();
    let loaded = LanguageModel::read_image(&image).unwrap();
    assert!(loaded.equals(&model));
}

#[test]
/// The image is a real gzip stream and depends on the model alone.
fn test_image_compressed_and_deterministic() {
    let model = test_model();
    let image = model.write_image();
    // the gzip magic header
    assert_eq!(image[0], 0x1f);
    assert_eq!(image[1], 0x8b);
    // writing the same model twice gives the same bytes
    let again = test_model().write_image();
    assert_eq!(image, again);
}

#[test]
/// A corrupt or truncated image is rejected at load time.
fn test_corrupt_image_rejected() {
    // not a gzip stream at all
    let garbage: Vec<u8> = vec![0, 1, 2, 3, 4, 5, 6, 7, 8, 9];
    assert!(LanguageModel::read_image(&garbage).is_none());

    // an empty byte stream
    let empty: Vec<u8> = Vec::new();
    assert!(LanguageModel::read_image(&empty).is_none());

    // a valid image with its tail cut off
    let model = test_model();
    let mut image = model.write_image();
    let keep: usize = image.len() / 2;
    image.truncate(keep);
    assert!(LanguageModel::read_image(&image).is_none());
}

#[test]
/// Models that differ in any collection are told apart.
fn test_equals_distinguishes() {
    let a = test_model();
    let mut records_changed = test_model();
    records_changed.unigrams[0].log_prob += 1;
    assert!(!a.equals(&records_changed));

    let other_symbols = LanguageModel::new(
        vec!["a".to_string(), "c".to_string()],
        a.unigrams.clone(),
        a.bigrams.clone(),
        a.trigrams.clone(),
    );
    assert!(!a.equals(&other_symbols));
    assert!(a.equals(&test_model()));
}
