//! A compact statistical trigram language model with stupid backoff.
//!
//! The model is a static trie encoded as three flat record arrays
//! (unigrams, bigrams, trigrams) addressed by offset/count ranges, plus a
//! symbol table mapping token strings to dense integer labels.  Queries are
//! pure: `get_next_state` folds one observed token into the traversal state
//! and `predict` ranks candidate next tokens by log-probability, backing off
//! to shorter contexts when the richer context yields too few candidates.
//!
//! Log-probabilities are held in fixed-point form: an `i64` counts units of
//! 10^-9 in the natural-log domain (see [`state::LOG_PROB_SCALE`]).

pub mod codec;
pub mod image;
pub mod model;
pub mod predict;
pub mod rank;
pub mod search;
pub mod state;
pub mod symt;

pub use model::Bigram;
pub use model::LanguageModel;
pub use model::Trigram;
pub use model::Unigram;
pub use state::LMContext;
pub use state::LMState;
pub use symt::SymbolTable;
