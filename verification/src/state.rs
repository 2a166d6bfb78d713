//! Traversal state of the language model.
//!
//! A state describes where in the trie the machine currently stands: the
//! most recently processed label, the record range holding the outgoing
//! transitions, and how many trailing tokens of history are encoded.

use vstd::prelude::*;

verus! {

/// Fixed-point scale of every log-probability in the model: an `i64`
/// log-probability counts units of 10^-9 in the natural-log domain.
pub const LOG_PROB_SCALE: i64 = 1_000_000_000;

/// ln(0.4), the stupid-backoff discount, in units of [`LOG_PROB_SCALE`].
/// Applied additively per backoff hop during prediction.
pub const BACKOFF_WEIGHT: i64 = -916_290_732;

/// Largest magnitude a stored log-probability may have.  Keeps the sum of a
/// log-probability and any backoff penalty inside the `i64` range.
pub const LOG_PROB_LIMIT: i64 = 9_000_000_000_000_000_000;

/// How many trailing tokens of history the current state encodes.
#[derive(Copy, Clone, PartialEq, Eq, Structural, Debug)]
pub enum LMContext {
    Zero,
    One,
    Two,
}

/// The number of history tokens denoted by a context tag.
pub open spec fn depth_of(c: LMContext) -> nat {
    match c {
        LMContext::Zero => 0,
        LMContext::One => 1,
        LMContext::Two => 2,
    }
}

/// An immutable traversal state.
///
/// With `context_len == One` the range `[ngrams_offset, ngrams_offset +
/// ngrams_no)` lies in the bigram array; with `Two` it lies in the trigram
/// array.  The initial state is the only state with `context_len == Zero`;
/// its `ngrams_no` is a sentinel that is never dereferenced.
#[derive(Copy, Clone, PartialEq, Eq, Structural, Debug)]
pub struct LMState {
    pub last_processed_label: u32,
    pub ngrams_offset: usize,
    pub ngrams_no: usize,
    pub context_len: LMContext,
}

impl LMState {
    /// The initial (empty-context) state.
    pub open spec fn initial() -> LMState {
        LMState {
            last_processed_label: 0,
            ngrams_offset: 0,
            ngrams_no: usize::MAX,
            context_len: LMContext::Zero,
        }
    }

    /// The executable initial state.
    pub fn initial_state() -> (r: LMState)
        ensures
            r == LMState::initial(),
    {
        LMState {
            last_processed_label: 0,
            ngrams_offset: 0,
            ngrams_no: usize::MAX,
            context_len: LMContext::Zero,
        }
    }
}

impl Default for LMState {
    fn default() -> (r: Self)
        ensures
            r == LMState::initial(),
    {
        LMState::initial_state()
    }
}

} // verus!
