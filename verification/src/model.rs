//! The in-memory model: three flat record arrays encoding a trie through
//! offset/count ranges, plus the symbol table, and the traversal
//! operations `backoff` and `get_next_state`.

use vstd::prelude::*;
use crate::state::depth_of;
use crate::state::LMContext;
use crate::state::LMState;
use crate::state::LOG_PROB_LIMIT;
use crate::symt::SymbolTable;
use crate::search::bigram_run_sorted;
use crate::search::bigram_run_sorted_check;
use crate::search::bigram_run_has;
use crate::search::trigram_run_sorted;
use crate::search::trigram_run_sorted_check;
use crate::search::trigram_run_has;
use crate::search::lookup_bigram;
use crate::search::lookup_trigram;

verus! {

/// One record per label: the token's zero-context log-probability and the
/// bigram run `[child_offset, child_offset + child_count)` holding its
/// continuations.
#[derive(Copy, Clone, PartialEq, Eq, Structural, Debug)]
pub struct Unigram {
    pub log_prob: i64,
    pub child_offset: u32,
    pub child_count: u16,
}

/// One record per observed 2-token context: the destination label, its
/// log-probability given the owning token, and the trigram run holding the
/// context's continuations.
#[derive(Copy, Clone, PartialEq, Eq, Structural, Debug)]
pub struct Bigram {
    pub dest_label: u32,
    pub log_prob: i64,
    pub child_offset: u32,
    pub child_count: u16,
}

/// One record per observed 3-token context.  `suffix_ref` indexes the
/// bigram array at the record for the suffix 2-token context formed by
/// dropping the oldest token and appending `dest_label`.
#[derive(Copy, Clone, PartialEq, Eq, Structural, Debug)]
pub struct Trigram {
    pub dest_label: u32,
    pub log_prob: i64,
    pub suffix_ref: u32,
}

/// The symbol list with every repeated string dropped; a token keeps the
/// place of its first occurrence.
pub open spec fn spec_dedup(ss: Seq<Seq<char>>) -> Seq<Seq<char>>
    decreases ss.len(),
{
    if ss.len() == 0 {
        ss
    } else {
        let d = spec_dedup(ss.drop_last());
        if d.contains(ss.last()) {
            d
        } else {
            d.push(ss.last())
        }
    }
}

/// An order-3 backoff language model, immutable once built.
pub struct LanguageModel {
    pub symt: SymbolTable,
    pub unigrams: Vec<Unigram>,
    pub bigrams: Vec<Bigram>,
    pub trigrams: Vec<Trigram>,
}

impl LanguageModel {
    /// Assemble a model from its four record collections.  The symbol list
    /// is deduplicated, a repeated token keeping its first label, as when
    /// the list comes from a symbol file.  The remaining construction
    /// invariants (`wf`) are the collaborator's burden and can be audited
    /// with `is_well_formed`.
    pub fn new(
        symbols: Vec<String>,
        unigrams: Vec<Unigram>,
        bigrams: Vec<Bigram>,
        trigrams: Vec<Trigram>,
    ) -> (r: LanguageModel)
        ensures
            r.symt@ == spec_dedup(symbols@.map_values(|s: String| s@)),
            r.symt.wf(),
            r.unigrams@ == unigrams@,
            r.bigrams@ == bigrams@,
            r.trigrams@ == trigrams@,
    {
        let ghost mv = symbols@.map_values(|s: String| s@);
        let mut symt = SymbolTable::new();
        let n = symbols.len();
        proof {
            assert(mv.take(0) =~= Seq::<Seq<char>>::empty());
        }
        let mut i: usize = 0;
        while i < n
            invariant
                i <= n,
                n == symbols@.len(),
                mv == symbols@.map_values(|s: String| s@),
                symt.wf(),
                symt@ == spec_dedup(mv.take(i as int)),
            decreases n - i,
        {
            symt.insert(symbols[i].clone());
            proof {
                assert(mv.take(i + 1).drop_last() =~= mv.take(i as int));
                assert(mv.take(i + 1).last() == mv[i as int]);
            }
            i += 1;
        }
        proof {
            assert(mv.take(n as int) =~= mv);
        }
        LanguageModel { symt, unigrams, bigrams, trigrams }
    }

    /// Backoff monotonicity: backing off strictly shrinks a nonempty
    /// context, and the initial state is its fixed point.
    pub proof fn lemma_backoff_monotonic(&self, s: LMState)
        requires
            self.wf(),
            self.valid_state(s),
        ensures
            depth_of(s.context_len) > 0 ==> depth_of(self.spec_backoff(s).context_len) < depth_of(
                s.context_len,
            ),
            self.spec_backoff(LMState::initial()) == LMState::initial(),
    {
    }

    /// Does the model satisfy every construction invariant (`wf`)?  The
    /// queries assume the invariants rather than re-validate them per
    /// call; a loader can audit an untrusted model once with this check.
    #[verifier::loop_isolation(false)]
    pub fn is_well_formed(&self) -> (r: bool)
        ensures
            r == self.wf(),
    {
        // unique symbols
        let syms = self.symt.to_vec();
        let n = syms.len();
        let mut i: usize = 0;
        while i < n
            invariant
                i <= n,
                forall|a: int, b: int| 0 <= a < b < self.symt@.len() && a < i ==> self.symt@[a] != self.symt@[b],
            decreases n - i,
        {
            let mut j: usize = i + 1;
            while j < n
                invariant
                    i < j <= n,
                    forall|b: int| i < b < j ==> self.symt@[i as int] != self.symt@[b],
                decreases n - j,
            {
                if syms[i] == syms[j] {
                    proof {
                        assert(self.symt@[i as int] == self.symt@[j as int]);
                        assert(!self.symt.wf());
                    }
                    return false;
                }
                j += 1;
            }
            i += 1;
        }
        // dense labels within u32
        let nu = self.unigrams.len();
        if nu != self.symt.len() {
            return false;
        }
        if nu > u32::MAX as usize {
            return false;
        }
        let nb = self.bigrams.len();
        let nt = self.trigrams.len();
        // unigram records
        let mut i: usize = 0;
        while i < nu
            invariant
                i <= nu,
                forall|a: int| 0 <= a < i ==> self.unigram_wf(#[trigger] self.unigrams@[a]),
            decreases nu - i,
        {
            let u = self.unigrams[i];
            let off = u.child_offset as usize;
            let cnt = u.child_count as usize;
            if off > nb || cnt > nb - off {
                return false;
            }
            if !bigram_run_sorted_check(&self.bigrams, off, cnt) {
                return false;
            }
            if u.log_prob < -LOG_PROB_LIMIT || u.log_prob > LOG_PROB_LIMIT {
                return false;
            }
            i += 1;
        }
        // bigram records
        let mut i: usize = 0;
        while i < nb
            invariant
                i <= nb,
                forall|a: int| 0 <= a < i ==> self.bigram_wf(#[trigger] self.bigrams@[a]),
            decreases nb - i,
        {
            let b = self.bigrams[i];
            let off = b.child_offset as usize;
            let cnt = b.child_count as usize;
            if b.dest_label as usize >= nu {
                return false;
            }
            if off > nt || cnt > nt - off {
                return false;
            }
            if !trigram_run_sorted_check(&self.trigrams, off, cnt) {
                return false;
            }
            if b.log_prob < -LOG_PROB_LIMIT || b.log_prob > LOG_PROB_LIMIT {
                return false;
            }
            i += 1;
        }
        // trigram records
        let mut i: usize = 0;
        while i < nt
            invariant
                i <= nt,
                forall|a: int| 0 <= a < i ==> self.trigram_wf(#[trigger] self.trigrams@[a]),
            decreases nt - i,
        {
            let t = self.trigrams[i];
            if t.dest_label as usize >= nu {
                return false;
            }
            if t.suffix_ref as usize >= nb {
                return false;
            }
            if t.log_prob < -LOG_PROB_LIMIT || t.log_prob > LOG_PROB_LIMIT {
                return false;
            }
            i += 1;
        }
        true
    }

    /// Structural equality with another model: the same symbols in the
    /// same label order, and the same three record arrays.
    #[verifier::loop_isolation(false)]
    pub fn equals(&self, other: &LanguageModel) -> (r: bool)
        ensures
            r == (self.symt@ == other.symt@ && self.unigrams@ == other.unigrams@
                && self.bigrams@ == other.bigrams@ && self.trigrams@ == other.trigrams@),
    {
        let a = self.symt.to_vec();
        let b = other.symt.to_vec();
        if a.len() != b.len() {
            return false;
        }
        let n = a.len();
        let mut i: usize = 0;
        while i < n
            invariant
                i <= n,
                forall|t: int| 0 <= t < i ==> self.symt@[t] == other.symt@[t],
            decreases n - i,
        {
            if !(a[i] == b[i]) {
                proof {
                    assert(self.symt@[i as int] != other.symt@[i as int]);
                }
                return false;
            }
            i += 1;
        }
        proof {
            assert(self.symt@ =~= other.symt@);
        }
        if self.unigrams.len() != other.unigrams.len() {
            return false;
        }
        let nu = self.unigrams.len();
        let mut i: usize = 0;
        while i < nu
            invariant
                i <= nu,
                forall|t: int| 0 <= t < i ==> self.unigrams@[t] == other.unigrams@[t],
            decreases nu - i,
        {
            if !(self.unigrams[i] == other.unigrams[i]) {
                proof {
                    assert(self.unigrams@[i as int] != other.unigrams@[i as int]);
                }
                return false;
            }
            i += 1;
        }
        proof {
            assert(self.unigrams@ =~= other.unigrams@);
        }
        if self.bigrams.len() != other.bigrams.len() {
            return false;
        }
        let nbi = self.bigrams.len();
        let mut i: usize = 0;
        while i < nbi
            invariant
                i <= nbi,
                forall|t: int| 0 <= t < i ==> self.bigrams@[t] == other.bigrams@[t],
            decreases nbi - i,
        {
            if !(self.bigrams[i] == other.bigrams[i]) {
                proof {
                    assert(self.bigrams@[i as int] != other.bigrams@[i as int]);
                }
                return false;
            }
            i += 1;
        }
        proof {
            assert(self.bigrams@ =~= other.bigrams@);
        }
        if self.trigrams.len() != other.trigrams.len() {
            return false;
        }
        let ntr = self.trigrams.len();
        let mut i: usize = 0;
        while i < ntr
            invariant
                i <= ntr,
                forall|t: int| 0 <= t < i ==> self.trigrams@[t] == other.trigrams@[t],
            decreases ntr - i,
        {
            if !(self.trigrams[i] == other.trigrams[i]) {
                proof {
                    assert(self.trigrams@[i as int] != other.trigrams@[i as int]);
                }
                return false;
            }
            i += 1;
        }
        proof {
            assert(self.trigrams@ =~= other.trigrams@);
        }
        true
    }

    /// The number of tokens in the vocabulary.
    pub open spec fn vocab(&self) -> int {
        self.unigrams@.len() as int
    }

    pub open spec fn unigram_wf(&self, u: Unigram) -> bool {
        &&& u.child_offset + u.child_count <= self.bigrams@.len()
        &&& bigram_run_sorted(self.bigrams@, u.child_offset as int, u.child_count as int)
        &&& -LOG_PROB_LIMIT <= u.log_prob <= LOG_PROB_LIMIT
    }

    pub open spec fn bigram_wf(&self, b: Bigram) -> bool {
        &&& (b.dest_label as int) < self.vocab()
        &&& b.child_offset + b.child_count <= self.trigrams@.len()
        &&& trigram_run_sorted(self.trigrams@, b.child_offset as int, b.child_count as int)
        &&& -LOG_PROB_LIMIT <= b.log_prob <= LOG_PROB_LIMIT
    }

    pub open spec fn trigram_wf(&self, t: Trigram) -> bool {
        &&& (t.dest_label as int) < self.vocab()
        &&& (t.suffix_ref as int) < self.bigrams@.len()
        &&& -LOG_PROB_LIMIT <= t.log_prob <= LOG_PROB_LIMIT
    }

    /// The construction invariants the queries assume and never re-validate:
    /// one unigram per label, labels dense and within `u32`, child ranges in
    /// bounds, every run strictly ascending by destination label, and
    /// log-probabilities inside the representable band.
    pub open spec fn wf(&self) -> bool {
        &&& self.symt.wf()
        &&& self.unigrams@.len() == self.symt@.len()
        &&& self.unigrams@.len() <= u32::MAX
        &&& forall|i: int|
            0 <= i < self.unigrams@.len() ==> self.unigram_wf(#[trigger] self.unigrams@[i])
        &&& forall|i: int|
            0 <= i < self.bigrams@.len() ==> self.bigram_wf(#[trigger] self.bigrams@[i])
        &&& forall|i: int|
            0 <= i < self.trigrams@.len() ==> self.trigram_wf(#[trigger] self.trigrams@[i])
    }

    /// A state the traversal can stand in: the initial state, or a state
    /// whose record range lies in the array its depth calls for.
    pub open spec fn valid_state(&self, s: LMState) -> bool {
        match s.context_len {
            LMContext::Zero => s == LMState::initial(),
            LMContext::One => {
                &&& (s.last_processed_label as int) < self.vocab()
                &&& s.ngrams_offset + s.ngrams_no <= self.bigrams@.len()
                &&& bigram_run_sorted(self.bigrams@, s.ngrams_offset as int, s.ngrams_no as int)
            },
            LMContext::Two => {
                &&& (s.last_processed_label as int) < self.vocab()
                &&& s.ngrams_offset + s.ngrams_no <= self.trigrams@.len()
                &&& trigram_run_sorted(self.trigrams@, s.ngrams_offset as int, s.ngrams_no as int)
            },
        }
    }

    /// The one-token-context state anchored at `label`'s own unigram record.
    pub open spec fn unigram_state(&self, label: u32) -> LMState {
        LMState {
            last_processed_label: label,
            ngrams_offset: self.unigrams@[label as int].child_offset as usize,
            ngrams_no: self.unigrams@[label as int].child_count as usize,
            context_len: LMContext::One,
        }
    }

    /// The two-token-context state whose range is the child run of the
    /// bigram record at index `i`.
    pub open spec fn bigram_state(&self, label: u32, i: int) -> LMState {
        LMState {
            last_processed_label: label,
            ngrams_offset: self.bigrams@[i].child_offset as usize,
            ngrams_no: self.bigrams@[i].child_count as usize,
            context_len: LMContext::Two,
        }
    }

    /// What `backoff` returns: drop the oldest token of context, shrinking
    /// the depth by one; the initial state is a fixed point.
    pub open spec fn spec_backoff(&self, s: LMState) -> LMState {
        match s.context_len {
            LMContext::Zero => s,
            LMContext::One => LMState::initial(),
            LMContext::Two => LMState {
                last_processed_label: s.last_processed_label,
                ngrams_offset: self.unigrams@[s.last_processed_label as int].child_offset as usize,
                ngrams_no: self.unigrams@[s.last_processed_label as int].child_count as usize,
                context_len: LMContext::One,
            },
        }
    }

    /// Backoff to the state associated with the suffix context, without
    /// consuming input.  The depth strictly decreases wherever there is
    /// context to drop; backing off from the initial state is a no-op.
    pub fn backoff(&self, start_state: LMState) -> (r: LMState)
        requires
            self.wf(),
            self.valid_state(start_state),
        ensures
            r == self.spec_backoff(start_state),
            self.valid_state(r),
    {
        match start_state.context_len {
            LMContext::Zero => start_state,
            LMContext::One => LMState::initial_state(),
            LMContext::Two => {
                let lab = start_state.last_processed_label as usize;
                LMState {
                    last_processed_label: start_state.last_processed_label,
                    ngrams_offset: self.unigrams[lab].child_offset as usize,
                    ngrams_no: self.unigrams[lab].child_count as usize,
                    context_len: LMContext::One,
                }
            },
        }
    }

    /// The label of a token, if the vocabulary holds it.
    pub open spec fn spec_label_of(&self, sym: Seq<char>) -> Option<int> {
        if self.symt@.contains(sym) {
            Some(self.symt@.index_of(sym))
        } else {
            None
        }
    }

    /// What `get_next_state` returns for a token the vocabulary holds: try
    /// the order-3 run, back off on a miss and try the order-2 run, and fall
    /// back to the token's own unigram record.
    pub open spec fn spec_advance_label(&self, s: LMState, label: u32) -> LMState {
        if s.context_len == LMContext::Two && trigram_run_has(
            self.trigrams@,
            s.ngrams_offset as int,
            s.ngrams_no as int,
            label,
        ) {
            let i = choose|i: int|
                s.ngrams_offset <= i < s.ngrams_offset + s.ngrams_no && self.trigrams@[i].dest_label
                    == label;
            self.bigram_state(label, self.trigrams@[i].suffix_ref as int)
        } else {
            let s1 = if s.context_len == LMContext::Two {
                self.spec_backoff(s)
            } else {
                s
            };
            if s1.context_len == LMContext::One && bigram_run_has(
                self.bigrams@,
                s1.ngrams_offset as int,
                s1.ngrams_no as int,
                label,
            ) {
                let i = choose|i: int|
                    s1.ngrams_offset <= i < s1.ngrams_offset + s1.ngrams_no
                        && self.bigrams@[i].dest_label == label;
                self.bigram_state(label, i)
            } else {
                self.unigram_state(label)
            }
        }
    }

    /// What `get_next_state` returns: an out-of-vocabulary token resets all
    /// context to the initial state; a known token advances by its label.
    pub open spec fn spec_advance(&self, s: LMState, sym: Seq<char>) -> LMState {
        match self.spec_label_of(sym) {
            None => LMState::initial(),
            Some(l) => self.spec_advance_label(s, l as u32),
        }
    }

    /// Fold one observed token into the state.  Total for every string and
    /// every valid state: no transition can fail, because the token's own
    /// unigram record always establishes at least a fresh one-token context.
    pub fn get_next_state(&self, lm_state: LMState, symbol: &str) -> (r: LMState)
        requires
            self.wf(),
            self.valid_state(lm_state),
        ensures
            r == self.spec_advance(lm_state, symbol@),
            self.valid_state(r),
            !self.symt@.contains(symbol@) ==> r == LMState::initial(),
    {
        // Try to translate the symbol into a label; an unknown word resets
        // the machine to the initial state.
        let label_idx = match self.symt.label_of(symbol) {
            Some(known_label) => known_label,
            None => {
                return LMState::initial_state();
            },
        };
        proof {
            assert(self.symt@.index_of(symbol@) == label_idx as int) by {
                let w = self.symt@.index_of(symbol@);
                assert(self.symt@.contains(symbol@));
                assert(0 <= w < self.symt@.len() && self.symt@[w] == symbol@);
                if w != label_idx as int {
                    assert(self.symt@[w] != self.symt@[label_idx as int]);
                }
            }
        }
        let label = label_idx as u32;
        let mut state = lm_state;

        // A state with two tokens of context: look for an order-3 transition,
        // and back off on a miss.
        if state.context_len == LMContext::Two {
            match lookup_trigram(&self.trigrams, state.ngrams_offset, state.ngrams_no, label) {
                Some(i) => {
                    proof {
                        let c = choose|c: int|
                            state.ngrams_offset <= c < state.ngrams_offset + state.ngrams_no
                                && self.trigrams@[c].dest_label == label;
                        crate::search::lemma_trigram_run_unique(
                            self.trigrams@,
                            state.ngrams_offset as int,
                            state.ngrams_no as int,
                            i as int,
                            c,
                        );
                    }
                    let b = self.trigrams[i].suffix_ref as usize;
                    return LMState {
                        last_processed_label: label,
                        ngrams_offset: self.bigrams[b].child_offset as usize,
                        ngrams_no: self.bigrams[b].child_count as usize,
                        context_len: LMContext::Two,
                    };
                },
                None => {
                    state = self.backoff(state);
                },
            }
        }
        // A state with one token of context: look for an order-2 transition.
        if state.context_len == LMContext::One {
            if let Some(i) = lookup_bigram(&self.bigrams, state.ngrams_offset, state.ngrams_no, label) {
                proof {
                    let c = choose|c: int|
                        state.ngrams_offset <= c < state.ngrams_offset + state.ngrams_no
                            && self.bigrams@[c].dest_label == label;
                    crate::search::lemma_bigram_run_unique(
                        self.bigrams@,
                        state.ngrams_offset as int,
                        state.ngrams_no as int,
                        i as int,
                        c,
                    );
                }
                return LMState {
                    last_processed_label: label,
                    ngrams_offset: self.bigrams[i].child_offset as usize,
                    ngrams_no: self.bigrams[i].child_count as usize,
                    context_len: LMContext::Two,
                };
            }
        }
        // The transition from the token's own unigram record.
        LMState {
            last_processed_label: label,
            ngrams_offset: self.unigrams[label_idx].child_offset as usize,
            ngrams_no: self.unigrams[label_idx].child_count as usize,
            context_len: LMContext::One,
        }
    }
}

} // verus!
