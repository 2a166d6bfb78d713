//! Prediction with backoff: rank up to `k` candidate next tokens by
//! log-probability, falling back to progressively shorter context when the
//! richer context yields too few candidates.
//!
//! Candidates are gathered first-write-wins, so a label found at order 3 is
//! never overwritten by a lower-order fallback; each backoff hop adds the
//! stupid-backoff penalty to the values inserted afterwards.

use vstd::prelude::*;
use crate::state::LMContext;
use crate::state::LMState;
use crate::state::BACKOFF_WEIGHT;
use crate::model::LanguageModel;
use crate::rank::Candidate;
use crate::rank::add_candidate;
use crate::rank::contains_label;
use crate::rank::distinct_labels;
use crate::rank::has_label;
use crate::rank::lemma_complete_label_count;
use crate::rank::lemma_distinct_label_count;
use crate::rank::lemma_merge_adds;
use crate::rank::lemma_merge_distinct;
use crate::rank::lemma_merge_prefix;
use crate::rank::lemma_merge_elems;
use crate::rank::lemma_merge_has_label;
use crate::rank::lemma_merge_push;
use crate::rank::lemma_sort_desc_elems;
use crate::rank::lemma_sort_desc_props;
use crate::rank::merge_candidates;
use crate::rank::sort_candidates;
use crate::rank::sort_desc;

verus! {

/// The additive discount after `steps` backoff hops.
pub open spec fn spec_penalty(steps: int) -> i64 {
    (steps * BACKOFF_WEIGHT) as i64
}

impl LanguageModel {
    /// The candidates of the trigram run `[off, off + n)`, undiscounted.
    pub open spec fn trigram_pairs(&self, off: int, n: int) -> Seq<Candidate> {
        Seq::new(
            n as nat,
            |i: int| (self.trigrams@[off + i].dest_label, self.trigrams@[off + i].log_prob),
        )
    }

    /// The candidates of the bigram run `[off, off + n)`, discounted by `penalty`.
    pub open spec fn bigram_pairs(&self, off: int, n: int, penalty: i64) -> Seq<Candidate> {
        Seq::new(
            n as nat,
            |i: int|
                (
                    self.bigrams@[off + i].dest_label,
                    (self.bigrams@[off + i].log_prob + penalty) as i64,
                ),
        )
    }

    /// One candidate per vocabulary label, discounted by `penalty`.
    pub open spec fn unigram_pairs(&self, penalty: i64) -> Seq<Candidate> {
        Seq::new(
            self.unigrams@.len(),
            |i: int| (i as u32, (self.unigrams@[i].log_prob + penalty) as i64),
        )
    }

    /// The accumulated candidate list of a `predict` call: the order-3 run
    /// of a two-token context first, then — while fewer than `k` distinct
    /// labels were found — the backed-off order-2 run, then the whole
    /// vocabulary, each later stage discounted once more.
    pub open spec fn spec_candidates(&self, s: LMState, k: usize) -> Seq<Candidate> {
        let c2 = if s.context_len == LMContext::Two {
            merge_candidates(
                Seq::<Candidate>::empty(),
                self.trigram_pairs(s.ngrams_offset as int, s.ngrams_no as int),
            )
        } else {
            Seq::<Candidate>::empty()
        };
        let back2 = s.context_len == LMContext::Two && c2.len() < k;
        let s2 = if back2 {
            self.spec_backoff(s)
        } else {
            s
        };
        let steps2: int = if back2 {
            1
        } else {
            0
        };
        let c1 = if s2.context_len == LMContext::One {
            merge_candidates(
                c2,
                self.bigram_pairs(
                    s2.ngrams_offset as int,
                    s2.ngrams_no as int,
                    spec_penalty(steps2),
                ),
            )
        } else {
            c2
        };
        let back1 = s2.context_len == LMContext::One && c1.len() < k;
        let s1 = if back1 {
            self.spec_backoff(s2)
        } else {
            s2
        };
        let steps1: int = if back1 {
            steps2 + 1
        } else {
            steps2
        };
        if s1.context_len == LMContext::Zero {
            merge_candidates(c1, self.unigram_pairs(spec_penalty(steps1)))
        } else {
            c1
        }
    }

    /// What `predict` returns, label-for-label: the accumulated candidates,
    /// stably sorted by log-probability from high to low, truncated to `k`.
    pub open spec fn spec_ranking(&self, s: LMState, k: usize) -> Seq<Candidate> {
        let sorted = sort_desc(self.spec_candidates(s, k));
        sorted.take(
            if k <= sorted.len() {
                k as int
            } else {
                sorted.len() as int
            },
        )
    }

    /// Fold the trigram run `[off, off + n)` into the candidates.
    fn collect_trigrams(&self, cands: &mut Vec<Candidate>, off: usize, n: usize)
        requires
            off + n <= self.trigrams@.len(),
        ensures
            final(cands)@ == merge_candidates(
                old(cands)@,
                self.trigram_pairs(off as int, n as int),
            ),
    {
        let ghost c0 = cands@;
        let _total = self.trigrams.len();
        proof {
            assert(self.trigram_pairs(off as int, 0) =~= Seq::<Candidate>::empty());
        }
        let mut j: usize = 0;
        while j < n
            invariant
                j <= n,
                off + n <= self.trigrams@.len(),
                self.trigrams@.len() <= usize::MAX,
                cands@ == merge_candidates(c0, self.trigram_pairs(off as int, j as int)),
            decreases n - j,
        {
            let t = self.trigrams[off + j];
            let ghost prev = cands@;
            if !contains_label(cands, t.dest_label) {
                cands.push((t.dest_label, t.log_prob));
            }
            proof {
                let p = (t.dest_label, t.log_prob);
                assert(cands@ == add_candidate(prev, p));
                assert(self.trigram_pairs(off as int, j + 1) =~= self.trigram_pairs(
                    off as int,
                    j as int,
                ).push(p));
                lemma_merge_push(c0, self.trigram_pairs(off as int, j as int), p);
            }
            j += 1;
        }
    }

    /// Fold the bigram run `[off, off + n)` into the candidates, each value
    /// discounted by `penalty`.
    fn collect_bigrams(&self, cands: &mut Vec<Candidate>, off: usize, n: usize, penalty: i64)
        requires
            self.wf(),
            off + n <= self.bigrams@.len(),
            -2_000_000_000 <= penalty <= 0,
        ensures
            final(cands)@ == merge_candidates(
                old(cands)@,
                self.bigram_pairs(off as int, n as int, penalty),
            ),
    {
        let ghost c0 = cands@;
        let _total = self.bigrams.len();
        proof {
            assert(self.bigram_pairs(off as int, 0, penalty) =~= Seq::<Candidate>::empty());
        }
        let mut j: usize = 0;
        while j < n
            invariant
                j <= n,
                self.wf(),
                off + n <= self.bigrams@.len(),
                self.bigrams@.len() <= usize::MAX,
                -2_000_000_000 <= penalty <= 0,
                cands@ == merge_candidates(c0, self.bigram_pairs(off as int, j as int, penalty)),
            decreases n - j,
        {
            let b = self.bigrams[off + j];
            proof {
                assert(self.bigram_wf(self.bigrams@[off + j]));
            }
            let v = b.log_prob + penalty;
            let ghost prev = cands@;
            if !contains_label(cands, b.dest_label) {
                cands.push((b.dest_label, v));
            }
            proof {
                let p = (b.dest_label, v);
                assert(cands@ == add_candidate(prev, p));
                assert(self.bigram_pairs(off as int, j + 1, penalty) =~= self.bigram_pairs(
                    off as int,
                    j as int,
                    penalty,
                ).push(p));
                lemma_merge_push(c0, self.bigram_pairs(off as int, j as int, penalty), p);
            }
            j += 1;
        }
    }

    /// Fold the whole vocabulary into the candidates, each value discounted
    /// by `penalty`.
    fn collect_unigrams(&self, cands: &mut Vec<Candidate>, penalty: i64)
        requires
            self.wf(),
            -2_000_000_000 <= penalty <= 0,
        ensures
            final(cands)@ == merge_candidates(old(cands)@, self.unigram_pairs(penalty)),
    {
        let ghost c0 = cands@;
        let total = self.unigrams.len();
        proof {
            assert(self.unigram_pairs(penalty).take(0) =~= Seq::<Candidate>::empty());
        }
        let mut j: usize = 0;
        while j < total
            invariant
                j <= total,
                self.wf(),
                total == self.unigrams@.len(),
                -2_000_000_000 <= penalty <= 0,
                cands@ == merge_candidates(c0, self.unigram_pairs(penalty).take(j as int)),
            decreases total - j,
        {
            let u = self.unigrams[j];
            proof {
                assert(self.unigram_wf(self.unigrams@[j as int]));
            }
            let v = u.log_prob + penalty;
            let ghost prev = cands@;
            if !contains_label(cands, j as u32) {
                cands.push((j as u32, v));
            }
            proof {
                let p = (j as u32, v);
                assert(cands@ == add_candidate(prev, p));
                assert(self.unigram_pairs(penalty).take(j + 1) =~= self.unigram_pairs(
                    penalty,
                ).take(j as int).push(p));
                lemma_merge_push(c0, self.unigram_pairs(penalty).take(j as int), p);
            }
            j += 1;
        }
        proof {
            assert(self.unigram_pairs(penalty).take(total as int) =~= self.unigram_pairs(penalty));
        }
    }

    /// Rank up to `max_no_predictions` candidate next tokens from the
    /// current state, most likely first (see `spec_ranking`).  The result
    /// holds `min(max_no_predictions, vocabulary size)` distinct tokens.
    pub fn predict(&self, lm_state: LMState, max_no_predictions: usize) -> (r: Vec<(String, i64)>)
        requires
            self.wf(),
            self.valid_state(lm_state),
        ensures
            ({
                let ranked = self.spec_ranking(lm_state, max_no_predictions);
                &&& r@.len() == ranked.len()
                &&& forall|i: int|
                    0 <= i < r@.len() ==> (#[trigger] r@[i]).1 == ranked[i].1 && r@[i].0@
                        == self.symt@[ranked[i].0 as int]
            }),
            r@.len() == if max_no_predictions as int <= self.vocab() {
                max_no_predictions as int
            } else {
                self.vocab()
            },
    {
        let ghost s0 = lm_state;
        let ghost k = max_no_predictions;
        let mut state = lm_state;
        let mut cands: Vec<Candidate> = Vec::new();
        let mut backoff_steps: u32 = 0;

        // Stage 1: the order-3 run of a two-token context.
        if state.context_len == LMContext::Two {
            self.collect_trigrams(&mut cands, state.ngrams_offset, state.ngrams_no);
            if cands.len() < max_no_predictions {
                state = self.backoff(state);
                backoff_steps = 1;
            }
        }
        // Stage 2: the order-2 run of a one-token context.
        if state.context_len == LMContext::One {
            let penalty: i64 = if backoff_steps == 0 {
                0
            } else {
                BACKOFF_WEIGHT
            };
            self.collect_bigrams(&mut cands, state.ngrams_offset, state.ngrams_no, penalty);
            if cands.len() < max_no_predictions {
                state = self.backoff(state);
                backoff_steps += 1;
            }
        }

        // Stage 3: the whole vocabulary, the terminal fallback.
        if state.context_len == LMContext::Zero {
            let penalty: i64 = if backoff_steps == 0 {
                0
            } else if backoff_steps == 1 {
                BACKOFF_WEIGHT
            } else {
                BACKOFF_WEIGHT + BACKOFF_WEIGHT
            };
            self.collect_unigrams(&mut cands, penalty);
        }
        proof {
            assert(cands@ == self.spec_candidates(s0, k));
        }

        // Rank: stable descending sort, then truncate and translate.
        let sorted = sort_candidates(&cands);
        proof {
            lemma_sort_desc_props(cands@);
            lemma_sort_desc_elems(cands@);
        }
        let scount = sorted.len();
        let count = if max_no_predictions < scount {
            max_no_predictions
        } else {
            scount
        };
        proof {
            lemma_candidates_count(self, s0, k);
            assert(forall|i: int|
                0 <= i < sorted@.len() ==> (#[trigger] sorted@[i].0 as int) < self.vocab());
        }
        let mut result: Vec<(String, i64)> = Vec::new();
        let mut idx: usize = 0;
        while idx < count
            invariant
                idx <= count,
                count <= sorted@.len(),
                self.wf(),
                forall|i: int| 0 <= i < sorted@.len() ==> (#[trigger] sorted@[i].0 as int) < self.vocab(),
                result@.len() == idx,
                forall|i: int|
                    0 <= i < idx ==> (#[trigger] result@[i]).1 == sorted@[i].1 && result@[i].0@
                        == self.symt@[sorted@[i].0 as int],
            decreases count - idx,
        {
            let p = sorted[idx];
            let sym = self.symt.token_of(p.0 as usize);
            result.push((sym.clone(), p.1));
            idx += 1;
        }
        proof {
            let ranked = self.spec_ranking(s0, k);
            assert(ranked =~= sorted@.take(count as int));
        }
        result
    }
}

/// Order priority: a label that the order-3 run of a two-token context
/// offers keeps its order-3 log-probability in the prediction; no
/// lower-order fallback ever overwrites it.
pub proof fn lemma_order_priority(m: &LanguageModel, s: LMState, k: usize, t: int)
    requires
        m.wf(),
        m.valid_state(s),
        s.context_len == LMContext::Two,
        s.ngrams_offset <= t < s.ngrams_offset + s.ngrams_no,
    ensures
        forall|j: int|
            0 <= j < m.spec_ranking(s, k).len() && (#[trigger] m.spec_ranking(s, k)[j]).0
                == m.trigrams@[t].dest_label ==> m.spec_ranking(s, k)[j].1
                == m.trigrams@[t].log_prob,
{
    let lab = m.trigrams@[t].dest_label;
    let v = m.trigrams@[t].log_prob;
    let off = s.ngrams_offset as int;
    let tri = m.trigram_pairs(off, s.ngrams_no as int);
    let w = t - off;
    assert(tri[w] == (lab, v));
    assert forall|u: int| 0 <= u < w implies tri[u].0 != tri[w].0 by {
        assert(m.trigrams@[off + u].dest_label < m.trigrams@[t].dest_label);
    }
    let empty = Seq::<Candidate>::empty();
    lemma_merge_adds(empty, tri, w);
    let c2 = merge_candidates(empty, tri);
    let pair = (lab, v);
    assert(c2.contains(pair));
    let i2 = choose|i: int| 0 <= i < c2.len() && c2[i] == pair;

    let back2 = c2.len() < k;
    let s2 = if back2 {
        m.spec_backoff(s)
    } else {
        s
    };
    let steps2: int = if back2 {
        1
    } else {
        0
    };
    let bi = m.bigram_pairs(s2.ngrams_offset as int, s2.ngrams_no as int, spec_penalty(steps2));
    let c1 = if s2.context_len == LMContext::One {
        merge_candidates(c2, bi)
    } else {
        c2
    };
    if s2.context_len == LMContext::One {
        lemma_merge_prefix(c2, bi);
    }
    assert(c1[i2] == pair);
    let back1 = s2.context_len == LMContext::One && c1.len() < k;
    let s1 = if back1 {
        m.spec_backoff(s2)
    } else {
        s2
    };
    let steps1: int = if back1 {
        steps2 + 1
    } else {
        steps2
    };
    let uni = m.unigram_pairs(spec_penalty(steps1));
    let cs = m.spec_candidates(s, k);
    if s1.context_len == LMContext::Zero {
        lemma_merge_prefix(c1, uni);
    }
    assert(cs[i2] == pair);
    assert(cs.contains(pair));

    lemma_candidates_count(m, s, k);
    lemma_sort_desc_props(cs);
    lemma_sort_desc_elems(cs);
    let sorted = sort_desc(cs);
    let ranked = m.spec_ranking(s, k);
    assert forall|j: int|
        0 <= j < ranked.len() && (#[trigger] ranked[j]).0 == lab implies ranked[j].1 == v by {
        assert(ranked[j] == sorted[j]);
        assert(cs.contains(sorted[j]));
        let a = choose|a: int| 0 <= a < cs.len() && cs[a] == sorted[j];
        if a != i2 {
            assert(cs[a].0 != cs[i2].0);
        }
    }
}

/// Cardinality of the accumulated candidates: distinct labels below the
/// vocabulary size, at least `k` of them unless the terminal fallback ran
/// and delivered the whole vocabulary.
proof fn lemma_candidates_count(m: &LanguageModel, s: LMState, k: usize)
    requires
        m.wf(),
        m.valid_state(s),
    ensures
        distinct_labels(m.spec_candidates(s, k)),
        forall|i: int|
            0 <= i < m.spec_candidates(s, k).len() ==> (
            #[trigger] m.spec_candidates(s, k)[i].0 as int) < m.vocab(),
        m.spec_candidates(s, k).len() == if k as int <= m.vocab() {
            k as int
        } else {
            m.vocab()
        } || (k as int <= m.spec_candidates(s, k).len() <= m.vocab()),
{
    let empty = Seq::<Candidate>::empty();
    let tri = m.trigram_pairs(s.ngrams_offset as int, s.ngrams_no as int);
    let c2 = if s.context_len == LMContext::Two {
        merge_candidates(empty, tri)
    } else {
        empty
    };
    let back2 = s.context_len == LMContext::Two && c2.len() < k;
    let s2 = if back2 {
        m.spec_backoff(s)
    } else {
        s
    };
    let steps2: int = if back2 {
        1
    } else {
        0
    };
    let bi = m.bigram_pairs(s2.ngrams_offset as int, s2.ngrams_no as int, spec_penalty(steps2));
    let c1 = if s2.context_len == LMContext::One {
        merge_candidates(c2, bi)
    } else {
        c2
    };
    let back1 = s2.context_len == LMContext::One && c1.len() < k;
    let s1 = if back1 {
        m.spec_backoff(s2)
    } else {
        s2
    };
    let steps1: int = if back1 {
        steps2 + 1
    } else {
        steps2
    };
    let uni = m.unigram_pairs(spec_penalty(steps1));
    let cs = m.spec_candidates(s, k);

    // distinctness, stage by stage
    assert(distinct_labels(empty));
    if s.context_len == LMContext::Two {
        lemma_merge_distinct(empty, tri);
    }
    assert(distinct_labels(c2));
    if s2.context_len == LMContext::One {
        lemma_merge_distinct(c2, bi);
    }
    assert(distinct_labels(c1));
    if s1.context_len == LMContext::Zero {
        lemma_merge_distinct(c1, uni);
    }
    assert(distinct_labels(cs));

    // every label is below the vocabulary size
    assert(forall|i: int| 0 <= i < c2.len() ==> (#[trigger] c2[i].0 as int) < m.vocab()) by {
        if s.context_len == LMContext::Two {
            assert forall|i: int| 0 <= i < tri.len() implies (#[trigger] tri[i].0 as int)
                < m.vocab() by {
                assert(m.trigram_wf(m.trigrams@[s.ngrams_offset + i]));
            }
            lemma_merge_elems(empty, tri);
            assert forall|i: int| 0 <= i < c2.len() implies (#[trigger] c2[i].0 as int)
                < m.vocab() by {
                assert(empty.contains(c2[i]) || tri.contains(c2[i]));
                if tri.contains(c2[i]) {
                    let w = choose|w: int| 0 <= w < tri.len() && tri[w] == c2[i];
                    assert((tri[w].0 as int) < m.vocab());
                }
            }
        }
    }
    assert(forall|i: int| 0 <= i < c1.len() ==> (#[trigger] c1[i].0 as int) < m.vocab()) by {
        if s2.context_len == LMContext::One {
            assert forall|i: int| 0 <= i < bi.len() implies (#[trigger] bi[i].0 as int)
                < m.vocab() by {
                assert(m.bigram_wf(m.bigrams@[s2.ngrams_offset + i]));
            }
            lemma_merge_elems(c2, bi);
            assert forall|i: int| 0 <= i < c1.len() implies (#[trigger] c1[i].0 as int)
                < m.vocab() by {
                assert(c2.contains(c1[i]) || bi.contains(c1[i]));
                if c2.contains(c1[i]) {
                    let w = choose|w: int| 0 <= w < c2.len() && c2[w] == c1[i];
                    assert((c2[w].0 as int) < m.vocab());
                } else {
                    let w = choose|w: int| 0 <= w < bi.len() && bi[w] == c1[i];
                    assert((bi[w].0 as int) < m.vocab());
                }
            }
        }
    }
    assert(forall|i: int| 0 <= i < uni.len() ==> (#[trigger] uni[i].0 as int) < m.vocab());
    assert(forall|i: int| 0 <= i < cs.len() ==> (#[trigger] cs[i].0 as int) < m.vocab()) by {
        if s1.context_len == LMContext::Zero {
            lemma_merge_elems(c1, uni);
            assert forall|i: int| 0 <= i < cs.len() implies (#[trigger] cs[i].0 as int)
                < m.vocab() by {
                assert(c1.contains(cs[i]) || uni.contains(cs[i]));
                if c1.contains(cs[i]) {
                    let w = choose|w: int| 0 <= w < c1.len() && c1[w] == cs[i];
                    assert((c1[w].0 as int) < m.vocab());
                } else {
                    let w = choose|w: int| 0 <= w < uni.len() && uni[w] == cs[i];
                    assert((uni[w].0 as int) < m.vocab());
                }
            }
        }
    }
    lemma_distinct_label_count(cs, m.vocab() as nat);

    // the count: the whole vocabulary after the terminal fallback, and at
    // least `k` wherever an earlier stage already sufficed
    if s1.context_len == LMContext::Zero {
        assert forall|l: int| 0 <= l < m.vocab() implies #[trigger] has_label(cs, l as u32) by {
            lemma_merge_has_label(c1, uni, l as u32);
            assert(uni[l] == (l as u32, (m.unigrams@[l].log_prob + spec_penalty(steps1)) as i64));
            assert(has_label(uni, l as u32));
        }
        lemma_complete_label_count(cs, m.vocab() as nat);
    } else {
        assert(cs.len() >= k);
    }
}

} // verus!
