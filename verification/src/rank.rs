//! Ranking of prediction candidates.
//!
//! A candidate list pairs each label with its best-known log-probability.
//! Candidates are accumulated first-write-wins (`merge_candidates`), so a
//! label inserted at a higher order is never overwritten by a lower-order
//! fallback, and are then ordered by a stable descending sort
//! (`sort_desc`): a tie keeps the relative accumulation order.  Integer
//! log-probabilities are totally ordered, so the comparison never fails.

use vstd::prelude::*;

verus! {

/// One prediction candidate: a label and its log-probability.
pub type Candidate = (u32, i64);

/// Some candidate carries `label`.
pub open spec fn has_label(cs: Seq<Candidate>, label: u32) -> bool {
    exists|i: int| 0 <= i < cs.len() && cs[i].0 == label
}

/// Append a candidate unless its label is already present.
pub open spec fn add_candidate(cs: Seq<Candidate>, p: Candidate) -> Seq<Candidate> {
    if has_label(cs, p.0) {
        cs
    } else {
        cs.push(p)
    }
}

/// Fold a run of candidates into the accumulator, first-write-wins.
pub open spec fn merge_candidates(cs: Seq<Candidate>, ps: Seq<Candidate>) -> Seq<Candidate>
    decreases ps.len(),
{
    if ps.len() == 0 {
        cs
    } else {
        merge_candidates(add_candidate(cs, ps[0]), ps.drop_first())
    }
}

/// No two candidates carry the same label.
pub open spec fn distinct_labels(cs: Seq<Candidate>) -> bool {
    forall|i: int, j: int| 0 <= i < j < cs.len() ==> cs[i].0 != cs[j].0
}

/// Log-probabilities are non-increasing along the list.
pub open spec fn sorted_desc(cs: Seq<Candidate>) -> bool {
    forall|i: int, j: int| 0 <= i <= j < cs.len() ==> cs[i].1 >= cs[j].1
}

/// Insert a candidate in front of the first entry it is not below, so that
/// an entry already in the list wins a tie against a later-inserted one.
pub open spec fn insert_desc(p: Candidate, cs: Seq<Candidate>) -> Seq<Candidate>
    decreases cs.len(),
{
    if cs.len() == 0 {
        seq![p]
    } else if p.1 >= cs[0].1 {
        seq![p] + cs
    } else {
        seq![cs[0]] + insert_desc(p, cs.drop_first())
    }
}

/// Stable descending insertion sort.
pub open spec fn sort_desc(cs: Seq<Candidate>) -> Seq<Candidate>
    decreases cs.len(),
{
    if cs.len() == 0 {
        cs
    } else {
        insert_desc(cs[0], sort_desc(cs.drop_first()))
    }
}

/// Folding one more candidate onto the end of a run commutes with merging.
pub proof fn lemma_merge_push(cs: Seq<Candidate>, ps: Seq<Candidate>, p: Candidate)
    ensures
        merge_candidates(cs, ps.push(p)) == add_candidate(merge_candidates(cs, ps), p),
    decreases ps.len(),
{
    if ps.len() == 0 {
        assert(ps.push(p)[0] == p);
        assert(ps.push(p).drop_first() =~= Seq::<Candidate>::empty());
        assert(merge_candidates(cs, ps.push(p)) == merge_candidates(
            add_candidate(cs, p),
            Seq::<Candidate>::empty(),
        ));
        assert(merge_candidates(add_candidate(cs, p), Seq::<Candidate>::empty()) == add_candidate(
            cs,
            p,
        ));
        assert(merge_candidates(cs, ps) == cs);
    } else {
        assert(ps.push(p)[0] == ps[0]);
        assert(ps.push(p).drop_first() =~= ps.drop_first().push(p));
        assert(merge_candidates(cs, ps.push(p)) == merge_candidates(
            add_candidate(cs, ps[0]),
            ps.drop_first().push(p),
        ));
        lemma_merge_push(add_candidate(cs, ps[0]), ps.drop_first(), p);
        assert(merge_candidates(cs, ps) == merge_candidates(
            add_candidate(cs, ps[0]),
            ps.drop_first(),
        ));
    }
}

/// Merging appends: the accumulator stays as a prefix.
pub proof fn lemma_merge_prefix(cs: Seq<Candidate>, ps: Seq<Candidate>)
    ensures
        merge_candidates(cs, ps).len() >= cs.len(),
        forall|i: int| 0 <= i < cs.len() ==> merge_candidates(cs, ps)[i] == cs[i],
    decreases ps.len(),
{
    if ps.len() != 0 {
        lemma_merge_prefix(add_candidate(cs, ps[0]), ps.drop_first());
    }
}

/// Every merged candidate comes from the accumulator or from the run.
pub proof fn lemma_merge_elems(cs: Seq<Candidate>, ps: Seq<Candidate>)
    ensures
        forall|i: int|
            0 <= i < merge_candidates(cs, ps).len() ==> cs.contains(
                #[trigger] merge_candidates(cs, ps)[i],
            ) || ps.contains(merge_candidates(cs, ps)[i]),
    decreases ps.len(),
{
    if ps.len() != 0 {
        lemma_merge_elems(add_candidate(cs, ps[0]), ps.drop_first());
        assert forall|i: int| 0 <= i < merge_candidates(cs, ps).len() implies cs.contains(
            #[trigger] merge_candidates(cs, ps)[i],
        ) || ps.contains(merge_candidates(cs, ps)[i]) by {
            let q = merge_candidates(cs, ps)[i];
            assert(merge_candidates(cs, ps) == merge_candidates(add_candidate(cs, ps[0]), ps.drop_first()));
            if add_candidate(cs, ps[0]).contains(q) {
                let w = choose|w: int| 0 <= w < add_candidate(cs, ps[0]).len() && add_candidate(cs, ps[0])[w] == q;
                if w < cs.len() {
                    assert(cs[w] == q);
                } else {
                    assert(q == ps[0]);
                    assert(ps.contains(q)) by {
                        assert(ps[0] == q);
                    }
                }
            } else {
                let w = choose|w: int| 0 <= w < ps.drop_first().len() && ps.drop_first()[w] == q;
                assert(ps[w + 1] == q);
            }
        }
    }
}

/// A run candidate whose label is new — to the accumulator and to the run
/// before it — ends up in the merge.
pub proof fn lemma_merge_adds(cs: Seq<Candidate>, ps: Seq<Candidate>, w: int)
    requires
        0 <= w < ps.len(),
        !has_label(cs, ps[w].0),
        forall|u: int| 0 <= u < w ==> ps[u].0 != ps[w].0,
    ensures
        merge_candidates(cs, ps).contains(ps[w]),
    decreases ps.len(),
{
    let a = add_candidate(cs, ps[0]);
    if w == 0 {
        assert(a == cs.push(ps[0]));
        assert(a[cs.len() as int] == ps[0]);
        lemma_merge_prefix(a, ps.drop_first());
        assert(merge_candidates(cs, ps)[cs.len() as int] == ps[0]);
    } else {
        assert(!has_label(a, ps[w].0)) by {
            if has_label(a, ps[w].0) {
                let v = choose|v: int| 0 <= v < a.len() && a[v].0 == ps[w].0;
                if v < cs.len() {
                    assert(cs[v].0 == ps[w].0);
                } else {
                    assert(a[v] == ps[0]);
                }
            }
        }
        assert(ps.drop_first()[w - 1] == ps[w]);
        assert forall|u: int|
            0 <= u < w - 1 implies (#[trigger] ps.drop_first()[u]).0 != ps.drop_first()[w
            - 1].0 by {
            assert(ps[u + 1].0 != ps[w].0);
        }
        lemma_merge_adds(a, ps.drop_first(), w - 1);
    }
}

/// A label is present after a merge exactly when it was present before or
/// the run carries it.
pub proof fn lemma_merge_has_label(cs: Seq<Candidate>, ps: Seq<Candidate>, label: u32)
    ensures
        has_label(merge_candidates(cs, ps), label) <==> has_label(cs, label) || has_label(
            ps,
            label,
        ),
    decreases ps.len(),
{
    if ps.len() == 0 {
        assert(!has_label(ps, label));
    } else {
        lemma_merge_has_label(add_candidate(cs, ps[0]), ps.drop_first(), label);
        assert(has_label(ps.drop_first(), label) || ps[0].0 == label ==> has_label(ps, label)) by {
            if has_label(ps.drop_first(), label) {
                let w = choose|w: int|
                    0 <= w < ps.drop_first().len() && ps.drop_first()[w].0 == label;
                assert(ps[w + 1].0 == label);
            }
        }
        assert(has_label(ps, label) && ps[0].0 != label ==> has_label(ps.drop_first(), label)) by {
            if has_label(ps, label) && ps[0].0 != label {
                let w = choose|w: int| 0 <= w < ps.len() && ps[w].0 == label;
                assert(ps.drop_first()[w - 1].0 == label);
            }
        }
        if has_label(cs, label) || ps[0].0 == label {
            assert(has_label(add_candidate(cs, ps[0]), label)) by {
                if has_label(cs, label) {
                    let w = choose|w: int| 0 <= w < cs.len() && cs[w].0 == label;
                    assert(add_candidate(cs, ps[0])[w].0 == label);
                } else {
                    let n = cs.len() as int;
                    assert(add_candidate(cs, ps[0])[n].0 == label);
                }
            }
        }
        if has_label(add_candidate(cs, ps[0]), label) {
            assert(has_label(cs, label) || ps[0].0 == label) by {
                let w = choose|w: int|
                    0 <= w < add_candidate(cs, ps[0]).len() && add_candidate(cs, ps[0])[w].0
                        == label;
                if w < cs.len() {
                    assert(cs[w].0 == label);
                }
            }
        }
    }
}

/// Merging keeps labels distinct.
pub proof fn lemma_merge_distinct(cs: Seq<Candidate>, ps: Seq<Candidate>)
    requires
        distinct_labels(cs),
    ensures
        distinct_labels(merge_candidates(cs, ps)),
    decreases ps.len(),
{
    if ps.len() != 0 {
        assert(distinct_labels(add_candidate(cs, ps[0]))) by {
            if !has_label(cs, ps[0].0) {
                let a = cs.push(ps[0]);
                assert forall|i: int, j: int| 0 <= i < j < a.len() implies a[i].0 != a[j].0 by {
                    if j == cs.len() {
                        assert(a[i] == cs[i]);
                    }
                }
            }
        }
        lemma_merge_distinct(add_candidate(cs, ps[0]), ps.drop_first());
    }
}

/// What `insert_desc` does, element by element: one longer, the same
/// multiset with the new candidate added, and ordered if the input was.
pub proof fn lemma_insert_desc_props(p: Candidate, cs: Seq<Candidate>)
    ensures
        insert_desc(p, cs).len() == cs.len() + 1,
        insert_desc(p, cs).to_multiset() == cs.to_multiset().insert(p),
        sorted_desc(cs) ==> sorted_desc(insert_desc(p, cs)),
    decreases cs.len(),
{
    broadcast use vstd::seq_lib::to_multiset_insert;
    broadcast use vstd::seq_lib::to_multiset_build;
    broadcast use vstd::seq_lib::to_multiset_len;

    if cs.len() == 0 {
        assert(cs =~= Seq::<Candidate>::empty());
        assert(seq![p] =~= cs.push(p));
        assert(cs.push(p).to_multiset() == cs.to_multiset().insert(p));
    } else if p.1 >= cs[0].1 {
        assert(seq![p] + cs =~= cs.insert(0, p));
        assert(cs.insert(0, p).to_multiset() == cs.to_multiset().insert(p));
        assert(sorted_desc(cs) ==> sorted_desc(seq![p] + cs)) by {
            if sorted_desc(cs) {
                let r = seq![p] + cs;
                assert forall|i: int, j: int| 0 <= i <= j < r.len() implies r[i].1 >= r[j].1 by {
                    if 0 < i {
                        assert(r[i] == cs[i - 1] && r[j] == cs[j - 1]);
                    } else if 0 < j {
                        assert(r[j] == cs[j - 1]);
                        assert(cs[0].1 >= cs[j - 1].1);
                    }
                }
            }
        }
    } else {
        lemma_insert_desc_props(p, cs.drop_first());
        let inner = insert_desc(p, cs.drop_first());
        let r = seq![cs[0]] + inner;
        assert(r =~= inner.insert(0, cs[0]));
        assert(cs =~= cs.drop_first().insert(0, cs[0]));
        assert(r.to_multiset() == inner.to_multiset().insert(cs[0]));
        assert(cs.to_multiset() == cs.drop_first().to_multiset().insert(cs[0]));
        assert(inner.to_multiset().insert(cs[0]) =~= cs.drop_first().to_multiset().insert(
            cs[0],
        ).insert(p));
        assert(cs.to_multiset().insert(p) =~= cs.drop_first().to_multiset().insert(cs[0]).insert(
            p,
        ));
        assert(sorted_desc(cs) ==> sorted_desc(r)) by {
            if sorted_desc(cs) {
                assert(sorted_desc(cs.drop_first())) by {
                    assert forall|i: int, j: int|
                        0 <= i <= j < cs.drop_first().len() implies cs.drop_first()[i].1
                        >= cs.drop_first()[j].1 by {
                        assert(cs[i + 1].1 >= cs[j + 1].1);
                    }
                }
                assert forall|i: int, j: int| 0 <= i <= j < r.len() implies r[i].1 >= r[j].1 by {
                    broadcast use vstd::seq_lib::to_multiset_contains;

                    if 0 < i {
                        assert(r[i] == inner[i - 1] && r[j] == inner[j - 1]);
                    } else if 0 < j {
                        assert(r[j] == inner[j - 1]);
                        // the head bounds every element that went into `inner`
                        assert(inner.to_multiset().contains(inner[j - 1]));
                        if inner[j - 1] == p {
                            assert(cs[0].1 >= p.1);
                        } else {
                            assert(cs.drop_first().to_multiset().contains(inner[j - 1]));
                            assert(cs.drop_first().contains(inner[j - 1]));
                            let v = choose|v: int|
                                0 <= v < cs.drop_first().len() && cs.drop_first()[v] == inner[j
                                    - 1];
                            assert(cs[v + 1] == inner[j - 1]);
                            assert(cs[0].1 >= cs[v + 1].1);
                        }
                    }
                }
            }
        }
    }
}

/// Sorting permutes the candidates: same length, same multiset, ordered.
pub proof fn lemma_sort_desc_props(cs: Seq<Candidate>)
    ensures
        sort_desc(cs).len() == cs.len(),
        sort_desc(cs).to_multiset() == cs.to_multiset(),
        sorted_desc(sort_desc(cs)),
    decreases cs.len(),
{
    broadcast use vstd::seq_lib::to_multiset_insert;
    broadcast use vstd::seq_lib::to_multiset_len;

    if cs.len() != 0 {
        lemma_sort_desc_props(cs.drop_first());
        lemma_insert_desc_props(cs[0], sort_desc(cs.drop_first()));
        assert(cs =~= cs.drop_first().insert(0, cs[0]));
        assert(cs.to_multiset() == cs.drop_first().to_multiset().insert(cs[0]));
    }
}

/// Every sorted candidate is one of the accumulated candidates.
pub proof fn lemma_sort_desc_elems(cs: Seq<Candidate>)
    ensures
        forall|i: int| 0 <= i < sort_desc(cs).len() ==> cs.contains(#[trigger] sort_desc(cs)[i]),
{
    broadcast use vstd::seq_lib::to_multiset_contains;

    lemma_sort_desc_props(cs);
    assert forall|i: int| 0 <= i < sort_desc(cs).len() implies cs.contains(
        #[trigger] sort_desc(cs)[i],
    ) by {
        assert(sort_desc(cs).contains(sort_desc(cs)[i]));
        assert(sort_desc(cs).to_multiset().contains(sort_desc(cs)[i]));
    }
}

/// Distinct labels bounded by `n` admit at most `n` candidates.
pub proof fn lemma_distinct_label_count(cs: Seq<Candidate>, n: nat)
    requires
        distinct_labels(cs),
        forall|i: int| 0 <= i < cs.len() ==> (cs[i].0 as nat) < n,
    ensures
        cs.len() <= n,
{
    let ls = Seq::new(cs.len(), |i: int| cs[i].0 as int);
    assert(ls.no_duplicates());
    ls.unique_seq_to_set();
    let rng = vstd::set_lib::set_int_range(0, n as int);
    vstd::set_lib::lemma_int_range(0, n as int);
    assert(ls.to_set().subset_of(rng)) by {
        assert forall|x: int| ls.to_set().contains(x) implies rng.contains(x) by {
            assert(ls.contains(x));
            let w = choose|w: int| 0 <= w < ls.len() && ls[w] == x;
            assert((cs[w].0 as nat) < n);
        }
    }
    vstd::set_lib::lemma_len_subset(ls.to_set(), rng);
}

/// Distinct candidates holding every label below `n` number exactly `n`.
pub proof fn lemma_complete_label_count(cs: Seq<Candidate>, n: nat)
    requires
        distinct_labels(cs),
        n <= u32::MAX,
        forall|i: int| 0 <= i < cs.len() ==> (cs[i].0 as nat) < n,
        forall|l: int| 0 <= l < n ==> #[trigger] has_label(cs, l as u32),
    ensures
        cs.len() == n,
{
    lemma_distinct_label_count(cs, n);
    let ls = Seq::new(cs.len(), |i: int| cs[i].0 as int);
    assert(ls.no_duplicates());
    ls.unique_seq_to_set();
    let rng = vstd::set_lib::set_int_range(0, n as int);
    vstd::set_lib::lemma_int_range(0, n as int);
    assert(rng.subset_of(ls.to_set())) by {
        assert forall|x: int| rng.contains(x) implies ls.to_set().contains(x) by {
            assert(has_label(cs, x as u32));
            let w = choose|w: int| 0 <= w < cs.len() && cs[w].0 == (x as u32);
            assert(ls[w] == x);
            assert(ls.contains(x));
        }
    }
    vstd::set_lib::lemma_len_subset(rng, ls.to_set());
}

/// Does some candidate already carry `label`?
pub fn contains_label(cs: &Vec<Candidate>, label: u32) -> (r: bool)
    ensures
        r == has_label(cs@, label),
{
    let n = cs.len();
    let mut i: usize = 0;
    while i < n
        invariant
            i <= n,
            n == cs@.len(),
            forall|j: int| 0 <= j < i ==> cs@[j].0 != label,
        decreases n - i,
    {
        if cs[i].0 == label {
            return true;
        }
        i += 1;
    }
    false
}

/// The first position whose entry the value `v` is not below.
fn find_insert_pos(cs: &Vec<Candidate>, v: i64) -> (pos: usize)
    ensures
        pos <= cs@.len(),
        forall|j: int| 0 <= j < pos ==> cs@[j].1 > v,
        pos < cs@.len() ==> v >= cs@[pos as int].1,
{
    let n = cs.len();
    let mut pos: usize = 0;
    while pos < n
        invariant
            pos <= n,
            n == cs@.len(),
            forall|j: int| 0 <= j < pos ==> cs@[j].1 > v,
        decreases n - pos,
    {
        if v >= cs[pos].1 {
            return pos;
        }
        pos += 1;
    }
    pos
}

/// Inserting at the found position is what `insert_desc` means.
proof fn lemma_insert_desc_at(p: Candidate, cs: Seq<Candidate>, pos: int)
    requires
        0 <= pos <= cs.len(),
        forall|j: int| 0 <= j < pos ==> cs[j].1 > p.1,
        pos < cs.len() ==> p.1 >= cs[pos].1,
    ensures
        insert_desc(p, cs) == cs.insert(pos, p),
    decreases cs.len(),
{
    if cs.len() == 0 {
        assert(seq![p] =~= cs.insert(0, p));
    } else if pos == 0 {
        assert(seq![p] + cs =~= cs.insert(0, p));
    } else {
        assert(cs[0].1 > p.1);
        assert forall|j: int| 0 <= j < pos - 1 implies cs.drop_first()[j].1 > p.1 by {
            assert(cs[j + 1].1 > p.1);
        }
        lemma_insert_desc_at(p, cs.drop_first(), pos - 1);
        assert(seq![cs[0]] + cs.drop_first().insert(pos - 1, p) =~= cs.insert(pos, p));
    }
}

/// Sort the candidates by log-probability from high to low; a tie keeps
/// the accumulation order.
pub fn sort_candidates(cs: &Vec<Candidate>) -> (r: Vec<Candidate>)
    ensures
        r@ == sort_desc(cs@),
{
    let n = cs.len();
    let mut out: Vec<Candidate> = Vec::new();
    let mut i: usize = n;
    while i > 0
        invariant
            i <= n,
            n == cs@.len(),
            out@ == sort_desc(cs@.subrange(i as int, n as int)),
        decreases i,
    {
        i -= 1;
        let p = cs[i];
        let pos = find_insert_pos(&out, p.1);
        let ghost pre = out@;
        out.insert(pos, p);
        proof {
            lemma_insert_desc_at(p, pre, pos as int);
            let rest = cs@.subrange(i as int, n as int);
            assert(rest[0] == cs@[i as int]);
            assert(rest.drop_first() =~= cs@.subrange(i + 1, n as int));
            assert(out@ == insert_desc(p, sort_desc(rest.drop_first())));
        }
    }
    proof {
        assert(cs@.subrange(0, n as int) =~= cs@);
    }
    out
}

} // verus!
