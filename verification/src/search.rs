//! Binary search over one run of the bigram or trigram array.
//!
//! A run is a contiguous sub-range of a record array holding all
//! continuations of one parent context, strictly ascending by destination
//! label.  Construction guarantees the ordering; it is a precondition here,
//! not re-validated per call.

use vstd::prelude::*;
use crate::model::Bigram;
use crate::model::Trigram;

verus! {

/// The bigram run `[off, off + n)` is strictly ascending by destination label.
pub open spec fn bigram_run_sorted(bs: Seq<Bigram>, off: int, n: int) -> bool {
    forall|i: int, j: int| off <= i < j < off + n ==> bs[i].dest_label < bs[j].dest_label
}

/// Some record of the bigram run `[off, off + n)` has destination `label`.
pub open spec fn bigram_run_has(bs: Seq<Bigram>, off: int, n: int, label: u32) -> bool {
    exists|i: int| off <= i < off + n && bs[i].dest_label == label
}

/// The trigram run `[off, off + n)` is strictly ascending by destination label.
pub open spec fn trigram_run_sorted(ts: Seq<Trigram>, off: int, n: int) -> bool {
    forall|i: int, j: int| off <= i < j < off + n ==> ts[i].dest_label < ts[j].dest_label
}

/// Some record of the trigram run `[off, off + n)` has destination `label`.
pub open spec fn trigram_run_has(ts: Seq<Trigram>, off: int, n: int, label: u32) -> bool {
    exists|i: int| off <= i < off + n && ts[i].dest_label == label
}

/// Binary search of a bigram run for a destination label.
pub fn lookup_bigram(bs: &Vec<Bigram>, off: usize, n: usize, label: u32) -> (r: Option<usize>)
    requires
        off + n <= bs@.len(),
        bigram_run_sorted(bs@, off as int, n as int),
    ensures
        match r {
            Some(i) => off <= i < off + n && bs@[i as int].dest_label == label,
            None => !bigram_run_has(bs@, off as int, n as int, label),
        },
{
    let _total = bs.len();
    let mut lo: usize = off;
    let mut hi: usize = off + n;
    while lo < hi
        invariant
            off <= lo <= hi <= off + n,
            off + n <= bs@.len(),
            bigram_run_sorted(bs@, off as int, n as int),
            forall|i: int| off <= i < off + n && bs@[i].dest_label == label ==> lo <= i < hi,
        decreases hi - lo,
    {
        let mid = lo + (hi - lo) / 2;
        let d = bs[mid].dest_label;
        if d < label {
            lo = mid + 1;
        } else if label < d {
            hi = mid;
        } else {
            return Some(mid);
        }
    }
    None
}

/// Binary search of a trigram run for a destination label.
pub fn lookup_trigram(ts: &Vec<Trigram>, off: usize, n: usize, label: u32) -> (r: Option<usize>)
    requires
        off + n <= ts@.len(),
        trigram_run_sorted(ts@, off as int, n as int),
    ensures
        match r {
            Some(i) => off <= i < off + n && ts@[i as int].dest_label == label,
            None => !trigram_run_has(ts@, off as int, n as int, label),
        },
{
    let _total = ts.len();
    let mut lo: usize = off;
    let mut hi: usize = off + n;
    while lo < hi
        invariant
            off <= lo <= hi <= off + n,
            off + n <= ts@.len(),
            trigram_run_sorted(ts@, off as int, n as int),
            forall|i: int| off <= i < off + n && ts@[i].dest_label == label ==> lo <= i < hi,
        decreases hi - lo,
    {
        let mid = lo + (hi - lo) / 2;
        let d = ts[mid].dest_label;
        if d < label {
            lo = mid + 1;
        } else if label < d {
            hi = mid;
        } else {
            return Some(mid);
        }
    }
    None
}

proof fn lemma_bigram_chain(bs: Seq<Bigram>, off: int, n: int, i: int, j: int)
    requires
        forall|a: int|
            off <= a < off + n - 1 ==> (#[trigger] bs[a]).dest_label < bs[a + 1].dest_label,
        off <= i < j < off + n,
    ensures
        bs[i].dest_label < bs[j].dest_label,
    decreases j - i,
{
    if i + 1 == j {
        assert(bs[i].dest_label < bs[i + 1].dest_label);
    } else {
        lemma_bigram_chain(bs, off, n, i, j - 1);
        assert(bs[j - 1].dest_label < bs[j].dest_label);
    }
}

proof fn lemma_trigram_chain(ts: Seq<Trigram>, off: int, n: int, i: int, j: int)
    requires
        forall|a: int|
            off <= a < off + n - 1 ==> (#[trigger] ts[a]).dest_label < ts[a + 1].dest_label,
        off <= i < j < off + n,
    ensures
        ts[i].dest_label < ts[j].dest_label,
    decreases j - i,
{
    if i + 1 == j {
        assert(ts[i].dest_label < ts[i + 1].dest_label);
    } else {
        lemma_trigram_chain(ts, off, n, i, j - 1);
        assert(ts[j - 1].dest_label < ts[j].dest_label);
    }
}

/// Is the bigram run `[off, off + n)` strictly ascending by destination?
pub fn bigram_run_sorted_check(bs: &Vec<Bigram>, off: usize, n: usize) -> (r: bool)
    requires
        off + n <= bs@.len(),
    ensures
        r == bigram_run_sorted(bs@, off as int, n as int),
{
    if n <= 1 {
        return true;
    }
    let _total = bs.len();
    let mut j: usize = 1;
    while j < n
        invariant
            1 <= j <= n,
            off + n <= bs@.len(),
            bs@.len() <= usize::MAX,
            forall|a: int|
                off <= a < off + j - 1 ==> (#[trigger] bs@[a]).dest_label < bs@[a
                    + 1].dest_label,
        decreases n - j,
    {
        if bs[off + j - 1].dest_label >= bs[off + j].dest_label {
            proof {
                assert(!bigram_run_sorted(bs@, off as int, n as int)) by {
                    if bigram_run_sorted(bs@, off as int, n as int) {
                        assert(bs@[off + j - 1].dest_label < bs@[off + j].dest_label);
                    }
                }
            }
            return false;
        }
        j += 1;
    }
    proof {
        assert forall|i: int, jj: int|
            off <= i < jj < off + n implies bs@[i].dest_label < bs@[jj].dest_label by {
            lemma_bigram_chain(bs@, off as int, n as int, i, jj);
        }
    }
    true
}

/// Is the trigram run `[off, off + n)` strictly ascending by destination?
pub fn trigram_run_sorted_check(ts: &Vec<Trigram>, off: usize, n: usize) -> (r: bool)
    requires
        off + n <= ts@.len(),
    ensures
        r == trigram_run_sorted(ts@, off as int, n as int),
{
    if n <= 1 {
        return true;
    }
    let _total = ts.len();
    let mut j: usize = 1;
    while j < n
        invariant
            1 <= j <= n,
            off + n <= ts@.len(),
            ts@.len() <= usize::MAX,
            forall|a: int|
                off <= a < off + j - 1 ==> (#[trigger] ts@[a]).dest_label < ts@[a
                    + 1].dest_label,
        decreases n - j,
    {
        if ts[off + j - 1].dest_label >= ts[off + j].dest_label {
            proof {
                assert(!trigram_run_sorted(ts@, off as int, n as int)) by {
                    if trigram_run_sorted(ts@, off as int, n as int) {
                        assert(ts@[off + j - 1].dest_label < ts@[off + j].dest_label);
                    }
                }
            }
            return false;
        }
        j += 1;
    }
    proof {
        assert forall|i: int, jj: int|
            off <= i < jj < off + n implies ts@[i].dest_label < ts@[jj].dest_label by {
            lemma_trigram_chain(ts@, off as int, n as int, i, jj);
        }
    }
    true
}

/// In a strictly ascending run a destination label occurs at most once.
pub proof fn lemma_bigram_run_unique(bs: Seq<Bigram>, off: int, n: int, i: int, j: int)
    requires
        bigram_run_sorted(bs, off, n),
        off <= i < off + n,
        off <= j < off + n,
        bs[i].dest_label == bs[j].dest_label,
    ensures
        i == j,
{
}

/// In a strictly ascending run a destination label occurs at most once.
pub proof fn lemma_trigram_run_unique(ts: Seq<Trigram>, off: int, n: int, i: int, j: int)
    requires
        trigram_run_sorted(ts, off, n),
        off <= i < off + n,
        off <= j < off + n,
        ts[i].dest_label == ts[j].dest_label,
    ensures
        i == j,
{
}

} // verus!
