//! The symbol table: a bidirectional mapping between token strings and
//! dense integer labels, where a token's label is its insertion index.
//!
//! The table is backed by `indexmap::IndexSet`, which keeps its elements in
//! insertion order.  The set is reached only through the trusted wrappers
//! below; every contract speaks about `symt_contents`, the sequence of
//! token strings the set holds in insertion order.

use vstd::prelude::*;
use indexmap::IndexSet;

verus! {

#[verifier::external_type_specification]
#[verifier::external_body]
#[verifier::reject_recursive_types(T)]
#[verifier::reject_recursive_types(S)]
pub struct ExIndexSet<T, S>(IndexSet<T, S>);

/// The token strings a symbol set holds, in insertion order.
pub uninterp spec fn symt_contents(s: IndexSet<String>) -> Seq<Seq<char>>;

/// Relies on indexmap::IndexSet::new: makes an empty set.
#[verifier::external_body]
fn symt_new() -> (r: IndexSet<String>)
    ensures
        symt_contents(r) == Seq::<Seq<char>>::empty(),
{
    IndexSet::new()
}

/// Relies on indexmap::IndexSet::insert: a value not yet present is
/// appended at the end and `true` is returned; a value already present
/// leaves the set unchanged and `false` is returned.
#[verifier::external_body]
fn symt_insert(s: &mut IndexSet<String>, symbol: String) -> (r: bool)
    ensures
        r == !symt_contents(*old(s)).contains(symbol@),
        symt_contents(*final(s)) == if symt_contents(*old(s)).contains(symbol@) {
            symt_contents(*old(s))
        } else {
            symt_contents(*old(s)).push(symbol@)
        },
{
    s.insert(symbol)
}

/// Relies on indexmap::IndexSet::get_index_of: gives the insertion index of
/// a value the set holds, and `None` for a value it does not hold.
#[verifier::external_body]
fn symt_index_of(s: &IndexSet<String>, symbol: &str) -> (r: Option<usize>)
    ensures
        match r {
            Some(i) => i < symt_contents(*s).len() && symt_contents(*s)[i as int] == symbol@,
            None => !symt_contents(*s).contains(symbol@),
        },
{
    s.get_index_of(symbol)
}

/// Relies on indexmap::IndexSet::get_index: gives the value at an insertion
/// index below the set's length.
#[verifier::external_body]
fn symt_get<'a>(s: &'a IndexSet<String>, i: usize) -> (r: &'a String)
    requires
        i < symt_contents(*s).len(),
    ensures
        r@ == symt_contents(*s)[i as int],
{
    s.get_index(i).unwrap()
}

/// Relies on indexmap::IndexSet::len: the number of values the set holds.
#[verifier::external_body]
fn symt_len(s: &IndexSet<String>) -> (r: usize)
    ensures
        r == symt_contents(*s).len(),
{
    s.len()
}

/// Relies on indexmap::IndexSet::iter: yields the values in insertion
/// order; each is cloned into the result.
#[verifier::external_body]
fn symt_to_vec(s: &IndexSet<String>) -> (r: Vec<String>)
    ensures
        r@.len() == symt_contents(*s).len(),
        forall|i: int| 0 <= i < r@.len() ==> r@[i]@ == symt_contents(*s)[i],
{
    s.iter().cloned().collect()
}

/// A set of unique token strings, each carrying the dense label equal to
/// its insertion index.  Immutable once built.
pub struct SymbolTable {
    pub set: IndexSet<String>,
}

impl View for SymbolTable {
    type V = Seq<Seq<char>>;

    open spec fn view(&self) -> Seq<Seq<char>> {
        symt_contents(self.set)
    }
}

impl SymbolTable {
    /// No two labels name the same token string.
    pub open spec fn wf(&self) -> bool {
        forall|i: int, j: int| 0 <= i < j < self@.len() ==> self@[i] != self@[j]
    }

    /// An empty table.
    pub fn new() -> (r: SymbolTable)
        ensures
            r@ == Seq::<Seq<char>>::empty(),
            r.wf(),
    {
        SymbolTable { set: symt_new() }
    }

    /// Insert a token.  A token seen before keeps its first label; a new
    /// token is assigned the next free label.
    pub fn insert(&mut self, symbol: String) -> (r: bool)
        requires
            old(self).wf(),
        ensures
            final(self).wf(),
            r == !old(self)@.contains(symbol@),
            final(self)@ == if old(self)@.contains(symbol@) {
                old(self)@
            } else {
                old(self)@.push(symbol@)
            },
    {
        let ghost pre = self@;
        let r = symt_insert(&mut self.set, symbol);
        proof {
            if !pre.contains(symbol@) {
                assert forall|i: int, j: int| 0 <= i < j < self@.len() implies self@[i]
                    != self@[j] by {
                    if j == pre.len() {
                        assert(self@[i] == pre[i]);
                    }
                }
            }
        }
        r
    }

    /// The label of a token, or `None` for a token the table does not hold.
    pub fn label_of(&self, symbol: &str) -> (r: Option<usize>)
        ensures
            match r {
                Some(i) => i < self@.len() && self@[i as int] == symbol@ && self@.contains(
                    symbol@,
                ),
                None => !self@.contains(symbol@),
            },
    {
        let r = symt_index_of(&self.set, symbol);
        proof {
            if let Some(i) = r {
                assert(self@.contains(symbol@)) by {
                    assert(self@[i as int] == symbol@);
                }
            }
        }
        r
    }

    /// The token carrying a label.  Every label below the table's length is
    /// valid; an out-of-range label is a programming error, ruled out here
    /// by precondition.
    pub fn token_of(&self, label: usize) -> (r: &String)
        requires
            label < self@.len(),
        ensures
            r@ == self@[label as int],
    {
        symt_get(&self.set, label)
    }

    /// How many tokens the table holds.
    pub fn len(&self) -> (r: usize)
        ensures
            r == self@.len(),
    {
        symt_len(&self.set)
    }

    /// All tokens in label order.
    pub fn to_vec(&self) -> (r: Vec<String>)
        ensures
            r@.len() == self@.len(),
            forall|i: int| 0 <= i < r@.len() ==> r@[i]@ == self@[i],
    {
        symt_to_vec(&self.set)
    }
}

} // verus!
