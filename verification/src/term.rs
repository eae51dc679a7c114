use std::collections::HashSet;
use std::hash::{Hash, Hasher};
use vstd::prelude::*;

use crate::adaptors::{pad, paired_at, zip_longest};
use crate::pattern::{
    count_true, covered, differences, differences_below, fits, lemma_covered_determines,
    lemma_differences_monotone, lemma_differences_symmetric, lemma_no_difference, lemma_two_differences, merged, same_pattern, trues_below, val_at, width,
};
use crate::sets::{ascending, copy, elements, extend, same};

verus! {

/// One position of a term.
#[derive(Debug, Copy, Clone, Eq, PartialEq, Hash, Structural)]
pub enum Val {
    /// The variable must be 1.
    T,
    /// The variable must be 0.
    F,
    /// The variable has been merged away and may be either.
    S,
}

/// The mathematical content of a [`Term`].
pub struct TermView {
    /// The positions, least significant first.
    pub pattern: Seq<Val>,
    /// The numbers the term covers.
    pub sources: Set<u32>,
}

impl TermView {
    /// Equality of terms: the same pattern after extension with `F`, and the
    /// same sources.
    pub open spec fn equals(self, other: TermView) -> bool {
        same_pattern(self.pattern, other.pattern) && self.sources == other.sources
    }

    /// A term is well formed when its pattern fits 32 bits and its sources
    /// are exactly the numbers that the pattern stands for.
    pub open spec fn well_formed(self) -> bool {
        fits(self.pattern) && self.sources == covered(self.pattern)
    }

    /// The result of merging two terms: defined when their patterns differ at
    /// exactly one position.
    pub open spec fn merge(self, other: TermView) -> Option<TermView> {
        if differences(self.pattern, other.pattern) == 1 {
            Some(
                TermView {
                    pattern: merged(self.pattern, other.pattern),
                    sources: self.sources.union(other.sources),
                },
            )
        } else {
            None
        }
    }
}

/// Merging does not depend on the order of the two terms: it succeeds one
/// way exactly when it succeeds the other way, and then both ways give equal
/// terms.
pub proof fn lemma_merge_symmetric(a: TermView, b: TermView)
    ensures
        a.merge(b) is Some <==> b.merge(a) is Some,
        a.merge(b) is Some ==> a.merge(b)->0.equals(b.merge(a)->0),
        a.merge(b) == b.merge(a),
{
    lemma_differences_symmetric(a.pattern, b.pattern, width(a.pattern, b.pattern));
    assert(merged(a.pattern, b.pattern) =~= merged(b.pattern, a.pattern));
    assert(a.sources.union(b.sources) =~= b.sources.union(a.sources));
}

/// Terms do not merge unless their patterns, extended with `F` to the same
/// length, differ at exactly one position: the same pattern gives nothing,
/// and so do patterns that differ at two positions or more.
pub proof fn lemma_merge_needs_one_difference(a: TermView, b: TermView)
    requires
        same_pattern(a.pattern, b.pattern) || exists|i: int, j: int|
            0 <= i && 0 <= j && i != j && val_at(a.pattern, i) != val_at(b.pattern, i) && val_at(
                a.pattern,
                j,
            ) != val_at(b.pattern, j),
    ensures
        a.merge(b) is None,
{
    lemma_no_difference(a.pattern, b.pattern);
    if !same_pattern(a.pattern, b.pattern) {
        let (i, j) = choose|i: int, j: int|
            0 <= i && 0 <= j && i != j && val_at(a.pattern, i) != val_at(b.pattern, i) && val_at(
                a.pattern,
                j,
            ) != val_at(b.pattern, j);
        lemma_two_differences(a.pattern, b.pattern, i, j);
    }
}

/// Well-formed terms with the same sources are equal, whatever the lengths of
/// their patterns.
pub proof fn lemma_equal_sources(a: TermView, b: TermView)
    requires
        a.well_formed(),
        b.well_formed(),
        a.sources == b.sources,
    ensures
        a.equals(b),
{
    lemma_covered_determines(a.pattern, b.pattern);
}

/// Every number that some term of the list covers.
pub open spec fn sources_of(terms: Seq<Term>) -> Set<u32> {
    Set::new(
        |x: u32| exists|m: int| 0 <= m < terms.len() && (#[trigger] terms[m]).sources@.contains(x),
    )
}

/// A boolean term: a pattern over `T`, `F` and `S`, least significant
/// position first, with the set of numbers it covers.
///
/// Two terms are equal when their patterns agree once the shorter one is
/// extended with `F`, and their sources agree. A term keeps no record of
/// having merged: the search for prime implicants keeps that itself.
#[derive(Debug)]
pub struct Term {
    /// The pattern, least significant position first.
    pub term: Vec<Val>,
    /// The numbers that the term covers.
    pub sources: HashSet<u32>,
}

impl View for Term {
    type V = TermView;

    open spec fn view(&self) -> TermView {
        TermView { pattern: self.term@, sources: self.sources@ }
    }
}

impl Term {
    /// Builds a term from a pattern and the numbers it covers.
    pub fn new(term: Vec<Val>, sources: HashSet<u32>) -> (r: Self)
        ensures
            r.term == term,
            r.sources == sources,
    {
        Self { term, sources }
    }

    /// The number of `T` positions.
    pub fn ones(&self) -> (r: usize)
        ensures
            r == count_true(self.term@),
    {
        let mut n: usize = 0;
        let mut i: usize = 0;
        while i < self.term.len()
            invariant
                i <= self.term.len(),
                n <= i,
                n == trues_below(self.term@, i as nat),
            decreases self.term.len() - i,
        {
            if self.term[i] == Val::T {
                n += 1;
            }
            i += 1;
        }
        n
    }

    /// Merges two terms whose patterns differ at exactly one position: the
    /// result has `S` there and covers what either term covers. Any other
    /// pair of terms gives `None`.
    pub fn combine(&self, other: &Term) -> (r: Option<Term>)
        ensures
            match r {
                Some(t) => self@.merge(other@) == Some(t@),
                None => self@.merge(other@) is None,
            },
    {
        let pairs = zip_longest(&self.term, &other.term);
        let mut diff: usize = 0;
        let mut new_term: Vec<Val> = Vec::with_capacity(pairs.len());
        let mut i: usize = 0;
        while i < pairs.len()
            invariant
                i <= pairs.len(),
                pairs@.len() == width(self.term@, other.term@),
                forall|j: int|
                    0 <= j < pairs@.len() ==> pairs@[j] == paired_at(self.term@, other.term@, j),
                diff == differences_below(self.term@, other.term@, i as nat),
                diff <= 1,
                new_term@ == merged(self.term@, other.term@).take(i as int),
            decreases pairs.len() - i,
        {
            let (val1, val2) = pad(pairs[i]);
            assert(val1 == val_at(self.term@, i as int));
            assert(val2 == val_at(other.term@, i as int));
            if val1 != val2 {
                diff += 1;
                new_term.push(Val::S);
            } else {
                new_term.push(val1);
            }
            assert(new_term@ == merged(self.term@, other.term@).take(i + 1));
            if diff > 1 {
                proof {
                    lemma_differences_monotone(
                        self.term@,
                        other.term@,
                        (i + 1) as nat,
                        width(self.term@, other.term@),
                    );
                }
                return None;
            }
            i += 1;
        }
        if diff == 1 {
            let mut sources = copy(&self.sources);
            extend(&mut sources, &other.sources);
            assert(new_term@ == merged(self.term@, other.term@));
            Some(Term::new(new_term, sources))
        } else {
            None
        }
    }
}

impl Clone for Term {
    /// A term with the same pattern and the same sources.
    fn clone(&self) -> (r: Self)
        ensures
            r@ == self@,
    {
        let term = self.term.clone();
        assert(term@ == self.term@);
        Term { term, sources: copy(&self.sources) }
    }
}

impl PartialEq for Term {
    /// Whether the terms are equal, as `eq_spec` states it.
    fn eq(&self, other: &Self) -> (r: bool) {
        let pairs = zip_longest(&self.term, &other.term);
        let mut i: usize = 0;
        while i < pairs.len()
            invariant
                i <= pairs.len(),
                pairs@.len() == width(self.term@, other.term@),
                forall|j: int|
                    0 <= j < pairs@.len() ==> pairs@[j] == paired_at(self.term@, other.term@, j),
                forall|j: int| 0 <= j < i ==> val_at(self.term@, j) == val_at(other.term@, j),
            decreases pairs.len() - i,
        {
            let (val1, val2) = pad(pairs[i]);
            assert(val1 == val_at(self.term@, i as int));
            assert(val2 == val_at(other.term@, i as int));
            if val1 != val2 {
                return false;
            }
            i += 1;
        }
        same(&self.sources, &other.sources)
    }
}

impl vstd::std_specs::cmp::PartialEqSpecImpl for Term {
    open spec fn obeys_eq_spec() -> bool {
        true
    }

    open spec fn eq_spec(&self, other: &Term) -> bool {
        self@.equals(other@)
    }
}

impl Eq for Term {

}

impl Term {
    /// The sources in ascending order, each once: what hashing a term rests
    /// on.
    pub fn sorted_sources(&self) -> (r: Vec<u32>)
        ensures
            r@.to_set() == self.sources@,
            forall|i: int, j: int| 0 <= i < j < r@.len() ==> r@[i] < r@[j],
    {
        let ordered = ascending(elements(&self.sources));
        assert forall|i: int, j: int| 0 <= i < j < ordered@.len() implies ordered@[i]
            < ordered@[j] by {
            assert(ordered@[i] != ordered@[j]);
            assert(ordered@[i] as int <= ordered@[j] as int);
        }
        ordered
    }
}

impl Hash for Term {
    /// Feeds the sources to the hasher in ascending order, and nothing of the
    /// pattern: terms that are equal hash alike whatever the lengths of their
    /// patterns.
    fn hash<H: Hasher>(&self, state: &mut H) {
        let ordered = self.sorted_sources();
        let mut i: usize = 0;
        while i < ordered.len()
            invariant
                i <= ordered.len(),
            decreases ordered.len() - i,
        {
            ordered[i].hash(state);
            i += 1;
        }
    }
}

/// A set of numbers has one ascending order: two ascending lists of the same
/// numbers are the same list.
pub proof fn lemma_ascending_unique(a: Seq<u32>, b: Seq<u32>)
    requires
        a.to_set() == b.to_set(),
        forall|i: int, j: int| 0 <= i < j < a.len() ==> a[i] < a[j],
        forall|i: int, j: int| 0 <= i < j < b.len() ==> b[i] < b[j],
    ensures
        a == b,
    decreases a.len(),
{
    if a.len() == 0 {
        if b.len() > 0 {
            assert(b.to_set().contains(b[0]));
            assert(a.to_set().contains(b[0]));
        }
        assert(a =~= b);
    } else {
        assert(a.to_set().contains(a.last()));
        assert(b.to_set().contains(a.last()));
        assert(b.len() > 0);
        assert(b.to_set().contains(b.last()));
        assert(a.to_set().contains(b.last()));
        let ia = choose|i: int| 0 <= i < a.len() && a[i] == b.last();
        let ib = choose|i: int| 0 <= i < b.len() && b[i] == a.last();
        assert(a.last() == b.last());
        let a2 = a.drop_last();
        let b2 = b.drop_last();
        assert forall|x: u32| a2.to_set().contains(x) <==> b2.to_set().contains(x) by {
            if a2.to_set().contains(x) {
                let i = choose|i: int| 0 <= i < a2.len() && a2[i] == x;
                assert(a[i] == x);
                assert(a.to_set().contains(x));
                assert(b.to_set().contains(x));
                let k = choose|k: int| 0 <= k < b.len() && b[k] == x;
                assert(x < a.last());
                assert(k < b.len() - 1);
                assert(b2[k] == x);
            }
            if b2.to_set().contains(x) {
                let i = choose|i: int| 0 <= i < b2.len() && b2[i] == x;
                assert(b[i] == x);
                assert(b.to_set().contains(x));
                assert(a.to_set().contains(x));
                let k = choose|k: int| 0 <= k < a.len() && a[k] == x;
                assert(x < b.last());
                assert(k < a.len() - 1);
                assert(a2[k] == x);
            }
        }
        assert(a2.to_set() =~= b2.to_set());
        lemma_ascending_unique(a2, b2);
        assert(a =~= a2.push(a.last()));
        assert(b =~= b2.push(b.last()));
    }
}

} // verus!
