use std::collections::HashMap;
use vstd::prelude::*;

use crate::pattern::{
    count_true, differences, lemma_count_true_same, lemma_differences_same,
    lemma_merged_counts, lemma_merged_covers, lemma_merged_fits, lemma_merged_same,
    lemma_normal_equal, lemma_normal_same, lemma_single_difference, lemma_trues_fits,
    lemma_wilds_bound, lemma_wilds_respect, merged, normal, same_pattern, wilds_below,
};
use crate::prime::prime_implicant;
use crate::sets::ascending;
use crate::term::{sources_of, Term, TermView, Val};

verus! {

/// Two patterns are adjacent when the second has one `T` more than the first
/// and they differ at a single position: these are the pairs that the search
/// tries to merge.
pub open spec fn adjacent(lo: Seq<Val>, hi: Seq<Val>) -> bool {
    count_true(hi) == count_true(lo) + 1 && differences(lo, hi) == 1
}

/// The patterns that merging the adjacent pairs of `g` produces.
pub open spec fn next_generation(g: Set<Seq<Val>>) -> Set<Seq<Val>> {
    Set::new(
        |c: Seq<Val>|
            exists|a: Seq<Val>, b: Seq<Val>|
                g.contains(a) && g.contains(b) && #[trigger] adjacent(a, b) && c == normal(
                    merged(a, b),
                ),
    )
}

/// The patterns on the table in pass `r` of the search that starts from
/// `start`.
pub open spec fn generation(start: Set<Seq<Val>>, r: nat) -> Set<Seq<Val>>
    decreases r,
{
    if r == 0 {
        start
    } else {
        next_generation(generation(start, (r - 1) as nat))
    }
}

/// The passes that terms of 32 bits leave room for: every merge adds an `S`.
pub const PASSES: usize = 33;

/// No term of the list has an `S` in its pattern: each stands for one number.
pub open spec fn no_wildcards(terms: Seq<Term>) -> bool {
    forall|i: int| 0 <= i < terms.len() ==> wilds_below(#[trigger] terms[i].term@, 32) == 0
}

/// A pattern of `g` that merges with no other pattern of `g`.
pub open spec fn unmerged(g: Set<Seq<Val>>, c: Seq<Val>) -> bool {
    g.contains(c) && forall|b: Seq<Val>| g.contains(b) ==> !adjacent(c, b) && !adjacent(b, c)
}

/// The prime implicants of the search that starts from `start`: every pattern
/// that some pass leaves unmerged.
pub open spec fn prime_patterns(start: Set<Seq<Val>>) -> Set<Seq<Val>> {
    Set::new(|c: Seq<Val>| exists|r: nat| unmerged(#[trigger] generation(start, r), c))
}

/// The patterns of a list of terms, each in its normal form of 32 positions.
pub open spec fn patterns_of(terms: Seq<Term>) -> Set<Seq<Val>> {
    Set::new(
        |c: Seq<Val>| exists|i: int| 0 <= i < terms.len() && c == normal(#[trigger] terms[i].term@),
    )
}

/// Every term of the list is well formed.
pub open spec fn all_well_formed(terms: Seq<Term>) -> bool {
    forall|i: int| 0 <= i < terms.len() ==> (#[trigger] terms[i])@.well_formed()
}

/// The patterns that the passes before pass `r` have left unmerged.
pub open spec fn primes_before(start: Set<Seq<Val>>, r: nat) -> Set<Seq<Val>> {
    Set::new(
        |c: Seq<Val>| exists|r2: nat| r2 < r && unmerged(#[trigger] generation(start, r2), c),
    )
}

/// Some term among the first `n` of `hi` differs from pattern `a` at a single
/// position.
spec fn partner_below(a: Seq<Val>, hi: Seq<Term>, n: int) -> bool {
    exists|j: int| 0 <= j < n && j < hi.len() && differences(a, #[trigger] hi[j].term@) == 1
}

/// Some term among the first `n` of `lo` differs from pattern `b` at a single
/// position, `lo` standing on the left of the comparison.
spec fn partner_under(b: Seq<Val>, lo: Seq<Term>, n: int) -> bool {
    exists|i: int| 0 <= i < n && i < lo.len() && differences(#[trigger] lo[i].term@, b) == 1
}

/// No two terms of the list have the same pattern.
pub open spec fn distinct(b: Seq<Term>) -> bool {
    forall|i: int, j: int| 0 <= i < j < b.len() ==> normal(b[i].term@) != normal(b[j].term@)
}

/// A bucket of the table in pass `r`: well-formed terms with `k` positions
/// `T` and at least `r` positions `S`, no two of them with the same pattern.
spec fn bucket_ok(b: Seq<Term>, k: int, r: nat) -> bool {
    &&& distinct(b)
    &&& forall|i: int|
        0 <= i < b.len() ==> {
            &&& (#[trigger] b[i])@.well_formed()
            &&& count_true(b[i].term@) == k
            &&& wilds_below(b[i].term@, 32) >= r
        }
}

/// How often a pattern occurs in a list of terms.
pub open spec fn occurrences(terms: Seq<Term>, c: Seq<Val>) -> nat
    decreases terms.len(),
{
    if terms.len() == 0 {
        0
    } else {
        occurrences(terms.drop_last(), c) + one_if(normal(terms.last().term@) == c)
    }
}

/// One where the condition holds, zero where it does not.
pub open spec fn one_if(b: bool) -> nat {
    if b {
        1
    } else {
        0
    }
}

/// The number of passes before pass `r` that leave the pattern unmerged.
pub open spec fn times_unmerged(start: Set<Seq<Val>>, c: Seq<Val>, r: nat) -> nat
    decreases r,
{
    if r == 0 {
        0
    } else {
        times_unmerged(start, c, (r - 1) as nat) + one_if(
            unmerged(generation(start, (r - 1) as nat), c),
        )
    }
}

/// Well-formed terms with the same normal form are equal.
pub proof fn lemma_normal_equals(a: TermView, b: TermView)
    requires
        a.well_formed(),
        b.well_formed(),
        normal(a.pattern) == normal(b.pattern),
    ensures
        a.equals(b),
{
    assert forall|i: int| 0 <= i implies crate::pattern::val_at(a.pattern, i)
        == crate::pattern::val_at(b.pattern, i) by {
        if i < 32 {
            assert(normal(a.pattern)[i] == crate::pattern::val_at(a.pattern, i));
            assert(normal(b.pattern)[i] == crate::pattern::val_at(b.pattern, i));
        } else {
            assert(crate::pattern::val_at(a.pattern, i) == Val::F);
            assert(crate::pattern::val_at(b.pattern, i) == Val::F);
        }
    }
    assert(crate::pattern::covered(a.pattern) =~= crate::pattern::covered(b.pattern));
}

/// A pattern occurs in a list of terms exactly when it is one of the
/// patterns of the list.
pub proof fn lemma_occurs(terms: Seq<Term>, c: Seq<Val>)
    ensures
        occurrences(terms, c) > 0 <==> patterns_of(terms).contains(c),
    decreases terms.len(),
{
    if terms.len() > 0 {
        let rest = terms.drop_last();
        lemma_occurs(rest, c);
        if patterns_of(terms).contains(c) {
            let i = choose|i: int| 0 <= i < terms.len() && c == normal(#[trigger] terms[i].term@);
            if i < rest.len() {
                assert(c == normal(rest[i].term@));
            }
        }
        if patterns_of(rest).contains(c) {
            let i = choose|i: int| 0 <= i < rest.len() && c == normal(#[trigger] rest[i].term@);
            assert(c == normal(terms[i].term@));
        }
        if normal(terms.last().term@) == c {
            assert(c == normal(terms[terms.len() - 1].term@));
        }
    }
}

/// The table in pass `r`: the bucket under key `k` holds terms with `k`
/// positions `T`.
spec fn table_ok(m: Map<usize, Vec<Term>>, r: nat) -> bool {
    forall|k: usize| #[trigger] m.contains_key(k) ==> k <= 32 && bucket_ok(m[k]@, k as int, r)
}

/// The patterns on the table, in normal form.
spec fn table_patterns(m: Map<usize, Vec<Term>>) -> Set<Seq<Val>> {
    Set::new(
        |c: Seq<Val>|
            exists|k: usize, i: int|
                m.contains_key(k) && 0 <= i < m[k]@.len() && c == normal(
                    #[trigger] m[k]@[i].term@,
                ),
    )
}

/// The patterns that merging a lower bucket with the one above it produces.
spec fn merges_of(lo: Seq<Term>, hi: Seq<Term>) -> Set<Seq<Val>> {
    Set::new(
        |c: Seq<Val>|
            exists|i: int, j: int|
                0 <= i < lo.len() && 0 <= j < hi.len() && differences(lo[i].term@, hi[j].term@)
                    == 1 && c == normal(#[trigger] merged(lo[i].term@, hi[j].term@)),
    )
}

/// The key above `k`.
spec fn above(k: usize) -> usize {
    (k + 1) as usize
}

/// The patterns that merging the bucket under `k` with the bucket above it
/// produces; none where one of the two is missing.
spec fn merges_at(m: Map<usize, Vec<Term>>, k: usize) -> Set<Seq<Val>> {
    if m.contains_key(k) && m.contains_key(above(k)) {
        merges_of(m[k]@, m[above(k)]@)
    } else {
        Set::empty()
    }
}

/// The patterns that merging the buckets under the first `n` keys, each with
/// the bucket above it, produces.
spec fn merges_below(m: Map<usize, Vec<Term>>, keys: Seq<usize>, n: int) -> Set<Seq<Val>> {
    Set::new(
        |c: Seq<Val>|
            exists|j: int| 0 <= j < n && j < keys.len() && merges_at(m, #[trigger] keys[j]).contains(c),
    )
}

/// The patterns of the buckets under the first `n` keys that merge with
/// nothing on the table.
spec fn survivors_below(m: Map<usize, Vec<Term>>, keys: Seq<usize>, n: int) -> Set<
    Seq<Val>,
> {
    Set::new(
        |c: Seq<Val>|
            unmerged(table_patterns(m), c) && exists|j: int, i: int|
                0 <= j < n && j < keys.len() && m.contains_key(keys[j]) && 0 <= i < m[keys[j]]@.len()
                    && c == normal(#[trigger] m[keys[j]]@[i].term@),
    )
}

/// The keys are those of the table, in ascending order.
spec fn keys_of(keys: Seq<usize>, m: Map<usize, Vec<Term>>) -> bool {
    &&& keys.to_set() == m.dom()
    &&& forall|i: int, j: int| 0 <= i < j < keys.len() ==> keys[i] < keys[j]
}

/// A well-formed term has a pattern of at most 32 positions `T`, and is the
/// same pattern as its normal form.
pub proof fn lemma_term_normal(a: TermView)
    requires
        a.well_formed(),
    ensures
        same_pattern(normal(a.pattern), a.pattern),
        count_true(normal(a.pattern)) == count_true(a.pattern),
        count_true(a.pattern) <= 32,
        wilds_below(normal(a.pattern), 32) == wilds_below(a.pattern, 32),
        wilds_below(a.pattern, 32) <= 32,
{
    lemma_normal_same(a.pattern);
    lemma_count_true_same(normal(a.pattern), a.pattern);
    lemma_trues_fits(a.pattern);
    lemma_wilds_respect(normal(a.pattern), a.pattern, 32);
    lemma_wilds_bound(a.pattern, 32);
}

/// Merging two well-formed terms gives a well-formed term.
pub proof fn lemma_merge_well_formed(a: TermView, b: TermView)
    requires
        a.well_formed(),
        b.well_formed(),
        a.merge(b) is Some,
    ensures
        a.merge(b)->0.well_formed(),
{
    lemma_single_difference(a.pattern, b.pattern);
    let i = choose|i: int| crate::pattern::differ_only_at(a.pattern, b.pattern, i);
    lemma_merged_covers(a.pattern, b.pattern, i);
    lemma_merged_fits(a.pattern, b.pattern);
}

/// Whether `a` and `b` are adjacent can be read from their normal forms.
pub proof fn lemma_adjacent_normal(a: TermView, b: TermView)
    requires
        a.well_formed(),
        b.well_formed(),
    ensures
        adjacent(normal(a.pattern), normal(b.pattern)) <==> adjacent(a.pattern, b.pattern),
        differences(normal(a.pattern), normal(b.pattern)) == differences(a.pattern, b.pattern),
        normal(merged(normal(a.pattern), normal(b.pattern))) == normal(
            merged(a.pattern, b.pattern),
        ),
{
    lemma_term_normal(a);
    lemma_term_normal(b);
    lemma_differences_same(normal(a.pattern), normal(b.pattern), a.pattern, b.pattern);
    lemma_merged_same(normal(a.pattern), normal(b.pattern), a.pattern, b.pattern);
    lemma_normal_equal(
        merged(normal(a.pattern), normal(b.pattern)),
        merged(a.pattern, b.pattern),
    );
}

/// Every pattern on a table that is in order stands in the bucket of its
/// count of `T`.
proof fn lemma_table_member(m: Map<usize, Vec<Term>>, r: nat, c: Seq<Val>) -> (w: (usize, int))
    requires
        table_ok(m, r),
        table_patterns(m).contains(c),
    ensures
        m.contains_key(w.0),
        w.0 <= 32,
        0 <= w.1 < m[w.0]@.len(),
        c == normal(m[w.0]@[w.1].term@),
        count_true(c) == w.0,
        m[w.0]@[w.1]@.well_formed(),
{
    let (k, i) = choose|k: usize, i: int|
        m.contains_key(k) && 0 <= i < m[k]@.len() && c == normal(#[trigger] m[k]@[i].term@);
    assert(bucket_ok(m[k]@, k as int, r));
    lemma_term_normal(m[k]@[i]@);
    (k, i)
}

/// Merging each bucket with the one above it produces the next generation.
proof fn lemma_merges_are_next(m: Map<usize, Vec<Term>>, r: nat, keys: Seq<usize>)
    requires
        table_ok(m, r),
        keys_of(keys, m),
    ensures
        merges_below(m, keys, keys.len() as int) == next_generation(table_patterns(m)),
{
    let g = table_patterns(m);
    let all = merges_below(m, keys, keys.len() as int);
    assert forall|c: Seq<Val>| all.contains(c) implies next_generation(g).contains(c) by {
        let j = choose|j: int|
            0 <= j < keys.len() && j < keys.len() && merges_at(m, #[trigger] keys[j]).contains(c);
        let k = keys[j];
        let lo = m[k]@;
        let hi = m[above(k)]@;
        let (i1, i2) = choose|i1: int, i2: int|
            0 <= i1 < lo.len() && 0 <= i2 < hi.len() && differences(lo[i1].term@, hi[i2].term@)
                == 1 && c == normal(#[trigger] merged(lo[i1].term@, hi[i2].term@));
        assert(m.contains_key(k));
        assert(m.contains_key(above(k)));
        assert(bucket_ok(lo, k as int, r));
        assert(bucket_ok(hi, above(k) as int, r));
        lemma_adjacent_normal(lo[i1]@, hi[i2]@);
        let a = normal(lo[i1].term@);
        let b = normal(hi[i2].term@);
        assert(a == normal(m[k]@[i1].term@));
        assert(b == normal(m[above(k)]@[i2].term@));
        assert(g.contains(a));
        assert(g.contains(b));
        assert(adjacent(a, b));
    }
    assert forall|c: Seq<Val>| next_generation(g).contains(c) implies all.contains(c) by {
        let (a, b) = choose|a: Seq<Val>, b: Seq<Val>|
            g.contains(a) && g.contains(b) && #[trigger] adjacent(a, b) && c == normal(
                merged(a, b),
            );
        let (k, i1) = lemma_table_member(m, r, a);
        let (k2, i2) = lemma_table_member(m, r, b);
        lemma_adjacent_normal(m[k]@[i1]@, m[k2]@[i2]@);
        assert(k2 == above(k));
        let both = merged(m[k]@[i1].term@, m[above(k)]@[i2].term@);
        assert(c == normal(both));
        assert(merges_of(m[k]@, m[above(k)]@).contains(c));
        assert(keys.to_set().contains(k));
        let j = choose|j: int| 0 <= j < keys.len() && keys[j] == k;
        assert(merges_at(m, keys[j]).contains(c));
    }
    assert(all =~= next_generation(g));
}

/// A term on the table is unmerged exactly when it has no partner in the
/// bucket above nor in the bucket below.
proof fn lemma_unmerged(m: Map<usize, Vec<Term>>, r: nat, k: usize, i: int)
    requires
        table_ok(m, r),
        m.contains_key(k),
        0 <= i < m[k]@.len(),
    ensures
        unmerged(table_patterns(m), normal(m[k]@[i].term@)) <==> !(m.contains_key(above(k))
            && partner_below(m[k]@[i].term@, m[above(k)]@, m[above(k)]@.len() as int)) && !(k >= 1
            && m.contains_key((k - 1) as usize) && partner_under(
            m[k]@[i].term@,
            m[(k - 1) as usize]@,
            m[(k - 1) as usize]@.len() as int,
        )),
{
    let g = table_patterns(m);
    let a = m[k]@[i];
    let c = normal(a.term@);
    assert(bucket_ok(m[k]@, k as int, r));
    lemma_term_normal(a@);
    assert(g.contains(c));
    if m.contains_key(above(k)) && partner_below(a.term@, m[above(k)]@, m[above(k)]@.len() as int) {
        let up = m[above(k)]@;
        let j = choose|j: int|
            0 <= j < up.len() && j < up.len() && differences(a.term@, #[trigger] up[j].term@) == 1;
        let b = up[j];
        assert(bucket_ok(up, above(k) as int, r));
        lemma_adjacent_normal(a@, b@);
        assert(normal(b.term@) == normal(m[above(k)]@[j].term@));
        assert(g.contains(normal(b.term@)));
        assert(adjacent(c, normal(b.term@)));
    }
    if k >= 1 && m.contains_key((k - 1) as usize) && partner_under(
        a.term@,
        m[(k - 1) as usize]@,
        m[(k - 1) as usize]@.len() as int,
    ) {
        let k1 = (k - 1) as usize;
        let down = m[k1]@;
        let j = choose|j: int|
            0 <= j < down.len() && j < down.len() && differences(
                #[trigger] down[j].term@,
                a.term@,
            ) == 1;
        let b = down[j];
        assert(bucket_ok(down, k1 as int, r));
        lemma_adjacent_normal(b@, a@);
        assert(normal(b.term@) == normal(m[k1]@[j].term@));
        assert(g.contains(normal(b.term@)));
        assert(adjacent(normal(b.term@), c));
    }
    if !unmerged(g, c) {
        let b = choose|b: Seq<Val>| g.contains(b) && (adjacent(c, b) || adjacent(b, c));
        let (k2, j) = lemma_table_member(m, r, b);
        if adjacent(c, b) {
            lemma_adjacent_normal(a@, m[k2]@[j]@);
            assert(k2 == above(k));
            assert(differences(a.term@, m[above(k)]@[j].term@) == 1);
        } else {
            lemma_adjacent_normal(m[k2]@[j]@, a@);
            assert(k2 == (k - 1) as usize);
            assert(differences(m[(k - 1) as usize]@[j].term@, a.term@) == 1);
        }
    }
}

/// The patterns of the terms that carry no flag.
spec fn kept(terms: Seq<Term>, flags: Seq<bool>) -> Set<Seq<Val>> {
    Set::new(
        |c: Seq<Val>|
            exists|i: int|
                0 <= i < terms.len() && i < flags.len() && !flags[i] && c == normal(
                    #[trigger] terms[i].term@,
                ),
    )
}

/// The patterns that merging the pairs before pair `(i0, j0)` produces, the
/// pairs taken row by row.
spec fn merges_before(lo: Seq<Term>, hi: Seq<Term>, i0: int, j0: int) -> Set<Seq<Val>> {
    Set::new(
        |c: Seq<Val>|
            exists|i: int, j: int|
                0 <= i < lo.len() && 0 <= j < hi.len() && (i < i0 || (i == i0 && j < j0))
                    && differences(lo[i].term@, hi[j].term@) == 1 && c == normal(
                    #[trigger] merged(lo[i].term@, hi[j].term@),
                ),
    )
}

/// Adds `term` to `bucket` unless a term equal to it is there already.
pub fn insert_unique(bucket: &mut Vec<Term>, term: Term)
    ensures
        (exists|i: int| 0 <= i < old(bucket)@.len() && (#[trigger] old(bucket)@[i])@.equals(term@))
            ==> final(bucket)@ == old(bucket)@,
        !(exists|i: int|
            0 <= i < old(bucket)@.len() && (#[trigger] old(bucket)@[i])@.equals(term@))
            ==> final(bucket)@ == old(bucket)@.push(term),
        patterns_of(final(bucket)@) == patterns_of(old(bucket)@).insert(normal(term.term@)),
        all_well_formed(old(bucket)@) && term@.well_formed() && distinct(old(bucket)@)
            ==> distinct(final(bucket)@),
{
    let mut i: usize = 0;
    while i < bucket.len()
        invariant
            i <= bucket.len(),
            bucket@ == old(bucket)@,
            forall|j: int| 0 <= j < i ==> !(#[trigger] bucket@[j])@.equals(term@),
        decreases bucket.len() - i,
    {
        if bucket[i] == term {
            proof {
                lemma_normal_equal(bucket@[i as int].term@, term.term@);
                assert(patterns_of(bucket@).contains(normal(bucket@[i as int].term@)));
                assert(patterns_of(bucket@) =~= patterns_of(bucket@).insert(normal(term.term@)));
            }
            return ;
        }
        i += 1;
    }
    bucket.push(term);
    proof {
        let before = old(bucket)@;
        let after = bucket@;
        if all_well_formed(before) && term@.well_formed() && distinct(before) {
            assert forall|i: int, j: int| 0 <= i < j < after.len() implies normal(after[i].term@)
                != normal(after[j].term@) by {
                if j == before.len() {
                    assert(!before[i]@.equals(term@));
                    if normal(before[i].term@) == normal(term.term@) {
                        lemma_normal_equals(before[i]@, term@);
                    }
                } else {
                    assert(normal(before[i].term@) != normal(before[j].term@));
                }
            }
        }
        assert forall|c: Seq<Val>| patterns_of(after).contains(c) implies patterns_of(
            before,
        ).insert(normal(term.term@)).contains(c) by {
            let j = choose|j: int| 0 <= j < after.len() && c == normal(#[trigger] after[j].term@);
            if j < before.len() {
                assert(c == normal(before[j].term@));
            }
        }
        assert forall|c: Seq<Val>|
            patterns_of(before).insert(normal(term.term@)).contains(c) implies patterns_of(
            after,
        ).contains(c) by {
            if c == normal(term.term@) {
                assert(c == normal(after[before.len() as int].term@));
            } else {
                let j = choose|j: int|
                    0 <= j < before.len() && c == normal(#[trigger] before[j].term@);
                assert(c == normal(after[j].term@));
            }
        }
        assert(patterns_of(after) =~= patterns_of(before).insert(normal(term.term@)));
    }
}

/// Tries to merge every term of `lo` with every term of `hi`, the bucket
/// above it. Returns the merged terms, each once, and for each term of `hi`
/// whether it merged; raises the flag in `lo_flags` of each term of `lo` that
/// merged.
fn cross(
    lo: &Vec<Term>,
    hi: &Vec<Term>,
    lo_flags: &mut Vec<bool>,
    Ghost(k): Ghost<int>,
    Ghost(r): Ghost<nat>,
) -> (res: (Vec<Term>, Vec<bool>))
    requires
        old(lo_flags)@.len() == lo@.len(),
        bucket_ok(lo@, k, r),
        bucket_ok(hi@, k + 1, r),
    ensures
        final(lo_flags)@.len() == lo@.len(),
        forall|i: int|
            0 <= i < lo@.len() ==> #[trigger] final(lo_flags)@[i] == (old(lo_flags)@[i]
                || partner_below(lo@[i].term@, hi@, hi@.len() as int)),
        res.1@.len() == hi@.len(),
        forall|j: int|
            0 <= j < hi@.len() ==> #[trigger] res.1@[j] == partner_under(
                hi@[j].term@,
                lo@,
                lo@.len() as int,
            ),
        patterns_of(res.0@) == merges_of(lo@, hi@),
        bucket_ok(res.0@, k, r + 1),
{
    let mut bucket: Vec<Term> = Vec::new();
    let mut hi_flags: Vec<bool> = vec![false; hi.len()];
    let mut i: usize = 0;
    assert(patterns_of(bucket@) =~= merges_before(lo@, hi@, 0, 0));
    while i < lo.len()
        invariant
            i <= lo.len(),
            bucket_ok(lo@, k, r),
            bucket_ok(hi@, k + 1, r),
            lo_flags@.len() == lo@.len(),
            hi_flags@.len() == hi@.len(),
            forall|n: int|
                0 <= n < i ==> #[trigger] lo_flags@[n] == (old(lo_flags)@[n] || partner_below(
                    lo@[n].term@,
                    hi@,
                    hi@.len() as int,
                )),
            forall|n: int| i <= n < lo@.len() ==> #[trigger] lo_flags@[n] == old(lo_flags)@[n],
            forall|j: int|
                0 <= j < hi@.len() ==> #[trigger] hi_flags@[j] == partner_under(
                    hi@[j].term@,
                    lo@,
                    i as int,
                ),
            patterns_of(bucket@) == merges_before(lo@, hi@, i as int, 0),
            bucket_ok(bucket@, k, r + 1),
        decreases lo.len() - i,
    {
        let mut j: usize = 0;
        while j < hi.len()
            invariant
                i < lo.len(),
                j <= hi.len(),
                bucket_ok(lo@, k, r),
                bucket_ok(hi@, k + 1, r),
                lo_flags@.len() == lo@.len(),
                hi_flags@.len() == hi@.len(),
                forall|n: int|
                    0 <= n < i ==> #[trigger] lo_flags@[n] == (old(lo_flags)@[n] || partner_below(
                        lo@[n].term@,
                        hi@,
                        hi@.len() as int,
                    )),
                forall|n: int| i < n < lo@.len() ==> #[trigger] lo_flags@[n] == old(lo_flags)@[n],
                lo_flags@[i as int] == (old(lo_flags)@[i as int] || partner_below(
                    lo@[i as int].term@,
                    hi@,
                    j as int,
                )),
                forall|n: int|
                    0 <= n < j ==> #[trigger] hi_flags@[n] == partner_under(
                        hi@[n].term@,
                        lo@,
                        i + 1,
                    ),
                forall|n: int|
                    j <= n < hi@.len() ==> #[trigger] hi_flags@[n] == partner_under(
                        hi@[n].term@,
                        lo@,
                        i as int,
                    ),
                patterns_of(bucket@) == merges_before(lo@, hi@, i as int, j as int),
                bucket_ok(bucket@, k, r + 1),
            decreases hi.len() - j,
        {
            let ghost a = lo@[i as int];
            let ghost b = hi@[j as int];
            let ghost before = bucket@;
            let merged_term = lo[i].combine(&hi[j]);
            proof {
                assert(partner_below(a.term@, hi@, j + 1) == (partner_below(a.term@, hi@, j as int)
                    || differences(a.term@, b.term@) == 1)) by {
                    if partner_below(a.term@, hi@, j + 1) {
                        let n = choose|n: int|
                            0 <= n < j + 1 && n < hi@.len() && differences(
                                a.term@,
                                #[trigger] hi@[n].term@,
                            ) == 1;
                        if n < j {
                            assert(partner_below(a.term@, hi@, j as int));
                        }
                    }
                    if partner_below(a.term@, hi@, j as int) {
                        let n = choose|n: int|
                            0 <= n < j && n < hi@.len() && differences(
                                a.term@,
                                #[trigger] hi@[n].term@,
                            ) == 1;
                        assert(0 <= n < j + 1);
                    }
                    if differences(a.term@, b.term@) == 1 {
                        assert(differences(a.term@, hi@[j as int].term@) == 1);
                    }
                }
                assert(partner_under(b.term@, lo@, i + 1) == (partner_under(b.term@, lo@, i as int)
                    || differences(a.term@, b.term@) == 1)) by {
                    if partner_under(b.term@, lo@, i + 1) {
                        let n = choose|n: int|
                            0 <= n < i + 1 && n < lo@.len() && differences(
                                #[trigger] lo@[n].term@,
                                b.term@,
                            ) == 1;
                        if n < i {
                            assert(partner_under(b.term@, lo@, i as int));
                        }
                    }
                    if partner_under(b.term@, lo@, i as int) {
                        let n = choose|n: int|
                            0 <= n < i && n < lo@.len() && differences(
                                #[trigger] lo@[n].term@,
                                b.term@,
                            ) == 1;
                        assert(0 <= n < i + 1);
                    }
                    if differences(a.term@, b.term@) == 1 {
                        assert(differences(lo@[i as int].term@, b.term@) == 1);
                    }
                }
            }
            match merged_term {
                None => {},
                Some(new_term) => {
                    proof {
                        lemma_merge_well_formed(a@, b@);
                        lemma_merged_counts(a.term@, b.term@);
                    }
                    lo_flags[i] = true;
                    hi_flags[j] = true;
                    insert_unique(&mut bucket, new_term);
                },
            }
            proof {
                let m = normal(merged(a.term@, b.term@));
                let now = merges_before(lo@, hi@, i as int, j + 1);
                let was = merges_before(lo@, hi@, i as int, j as int);
                assert forall|c: Seq<Val>| now.contains(c) <==> was.contains(c) || (differences(
                    a.term@,
                    b.term@,
                ) == 1 && c == m) by {
                    if now.contains(c) {
                        let (i2, j2) = choose|i2: int, j2: int|
                            0 <= i2 < lo@.len() && 0 <= j2 < hi@.len() && (i2 < i || (i2 == i && j2
                                < j + 1)) && differences(lo@[i2].term@, hi@[j2].term@) == 1 && c
                                == normal(#[trigger] merged(lo@[i2].term@, hi@[j2].term@));
                        if !(i2 == i && j2 == j) {
                            assert(was.contains(c));
                        }
                    }
                    if was.contains(c) {
                        let (i2, j2) = choose|i2: int, j2: int|
                            0 <= i2 < lo@.len() && 0 <= j2 < hi@.len() && (i2 < i || (i2 == i && j2
                                < j)) && differences(lo@[i2].term@, hi@[j2].term@) == 1 && c
                                == normal(#[trigger] merged(lo@[i2].term@, hi@[j2].term@));
                        assert(i2 < i || (i2 == i && j2 < j + 1));
                    }
                    if differences(a.term@, b.term@) == 1 && c == m {
                        assert(c == normal(merged(lo@[i as int].term@, hi@[j as int].term@)));
                    }
                }
                assert(patterns_of(bucket@) =~= now);
            }
            j += 1;
        }
        proof {
            let now = merges_before(lo@, hi@, i + 1, 0);
            let was = merges_before(lo@, hi@, i as int, hi@.len() as int);
            assert forall|c: Seq<Val>| now.contains(c) <==> was.contains(c) by {
                if now.contains(c) {
                    let (i2, j2) = choose|i2: int, j2: int|
                        0 <= i2 < lo@.len() && 0 <= j2 < hi@.len() && (i2 < i + 1 || (i2 == i + 1
                            && j2 < 0)) && differences(lo@[i2].term@, hi@[j2].term@) == 1 && c
                            == normal(#[trigger] merged(lo@[i2].term@, hi@[j2].term@));
                    assert(i2 < i || (i2 == i && j2 < hi@.len()));
                }
                if was.contains(c) {
                    let (i2, j2) = choose|i2: int, j2: int|
                        0 <= i2 < lo@.len() && 0 <= j2 < hi@.len() && (i2 < i || (i2 == i && j2
                            < hi@.len())) && differences(lo@[i2].term@, hi@[j2].term@) == 1 && c
                            == normal(#[trigger] merged(lo@[i2].term@, hi@[j2].term@));
                    assert(i2 < i + 1);
                }
            }
            assert(now =~= was);
        }
        i += 1;
    }
    proof {
        let all = merges_of(lo@, hi@);
        let was = merges_before(lo@, hi@, lo@.len() as int, 0);
        assert forall|c: Seq<Val>| all.contains(c) <==> was.contains(c) by {
            if all.contains(c) {
                let (i2, j2) = choose|i2: int, j2: int|
                    0 <= i2 < lo@.len() && 0 <= j2 < hi@.len() && differences(
                        lo@[i2].term@,
                        hi@[j2].term@,
                    ) == 1 && c == normal(#[trigger] merged(lo@[i2].term@, hi@[j2].term@));
                assert(i2 < lo@.len());
            }
            if was.contains(c) {
                let (i2, j2) = choose|i2: int, j2: int|
                    0 <= i2 < lo@.len() && 0 <= j2 < hi@.len() && (i2 < lo@.len() || (i2
                        == lo@.len() && j2 < 0)) && differences(lo@[i2].term@, hi@[j2].term@) == 1
                        && c == normal(#[trigger] merged(lo@[i2].term@, hi@[j2].term@));
            }
        }
        assert(all =~= was);
    }
    (bucket, hi_flags)
}

/// Appends to `out` a copy of each term that carries no flag.
fn emit(terms: &Vec<Term>, flags: &Vec<bool>, out: &mut Vec<Term>)
    requires
        flags@.len() == terms@.len(),
        all_well_formed(terms@),
        distinct(terms@),
        all_well_formed(old(out)@),
    ensures
        all_well_formed(final(out)@),
        patterns_of(final(out)@) == patterns_of(old(out)@).union(kept(terms@, flags@)),
        forall|c: Seq<Val>|
            occurrences(final(out)@, c) == occurrences(old(out)@, c) + one_if(
                kept(terms@, flags@).contains(c),
            ),
{
    let mut i: usize = 0;
    assert(patterns_of(out@) =~= patterns_of(old(out)@).union(kept(terms@.take(0), flags@)));
    assert(kept(terms@.take(0), flags@) =~= Set::<Seq<Val>>::empty());
    while i < terms.len()
        invariant
            i <= terms.len(),
            flags@.len() == terms@.len(),
            all_well_formed(terms@),
            distinct(terms@),
            all_well_formed(out@),
            patterns_of(out@) == patterns_of(old(out)@).union(
                kept(terms@.take(i as int), flags@),
            ),
            forall|c: Seq<Val>|
                occurrences(out@, c) == occurrences(old(out)@, c) + one_if(
                    kept(terms@.take(i as int), flags@).contains(c),
                ),
        decreases terms.len() - i,
    {
        let ghost before = out@;
        if !flags[i] {
            let copy = terms[i].clone();
            insert_last(out, copy);
        }
        proof {
            let was = kept(terms@.take(i as int), flags@);
            let now = kept(terms@.take(i + 1), flags@);
            let c0 = normal(terms@[i as int].term@);
            assert forall|c: Seq<Val>| now.contains(c) <==> was.contains(c) || (!flags@[i as int]
                && c == c0) by {
                if now.contains(c) {
                    let n = choose|n: int|
                        0 <= n < terms@.take(i + 1).len() && n < flags@.len() && !flags@[n] && c
                            == normal(#[trigger] terms@.take(i + 1)[n].term@);
                    if n < i {
                        assert(c == normal(terms@.take(i as int)[n].term@));
                    }
                }
                if was.contains(c) {
                    let n = choose|n: int|
                        0 <= n < terms@.take(i as int).len() && n < flags@.len() && !flags@[n] && c
                            == normal(#[trigger] terms@.take(i as int)[n].term@);
                    assert(c == normal(terms@.take(i + 1)[n].term@));
                }
                if !flags@[i as int] && c == c0 {
                    assert(c == normal(terms@.take(i + 1)[i as int].term@));
                }
            }
            assert(patterns_of(out@) =~= patterns_of(old(out)@).union(now));
            if !flags@[i as int] {
                assert(!was.contains(c0)) by {
                    if was.contains(c0) {
                        let n = choose|n: int|
                            0 <= n < terms@.take(i as int).len() && n < flags@.len() && !flags@[n]
                                && c0 == normal(#[trigger] terms@.take(i as int)[n].term@);
                        assert(normal(terms@[n].term@) != normal(terms@[i as int].term@));
                    }
                }
            }
            assert forall|c: Seq<Val>|
                occurrences(out@, c) == occurrences(old(out)@, c) + one_if(now.contains(c)) by {
                assert(occurrences(before, c) == occurrences(old(out)@, c) + one_if(
                    was.contains(c),
                ));
            }
        }
        i += 1;
    }
    assert(terms@.take(i as int) == terms@);
}

/// Appends `term` to `out`.
fn insert_last(out: &mut Vec<Term>, term: Term)
    requires
        all_well_formed(old(out)@),
        term@.well_formed(),
    ensures
        all_well_formed(final(out)@),
        patterns_of(final(out)@) == patterns_of(old(out)@).insert(normal(term.term@)),
        forall|c: Seq<Val>|
            occurrences(final(out)@, c) == occurrences(old(out)@, c) + one_if(
                normal(term.term@) == c,
            ),
{
    out.push(term);
    proof {
        let before = old(out)@;
        let after = out@;
        assert(after.drop_last() =~= before);
        assert forall|c: Seq<Val>| patterns_of(after).contains(c) implies patterns_of(
            before,
        ).insert(normal(term.term@)).contains(c) by {
            let j = choose|j: int| 0 <= j < after.len() && c == normal(#[trigger] after[j].term@);
            if j < before.len() {
                assert(c == normal(before[j].term@));
            }
        }
        assert forall|c: Seq<Val>|
            patterns_of(before).insert(normal(term.term@)).contains(c) implies patterns_of(
            after,
        ).contains(c) by {
            if c == normal(term.term@) {
                assert(c == normal(after[before.len() as int].term@));
            } else {
                let j = choose|j: int|
                    0 <= j < before.len() && c == normal(#[trigger] before[j].term@);
                assert(c == normal(after[j].term@));
            }
        }
        assert(patterns_of(after) =~= patterns_of(before).insert(normal(term.term@)));
    }
}

/// The keys of the table in ascending order.
fn sorted_keys(table: &HashMap<usize, Vec<Term>>) -> (keys: Vec<usize>)
    ensures
        keys_of(keys@, table@),
{
    let mut found: Vec<usize> = Vec::new();
    for k in it: table.keys()
        invariant
            it.seq().unref().to_set() == table@.dom(),
            it.seq().no_duplicates(),
            found@ == it.seq().unref().take(it.index()),
            it.index() == it.seq().len() ==> found@.to_set() == table@.dom()
                && found@.no_duplicates(),
    {
        found.push(*k);
        assert(found@ =~= it.seq().unref().take(it.index() + 1));
        assert(it.seq().unref().take(it.seq().len() as int) =~= it.seq().unref());
        assert forall|i: int, j: int|
            0 <= i < it.seq().len() && 0 <= j < it.seq().len() && i != j implies it.seq().unref()[i]
            != it.seq().unref()[j] by {
            assert(it.seq()[i] != it.seq()[j]);
        }
    }
    let keys = ascending(found);
    assert forall|i: int, j: int| 0 <= i < j < keys@.len() implies keys@[i] < keys@[j] by {
        assert(keys@[i] != keys@[j]);
        assert(keys@[i] as int <= keys@[j] as int);
    }
    keys
}

/// One pass of the search: merges every bucket with the one above it and
/// appends to `primes` the terms that merged with nothing. Returns the table
/// of the merged terms, and whether there are any.
fn pass(table: &HashMap<usize, Vec<Term>>, primes: &mut Vec<Term>, Ghost(r): Ghost<nat>) -> (res: (
    HashMap<usize, Vec<Term>>,
    bool,
))
    requires
        table_ok(table@, r),
        all_well_formed(old(primes)@),
    ensures
        table_ok(res.0@, r + 1),
        table_patterns(res.0@) == next_generation(table_patterns(table@)),
        res.1 <==> exists|c: Seq<Val>| next_generation(table_patterns(table@)).contains(c),
        all_well_formed(final(primes)@),
        patterns_of(final(primes)@) == patterns_of(old(primes)@).union(
            Set::new(|c: Seq<Val>| unmerged(table_patterns(table@), c)),
        ),
        forall|c: Seq<Val>|
            occurrences(final(primes)@, c) == occurrences(old(primes)@, c) + one_if(
                unmerged(table_patterns(table@), c),
            ),
{
    let mut new_table: HashMap<usize, Vec<Term>> = HashMap::new();
    let mut new_implicants = false;
    let keys = sorted_keys(table);
    // The flags that the bucket above the last key earned in its merges with
    // the bucket under that key: the next key takes them over if it is the
    // key above.
    let mut carried: Vec<bool> = Vec::new();
    let mut carried_key: usize = 0;
    let mut has_carry = false;
    let mut idx: usize = 0;
    let ghost m = table@;
    proof {
        assert(patterns_of(primes@) =~= patterns_of(old(primes)@).union(
            survivors_below(m, keys@, 0),
        ));
        assert(table_patterns(new_table@) =~= merges_below(m, keys@, 0));
        assert(survivors_below(m, keys@, 0) =~= Set::<Seq<Val>>::empty());
    }
    while idx < keys.len()
        invariant
            idx <= keys.len(),
            m == table@,
            table_ok(m, r),
            keys_of(keys@, m),
            table_ok(new_table@, r + 1),
            forall|k: usize| #[trigger]
                new_table@.contains_key(k) ==> exists|j: int| 0 <= j < idx && keys@[j] == k,
            table_patterns(new_table@) == merges_below(m, keys@, idx as int),
            new_implicants <==> exists|c: Seq<Val>| table_patterns(new_table@).contains(c),
            has_carry ==> idx >= 1 && carried_key == above(keys@[idx - 1]) && m.contains_key(
                carried_key,
            ) && carried@.len() == m[carried_key]@.len() && forall|i: int|
                0 <= i < carried@.len() ==> #[trigger] carried@[i] == partner_under(
                    m[carried_key]@[i].term@,
                    m[keys@[idx - 1]]@,
                    m[keys@[idx - 1]]@.len() as int,
                ),
            !has_carry ==> idx == 0 || !m.contains_key(above(keys@[idx - 1])),
            all_well_formed(primes@),
            patterns_of(primes@) == patterns_of(old(primes)@).union(
                survivors_below(m, keys@, idx as int),
            ),
            forall|c: Seq<Val>|
                occurrences(primes@, c) == occurrences(old(primes)@, c) + one_if(
                    survivors_below(m, keys@, idx as int).contains(c),
                ),
        decreases keys.len() - idx,
    {
        let key = keys[idx];
        proof {
            assert(keys@.to_set().contains(keys@[idx as int]));
            assert(m.contains_key(key));
            assert(bucket_ok(m[key]@, key as int, r));
        }
        match table.get(&key) {
            None => {},
            Some(terms1) => {
                let ghost lo = terms1@;
                let mut flags: Vec<bool> = vec![false; terms1.len()];
                if has_carry && carried_key == key {
                    flags = carried;
                    carried = Vec::new();
                }
                proof {
                    lemma_lower_bucket(m, keys@, idx as int, has_carry, carried_key);
                    assert forall|i: int| 0 <= i < flags@.len() implies #[trigger] flags@[i] == (key
                        >= 1 && m.contains_key((key - 1) as usize) && partner_under(
                        lo[i].term@,
                        m[(key - 1) as usize]@,
                        m[(key - 1) as usize]@.len() as int,
                    )) by {}
                }
                let ghost lower = flags@;
                match table.get(&(key + 1)) {
                    None => {
                        has_carry = false;
                        proof {
                            assert(merges_at(m, key) =~= Set::<Seq<Val>>::empty());
                        }
                    },
                    Some(terms2) => {
                        proof {
                            assert(m.contains_key(above(key)));
                            assert(bucket_ok(m[above(key)]@, above(key) as int, r));
                        }
                        let (bucket, upper) = cross(
                            terms1,
                            terms2,
                            &mut flags,
                            Ghost(key as int),
                            Ghost(r),
                        );
                        let ghost before = new_table@;
                        proof {
                            assert(patterns_of(bucket@) == merges_at(m, key));
                        }
                        if bucket.len() > 0 {
                            new_implicants = true;
                            let ghost produced = bucket@;
                            new_table.insert(key, bucket);
                            proof {
                                lemma_table_insert(before, new_table@, key, produced, r + 1);
                                assert(patterns_of(produced).contains(
                                    normal(produced[0].term@),
                                ));
                                assert(table_patterns(new_table@).contains(
                                    normal(produced[0].term@),
                                ));
                                assert(forall|k: usize| #[trigger]
                                    before.contains_key(k) ==> exists|j: int|
                                        0 <= j < idx && keys@[j] == k);
                                assert(!before.contains_key(key)) by {
                                    if before.contains_key(key) {
                                        let j = choose|j: int| 0 <= j < idx && keys@[j] == key;
                                        assert(keys@[j] < keys@[idx as int]);
                                    }
                                }
                                assert forall|k: usize| #[trigger]
                                    new_table@.contains_key(k) implies exists|j: int|
                                    0 <= j < idx + 1 && keys@[j] == k by {
                                    if k == key {
                                        assert(keys@[idx as int] == k);
                                    } else {
                                        assert(before.contains_key(k));
                                        let j = choose|j: int| 0 <= j < idx && keys@[j] == k;
                                        assert(0 <= j < idx + 1);
                                    }
                                }
                            }
                        } else {
                            proof {
                                assert(patterns_of(bucket@) =~= Set::<Seq<Val>>::empty());
                                assert forall|k: usize| #[trigger]
                                    new_table@.contains_key(k) implies exists|j: int|
                                    0 <= j < idx + 1 && keys@[j] == k by {
                                    let j = choose|j: int| 0 <= j < idx && keys@[j] == k;
                                    assert(0 <= j < idx + 1);
                                }
                            }
                        }
                        carried = upper;
                        carried_key = key + 1;
                        has_carry = true;
                    },
                }
                proof {
                    lemma_merges_step(m, keys@, idx as int);
                    assert(table_patterns(new_table@) =~= merges_below(m, keys@, idx + 1));
                    assert forall|i: int| 0 <= i < flags@.len() implies #[trigger] flags@[i] == (
                    lower[i] || (m.contains_key(above(key)) && partner_below(
                        lo[i].term@,
                        m[above(key)]@,
                        m[above(key)]@.len() as int,
                    ))) by {}
                }
                let ghost earlier = primes@;
                // Both neighbours have been tried: what carries no flag is prime.
                emit(terms1, &flags, primes);
                proof {
                    lemma_survivors_step(m, r, keys@, idx as int, flags@);
                    assert(patterns_of(primes@) =~= patterns_of(old(primes)@).union(
                        survivors_below(m, keys@, idx + 1),
                    ));
                    assert forall|c: Seq<Val>|
                        occurrences(primes@, c) == occurrences(old(primes)@, c) + one_if(
                            survivors_below(m, keys@, idx + 1).contains(c),
                        ) by {
                        assert(occurrences(earlier, c) == occurrences(old(primes)@, c) + one_if(
                            survivors_below(m, keys@, idx as int).contains(c),
                        ));
                        assert(occurrences(primes@, c) == occurrences(earlier, c) + one_if(
                            kept(lo, flags@).contains(c),
                        ));
                    }
                }
            },
        }
        idx += 1;
    }
    proof {
        lemma_merges_are_next(m, r, keys@);
        lemma_survivors_all(m, r, keys@);
    }
    (new_table, new_implicants)
}

/// Where the flags carried into a bucket do not come from the bucket under
/// the key below, there is no bucket under that key.
proof fn lemma_lower_bucket(
    m: Map<usize, Vec<Term>>,
    keys: Seq<usize>,
    idx: int,
    has_carry: bool,
    carried_key: usize,
)
    requires
        keys_of(keys, m),
        0 <= idx < keys.len(),
        has_carry ==> idx >= 1 && carried_key == above(keys[idx - 1]),
        !has_carry ==> idx == 0 || !m.contains_key(above(keys[idx - 1])),
        forall|k: usize| #[trigger] m.contains_key(k) ==> k <= 32,
    ensures
        has_carry && carried_key == keys[idx] ==> keys[idx] >= 1 && keys[idx - 1] == keys[idx] - 1,
        !(has_carry && carried_key == keys[idx]) ==> !(keys[idx] >= 1 && m.contains_key(
            (keys[idx] - 1) as usize,
        )),
{
    let key = keys[idx];
    assert(keys.to_set().contains(keys[idx]));
    if idx >= 1 {
        assert(keys.to_set().contains(keys[idx - 1]));
        assert(m.contains_key(keys[idx - 1]));
    }
    if !(has_carry && carried_key == key) && key >= 1 && m.contains_key((key - 1) as usize) {
        let below = (key - 1) as usize;
        assert(keys.to_set().contains(below));
        let j = choose|j: int| 0 <= j < keys.len() && keys[j] == below;
        if j >= idx {
            if j > idx {
                assert(keys[idx] < keys[j]);
            }
            assert(false);
        }
        assert(idx >= 1);
        if j < idx - 1 {
            assert(keys[j] < keys[idx - 1]);
        }
        assert(keys[idx - 1] < keys[idx]);
        assert(keys[idx - 1] == below);
        assert(above(keys[idx - 1]) == key);
        assert(m.contains_key(key));
        assert(false);
    }
}

/// Putting a bucket under a new key adds its patterns to those of the
/// table.
proof fn lemma_table_insert(
    before: Map<usize, Vec<Term>>,
    after: Map<usize, Vec<Term>>,
    key: usize,
    bucket: Seq<Term>,
    r: nat,
)
    requires
        table_ok(before, r),
        !before.contains_key(key),
        key <= 32,
        bucket_ok(bucket, key as int, r),
        after.dom() == before.dom().insert(key),
        after[key]@ == bucket,
        forall|k: usize| before.contains_key(k) ==> after[k] == before[k],
    ensures
        table_ok(after, r),
        table_patterns(after) == table_patterns(before).union(patterns_of(bucket)),
{
    assert forall|k: usize| #[trigger] after.contains_key(k) implies k <= 32 && bucket_ok(
        after[k]@,
        k as int,
        r,
    ) by {
        if k != key {
            assert(before.contains_key(k));
        }
    }
    assert forall|c: Seq<Val>| table_patterns(after).contains(c) <==> table_patterns(
        before,
    ).contains(c) || patterns_of(bucket).contains(c) by {
        if table_patterns(after).contains(c) {
            let (k, i) = choose|k: usize, i: int|
                after.contains_key(k) && 0 <= i < after[k]@.len() && c == normal(
                    #[trigger] after[k]@[i].term@,
                );
            if k == key {
                assert(c == normal(bucket[i].term@));
            } else {
                assert(before.contains_key(k));
                assert(c == normal(before[k]@[i].term@));
            }
        }
        if table_patterns(before).contains(c) {
            let (k, i) = choose|k: usize, i: int|
                before.contains_key(k) && 0 <= i < before[k]@.len() && c == normal(
                    #[trigger] before[k]@[i].term@,
                );
            assert(after.contains_key(k));
            assert(c == normal(after[k]@[i].term@));
        }
        if patterns_of(bucket).contains(c) {
            let i = choose|i: int| 0 <= i < bucket.len() && c == normal(#[trigger] bucket[i].term@);
            assert(after.contains_key(key));
            assert(c == normal(after[key]@[i].term@));
        }
    }
    assert(table_patterns(after) =~= table_patterns(before).union(patterns_of(bucket)));
}

/// The merges under one more key.
proof fn lemma_merges_step(m: Map<usize, Vec<Term>>, keys: Seq<usize>, idx: int)
    requires
        0 <= idx < keys.len(),
    ensures
        merges_below(m, keys, idx + 1) == merges_below(m, keys, idx).union(merges_at(m, keys[idx])),
{
    let was = merges_below(m, keys, idx);
    let now = merges_below(m, keys, idx + 1);
    let here = merges_at(m, keys[idx]);
    assert forall|c: Seq<Val>| now.contains(c) <==> was.contains(c) || here.contains(c) by {
        if now.contains(c) {
            let j = choose|j: int|
                0 <= j < idx + 1 && j < keys.len() && merges_at(m, #[trigger] keys[j]).contains(c);
            if j < idx {
                assert(was.contains(c));
            }
        }
        if was.contains(c) {
            let j = choose|j: int|
                0 <= j < idx && j < keys.len() && merges_at(m, #[trigger] keys[j]).contains(c);
            assert(0 <= j < idx + 1);
        }
        if here.contains(c) {
            assert(merges_at(m, keys[idx]).contains(c));
        }
    }
    assert(now =~= was.union(here));
}

/// The survivors under one more key are the terms of its bucket that carry
/// no flag, where the flags tell which terms have a partner above or below.
proof fn lemma_survivors_step(
    m: Map<usize, Vec<Term>>,
    r: nat,
    keys: Seq<usize>,
    idx: int,
    flags: Seq<bool>,
)
    requires
        table_ok(m, r),
        keys_of(keys, m),
        0 <= idx < keys.len(),
        m.contains_key(keys[idx]),
        flags.len() == m[keys[idx]]@.len(),
        forall|i: int|
            0 <= i < flags.len() ==> #[trigger] flags[i] == ((keys[idx] >= 1 && m.contains_key(
                (keys[idx] - 1) as usize,
            ) && partner_under(
                m[keys[idx]]@[i].term@,
                m[(keys[idx] - 1) as usize]@,
                m[(keys[idx] - 1) as usize]@.len() as int,
            )) || (m.contains_key(above(keys[idx])) && partner_below(
                m[keys[idx]]@[i].term@,
                m[above(keys[idx])]@,
                m[above(keys[idx])]@.len() as int,
            ))),
    ensures
        survivors_below(m, keys, idx + 1) == survivors_below(m, keys, idx).union(
            kept(m[keys[idx]]@, flags),
        ),
        forall|c: Seq<Val>|
            !(survivors_below(m, keys, idx).contains(c) && kept(m[keys[idx]]@, flags).contains(c)),
{
    let key = keys[idx];
    let lo = m[key]@;
    let was = survivors_below(m, keys, idx);
    let now = survivors_below(m, keys, idx + 1);
    let here = kept(lo, flags);
    assert forall|c: Seq<Val>| !(was.contains(c) && here.contains(c)) by {
        if was.contains(c) && here.contains(c) {
            let (j, i) = choose|j: int, i: int|
                0 <= j < idx && j < keys.len() && m.contains_key(keys[j]) && 0 <= i
                    < m[keys[j]]@.len() && c == normal(#[trigger] m[keys[j]]@[i].term@);
            let i2 = choose|i2: int|
                0 <= i2 < lo.len() && i2 < flags.len() && !flags[i2] && c == normal(
                    #[trigger] lo[i2].term@,
                );
            assert(bucket_ok(m[keys[j]]@, keys[j] as int, r));
            assert(bucket_ok(lo, key as int, r));
            lemma_term_normal(m[keys[j]]@[i]@);
            lemma_term_normal(lo[i2]@);
            assert(keys[j] < keys[idx]);
        }
    }
    assert forall|c: Seq<Val>| now.contains(c) <==> was.contains(c) || here.contains(c) by {
        if now.contains(c) {
            let (j, i) = choose|j: int, i: int|
                0 <= j < idx + 1 && j < keys.len() && m.contains_key(keys[j]) && 0 <= i
                    < m[keys[j]]@.len() && c == normal(#[trigger] m[keys[j]]@[i].term@);
            if j < idx {
                assert(was.contains(c));
            } else {
                lemma_unmerged(m, r, key, i);
                assert(!flags[i]);
                assert(c == normal(lo[i].term@));
                assert(here.contains(c));
            }
        }
        if was.contains(c) {
            let (j, i) = choose|j: int, i: int|
                0 <= j < idx && j < keys.len() && m.contains_key(keys[j]) && 0 <= i
                    < m[keys[j]]@.len() && c == normal(#[trigger] m[keys[j]]@[i].term@);
            assert(0 <= j < idx + 1);
        }
        if here.contains(c) {
            let i = choose|i: int|
                0 <= i < lo.len() && i < flags.len() && !flags[i] && c == normal(
                    #[trigger] lo[i].term@,
                );
            lemma_unmerged(m, r, key, i);
            assert(c == normal(m[keys[idx]]@[i].term@));
        }
    }
    assert(now =~= was.union(here));
}

/// The survivors under all keys are the unmerged patterns of the table.
proof fn lemma_survivors_all(m: Map<usize, Vec<Term>>, r: nat, keys: Seq<usize>)
    requires
        table_ok(m, r),
        keys_of(keys, m),
    ensures
        survivors_below(m, keys, keys.len() as int) == Set::new(
            |c: Seq<Val>| unmerged(table_patterns(m), c),
        ),
{
    let g = table_patterns(m);
    let all = Set::new(|c: Seq<Val>| unmerged(g, c));
    assert forall|c: Seq<Val>| all.contains(c) <==> survivors_below(
        m,
        keys,
        keys.len() as int,
    ).contains(c) by {
        if all.contains(c) {
            let (k, i) = lemma_table_member(m, r, c);
            assert(keys.to_set().contains(k));
            let j = choose|j: int| 0 <= j < keys.len() && keys[j] == k;
            assert(c == normal(m[keys[j]]@[i].term@));
        }
    }
    assert(all =~= survivors_below(m, keys, keys.len() as int));
}

/// Once a pass finds nothing on the table, later passes leave nothing
/// unmerged.
proof fn lemma_times_end(start: Set<Seq<Val>>, c: Seq<Val>, r: nat, r2: nat)
    requires
        forall|c: Seq<Val>| !generation(start, r).contains(c),
        r <= r2,
    ensures
        times_unmerged(start, c, r2) == times_unmerged(start, c, r),
    decreases r2,
{
    if r < r2 {
        lemma_times_end(start, c, r, (r2 - 1) as nat);
        lemma_generations_end(start, r, (r2 - 1) as nat);
    }
}

/// From pass `r` on, a search whose generation `r` is empty has nothing on
/// the table.
proof fn lemma_generations_end(start: Set<Seq<Val>>, r: nat, r2: nat)
    requires
        forall|c: Seq<Val>| !generation(start, r).contains(c),
        r <= r2,
    ensures
        forall|c: Seq<Val>| !generation(start, r2).contains(c),
    decreases r2,
{
    if r < r2 {
        lemma_generations_end(start, r, (r2 - 1) as nat);
        let g = generation(start, (r2 - 1) as nat);
        assert forall|c: Seq<Val>| !next_generation(g).contains(c) by {
            if next_generation(g).contains(c) {
                let (a, b) = choose|a: Seq<Val>, b: Seq<Val>|
                    g.contains(a) && g.contains(b) && #[trigger] adjacent(a, b) && c == normal(
                        merged(a, b),
                    );
                assert(false);
            }
        }
    }
}

/// Files a copy of each of `terms` on the table, in the bucket of its count
/// of `T`.
fn group(table: &mut HashMap<usize, Vec<Term>>, terms: &[Term])
    requires
        table_ok(old(table)@, 0),
        all_well_formed(terms@),
    ensures
        table_ok(final(table)@, 0),
        table_patterns(final(table)@) == table_patterns(old(table)@).union(patterns_of(terms@)),
{
    let mut i: usize = 0;
    assert(table_patterns(table@) =~= table_patterns(old(table)@).union(
        patterns_of(terms@.take(0)),
    ));
    while i < terms.len()
        invariant
            i <= terms.len(),
            all_well_formed(terms@),
            table_ok(table@, 0),
            table_patterns(table@) == table_patterns(old(table)@).union(
                patterns_of(terms@.take(i as int)),
            ),
        decreases terms.len() - i,
    {
        let ghost before = table@;
        let term = terms[i].clone();
        let ones = term.ones();
        proof {
            lemma_term_normal(term@);
        }
        let mut bucket = match table.remove(&ones) {
            Some(found) => found,
            None => Vec::new(),
        };
        let ghost rest = table@;
        let ghost had = bucket@;
        proof {
            if before.contains_key(ones) {
                assert(bucket_ok(before[ones]@, ones as int, 0));
            }
            assert(bucket_ok(had, ones as int, 0));
            lemma_table_remove(before, rest, ones, had);
        }
        insert_unique(&mut bucket, term);
        let ghost filled = bucket@;
        table.insert(ones, bucket);
        proof {
            let c0 = normal(terms@[i as int].term@);
            lemma_normal_equal(term.term@, terms@[i as int].term@);
            lemma_table_insert(rest, table@, ones, filled, 0);
            let was = patterns_of(terms@.take(i as int));
            let now = patterns_of(terms@.take(i + 1));
            assert forall|c: Seq<Val>| now.contains(c) <==> was.contains(c) || c == c0 by {
                if now.contains(c) {
                    let n = choose|n: int|
                        0 <= n < terms@.take(i + 1).len() && c == normal(
                            #[trigger] terms@.take(i + 1)[n].term@,
                        );
                    if n < i {
                        assert(c == normal(terms@.take(i as int)[n].term@));
                    }
                }
                if was.contains(c) {
                    let n = choose|n: int|
                        0 <= n < terms@.take(i as int).len() && c == normal(
                            #[trigger] terms@.take(i as int)[n].term@,
                        );
                    assert(c == normal(terms@.take(i + 1)[n].term@));
                }
                if c == c0 {
                    assert(c == normal(terms@.take(i + 1)[i as int].term@));
                }
            }
            assert(c0 == normal(term.term@));
            assert(table_patterns(before) =~= table_patterns(rest).union(patterns_of(had)));
            assert(patterns_of(filled) =~= patterns_of(had).insert(c0));
            assert(table_patterns(table@) =~= table_patterns(rest).union(patterns_of(filled)));
            assert(now =~= was.insert(c0));
            assert(table_patterns(table@) =~= table_patterns(before).insert(c0));
            assert(table_patterns(table@) =~= table_patterns(old(table)@).union(now));
        }
        i += 1;
    }
    assert(terms@.take(i as int) == terms@);
}

/// Taking the bucket under a key off the table takes its patterns with it;
/// where there is no such bucket, nothing changes.
proof fn lemma_table_remove(
    before: Map<usize, Vec<Term>>,
    after: Map<usize, Vec<Term>>,
    key: usize,
    bucket: Seq<Term>,
)
    requires
        table_ok(before, 0),
        after == before.remove(key),
        before.contains_key(key) ==> before[key]@ == bucket,
        !before.contains_key(key) ==> bucket.len() == 0,
    ensures
        table_ok(after, 0),
        !after.contains_key(key),
        table_patterns(before) == table_patterns(after).union(patterns_of(bucket)),
{
    assert forall|c: Seq<Val>| table_patterns(before).contains(c) <==> table_patterns(
        after,
    ).contains(c) || patterns_of(bucket).contains(c) by {
        if table_patterns(before).contains(c) {
            let (k, i) = choose|k: usize, i: int|
                before.contains_key(k) && 0 <= i < before[k]@.len() && c == normal(
                    #[trigger] before[k]@[i].term@,
                );
            if k == key {
                assert(c == normal(bucket[i].term@));
            } else {
                assert(after.contains_key(k));
                assert(c == normal(after[k]@[i].term@));
            }
        }
        if table_patterns(after).contains(c) {
            let (k, i) = choose|k: usize, i: int|
                after.contains_key(k) && 0 <= i < after[k]@.len() && c == normal(
                    #[trigger] after[k]@[i].term@,
                );
            assert(before.contains_key(k));
            assert(c == normal(before[k]@[i].term@));
        }
        if patterns_of(bucket).contains(c) {
            let i = choose|i: int| 0 <= i < bucket.len() && c == normal(#[trigger] bucket[i].term@);
            assert(before.contains_key(key));
            assert(c == normal(before[key]@[i].term@));
        }
    }
    assert(table_patterns(before) =~= table_patterns(after).union(patterns_of(bucket)));
}

/// Finds the prime implicants of the function given by its minterms and its
/// don't-care terms.
///
/// The search works in passes. The first table holds the given terms, equal
/// terms once. Each pass merges every pair of terms on the table that differ
/// at one position and whose counts of `T` differ by one; the merged terms
/// make the table of the next pass, and the terms that merged with nothing
/// are prime. The result holds the prime terms of every pass, each well
/// formed and each once for every pass that left it unmerged, in no stated
/// order; together they cover what the given terms cover. With no terms
/// given the result is empty.
///
/// Where every given term stands for a single number, the result holds each
/// prime implicant of those numbers once, and nothing else.
pub fn find_prime_implicants(minterms: &[Term], not_cares: &[Term]) -> (result: Vec<Term>)
    requires
        all_well_formed(minterms@),
        all_well_formed(not_cares@),
    ensures
        all_well_formed(result@),
        patterns_of(result@) == prime_patterns(patterns_of(minterms@ + not_cares@)),
        forall|c: Seq<Val>|
            occurrences(result@, c) == times_unmerged(
                patterns_of(minterms@ + not_cares@),
                c,
                PASSES as nat,
            ),
        no_wildcards(minterms@ + not_cares@) ==> forall|c: Seq<Val>|
            occurrences(result@, c) == one_if(
                prime_implicant(c, sources_of(minterms@ + not_cares@)),
            ),
        sources_of(result@) == sources_of(minterms@ + not_cares@),
{
    let mut table: HashMap<usize, Vec<Term>> = HashMap::new();
    let ghost start = patterns_of(minterms@ + not_cares@);
    assert(table_patterns(table@) =~= Set::<Seq<Val>>::empty());
    group(&mut table, minterms);
    group(&mut table, not_cares);
    proof {
        let both = minterms@ + not_cares@;
        assert forall|c: Seq<Val>| start.contains(c) <==> patterns_of(minterms@).contains(c)
            || patterns_of(not_cares@).contains(c) by {
            if start.contains(c) {
                let n = choose|n: int| 0 <= n < both.len() && c == normal(#[trigger] both[n].term@);
                if n < minterms@.len() {
                    assert(c == normal(minterms@[n].term@));
                } else {
                    assert(c == normal(not_cares@[n - minterms@.len()].term@));
                }
            }
            if patterns_of(minterms@).contains(c) {
                let n = choose|n: int|
                    0 <= n < minterms@.len() && c == normal(#[trigger] minterms@[n].term@);
                assert(c == normal(both[n].term@));
            }
            if patterns_of(not_cares@).contains(c) {
                let n = choose|n: int|
                    0 <= n < not_cares@.len() && c == normal(#[trigger] not_cares@[n].term@);
                assert(c == normal(both[n + minterms@.len()].term@));
            }
        }
        assert(table_patterns(table@) =~= start);
    }
    let mut prime_implicants: Vec<Term> = Vec::new();
    let mut new_implicants = true;
    let ghost mut r: nat = 0;
    assert(patterns_of(prime_implicants@) =~= primes_before(start, 0));
    while new_implicants
        invariant
            table_ok(table@, r),
            table_patterns(table@) == generation(start, r),
            r <= 32 || !new_implicants,
            r <= PASSES,
            all_well_formed(prime_implicants@),
            patterns_of(prime_implicants@) == primes_before(start, r),
            forall|c: Seq<Val>| occurrences(prime_implicants@, c) == times_unmerged(start, c, r),
            !new_implicants ==> forall|c: Seq<Val>| !generation(start, r).contains(c),
        decreases
                if new_implicants {
                    33 - r
                } else {
                    0
                },
    {
        let (new_table, progressed) = pass(&table, &mut prime_implicants, Ghost(r));
        proof {
            let g = generation(start, r);
            assert(generation(start, r + 1) == next_generation(g));
            assert forall|c: Seq<Val>| primes_before(start, r + 1).contains(c) <==> primes_before(
                start,
                r,
            ).contains(c) || unmerged(g, c) by {
                if primes_before(start, r + 1).contains(c) {
                    let r2 = choose|r2: nat|
                        r2 < r + 1 && unmerged(#[trigger] generation(start, r2), c);
                    if r2 < r {
                        assert(primes_before(start, r).contains(c));
                    }
                }
                if primes_before(start, r).contains(c) {
                    let r2 = choose|r2: nat| r2 < r && unmerged(#[trigger] generation(start, r2), c);
                    assert(r2 < r + 1);
                }
                if unmerged(g, c) {
                    assert(unmerged(generation(start, r), c));
                }
            }
            assert(patterns_of(prime_implicants@) =~= primes_before(start, r + 1));
            if progressed {
                let c = choose|c: Seq<Val>| next_generation(g).contains(c);
                let (k2, i2) = lemma_table_member(new_table@, r + 1, c);
                assert(bucket_ok(new_table@[k2]@, k2 as int, r + 1));
                lemma_term_normal(new_table@[k2]@[i2]@);
            }
            r = r + 1;
        }
        table = new_table;
        new_implicants = progressed;
    }
    proof {
        assert forall|c: Seq<Val>| prime_patterns(start).contains(c) <==> primes_before(
            start,
            r,
        ).contains(c) by {
            if prime_patterns(start).contains(c) {
                let r2 = choose|r2: nat| unmerged(#[trigger] generation(start, r2), c);
                if r2 >= r {
                    lemma_generations_end(start, r, r2);
                }
            }
        }
        assert(prime_patterns(start) =~= primes_before(start, r));
        assert forall|c: Seq<Val>|
            occurrences(prime_implicants@, c) == times_unmerged(start, c, PASSES as nat) by {
            lemma_times_end(start, c, r, PASSES as nat);
        }
        assert(all_well_formed(minterms@ + not_cares@));
        if no_wildcards(minterms@ + not_cares@) {
            crate::prime::lemma_minterm_search(minterms@ + not_cares@);
        }
        crate::prime::lemma_search_covers(start, r);
        assert(primes_before(start, r).union(generation(start, r)) =~= prime_patterns(start));
        crate::prime::lemma_care_set_sources(prime_implicants@);
        crate::prime::lemma_care_set_sources(minterms@ + not_cares@);
    }
    prime_implicants
}

} // verus!
