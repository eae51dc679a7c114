use vstd::prelude::*;

use crate::bits::{bit, lemma_with_bit, lemma_without_bit, with_bit, without_bit};
use crate::pattern::{
    agrees, covered, covers, differ_only_at, lemma_covered_point,
    lemma_merged_at, lemma_merged_counts, lemma_merged_covers, lemma_single_difference,
    lemma_trues_differ, lemma_wilds_after_merge, merged, normal, point, val_at,
    wilds_below,
};
use crate::pattern::{lemma_normal_same, lemma_wilds_bound, lemma_wilds_respect};
use crate::qmc::{
    adjacent, all_well_formed, generation, next_generation, no_wildcards, one_if, patterns_of,
    prime_patterns, times_unmerged, unmerged, PASSES,
};
use crate::term::{sources_of, Term, Val};

verus! {

/// The numbers that some pattern of `start` stands for.
pub open spec fn care_set(start: Set<Seq<Val>>) -> Set<u32> {
    Set::new(|x: u32| exists|c: Seq<Val>| start.contains(c) && covers(c, x))
}

/// An implicant of `on`: a pattern of 32 positions that stands for numbers
/// of `on` only.
pub open spec fn implicant(c: Seq<Val>, on: Set<u32>) -> bool {
    c.len() == 32 && covered(c).subset_of(on)
}

/// A prime implicant of `on`: an implicant that stops being one as soon as
/// one more of its positions is set free.
pub open spec fn prime_implicant(c: Seq<Val>, on: Set<u32>) -> bool {
    implicant(c, on) && forall|i: int|
        0 <= i < 32 && c[i] != Val::S ==> !implicant(#[trigger] c.update(i, Val::S), on)
}

/// Every pattern of `start` has 32 positions and no `S`: each stands for one
/// number.
pub open spec fn minterms_only(start: Set<Seq<Val>>) -> bool {
    forall|c: Seq<Val>| start.contains(c) ==> c.len() == 32 && wilds_below(c, 32) == 0
}

/// The implicants of `on` with `r` positions `S`.
pub open spec fn level(on: Set<u32>, r: nat) -> Set<Seq<Val>> {
    Set::new(|c: Seq<Val>| implicant(c, on) && wilds_below(c, 32) == r)
}

/// A pattern with no `S` counted below `n` reads `S` nowhere below `n`.
proof fn lemma_no_wilds(c: Seq<Val>, n: nat)
    requires
        wilds_below(c, n) == 0,
    ensures
        forall|j: int| 0 <= j < n ==> val_at(c, j) != Val::S,
    decreases n,
{
    if n > 0 {
        lemma_no_wilds(c, (n - 1) as nat);
    }
}

/// A pattern with an `S` counted below `n` reads `S` somewhere below `n`.
proof fn lemma_some_wild(c: Seq<Val>, n: nat) -> (i: int)
    requires
        wilds_below(c, n) > 0,
    ensures
        0 <= i < n,
        val_at(c, i) == Val::S,
    decreases n,
{
    if val_at(c, n - 1) == Val::S {
        n - 1
    } else {
        lemma_some_wild(c, (n - 1) as nat)
    }
}

/// Patterns that read `S` at the same positions below `n` count the same
/// number of `S` below `n`.
proof fn lemma_wilds_alike(a: Seq<Val>, b: Seq<Val>, n: nat)
    requires
        forall|j: int| 0 <= j < n ==> (val_at(a, j) == Val::S) == (val_at(b, j) == Val::S),
    ensures
        wilds_below(a, n) == wilds_below(b, n),
    decreases n,
{
    if n > 0 {
        lemma_wilds_alike(a, b, (n - 1) as nat);
    }
}

/// A pattern that reads as another does wherever the other does not read `S`
/// stands only for numbers that the other stands for.
proof fn lemma_narrower(a: Seq<Val>, c: Seq<Val>)
    requires
        forall|j: int|
            0 <= j < 32 ==> val_at(a, j) == val_at(c, j) || val_at(c, j) == Val::S,
    ensures
        covered(a).subset_of(covered(c)),
{
    assert forall|x: u32| covered(a).contains(x) implies covered(c).contains(x) by {
        assert forall|j: int| 0 <= j < 32 implies agrees(val_at(c, j), #[trigger] bit(x, j)) by {
            assert(agrees(val_at(a, j), bit(x, j)));
        }
    }
}

/// Two patterns of 32 positions without `S` that stand for a common number
/// are equal.
proof fn lemma_same_point(a: Seq<Val>, b: Seq<Val>, x: u32)
    requires
        a.len() == 32,
        b.len() == 32,
        wilds_below(a, 32) == 0,
        wilds_below(b, 32) == 0,
        covers(a, x),
        covers(b, x),
    ensures
        a == b,
{
    lemma_no_wilds(a, 32);
    lemma_no_wilds(b, 32);
    assert forall|j: int| 0 <= j < 32 implies a[j] == b[j] by {
        assert(agrees(val_at(a, j), bit(x, j)));
        assert(agrees(val_at(b, j), bit(x, j)));
    }
    assert(a =~= b);
}

/// Setting free the position at which two implicants of one level differ
/// gives an implicant of the next level, and the lower of the two reads `F`
/// there.
proof fn lemma_merge_is_implicant(lo: Seq<Val>, hi: Seq<Val>, on: Set<u32>, r: nat) -> (i: int)
    requires
        level(on, r).contains(lo),
        level(on, r).contains(hi),
        adjacent(lo, hi),
    ensures
        0 <= i < 32,
        lo[i] == Val::F,
        hi[i] == Val::T,
        differ_only_at(lo, hi, i),
        normal(merged(lo, hi)) == lo.update(i, Val::S),
        normal(merged(lo, hi)) == hi.update(i, Val::S),
        level(on, r + 1).contains(normal(merged(lo, hi))),
{
    let m = merged(lo, hi);
    lemma_merged_counts(lo, hi);
    let i = choose|i: int|
        0 <= i < 32 && differ_only_at(lo, hi, i) && val_at(hi, i) == Val::T && val_at(lo, i)
            != Val::T;
    assert forall|j: int| 0 <= j implies val_at(m, j) == if j == i {
        Val::S
    } else {
        val_at(lo, j)
    } by {
        lemma_merged_at(lo, hi, j);
    }
    if val_at(lo, i) == Val::S {
        assert forall|j: int| 0 <= j < 32 implies (val_at(m, j) == Val::S) == (val_at(lo, j)
            == Val::S) by {}
        lemma_wilds_alike(m, lo, 32);
    }
    assert(normal(m) =~= lo.update(i, Val::S));
    assert(normal(m) =~= hi.update(i, Val::S));
    assert(normal(m) =~= m);
    lemma_merged_covers(lo, hi, i);
    i
}

/// The two halves of a pattern at a position that it sets free.
proof fn lemma_halves(c: Seq<Val>, i: int)
    requires
        c.len() == 32,
        0 <= i < 32,
        c[i] == Val::S,
    ensures
        adjacent(c.update(i, Val::F), c.update(i, Val::T)),
        normal(merged(c.update(i, Val::F), c.update(i, Val::T))) == c,
        wilds_below(c, 32) == wilds_below(c.update(i, Val::F), 32) + 1,
        wilds_below(c, 32) == wilds_below(c.update(i, Val::T), 32) + 1,
        covered(c.update(i, Val::F)).subset_of(covered(c)),
        covered(c.update(i, Val::T)).subset_of(covered(c)),
{
    let a = c.update(i, Val::F);
    let b = c.update(i, Val::T);
    assert(differ_only_at(a, b, i));
    lemma_single_difference(a, b);
    lemma_trues_differ(a, b, i, 32);
    assert forall|j: int| 0 <= j implies val_at(merged(a, b), j) == val_at(c, j) by {
        lemma_merged_at(a, b, j);
    }
    assert(normal(merged(a, b)) =~= c);
    lemma_wilds_after_merge(a, c, i, 32);
    lemma_wilds_after_merge(b, c, i, 32);
    lemma_narrower(a, c);
    lemma_narrower(b, c);
}

/// A search that starts from minterms has, in pass `r`, exactly the
/// implicants with `r` positions `S` on the table.
pub proof fn lemma_generation_level(start: Set<Seq<Val>>, r: nat)
    requires
        minterms_only(start),
    ensures
        generation(start, r) == level(care_set(start), r),
    decreases r,
{
    let on = care_set(start);
    if r == 0 {
        assert forall|c: Seq<Val>| start.contains(c) implies level(on, 0).contains(c) by {
            assert forall|x: u32| covered(c).contains(x) implies on.contains(x) by {
                assert(start.contains(c) && covers(c, x));
            }
        }
        assert forall|c: Seq<Val>| level(on, 0).contains(c) implies start.contains(c) by {
            lemma_covered_point(c);
            let x = point(c, 32);
            assert(covered(c).contains(x));
            assert(on.contains(x));
            let c2 = choose|c2: Seq<Val>| start.contains(c2) && covers(c2, x);
            lemma_same_point(c, c2, x);
        }
        assert(start =~= level(on, 0));
    } else {
        let before = (r - 1) as nat;
        lemma_generation_level(start, before);
        let g = generation(start, before);
        assert forall|c: Seq<Val>| next_generation(g).contains(c) implies level(on, r).contains(
            c,
        ) by {
            let (a, b) = choose|a: Seq<Val>, b: Seq<Val>|
                g.contains(a) && g.contains(b) && #[trigger] adjacent(a, b) && c == normal(
                    merged(a, b),
                );
            lemma_merge_is_implicant(a, b, on, before);
        }
        assert forall|c: Seq<Val>| level(on, r).contains(c) implies next_generation(g).contains(
            c,
        ) by {
            let i = lemma_some_wild(c, 32);
            lemma_halves(c, i);
            let a = c.update(i, Val::F);
            let b = c.update(i, Val::T);
            assert(level(on, before).contains(a));
            assert(level(on, before).contains(b));
            assert(g.contains(a) && g.contains(b) && adjacent(a, b) && c == normal(merged(a, b)));
        }
        assert(next_generation(g) =~= level(on, r));
    }
}

/// Among the implicants of one level, those that merge with no other are the
/// prime implicants.
pub proof fn lemma_unmerged_is_prime(c: Seq<Val>, on: Set<u32>, r: nat)
    requires
        level(on, r).contains(c),
    ensures
        unmerged(level(on, r), c) <==> prime_implicant(c, on),
{
    let g = level(on, r);
    if !unmerged(g, c) {
        let b = choose|b: Seq<Val>| g.contains(b) && (adjacent(c, b) || adjacent(b, c));
        if adjacent(c, b) {
            let i = lemma_merge_is_implicant(c, b, on, r);
            assert(implicant(c.update(i, Val::S), on));
        } else {
            let i = lemma_merge_is_implicant(b, c, on, r);
            assert(implicant(c.update(i, Val::S), on));
        }
        assert(!prime_implicant(c, on));
    }
    if !prime_implicant(c, on) {
        let i = choose|i: int|
            0 <= i < 32 && c[i] != Val::S && implicant(#[trigger] c.update(i, Val::S), on);
        let wide = c.update(i, Val::S);
        let other = if c[i] == Val::T {
            Val::F
        } else {
            Val::T
        };
        let b = c.update(i, other);
        lemma_narrower(b, wide);
        assert forall|j: int| 0 <= j < 32 implies (val_at(b, j) == Val::S) == (val_at(c, j)
            == Val::S) by {}
        lemma_wilds_alike(b, c, 32);
        assert(g.contains(b));
        if c[i] == Val::T {
            assert(differ_only_at(b, c, i));
            lemma_single_difference(b, c);
            lemma_trues_differ(b, c, i, 32);
            assert(adjacent(b, c));
        } else {
            assert(differ_only_at(c, b, i));
            lemma_single_difference(c, b);
            lemma_trues_differ(c, b, i, 32);
            assert(adjacent(c, b));
        }
        assert(!unmerged(g, c));
    }
}

/// A search that starts from minterms finds the prime implicants of the
/// numbers that the minterms stand for, all of them and nothing else.
pub proof fn lemma_search_finds_prime_implicants(start: Set<Seq<Val>>)
    requires
        minterms_only(start),
    ensures
        forall|c: Seq<Val>|
            prime_patterns(start).contains(c) <==> prime_implicant(c, care_set(start)),
{
    let on = care_set(start);
    assert forall|c: Seq<Val>| prime_patterns(start).contains(c) <==> prime_implicant(c, on) by {
        if prime_patterns(start).contains(c) {
            let r = choose|r: nat| unmerged(#[trigger] generation(start, r), c);
            lemma_generation_level(start, r);
            lemma_unmerged_is_prime(c, on, r);
        }
        if prime_implicant(c, on) {
            let r = wilds_below(c, 32);
            lemma_generation_level(start, r);
            assert(level(on, r).contains(c));
            lemma_unmerged_is_prime(c, on, r);
            assert(unmerged(generation(start, r), c));
        }
    }
}

/// No implicant stands for more than a prime implicant that it includes: a
/// prime implicant is as general as an implicant can be.
pub proof fn lemma_prime_is_maximal(c: Seq<Val>, d: Seq<Val>, on: Set<u32>)
    requires
        prime_implicant(c, on),
        implicant(d, on),
        covered(c).subset_of(covered(d)),
    ensures
        c == d,
{
    lemma_covered_point(c);
    let x = point(c, 32);
    assert(covered(c).contains(x));
    assert forall|j: int| 0 <= j < 32 implies d[j] == Val::S || d[j] == c[j] by {
        lemma_with_bit(x, j);
        lemma_without_bit(x, j);
        assert(covered(d).contains(x));
        assert(agrees(val_at(c, j), bit(x, j)));
        assert(agrees(val_at(d, j), bit(x, j)));
        if c[j] == Val::S && d[j] != Val::S {
            crate::pattern::lemma_covers_either(c, x, j);
            let z = if d[j] == Val::T {
                without_bit(x, j)
            } else {
                with_bit(x, j)
            };
            assert(covered(c).contains(z));
            assert(covered(d).contains(z));
            assert(agrees(val_at(d, j), bit(z, j)));
        }
    }
    if c != d {
        assert(!(c =~= d));
        let i = choose|i: int| 0 <= i < 32 && c[i] != d[i];
        assert(d[i] == Val::S);
        let wide = c.update(i, Val::S);
        lemma_narrower(wide, d);
        assert(implicant(wide, on));
    }
}

/// In a search that starts from minterms, a pattern is left unmerged by one
/// pass if it is a prime implicant, the pass of its count of `S`, and by no
/// pass if it is not.
pub proof fn lemma_times_prime(start: Set<Seq<Val>>, c: Seq<Val>, n: nat)
    requires
        minterms_only(start),
    ensures
        times_unmerged(start, c, n) == one_if(
            prime_implicant(c, care_set(start)) && wilds_below(c, 32) < n,
        ),
    decreases n,
{
    let on = care_set(start);
    if n > 0 {
        let r = (n - 1) as nat;
        lemma_times_prime(start, c, r);
        lemma_generation_level(start, r);
        if level(on, r).contains(c) {
            lemma_unmerged_is_prime(c, on, r);
        }
    }
}

/// The numbers that the patterns of well-formed terms stand for are the
/// numbers that the terms cover.
pub proof fn lemma_care_set_sources(terms: Seq<Term>)
    requires
        all_well_formed(terms),
    ensures
        care_set(patterns_of(terms)) == sources_of(terms),
{
    let start = patterns_of(terms);
    assert forall|x: u32| care_set(start).contains(x) <==> sources_of(terms).contains(x) by {
        if care_set(start).contains(x) {
            let c = choose|c: Seq<Val>| start.contains(c) && covers(c, x);
            let i = choose|i: int| 0 <= i < terms.len() && c == normal(#[trigger] terms[i].term@);
            lemma_normal_covers(terms[i].term@, x);
            assert(covered(terms[i].term@).contains(x));
            assert(terms[i].sources@.contains(x));
        }
        if sources_of(terms).contains(x) {
            let i = choose|i: int|
                0 <= i < terms.len() && (#[trigger] terms[i]).sources@.contains(x);
            let c = normal(terms[i].term@);
            assert(covered(terms[i].term@).contains(x));
            lemma_normal_covers(terms[i].term@, x);
            assert(start.contains(c) && covers(c, x));
        }
    }
    assert(care_set(start) =~= sources_of(terms));
}

/// A pattern and its normal form stand for the same numbers.
pub proof fn lemma_normal_covers(p: Seq<Val>, x: u32)
    ensures
        covers(normal(p), x) <==> covers(p, x),
{
    let c = normal(p);
    if covers(c, x) {
        assert forall|j: int| 0 <= j < 32 implies agrees(val_at(p, j), #[trigger] bit(x, j)) by {
            assert(agrees(val_at(c, j), bit(x, j)));
        }
    }
    if covers(p, x) {
        assert forall|j: int| 0 <= j < 32 implies agrees(val_at(c, j), #[trigger] bit(x, j)) by {
            assert(agrees(val_at(p, j), bit(x, j)));
        }
    }
}

/// The search from well-formed terms without wildcards is a search from
/// minterms for the prime implicants of the numbers that the terms cover:
/// every pattern occurs once if it is a prime implicant and not at all if it
/// is not.
pub proof fn lemma_minterm_search(terms: Seq<Term>)
    requires
        all_well_formed(terms),
        no_wildcards(terms),
    ensures
        minterms_only(patterns_of(terms)),
        care_set(patterns_of(terms)) == sources_of(terms),
        forall|c: Seq<Val>|
            times_unmerged(patterns_of(terms), c, PASSES as nat) == one_if(
                prime_implicant(c, sources_of(terms)),
            ),
{
    let start = patterns_of(terms);
    assert forall|c: Seq<Val>| start.contains(c) implies c.len() == 32 && wilds_below(c, 32)
        == 0 by {
        let i = choose|i: int| 0 <= i < terms.len() && c == normal(#[trigger] terms[i].term@);
        lemma_normal_same(terms[i].term@);
        lemma_wilds_respect(c, terms[i].term@, 32);
    }
    lemma_care_set_sources(terms);
    assert forall|c: Seq<Val>|
        times_unmerged(start, c, PASSES as nat) == one_if(
            prime_implicant(c, sources_of(terms)),
        ) by {
        lemma_times_prime(start, c, PASSES as nat);
        lemma_wilds_bound(c, 32);
    }
}

/// A pass loses nothing: the patterns that it leaves unmerged and the
/// patterns that it produces stand together for the numbers that the
/// patterns on the table stand for.
pub proof fn lemma_pass_covers(g: Set<Seq<Val>>)
    ensures
        care_set(Set::new(|c: Seq<Val>| unmerged(g, c)).union(next_generation(g))) == care_set(g),
{
    let after = Set::new(|c: Seq<Val>| unmerged(g, c)).union(next_generation(g));
    assert forall|x: u32| care_set(after).contains(x) <==> care_set(g).contains(x) by {
        if care_set(after).contains(x) {
            let c = choose|c: Seq<Val>| after.contains(c) && covers(c, x);
            if !unmerged(g, c) {
                let (a, b) = choose|a: Seq<Val>, b: Seq<Val>|
                    g.contains(a) && g.contains(b) && #[trigger] adjacent(a, b) && c == normal(
                        merged(a, b),
                    );
                lemma_single_difference(a, b);
                let i = choose|i: int| differ_only_at(a, b, i);
                lemma_merged_covers(a, b, i);
                lemma_normal_covers(merged(a, b), x);
                assert(covered(merged(a, b)).contains(x));
                assert(covers(a, x) || covers(b, x));
            }
        }
        if care_set(g).contains(x) {
            let c = choose|c: Seq<Val>| g.contains(c) && covers(c, x);
            if unmerged(g, c) {
                assert(after.contains(c) && covers(c, x));
            } else {
                let b = choose|b: Seq<Val>| g.contains(b) && (adjacent(c, b) || adjacent(b, c));
                let (lo, hi) = if adjacent(c, b) {
                    (c, b)
                } else {
                    (b, c)
                };
                lemma_single_difference(lo, hi);
                let i = choose|i: int| differ_only_at(lo, hi, i);
                lemma_merged_covers(lo, hi, i);
                let m = normal(merged(lo, hi));
                assert(covered(merged(lo, hi)).contains(x));
                lemma_normal_covers(merged(lo, hi), x);
                assert(next_generation(g).contains(m));
                assert(after.contains(m) && covers(m, x));
            }
        }
    }
    assert(care_set(after) =~= care_set(g));
}

/// The search loses nothing: the patterns that the passes before pass `r`
/// have left unmerged and the patterns on the table in pass `r` stand
/// together for the numbers that the patterns at the start stand for.
pub proof fn lemma_search_covers(start: Set<Seq<Val>>, r: nat)
    ensures
        care_set(crate::qmc::primes_before(start, r).union(generation(start, r))) == care_set(
            start,
        ),
    decreases r,
{
    let now = crate::qmc::primes_before(start, r).union(generation(start, r));
    if r == 0 {
        assert(now =~= start);
    } else {
        let before = (r - 1) as nat;
        lemma_search_covers(start, before);
        let g = generation(start, before);
        let was = crate::qmc::primes_before(start, before).union(g);
        lemma_pass_covers(g);
        let step = Set::new(|c: Seq<Val>| unmerged(g, c)).union(next_generation(g));
        assert forall|x: u32| care_set(now).contains(x) <==> care_set(was).contains(x) by {
            if care_set(now).contains(x) {
                let c = choose|c: Seq<Val>| now.contains(c) && covers(c, x);
                if crate::qmc::primes_before(start, r).contains(c) {
                    let r2 = choose|r2: nat|
                        r2 < r && unmerged(#[trigger] generation(start, r2), c);
                    if r2 < before {
                        assert(crate::qmc::primes_before(start, before).contains(c));
                        assert(was.contains(c) && covers(c, x));
                    } else {
                        assert(step.contains(c) && covers(c, x));
                        assert(care_set(g).contains(x));
                        let c2 = choose|c2: Seq<Val>| g.contains(c2) && covers(c2, x);
                        assert(was.contains(c2) && covers(c2, x));
                    }
                } else {
                    assert(step.contains(c) && covers(c, x));
                    assert(care_set(g).contains(x));
                    let c2 = choose|c2: Seq<Val>| g.contains(c2) && covers(c2, x);
                    assert(was.contains(c2) && covers(c2, x));
                }
            }
            if care_set(was).contains(x) {
                let c = choose|c: Seq<Val>| was.contains(c) && covers(c, x);
                if crate::qmc::primes_before(start, before).contains(c) {
                    let r2 = choose|r2: nat|
                        r2 < before && unmerged(#[trigger] generation(start, r2), c);
                    assert(r2 < r);
                    assert(now.contains(c) && covers(c, x));
                } else {
                    assert(care_set(g).contains(x));
                    assert(care_set(step).contains(x));
                    let c2 = choose|c2: Seq<Val>| step.contains(c2) && covers(c2, x);
                    if unmerged(g, c2) {
                        assert(unmerged(generation(start, before), c2));
                        assert(crate::qmc::primes_before(start, r).contains(c2));
                    }
                    assert(now.contains(c2) && covers(c2, x));
                }
            }
        }
        assert(care_set(now) =~= care_set(was));
    }
}

} // verus!
