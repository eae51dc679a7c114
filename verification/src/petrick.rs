use std::collections::hash_set;
use std::collections::HashSet;
use std::slice;
use vstd::prelude::*;
use vstd::std_specs::hash::spec_hash_keys_iter;
use vstd::std_specs::iter::IteratorSpec;

use crate::sets::{copy, elements, extend, same};
use crate::term::{sources_of, Term};

verus! {

/// A product of prime implicants: the set of their indices. Taking an
/// implicant twice changes nothing.
#[derive(Debug)]
pub struct Product(pub HashSet<usize>);

impl View for Product {
    type V = Set<usize>;

    open spec fn view(&self) -> Set<usize> {
        self.0@
    }
}

impl Product {
    /// The product of the single implicant `i`.
    pub fn new(i: usize) -> (r: Self)
        ensures
            r@ == set![i],
    {
        let mut set: HashSet<usize> = HashSet::new();
        set.insert(i);
        assert(set@ =~= set![i]);
        Self(set)
    }

    /// This product times implicant `i`.
    pub fn multiply(&self, i: usize) -> (r: Product)
        ensures
            r@ == self@.insert(i),
    {
        let mut set = copy(&self.0);
        set.insert(i);
        Product(set)
    }

    /// Goes through the implicants of the product, each once.
    pub fn iter(&self) -> (r: hash_set::Iter<'_, usize>)
        ensures
            r == spec_hash_keys_iter(&self.0),
            r.remaining().unref().to_set() == self@,
            r.remaining().no_duplicates(),
            r.decrease() is Some,
            r.initial_value_relation(&r),
    {
        self.0.iter()
    }

    /// The number of implicants in the product.
    pub fn len(&self) -> (r: usize)
        ensures
            r == self@.len(),
    {
        self.0.len()
    }
}

/// A sum of products, each product held once.
#[derive(Debug)]
pub struct SumOfProduct(pub Vec<Product>);

impl View for SumOfProduct {
    type V = Set<Set<usize>>;

    open spec fn view(&self) -> Set<Set<usize>> {
        Set::new(|p: Set<usize>| exists|i: int| 0 <= i < self.0@.len() && #[trigger] self.0@[i]@ == p)
    }
}

/// The sum of products times the sum of the implicants in `sum`: every
/// product of the one times every implicant of the other. The empty sum of
/// products stands for the start of a multiplication, and gives the
/// implicants of `sum` as products of their own.
pub open spec fn multiplied(sop: Set<Set<usize>>, sum: Set<usize>) -> Set<Set<usize>> {
    if forall|q: Set<usize>| !sop.contains(q) {
        Set::new(|p: Set<usize>| exists|a: usize| sum.contains(a) && p == set![a])
    } else {
        Set::new(
            |p: Set<usize>|
                exists|q: Set<usize>, a: usize|
                    sop.contains(q) && sum.contains(a) && p == #[trigger] q.insert(a),
        )
    }
}

impl SumOfProduct {
    /// No product is held twice.
    pub open spec fn wf(&self) -> bool {
        forall|i: int, j: int| 0 <= i < j < self.0@.len() ==> self.0@[i]@ != self.0@[j]@
    }

    /// The empty sum of products.
    pub fn new() -> (r: Self)
        ensures
            r.wf(),
            r@ == Set::<Set<usize>>::empty(),
    {
        let r = Self(Vec::new());
        assert(r@ =~= Set::<Set<usize>>::empty());
        r
    }

    /// Adds `product` unless it is held already.
    fn insert(&mut self, product: Product)
        requires
            old(self).wf(),
        ensures
            final(self).wf(),
            final(self)@ == old(self)@.insert(product@),
            final(self).0@.len() >= old(self).0@.len(),
    {
        let mut i: usize = 0;
        while i < self.0.len()
            invariant
                i <= self.0.len(),
                *self == *old(self),
                self.wf(),
                forall|j: int| 0 <= j < i ==> (#[trigger] self.0@[j])@ != product@,
            decreases self.0.len() - i,
        {
            if same(&self.0[i].0, &product.0) {
                assert(self@.contains(self.0@[i as int]@));
                assert(self@ =~= self@.insert(product@));
                return ;
            }
            i += 1;
        }
        self.0.push(product);
        proof {
            let before = old(self).0@;
            let after = self.0@;
            assert forall|p: Set<usize>| self@.contains(p) <==> old(self)@.insert(
                product@,
            ).contains(p) by {
                if self@.contains(p) {
                    let n = choose|n: int| 0 <= n < after.len() && #[trigger] after[n]@ == p;
                    if n < before.len() {
                        assert(before[n]@ == p);
                    }
                }
                if old(self)@.contains(p) {
                    let n = choose|n: int| 0 <= n < before.len() && #[trigger] before[n]@ == p;
                    assert(after[n]@ == p);
                }
                if p == product@ {
                    assert(after[before.len() as int]@ == p);
                }
            }
            assert(self@ =~= old(self)@.insert(product@));
        }
    }

    /// Multiplies the sum of products by the sum of the implicants in `sum`.
    pub fn multiply(&mut self, sum: &HashSet<usize>)
        requires
            old(self).wf(),
        ensures
            final(self).wf(),
            final(self)@ == multiplied(old(self)@, sum@),
    {
        let atoms = elements(sum);
        let mut result = SumOfProduct::new();
        if self.0.len() == 0 {
            let mut a: usize = 0;
            while a < atoms.len()
                invariant
                    a <= atoms.len(),
                    atoms@.to_set() == sum@,
                    result.wf(),
                    forall|p: Set<usize>|
                        result@.contains(p) <==> exists|n: int|
                            0 <= n < a && p == set![#[trigger] atoms@[n]],
                decreases atoms.len() - a,
            {
                let ghost before = result@;
                let product = Product::new(atoms[a]);
                result.insert(product);
                proof {
                    assert forall|p: Set<usize>| result@.contains(p) <==> exists|n: int|
                        0 <= n < a + 1 && p == set![#[trigger] atoms@[n]] by {
                        if result@.contains(p) && p != set![atoms@[a as int]] {
                            assert(before.contains(p));
                            let n = choose|n: int| 0 <= n < a && p == set![#[trigger] atoms@[n]];
                            assert(0 <= n < a + 1);
                        }
                        if exists|n: int| 0 <= n < a + 1 && p == set![#[trigger] atoms@[n]] {
                            let n = choose|n: int|
                                0 <= n < a + 1 && p == set![#[trigger] atoms@[n]];
                            if n < a {
                                assert(before.contains(p));
                            }
                        }
                    }
                }
                a += 1;
            }
            proof {
                let goal = multiplied(old(self)@, sum@);
                assert forall|q: Set<usize>| !old(self)@.contains(q) by {}
                assert forall|p: Set<usize>| result@.contains(p) <==> goal.contains(p) by {
                    if result@.contains(p) {
                        let n = choose|n: int|
                            0 <= n < atoms@.len() && p == set![#[trigger] atoms@[n]];
                        assert(atoms@.to_set().contains(atoms@[n]));
                    }
                    if goal.contains(p) {
                        let v = choose|v: usize| sum@.contains(v) && p == set![v];
                        assert(atoms@.to_set().contains(v));
                        let n = choose|n: int| 0 <= n < atoms@.len() && atoms@[n] == v;
                        assert(p == set![atoms@[n]]);
                    }
                }
                assert(result@ =~= goal);
            }
        } else {
            let mut i: usize = 0;
            while i < self.0.len()
                invariant
                    i <= self.0.len(),
                    *self == *old(self),
                    atoms@.to_set() == sum@,
                    result.wf(),
                    forall|p: Set<usize>|
                        result@.contains(p) <==> exists|m: int, n: int|
                            0 <= m < i && 0 <= n < atoms@.len() && p == #[trigger] self.0@[m]@.insert(
                                atoms@[n],
                            ),
                decreases self.0.len() - i,
            {
                let mut a: usize = 0;
                while a < atoms.len()
                    invariant
                        i < self.0.len(),
                        a <= atoms.len(),
                        *self == *old(self),
                        atoms@.to_set() == sum@,
                        result.wf(),
                        forall|p: Set<usize>|
                            result@.contains(p) <==> exists|m: int, n: int|
                                0 <= m <= i && 0 <= n < atoms@.len() && (m < i || n < a) && p
                                    == #[trigger] self.0@[m]@.insert(atoms@[n]),
                    decreases atoms.len() - a,
                {
                    let ghost before = result@;
                    let product = self.0[i].multiply(atoms[a]);
                    result.insert(product);
                    proof {
                        let here = self.0@[i as int]@.insert(atoms@[a as int]);
                        assert forall|p: Set<usize>| result@.contains(p) <==> exists|
                            m: int,
                            n: int,
                        |
                            0 <= m <= i && 0 <= n < atoms@.len() && (m < i || n < a + 1) && p
                                == #[trigger] self.0@[m]@.insert(atoms@[n]) by {
                            if result@.contains(p) && p != here {
                                assert(before.contains(p));
                                let (m, n) = choose|m: int, n: int|
                                    0 <= m <= i && 0 <= n < atoms@.len() && (m < i || n < a) && p
                                        == #[trigger] self.0@[m]@.insert(atoms@[n]);
                                assert(m < i || n < a + 1);
                            }
                            if exists|m: int, n: int|
                                0 <= m <= i && 0 <= n < atoms@.len() && (m < i || n < a + 1) && p
                                    == #[trigger] self.0@[m]@.insert(atoms@[n]) {
                                let (m, n) = choose|m: int, n: int|
                                    0 <= m <= i && 0 <= n < atoms@.len() && (m < i || n < a + 1)
                                        && p == #[trigger] self.0@[m]@.insert(atoms@[n]);
                                if m < i || n < a {
                                    assert(before.contains(p));
                                }
                            }
                        }
                    }
                    a += 1;
                }
                proof {
                    assert forall|p: Set<usize>| result@.contains(p) <==> exists|m: int, n: int|
                        0 <= m < i + 1 && 0 <= n < atoms@.len() && p == #[trigger] self.0@[m]@.insert(
                            atoms@[n],
                        ) by {
                        if result@.contains(p) {
                            let (m, n) = choose|m: int, n: int|
                                0 <= m <= i && 0 <= n < atoms@.len() && (m < i || n < a) && p
                                    == #[trigger] self.0@[m]@.insert(atoms@[n]);
                            assert(0 <= m < i + 1);
                        }
                        if exists|m: int, n: int|
                            0 <= m < i + 1 && 0 <= n < atoms@.len() && p
                                == #[trigger] self.0@[m]@.insert(atoms@[n]) {
                            let (m, n) = choose|m: int, n: int|
                                0 <= m < i + 1 && 0 <= n < atoms@.len() && p
                                    == #[trigger] self.0@[m]@.insert(atoms@[n]);
                            assert(m < i || n < a);
                        }
                    }
                }
                i += 1;
            }
            proof {
                let goal = multiplied(old(self)@, sum@);
                assert(old(self)@.contains(self.0@[0]@));
                assert forall|p: Set<usize>| result@.contains(p) <==> goal.contains(p) by {
                    if result@.contains(p) {
                        let (m, n) = choose|m: int, n: int|
                            0 <= m < self.0@.len() && 0 <= n < atoms@.len() && p
                                == #[trigger] self.0@[m]@.insert(atoms@[n]);
                        assert(atoms@.to_set().contains(atoms@[n]));
                        assert(old(self)@.contains(self.0@[m]@));
                    }
                    if goal.contains(p) {
                        let (q, v) = choose|q: Set<usize>, v: usize|
                            old(self)@.contains(q) && sum@.contains(v) && p == #[trigger] q.insert(
                                v,
                            );
                        let m = choose|m: int| 0 <= m < self.0@.len() && #[trigger] self.0@[m]@ == q;
                        assert(atoms@.to_set().contains(v));
                        let n = choose|n: int| 0 <= n < atoms@.len() && atoms@[n] == v;
                        assert(p == self.0@[m]@.insert(atoms@[n]));
                    }
                }
                assert(result@ =~= goal);
            }
        }
        *self = result;
    }

    /// Goes through the products of the sum, each once.
    pub fn iter(&self) -> (r: slice::Iter<'_, Product>)
        ensures
            r.remaining() == self.0@.as_ref(),
            r.decrease() is Some,
            r.initial_value_relation(&r),
    {
        self.0.iter()
    }
}

/// The numbers that the minterms ask to have covered.
pub open spec fn required(minterms: Seq<Term>) -> Set<u32> {
    sources_of(minterms)
}

/// Implicant `i` of the list covers the number `x`.
pub open spec fn covers_id(implicants: Seq<Term>, i: usize, x: u32) -> bool {
    i < implicants.len() && implicants[i as int].sources@.contains(x)
}

/// Some implicant of the list covers the number `x`.
pub open spec fn coverable(implicants: Seq<Term>, x: u32) -> bool {
    exists|i: usize| covers_id(implicants, i, x)
}

/// The implicants with the chosen indices cover every required number that
/// the list can cover at all.
pub open spec fn is_cover(chosen: Set<usize>, implicants: Seq<Term>, minterms: Seq<Term>) -> bool {
    &&& forall|i: usize| chosen.contains(i) ==> i < implicants.len()
    &&& forall|x: u32|
        required(minterms).contains(x) && coverable(implicants, x) ==> exists|i: usize|
            chosen.contains(i) && covers_id(implicants, i, x)
}

/// A cover that no cover has fewer implicants than.
pub open spec fn is_minimum_cover(
    chosen: Set<usize>,
    implicants: Seq<Term>,
    minterms: Seq<Term>,
) -> bool {
    &&& is_cover(chosen, implicants, minterms)
    &&& forall|other: Set<usize>|
        is_cover(other, implicants, minterms) ==> chosen.len() <= other.len()
}

/// Where the implicants cover every number that the minterms ask for, a
/// cover leaves none of them out.
pub proof fn lemma_cover_is_total(chosen: Set<usize>, implicants: Seq<Term>, minterms: Seq<Term>)
    requires
        implicants.len() <= usize::MAX,
        is_cover(chosen, implicants, minterms),
        required(minterms).subset_of(sources_of(implicants)),
    ensures
        forall|x: u32|
            required(minterms).contains(x) ==> exists|i: usize|
                chosen.contains(i) && covers_id(implicants, i, x),
{
    assert forall|x: u32| required(minterms).contains(x) implies exists|i: usize|
        chosen.contains(i) && covers_id(implicants, i, x) by {
        assert(sources_of(implicants).contains(x));
        let m = choose|m: int|
            0 <= m < implicants.len() && (#[trigger] implicants[m]).sources@.contains(x);
        assert(covers_id(implicants, m as usize, x));
        assert(coverable(implicants, x));
    }
}

/// The first `n` implicants of the list whose indices are chosen, in the
/// order of the list.
pub open spec fn picked(implicants: Seq<Term>, chosen: Set<usize>, n: nat) -> Seq<Term>
    decreases n,
{
    if n == 0 {
        Seq::empty()
    } else {
        let before = picked(implicants, chosen, (n - 1) as nat);
        if chosen.contains((n - 1) as usize) {
            before.push(implicants[n - 1])
        } else {
            before
        }
    }
}

/// Every index below `n`.
spec fn indices_below(n: nat) -> Set<usize> {
    Set::new(|i: usize| i < n)
}

/// There are `n` indices below `n`.
proof fn lemma_indices_below(n: nat)
    requires
        n <= usize::MAX,
    ensures
        indices_below(n).finite(),
        indices_below(n).len() == n,
    decreases n,
{
    if n == 0 {
        assert(indices_below(n) =~= Set::<usize>::empty());
    } else {
        lemma_indices_below((n - 1) as nat);
        assert(indices_below(n) =~= indices_below((n - 1) as nat).insert((n - 1) as usize));
    }
}

/// The products so far, after the required numbers `keys[0..m)`: each
/// product holds indices of the list only and, for each of those numbers that
/// can be covered, an implicant that covers it.
spec fn sound(
    sop: Set<Set<usize>>,
    implicants: Seq<Term>,
    keys: Seq<u32>,
    m: int,
) -> bool {
    forall|p: Set<usize>| #[trigger]
        sop.contains(p) ==> {
            &&& p.finite()
            &&& forall|i: usize| p.contains(i) ==> i < implicants.len()
            &&& hits(p, implicants, keys, m)
        }
}

/// For each of the numbers `keys[0..m)` that can be covered, `c` holds an
/// implicant that covers it.
spec fn hits(c: Set<usize>, implicants: Seq<Term>, keys: Seq<u32>, m: int) -> bool {
    forall|j: int|
        0 <= j < m && j < keys.len() && coverable(implicants, #[trigger] keys[j]) ==> exists|
            i: usize,
        |
            c.contains(i) && covers_id(implicants, i, keys[j])
}

/// Some of the numbers `keys[0..m)` can be covered.
spec fn started(implicants: Seq<Term>, keys: Seq<u32>, m: int) -> bool {
    exists|j: int| 0 <= j < m && j < keys.len() && coverable(implicants, #[trigger] keys[j])
}

/// The products so far leave no way out: whatever covers the numbers
/// `keys[0..m)` holds one of the products whole.
spec fn complete(
    sop: Set<Set<usize>>,
    implicants: Seq<Term>,
    keys: Seq<u32>,
    m: int,
) -> bool {
    forall|c: Set<usize>| #[trigger]
        hits(c, implicants, keys, m) ==> exists|p: Set<usize>|
            sop.contains(p) && p.subset_of(c)
}

/// The indices of the implicants that cover the number `key`.
fn covering(prime_implicants: &[Term], key: u32) -> (sum: HashSet<usize>)
    ensures
        forall|i: usize| sum@.contains(i) <==> covers_id(prime_implicants@, i, key),
{
    let mut sum: HashSet<usize> = HashSet::new();
    let mut id: usize = 0;
    while id < prime_implicants.len()
        invariant
            id <= prime_implicants.len(),
            forall|i: usize|
                sum@.contains(i) <==> i < id && covers_id(prime_implicants@, i, key),
        decreases prime_implicants.len() - id,
    {
        if prime_implicants[id].sources.contains(&key) {
            sum.insert(id);
        }
        id += 1;
    }
    sum
}

/// Every number that some term of the list covers.
fn gather(terms: &[Term]) -> (ids: HashSet<u32>)
    ensures
        ids@ == required(terms@),
{
    let mut ids: HashSet<u32> = HashSet::new();
    let mut m: usize = 0;
    assert(ids@ =~= required(terms@.take(0)));
    while m < terms.len()
        invariant
            m <= terms.len(),
            ids@ == required(terms@.take(m as int)),
        decreases terms.len() - m,
    {
        extend(&mut ids, &terms[m].sources);
        proof {
            let was = required(terms@.take(m as int));
            let now = required(terms@.take(m + 1));
            assert forall|x: u32| now.contains(x) <==> was.contains(x) || terms@[m as int].sources@.contains(
                x,
            ) by {
                if now.contains(x) {
                    let n = choose|n: int|
                        0 <= n < terms@.take(m + 1).len() && (#[trigger] terms@.take(
                            m + 1,
                        )[n]).sources@.contains(x);
                    if n < m {
                        assert(terms@.take(m as int)[n].sources@.contains(x));
                    }
                }
                if was.contains(x) {
                    let n = choose|n: int|
                        0 <= n < terms@.take(m as int).len() && (#[trigger] terms@.take(
                            m as int,
                        )[n]).sources@.contains(x);
                    assert(terms@.take(m + 1)[n].sources@.contains(x));
                }
                if terms@[m as int].sources@.contains(x) {
                    assert(terms@.take(m + 1)[m as int].sources@.contains(x));
                }
            }
            assert(ids@ =~= now);
        }
        m += 1;
    }
    assert(terms@.take(m as int) == terms@);
    ids
}

/// The first sum that is not empty starts the products: one product for each
/// implicant that covers the number.
proof fn lemma_expand_first(
    before: Set<Set<usize>>,
    now: Set<Set<usize>>,
    sum: Set<usize>,
    pis: Seq<Term>,
    keys: Seq<u32>,
    m: int,
)
    requires
        0 <= m < keys.len(),
        forall|i: usize| sum.contains(i) <==> covers_id(pis, i, keys[m]),
        coverable(pis, keys[m]),
        !started(pis, keys, m),
        forall|q: Set<usize>| !before.contains(q),
        now == multiplied(before, sum),
    ensures
        sound(now, pis, keys, m + 1),
        complete(now, pis, keys, m + 1),
        started(pis, keys, m + 1),
        exists|p: Set<usize>| now.contains(p),
{
    let i0 = choose|i: usize| covers_id(pis, i, keys[m]);
    assert(sum.contains(i0));
    assert(now.contains(set![i0]));
    assert forall|p: Set<usize>| #[trigger] now.contains(p) implies {
        &&& p.finite()
        &&& forall|i: usize| p.contains(i) ==> i < pis.len()
        &&& hits(p, pis, keys, m + 1)
    } by {
        let a = choose|a: usize| sum.contains(a) && p == set![a];
        assert forall|j: int|
            0 <= j < m + 1 && j < keys.len() && coverable(pis, #[trigger] keys[j]) implies exists|
            i: usize,
        |
            p.contains(i) && covers_id(pis, i, keys[j]) by {
            if j < m {
                assert(started(pis, keys, m));
            } else {
                assert(p.contains(a) && covers_id(pis, a, keys[j]));
            }
        }
    }
    assert forall|c: Set<usize>| #[trigger] hits(c, pis, keys, m + 1) implies exists|
        p: Set<usize>,
    |
        now.contains(p) && p.subset_of(c) by {
        assert(coverable(pis, keys[m]));
        let a = choose|a: usize| c.contains(a) && covers_id(pis, a, keys[m]);
        assert(sum.contains(a));
        assert(now.contains(set![a]));
        assert(set![a].subset_of(c));
    }
    assert(coverable(pis, keys[m]));
}

/// A further sum that is not empty multiplies the products: each product
/// gains an implicant that covers the number.
proof fn lemma_expand_next(
    before: Set<Set<usize>>,
    now: Set<Set<usize>>,
    sum: Set<usize>,
    pis: Seq<Term>,
    keys: Seq<u32>,
    m: int,
)
    requires
        0 <= m < keys.len(),
        forall|i: usize| sum.contains(i) <==> covers_id(pis, i, keys[m]),
        coverable(pis, keys[m]),
        sound(before, pis, keys, m),
        complete(before, pis, keys, m),
        exists|p: Set<usize>| before.contains(p),
        now == multiplied(before, sum),
    ensures
        sound(now, pis, keys, m + 1),
        complete(now, pis, keys, m + 1),
        started(pis, keys, m + 1),
        exists|p: Set<usize>| now.contains(p),
{
    let i0 = choose|i: usize| covers_id(pis, i, keys[m]);
    assert(sum.contains(i0));
    let first = choose|p: Set<usize>| before.contains(p);
    assert(now.contains(first.insert(i0)));
    assert forall|p: Set<usize>| #[trigger] now.contains(p) implies {
        &&& p.finite()
        &&& forall|i: usize| p.contains(i) ==> i < pis.len()
        &&& hits(p, pis, keys, m + 1)
    } by {
        let (q, a) = choose|q: Set<usize>, a: usize|
            before.contains(q) && sum.contains(a) && p == #[trigger] q.insert(a);
        assert(before.contains(q));
        assert(hits(q, pis, keys, m));
        assert forall|j: int|
            0 <= j < m + 1 && j < keys.len() && coverable(pis, #[trigger] keys[j]) implies exists|
            i: usize,
        |
            p.contains(i) && covers_id(pis, i, keys[j]) by {
            if j < m {
                let i = choose|i: usize| q.contains(i) && covers_id(pis, i, keys[j]);
                assert(p.contains(i));
            } else {
                assert(p.contains(a) && covers_id(pis, a, keys[j]));
            }
        }
    }
    assert forall|c: Set<usize>| #[trigger] hits(c, pis, keys, m + 1) implies exists|
        p: Set<usize>,
    |
        now.contains(p) && p.subset_of(c) by {
        assert(hits(c, pis, keys, m));
        let q = choose|q: Set<usize>| before.contains(q) && q.subset_of(c);
        assert(coverable(pis, keys[m]));
        let a = choose|a: usize| c.contains(a) && covers_id(pis, a, keys[m]);
        assert(sum.contains(a));
        assert(now.contains(q.insert(a)));
        assert(q.insert(a).subset_of(c));
    }
    assert(coverable(pis, keys[m]));
}

/// A number that no implicant covers changes nothing.
proof fn lemma_expand_skip(sop: Set<Set<usize>>, pis: Seq<Term>, keys: Seq<u32>, m: int)
    requires
        0 <= m < keys.len(),
        !coverable(pis, keys[m]),
        sound(sop, pis, keys, m),
        started(pis, keys, m) ==> complete(sop, pis, keys, m),
    ensures
        sound(sop, pis, keys, m + 1),
        started(pis, keys, m + 1) ==> complete(sop, pis, keys, m + 1),
        started(pis, keys, m + 1) <==> started(pis, keys, m),
{
    if started(pis, keys, m + 1) {
        let j = choose|j: int|
            0 <= j < m + 1 && j < keys.len() && coverable(pis, #[trigger] keys[j]);
        assert(j < m);
        assert(started(pis, keys, m));
    }
    if started(pis, keys, m) {
        let j = choose|j: int| 0 <= j < m && j < keys.len() && coverable(pis, #[trigger] keys[j]);
        assert(0 <= j < m + 1);
    }
    assert forall|p: Set<usize>| #[trigger] sop.contains(p) implies hits(p, pis, keys, m + 1) by {
        assert(hits(p, pis, keys, m));
    }
    if started(pis, keys, m + 1) {
        assert forall|c: Set<usize>| #[trigger] hits(c, pis, keys, m + 1) implies exists|
            p: Set<usize>,
        |
            sop.contains(p) && p.subset_of(c) by {
            assert(hits(c, pis, keys, m));
        }
    }
}

/// The state of the products after the numbers `keys[0..m)`: the products
/// are sound; there are products exactly when one of the numbers can be
/// covered, and then they are complete.
#[verifier::opaque]
spec fn expanded(
    sop: Set<Set<usize>>,
    implicants: Seq<Term>,
    keys: Seq<u32>,
    m: int,
) -> bool {
    &&& sound(sop, implicants, keys, m)
    &&& started(implicants, keys, m) ==> complete(sop, implicants, keys, m)
    &&& started(implicants, keys, m) <==> exists|p: Set<usize>| sop.contains(p)
}

/// Multiplying by the sum of the next number, or passing over the number
/// where its sum is empty, keeps the products in order.
proof fn lemma_expand_step(
    before: Set<Set<usize>>,
    now: Set<Set<usize>>,
    sum: Set<usize>,
    pis: Seq<Term>,
    keys: Seq<u32>,
    m: int,
)
    requires
        0 <= m < keys.len(),
        expanded(before, pis, keys, m),
        forall|i: usize| sum.contains(i) <==> covers_id(pis, i, keys[m]),
        now == if sum.is_empty() {
            before
        } else {
            multiplied(before, sum)
        },
    ensures
        expanded(now, pis, keys, m + 1),
{
    reveal(expanded);
    if sum.is_empty() {
        assert(!coverable(pis, keys[m])) by {
            if coverable(pis, keys[m]) {
                let i = choose|i: usize| covers_id(pis, i, keys[m]);
                assert(sum.contains(i));
            }
        }
        lemma_expand_skip(before, pis, keys, m);
    } else {
        let i0 = choose|i: usize| sum.contains(i);
        assert(covers_id(pis, i0, keys[m]));
        assert(coverable(pis, keys[m]));
        if started(pis, keys, m) {
            lemma_expand_next(before, now, sum, pis, keys, m);
        } else {
            lemma_expand_first(before, now, sum, pis, keys, m);
        }
    }
}

/// Multiplies out the sums of the implicants that cover each of `keys`, one
/// key after the other and without simplifying. A key that no implicant
/// covers has an empty sum and is passed over.
fn expand(prime_implicants: &[Term], keys: &Vec<u32>) -> (sop: SumOfProduct)
    ensures
        sop.wf(),
        expanded(sop@, prime_implicants@, keys@, keys@.len() as int),
{
    let mut sop = SumOfProduct::new();
    let mut m: usize = 0;
    proof {
        reveal(expanded);
    }
    while m < keys.len()
        invariant
            m <= keys.len(),
            sop.wf(),
            expanded(sop@, prime_implicants@, keys@, m as int),
        decreases keys.len() - m,
    {
        let sum = covering(prime_implicants, keys[m]);
        let ghost before = sop@;
        if !sum.is_empty() {
            sop.multiply(&sum);
        }
        proof {
            lemma_expand_step(before, sop@, sum@, prime_implicants@, keys@, m as int);
        }
        m += 1;
    }
    sop
}

/// A set of indices of the list has no more members than the list.
proof fn lemma_cover_finite(chosen: Set<usize>, n: nat)
    requires
        n <= usize::MAX,
        forall|i: usize| chosen.contains(i) ==> i < n,
    ensures
        chosen.finite(),
        chosen.len() <= n,
{
    lemma_indices_below(n);
    assert(chosen.subset_of(indices_below(n)));
    vstd::set_lib::lemma_set_subset_finite(indices_below(n), chosen);
    vstd::set_lib::lemma_len_subset(chosen, indices_below(n));
}

/// Picks the product with the fewest implicants, the first of them where
/// several have as few.
fn shortest(sop: &SumOfProduct) -> (best: Option<&Product>)
    ensures
        best is None <==> sop.0@.len() == 0,
        best matches Some(p) ==> sop@.contains(p@) && forall|q: Set<usize>| #[trigger]
            sop@.contains(q) ==> p@.len() <= q.len(),
{
    let mut min_len: usize = usize::MAX;
    let mut best: Option<&Product> = None;
    for p in it: sop.iter()
        invariant
            it.seq() == sop.0@.as_ref(),
            best is None <==> it.index() == 0,
            best matches Some(b) ==> min_len == b@.len() && (exists|n: int|
                0 <= n < it.index() && #[trigger] sop.0@[n] == *b) && forall|n: int|
                0 <= n < it.index() ==> b@.len() <= (#[trigger] sop.0@[n])@.len(),
    {
        let length = p.len();
        if best.is_none() || length < min_len {
            min_len = length;
            best = Some(p);
        }
    }
    proof {
        if let Some(b) = best {
            assert forall|q: Set<usize>| #[trigger] sop@.contains(q) implies b@.len() <= q.len() by {
                let n = choose|n: int| 0 <= n < sop.0@.len() && #[trigger] sop.0@[n]@ == q;
                assert(b@.len() <= sop.0@[n]@.len());
            }
        }
    }
    best
}

/// Chooses a smallest set of prime implicants that covers the minterms.
///
/// For each number that a minterm covers, the implicants that cover it make
/// a sum; the sums are multiplied out into products of implicants, and one
/// product with the fewest implicants is taken. The result lists the
/// implicants of that product in the order of `prime_implicants`. Which of
/// several smallest covers is taken is left open. A number that no implicant
/// covers cannot be covered and is passed over.
pub fn find_essential_prime_implicants<'a>(
    prime_implicants: &'a [Term],
    minterms: &[Term],
) -> (result: Vec<&'a Term>)
    ensures
        exists|chosen: Set<usize>|
            is_minimum_cover(chosen, prime_implicants@, minterms@) && result@.unref() == #[trigger] picked(
                prime_implicants@,
                chosen,
                prime_implicants@.len(),
            ),
{
    let ghost pis = prime_implicants@;
    let count: usize = prime_implicants.len();
    let wanted = gather(minterms);
    let keys = elements(&wanted);
    let sop = expand(prime_implicants, &keys);
    proof {
        reveal(expanded);
    }
    let best = shortest(&sop);
    let ghost chosen: Set<usize> = match best {
        Some(p) => p@,
        None => Set::empty(),
    };
    proof {
        assert forall|x: u32|
            required(minterms@).contains(x) && coverable(pis, x) implies exists|i: usize|
            chosen.contains(i) && covers_id(pis, i, x) by {
            assert(keys@.to_set().contains(x));
            let j = choose|j: int| 0 <= j < keys@.len() && keys@[j] == x;
            assert(coverable(pis, keys@[j]));
            assert(started(pis, keys@, keys@.len() as int));
            let p = choose|p: Set<usize>| sop@.contains(p);
            assert(sop.0@.len() > 0);
            assert(sop@.contains(chosen));
            assert(hits(chosen, pis, keys@, keys@.len() as int));
        }
        if let Some(p) = best {
            assert(sop@.contains(chosen));
        }
        assert(is_cover(chosen, pis, minterms@));
        assert forall|other: Set<usize>| is_cover(other, pis, minterms@) implies chosen.len()
            <= other.len() by {
            assert(pis.len() == count);
            lemma_cover_finite(other, pis.len());
            if let Some(p) = best {
                assert(sop@.contains(chosen));
                assert(started(pis, keys@, keys@.len() as int));
                assert(hits(other, pis, keys@, keys@.len() as int)) by {
                    assert forall|j: int|
                        0 <= j < keys@.len() && j < keys@.len() && coverable(
                            pis,
                            #[trigger] keys@[j],
                        ) implies exists|i: usize|
                        other.contains(i) && covers_id(pis, i, keys@[j]) by {
                        assert(keys@.to_set().contains(keys@[j]));
                        assert(required(minterms@).contains(keys@[j]));
                    }
                }
                let q = choose|q: Set<usize>| sop@.contains(q) && q.subset_of(other);
                vstd::set_lib::lemma_len_subset(q, other);
            } else {
                assert(chosen.len() == 0);
            }
        }
    }
    let mut result: Vec<&'a Term> = Vec::new();
    let mut id: usize = 0;
    while id < count
        invariant
            id <= count,
            count == prime_implicants@.len(),
            pis == prime_implicants@,
            chosen == match best {
                Some(p) => p@,
                None => Set::<usize>::empty(),
            },
            result@.unref() == picked(pis, chosen, id as nat),
        decreases count - id,
    {
        let take = match best {
            Some(p) => p.0.contains(&id),
            None => false,
        };
        let ghost before = result@;
        if take {
            result.push(&prime_implicants[id]);
            assert(result@.unref() =~= before.unref().push(pis[id as int]));
        }
        id += 1;
    }
    result
}

} // verus!
