use std::collections::HashSet;

use rqmc::petrick::{find_essential_prime_implicants, Product, SumOfProduct};
use rqmc::qmc::find_prime_implicants;
use rqmc::term::{Term, Val};
use rqmc::utils::hashset;

fn indices(items: &[usize]) -> HashSet<usize> {
    items.iter().copied().collect()
}

fn products(sop: &SumOfProduct) -> Vec<Vec<usize>> {
    let mut out: Vec<Vec<usize>> = sop
        .iter()
        .map(|p| {
            let mut ids: Vec<usize> = p.iter().copied().collect();
            ids.sort();
            ids
        })
        .collect();
    out.sort();
    out
}

fn scenario() -> (Vec<Term>, Vec<Term>) {
    let minterms: Vec<Term> = vec![4u8, 8, 10, 11, 12, 15]
        .into_iter()
        .map(|num| num.into())
        .collect();
    let pi = vec![
        Term::new(vec![Val::F, Val::F, Val::T, Val::S], hashset(&[4, 12])),
        Term::new(vec![Val::F, Val::S, Val::S, Val::T], hashset(&[8, 10, 12, 14])),
        Term::new(vec![Val::S, Val::S, Val::F, Val::T], hashset(&[8, 10, 9, 11])),
        Term::new(vec![Val::S, Val::T, Val::S, Val::T], hashset(&[10, 11, 14, 15])),
    ];
    (pi, minterms)
}

#[test]
fn test_find_essential_prime_implicants() {
    let minterms: Vec<Term> = vec![4u8, 8, 10, 11, 12, 15]
        .into_iter()
        .map(|num| num.into())
        .collect();
    let pi = vec![
        Term::new(vec![Val::F, Val::F, Val::T, Val::S], hashset(&[4, 12])),
        Term::new(vec![Val::F, Val::S, Val::S, Val::T], hashset(&[8, 10, 12, 14])),
        Term::new(vec![Val::S, Val::S, Val::F, Val::T], hashset(&[8, 10, 9, 11])),
        Term::new(vec![Val::S, Val::T, Val::S, Val::T], hashset(&[10, 11, 14, 15])),
    ];
    let expected1 = vec![&pi[0], &pi[1], &pi[3]];
    let expected2 = vec![&pi[0], &pi[2], &pi[3]];
    let result = find_essential_prime_implicants(&pi, &minterms);
    assert!(result == expected1 || result == expected2);
}

#[test]
fn the_cover_has_three_implicants_and_covers_every_minterm() {
    let (pi, minterms) = scenario();
    let result = find_essential_prime_implicants(&pi, &minterms);
    assert_eq!(result.len(), 3);
    for n in [4u32, 8, 10, 11, 12, 15] {
        assert!(result.iter().any(|t| t.sources.contains(&n)));
    }
}

#[test]
fn the_cover_of_the_search_result_covers_every_minterm() {
    let minterms: Vec<Term> = [1u32, 2, 9, 11, 12, 14, 15].iter().map(|n| Term::from(*n)).collect();
    let primes = find_prime_implicants(&minterms, &[]);
    let result = find_essential_prime_implicants(&primes, &minterms);
    assert_eq!(result.len(), 4);
    for n in [1u32, 2, 9, 11, 12, 14, 15] {
        assert!(result.iter().any(|t| t.sources.contains(&n)));
    }
    let mut shown: Vec<String> = result
        .iter()
        .map(|t| format!("{:0>4}", t.to_string()))
        .collect();
    shown.sort();
    assert_eq!(shown, vec!["*001", "0010", "1*11", "11*0"]);
}

#[test]
fn the_cover_keeps_the_order_of_the_list() {
    let pi = vec![
        Term::from(3u32),
        Term::from(1u32),
        Term::from(2u32),
    ];
    let minterms = vec![Term::from(2u32), Term::from(3u32)];
    let result = find_essential_prime_implicants(&pi, &minterms);
    assert_eq!(result, vec![&pi[0], &pi[2]]);
}

#[test]
fn one_implicant_is_enough_where_it_covers_all() {
    let pi = vec![
        Term::try_from("0*").unwrap(),
        Term::try_from("**").unwrap(),
        Term::try_from("1*").unwrap(),
    ];
    let minterms: Vec<Term> = (0u32..4).map(Term::from).collect();
    let result = find_essential_prime_implicants(&pi, &minterms);
    assert_eq!(result, vec![&pi[1]]);
}

#[test]
fn no_minterms_need_no_implicants() {
    let (pi, _) = scenario();
    let result = find_essential_prime_implicants(&pi, &[]);
    assert!(result.is_empty());
}

#[test]
fn no_implicants_give_no_cover() {
    let minterms = vec![Term::from(1u32)];
    let result = find_essential_prime_implicants(&[], &minterms);
    assert!(result.is_empty());
}

#[test]
fn a_minterm_that_nothing_covers_is_passed_over() {
    let pi = vec![Term::from(1u32), Term::from(2u32)];
    let minterms = vec![Term::from(7u32), Term::from(2u32)];
    let result = find_essential_prime_implicants(&pi, &minterms);
    assert_eq!(result, vec![&pi[1]]);
}

#[test]
fn product_holds_an_implicant_once() {
    let p = Product::new(3);
    assert_eq!(p.len(), 1);
    let q = p.multiply(3);
    assert_eq!(q.len(), 1);
    let r = q.multiply(5);
    assert_eq!(r.len(), 2);
    assert_eq!(r.0, indices(&[3, 5]));
    assert_eq!(p.0, indices(&[3]));
    let mut seen: Vec<usize> = r.iter().copied().collect();
    seen.sort();
    assert_eq!(seen, vec![3, 5]);
}

#[test]
fn sum_of_product_starts_empty() {
    let sop = SumOfProduct::new();
    assert_eq!(sop.iter().count(), 0);
}

#[test]
fn first_multiplication_gives_single_implicants() {
    let mut sop = SumOfProduct::new();
    sop.multiply(&indices(&[0, 2]));
    assert_eq!(products(&sop), vec![vec![0], vec![2]]);
}

#[test]
fn multiplication_is_not_simplified() {
    let mut sop = SumOfProduct::new();
    sop.multiply(&indices(&[0, 1]));
    sop.multiply(&indices(&[1, 2]));
    assert_eq!(
        products(&sop),
        vec![vec![0, 1], vec![0, 2], vec![1], vec![1, 2]]
    );
}

#[test]
fn multiplication_by_an_empty_sum_leaves_nothing() {
    let mut sop = SumOfProduct::new();
    sop.multiply(&indices(&[0, 1]));
    sop.multiply(&indices(&[]));
    assert_eq!(sop.iter().count(), 0);
    let mut fresh = SumOfProduct::new();
    fresh.multiply(&indices(&[]));
    assert_eq!(fresh.iter().count(), 0);
}

#[test]
fn the_cover_of_the_search_with_not_cares_has_three_implicants() {
    let minterms: Vec<Term> = [4u32, 8, 10, 11, 12, 15].iter().map(|n| Term::from(*n)).collect();
    let not_cares: Vec<Term> = [9u32, 14].iter().map(|n| Term::from(*n)).collect();
    let primes = find_prime_implicants(&minterms, &not_cares);
    let result = find_essential_prime_implicants(&primes, &minterms);
    assert_eq!(result.len(), 3);
    for n in [4u32, 8, 10, 11, 12, 15] {
        assert!(result.iter().any(|t| t.sources.contains(&n)));
    }
    let mut shown: Vec<String> = result.iter().map(|t| t.to_string()).collect();
    shown.sort();
    let first = vec!["*100", "1**0", "1*1*"];
    let second = vec!["*100", "1*1*", "10**"];
    assert!(shown == first || shown == second);
}
