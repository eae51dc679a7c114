use std::collections::HashSet;
use std::iter::FromIterator;

use rqmc::qmc::{find_prime_implicants, insert_unique};
use rqmc::term::{Term, Val};
use rqmc::utils::hashset;

fn texts(terms: &[Term], width: usize) -> Vec<String> {
    let mut out: Vec<String> = terms
        .iter()
        .map(|t| format!("{:0>1$}", t.to_string(), width))
        .collect();
    out.sort();
    out
}

#[test]
fn test_find_prime_implicants_with_not_care() {
    let minterms: Vec<Term> = vec![4u8, 8, 10, 11, 12, 15]
        .into_iter()
        .map(|num| num.into())
        .collect();
    let not_cares: Vec<Term> = vec![9u8, 14].into_iter().map(|num| num.into()).collect();
    let prime_implicants = find_prime_implicants(&minterms, &not_cares);
    let expected = vec![
        Term::new(vec![Val::F, Val::F, Val::T, Val::S], hashset(&[4, 12])),
        Term::new(vec![Val::F, Val::S, Val::S, Val::T], hashset(&[8, 10, 12, 14])),
        Term::new(vec![Val::S, Val::S, Val::F, Val::T], hashset(&[8, 10, 9, 11])),
        Term::new(vec![Val::S, Val::T, Val::S, Val::T], hashset(&[10, 11, 14, 15])),
    ];
    assert_eq!(
        HashSet::<_>::from_iter(prime_implicants.into_iter()),
        HashSet::<_>::from_iter(expected.into_iter())
    );
}

#[test]
fn test_find_prime_implicants_without_not_care() {
    let minterms: Vec<Term> = vec![1u8, 2, 9, 11, 12, 14, 15]
        .into_iter()
        .map(|num| num.into())
        .collect();
    let not_cares: Vec<Term> = Vec::new();
    let prime_implicants = find_prime_implicants(&minterms, &not_cares);
    let expected = vec![
        Term::new(vec![Val::F, Val::T], hashset(&[2])),
        Term::new(vec![Val::T, Val::F, Val::F, Val::S], hashset(&[1, 9])),
        Term::new(vec![Val::T, Val::S, Val::F, Val::T], hashset(&[9, 11])),
        Term::new(vec![Val::F, Val::S, Val::T, Val::T], hashset(&[12, 14])),
        Term::new(vec![Val::S, Val::T, Val::T, Val::T], hashset(&[14, 15])),
        Term::new(vec![Val::T, Val::T, Val::S, Val::T], hashset(&[11, 15])),
    ];
    assert_eq!(
        HashSet::<_>::from_iter(prime_implicants.into_iter()),
        HashSet::<_>::from_iter(expected.into_iter())
    );
}

#[test]
fn prime_implicants_with_not_care_have_the_expected_texts() {
    let minterms: Vec<Term> = [4u32, 8, 10, 11, 12, 15].iter().map(|n| Term::from(*n)).collect();
    let not_cares: Vec<Term> = [9u32, 14].iter().map(|n| Term::from(*n)).collect();
    let primes = find_prime_implicants(&minterms, &not_cares);
    assert_eq!(primes.len(), 4);
    assert_eq!(texts(&primes, 4), vec!["*100", "1**0", "1*1*", "10**"]);
}

#[test]
fn prime_implicants_without_not_care_have_the_expected_texts() {
    let minterms: Vec<Term> = [1u32, 2, 9, 11, 12, 14, 15].iter().map(|n| Term::from(*n)).collect();
    let primes = find_prime_implicants(&minterms, &[]);
    assert_eq!(primes.len(), 6);
    assert_eq!(
        texts(&primes, 4),
        vec!["*001", "0010", "1*11", "10*1", "11*0", "111*"]
    );
}

#[test]
fn a_minterm_and_a_not_care_of_one_number_collapse() {
    let minterms: Vec<Term> = vec![Term::from(5u32), Term::from(7u32)];
    let not_cares: Vec<Term> = vec![Term::from(5u32)];
    let primes = find_prime_implicants(&minterms, &not_cares);
    assert_eq!(primes.len(), 1);
    assert_eq!(primes[0].term, vec![Val::T, Val::S, Val::T]);
    assert_eq!(primes[0].sources, hashset(&[5, 7]));
}

#[test]
fn a_repeated_minterm_counts_once() {
    let minterms: Vec<Term> = vec![Term::from(3u32), Term::from(3u32), Term::from(3u32)];
    let primes = find_prime_implicants(&minterms, &[]);
    assert_eq!(primes.len(), 1);
    assert_eq!(primes[0], Term::from(3u32));
}

#[test]
fn a_term_without_neighbour_is_prime_at_once() {
    let minterms: Vec<Term> = vec![Term::from(0u32), Term::from(7u32)];
    let primes = find_prime_implicants(&minterms, &[]);
    assert_eq!(primes.len(), 2);
    assert_eq!(texts(&primes, 3), vec!["000", "111"]);
}

#[test]
fn no_terms_give_no_prime_implicants() {
    let primes = find_prime_implicants(&[], &[]);
    assert!(primes.is_empty());
}

#[test]
fn not_cares_alone_are_searched_too() {
    let not_cares: Vec<Term> = vec![Term::from(2u32), Term::from(3u32)];
    let primes = find_prime_implicants(&[], &not_cares);
    assert_eq!(primes.len(), 1);
    assert_eq!(primes[0].to_string(), "1*");
    assert_eq!(primes[0].sources, hashset(&[2, 3]));
}

#[test]
fn all_numbers_of_three_bits_merge_into_one_term() {
    let minterms: Vec<Term> = (0u32..8).map(Term::from).collect();
    let primes = find_prime_implicants(&minterms, &[]);
    assert_eq!(primes.len(), 1);
    assert_eq!(primes[0].term, vec![Val::S, Val::S, Val::S]);
    assert_eq!(primes[0].sources, hashset(&[0, 1, 2, 3, 4, 5, 6, 7]));
}

#[test]
fn terms_read_from_patterns_are_merged_too() {
    let minterms: Vec<Term> = vec![
        Term::try_from("0*").unwrap(),
        Term::try_from("1*").unwrap(),
    ];
    let primes = find_prime_implicants(&minterms, &[]);
    assert_eq!(primes.len(), 1);
    assert_eq!(primes[0].to_string(), "**");
    assert_eq!(primes[0].sources, hashset(&[0, 1, 2, 3]));
}

#[test]
fn the_widest_terms_are_searched() {
    let minterms: Vec<Term> = vec![Term::from(u32::MAX), Term::from(u32::MAX - 1)];
    let primes = find_prime_implicants(&minterms, &[]);
    assert_eq!(primes.len(), 1);
    assert_eq!(primes[0].to_string(), "1111111111111111111111111111111*");
}

#[test]
fn insert_unique_keeps_one_of_equal_terms() {
    let mut bucket: Vec<Term> = Vec::new();
    insert_unique(&mut bucket, Term::new(vec![Val::T, Val::F, Val::F], hashset(&[1])));
    insert_unique(&mut bucket, Term::new(vec![Val::T], hashset(&[1])));
    assert_eq!(bucket.len(), 1);
    assert_eq!(bucket[0].term, vec![Val::T, Val::F, Val::F]);
    insert_unique(&mut bucket, Term::from(2u32));
    assert_eq!(bucket.len(), 2);
    assert_eq!(bucket[1], Term::from(2u32));
}
