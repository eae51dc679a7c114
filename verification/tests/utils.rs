use std::collections::HashSet;

use rqmc::term::{Term, Val};
use rqmc::utils::{format_terms, hashset};

#[test]
fn hashset_holds_each_number_once() {
    let set = hashset(&[3, 1, 3, 2, 1]);
    let expected: HashSet<u32> = [1u32, 2, 3].iter().copied().collect();
    assert_eq!(set, expected);
    assert!(hashset(&[]).is_empty());
}

#[test]
fn format_terms_pads_with_zeros() {
    let a = Term::from(4u32);
    let b = Term::from(1u32);
    let c = Term::new(vec![Val::S, Val::F, Val::S, Val::T], hashset(&[8, 9, 12, 13]));
    assert_eq!(format_terms(&[&a, &b, &c], 4), "[0100, 0001, 1*0*]");
}

#[test]
fn format_terms_keeps_longer_terms_whole() {
    let a = Term::from(14u32);
    let b = Term::from(0u32);
    assert_eq!(format_terms(&[&a, &b], 2), "[1110, 00]");
    assert_eq!(format_terms(&[&a], 0), "[1110]");
}

#[test]
fn format_terms_of_no_terms() {
    assert_eq!(format_terms(&[], 4), "[]");
}
