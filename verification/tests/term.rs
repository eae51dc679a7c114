use std::collections::hash_map::DefaultHasher;
use std::collections::HashSet;
use std::hash::{Hash, Hasher};

use rqmc::convert::ParseError;
use rqmc::term::{Term, Val};
use rqmc::utils::hashset;

fn weight(term: &Term) -> u64 {
    let mut sum: u64 = 0;
    for (i, v) in term.term.iter().enumerate() {
        if *v == Val::T {
            sum += 1u64 << i;
        }
    }
    sum
}

fn digest(term: &Term) -> u64 {
    let mut hasher = DefaultHasher::new();
    term.hash(&mut hasher);
    hasher.finish()
}

struct Recorder {
    writes: Vec<Vec<u8>>,
}

impl Hasher for Recorder {
    fn finish(&self) -> u64 {
        0
    }

    fn write(&mut self, bytes: &[u8]) {
        self.writes.push(bytes.to_vec());
    }
}

#[test]
fn test_from_u8_to_term() {
    let num: u8 = 14;
    let term = Term::from(num);
    let expected_term = vec![Val::F, Val::T, Val::T, Val::T];
    let expected_sources = hashset(&[num as u32]);
    assert_eq!(term.term, expected_term);
    assert_eq!(term.sources, expected_sources);
}

#[test]
fn test_from_u16_to_term() {
    let num: u16 = 14;
    let term = Term::from(num);
    let expected_term = vec![Val::F, Val::T, Val::T, Val::T];
    let expected_sources = hashset(&[num as u32]);
    assert_eq!(term.term, expected_term);
    assert_eq!(term.sources, expected_sources);
}

#[test]
fn test_from_u32_to_term() {
    let num: u32 = 14;
    let term = Term::from(num);
    let expected_term = vec![Val::F, Val::T, Val::T, Val::T];
    let expected_sources = hashset(&[num as u32]);
    assert_eq!(term.term, expected_term);
    assert_eq!(term.sources, expected_sources);
}

#[test]
fn test_try_form_str_for_term() {
    let s1 = "1*0*";
    let s2 = "1234";
    let s3 = "0010";
    let t1 = Term::try_from(s1);
    let t2 = Term::try_from(s2);
    let t3 = Term::try_from(s3);
    assert!(t1.is_ok());
    assert_eq!(
        t1.unwrap(),
        Term::new(
            vec![Val::S, Val::F, Val::S, Val::T],
            hashset(&[8, 9, 12, 13])
        )
    );
    assert!(t2.is_err());
    assert!(t3.is_ok());
    assert_eq!(
        t3.unwrap(),
        Term::new(vec![Val::F, Val::T], hashset(&[2]))
    )
}

#[test]
fn test_equality_for_term() {
    let t1 = Term::new(vec![Val::T, Val::F, Val::F], hashset(&[1]));
    let t2 = Term::new(vec![Val::T], hashset(&[1]));
    assert_eq!(t1, t2);
}

#[test]
fn from_zero_has_an_empty_pattern() {
    let term = Term::from(0u32);
    assert_eq!(term.term, Vec::<Val>::new());
    assert_eq!(term.sources, hashset(&[0]));
    assert_eq!(term.ones(), 0);
}

#[test]
fn from_largest_number_has_thirty_two_ones() {
    let term = Term::from(u32::MAX);
    assert_eq!(term.term, vec![Val::T; 32]);
    assert_eq!(term.sources, hashset(&[u32::MAX]));
    assert_eq!(term.ones(), 32);
}

#[test]
fn true_positions_weigh_the_number() {
    for n in [0u32, 1, 2, 3, 14, 255, 256, 0x8000_0000, 0xdead_beef, u32::MAX] {
        let term = Term::from(n);
        assert_eq!(weight(&term), n as u64);
        assert_eq!(term.ones(), n.count_ones() as usize);
    }
}

#[test]
fn ones_counts_true_positions_only() {
    let term = Term::new(
        vec![Val::T, Val::S, Val::F, Val::T, Val::S],
        hashset(&[9, 11, 25, 27]),
    );
    assert_eq!(term.ones(), 2);
}

#[test]
fn combine_merges_a_single_difference() {
    let a = Term::from(4u32);
    let b = Term::from(12u32);
    let merged = a.combine(&b).unwrap();
    assert_eq!(merged.term, vec![Val::F, Val::F, Val::T, Val::S]);
    assert_eq!(merged.sources, hashset(&[4, 12]));
}

#[test]
fn combine_extends_the_shorter_pattern() {
    let a = Term::from(1u32);
    let b = Term::from(9u32);
    let merged = a.combine(&b).unwrap();
    assert_eq!(merged.term, vec![Val::T, Val::F, Val::F, Val::S]);
    assert_eq!(merged.sources, hashset(&[1, 9]));
    let other = b.combine(&a).unwrap();
    assert_eq!(other.term, vec![Val::T, Val::F, Val::F, Val::S]);
    assert_eq!(other.sources, hashset(&[1, 9]));
}

#[test]
fn combine_is_symmetric() {
    let a = Term::try_from("10*1").unwrap();
    let b = Term::try_from("11*1").unwrap();
    let ab = a.combine(&b).unwrap();
    let ba = b.combine(&a).unwrap();
    assert_eq!(ab, ba);
    assert_eq!(ab.term, vec![Val::T, Val::S, Val::S, Val::T]);
    assert_eq!(ab.sources, hashset(&[9, 11, 13, 15]));
}

#[test]
fn combine_refuses_equal_patterns() {
    let a = Term::from(5u32);
    let b = Term::new(vec![Val::T, Val::F, Val::T, Val::F, Val::F], hashset(&[5]));
    assert!(a.combine(&b).is_none());
    assert!(b.combine(&a).is_none());
    assert!(a.combine(&a).is_none());
}

#[test]
fn combine_refuses_two_or_more_differences() {
    let a = Term::from(1u32);
    let b = Term::from(2u32);
    assert!(a.combine(&b).is_none());
    let c = Term::from(0u32);
    let d = Term::from(7u32);
    assert!(c.combine(&d).is_none());
    let e = Term::try_from("1*0").unwrap();
    let f = Term::try_from("0*1").unwrap();
    assert!(e.combine(&f).is_none());
}

#[test]
fn combine_counts_a_wildcard_against_a_digit_as_a_difference() {
    let a = Term::try_from("1*").unwrap();
    let b = Term::try_from("11").unwrap();
    let merged = a.combine(&b).unwrap();
    assert_eq!(merged.term, vec![Val::S, Val::T]);
    assert_eq!(merged.sources, hashset(&[2, 3]));
}

#[test]
fn terms_differ_when_patterns_differ() {
    let a = Term::new(vec![Val::T, Val::F], hashset(&[1]));
    let b = Term::new(vec![Val::T, Val::T], hashset(&[1]));
    assert_ne!(a, b);
    let c = Term::new(vec![Val::T, Val::S], hashset(&[1]));
    assert_ne!(a, c);
}

#[test]
fn terms_differ_when_sources_differ() {
    let a = Term::new(vec![Val::T, Val::F], hashset(&[1]));
    let b = Term::new(vec![Val::T, Val::F], hashset(&[1, 3]));
    assert_ne!(a, b);
    let c = Term::new(vec![Val::T, Val::F], hashset(&[3]));
    assert_ne!(a, c);
}

#[test]
fn equal_sources_collapse_in_a_set() {
    let t1 = Term::new(vec![Val::T, Val::F, Val::F], hashset(&[1]));
    let t2 = Term::new(vec![Val::T], hashset(&[1]));
    let mut set = HashSet::new();
    assert!(set.insert(t1));
    assert!(!set.insert(t2));
    assert_eq!(set.len(), 1);
}

#[test]
fn hash_reads_sources_in_ascending_order() {
    let term = Term::new(
        vec![Val::S, Val::S, Val::S, Val::S],
        hashset(&[13, 2, 7, 0, 15, 9, 4, 11, 1, 6, 3, 14, 8, 5, 12, 10]),
    );
    let mut recorder = Recorder { writes: Vec::new() };
    term.hash(&mut recorder);
    let expected: Vec<Vec<u8>> = (0u32..16).map(|x| x.to_ne_bytes().to_vec()).collect();
    assert_eq!(recorder.writes, expected);
}

#[test]
fn hash_ignores_the_pattern() {
    let t1 = Term::new(vec![Val::T, Val::F, Val::F], hashset(&[1, 5, 9]));
    let t2 = Term::new(vec![Val::S], hashset(&[9, 1, 5]));
    assert_eq!(digest(&t1), digest(&t2));
}

#[test]
fn clone_keeps_pattern_and_sources() {
    let term = Term::try_from("1*0*").unwrap();
    let copy = term.clone();
    assert_eq!(copy.term, term.term);
    assert_eq!(copy.sources, term.sources);
    assert_eq!(copy, term);
}

#[test]
fn try_from_reads_every_wildcard_both_ways() {
    let term = Term::try_from("***").unwrap();
    assert_eq!(term.term, vec![Val::S, Val::S, Val::S]);
    assert_eq!(term.sources, hashset(&[0, 1, 2, 3, 4, 5, 6, 7]));
}

#[test]
fn try_from_without_wildcards_covers_one_number() {
    let term = Term::try_from("1011").unwrap();
    assert_eq!(term.term, vec![Val::T, Val::T, Val::F, Val::T]);
    assert_eq!(term.sources, hashset(&[11]));
}

#[test]
fn try_from_empty_text_is_zero() {
    let term = Term::try_from("").unwrap();
    assert_eq!(term.term, Vec::<Val>::new());
    assert_eq!(term.sources, hashset(&[0]));
    assert_eq!(term, Term::from(0u32));
}

#[test]
fn try_from_takes_leading_zeros_past_thirty_two_positions() {
    let term = Term::try_from("0000000000000000000000000000000000000101").unwrap();
    assert_eq!(term.sources, hashset(&[5]));
    assert_eq!(term, Term::from(5u32));
}

#[test]
fn try_from_full_width() {
    let term = Term::try_from("11111111111111111111111111111111").unwrap();
    assert_eq!(term.sources, hashset(&[u32::MAX]));
    let wild = Term::try_from("*0000000000000000000000000000000").unwrap();
    assert_eq!(wild.sources, hashset(&[0, 0x8000_0000]));
}

#[test]
fn try_from_refuses_other_characters() {
    assert_eq!(Term::try_from("1234").unwrap_err(), ParseError::InvalidCharacter);
    assert_eq!(Term::try_from("10x").unwrap_err(), ParseError::InvalidCharacter);
    assert_eq!(Term::try_from(" 1").unwrap_err(), ParseError::InvalidCharacter);
    assert_eq!(Term::try_from("+1").unwrap_err(), ParseError::InvalidCharacter);
    assert_eq!(Term::try_from("1*-").unwrap_err(), ParseError::InvalidCharacter);
}

#[test]
fn to_string_shows_the_most_significant_position_first() {
    assert_eq!(Term::from(14u32).to_string(), "1110");
    assert_eq!(Term::from(0u32).to_string(), "");
    let term = Term::new(vec![Val::S, Val::F, Val::S, Val::T], hashset(&[8, 9, 12, 13]));
    assert_eq!(term.to_string(), "1*0*");
}

#[test]
fn reading_the_text_of_a_term_gives_the_term_back() {
    for n in [0u32, 1, 2, 9, 14, 1234, u32::MAX] {
        let term = Term::from(n);
        let text = term.to_string();
        assert_eq!(Term::try_from(text.as_str()).unwrap(), term);
    }
    let wild = Term::new(vec![Val::S, Val::F, Val::S, Val::T], hashset(&[8, 9, 12, 13]));
    assert_eq!(Term::try_from(wild.to_string().as_str()).unwrap(), wild);
}

#[test]
fn sorted_sources_are_ascending() {
    let term = Term::new(vec![Val::S, Val::S, Val::S], hashset(&[5, 3, 7, 0, 2, 6, 1, 4]));
    assert_eq!(term.sorted_sources(), vec![0, 1, 2, 3, 4, 5, 6, 7]);
    assert_eq!(Term::from(9u32).sorted_sources(), vec![9]);
}

#[test]
fn terms_built_from_numbers_and_patterns_are_well_formed() {
    assert!(Term::from(0u32).is_well_formed());
    assert!(Term::from(u32::MAX).is_well_formed());
    assert!(Term::try_from("1*0*").unwrap().is_well_formed());
    let merged = Term::from(4u32).combine(&Term::from(12u32)).unwrap();
    assert!(merged.is_well_formed());
}

#[test]
fn a_term_with_other_sources_than_its_pattern_is_not_well_formed() {
    assert!(Term::new(vec![Val::T, Val::F], hashset(&[1])).is_well_formed());
    assert!(!Term::new(vec![Val::T, Val::F], hashset(&[2])).is_well_formed());
    assert!(!Term::new(vec![Val::T, Val::S], hashset(&[1])).is_well_formed());
    assert!(!Term::new(vec![Val::T, Val::F], hashset(&[1, 3])).is_well_formed());
    assert!(!Term::new(vec![Val::T], hashset(&[])).is_well_formed());
}

#[test]
fn a_term_wider_than_thirty_two_bits_is_not_well_formed() {
    let mut pattern = vec![Val::F; 32];
    pattern.push(Val::T);
    assert!(!Term::new(pattern, hashset(&[0])).is_well_formed());
    let mut padded = vec![Val::T];
    padded.extend(vec![Val::F; 40]);
    assert!(Term::new(padded, hashset(&[1])).is_well_formed());
}
