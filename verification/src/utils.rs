use std::collections::HashSet;
use vstd::prelude::*;
use vstd::string::StringExecFns;

use crate::convert::rendered;
use crate::term::{Term, Val};

verus! {

/// The set of the given numbers.
pub fn hashset(items: &[u32]) -> (r: HashSet<u32>)
    ensures
        r@ == items@.to_set(),
{
    let mut set: HashSet<u32> = HashSet::new();
    let mut i: usize = 0;
    while i < items.len()
        invariant
            i <= items.len(),
            set@ == items@.take(i as int).to_set(),
        decreases items.len() - i,
    {
        set.insert(items[i]);
        proof {
            assert(items@.take(i + 1) == items@.take(i as int).push(items@[i as int]));
            items@.take(i as int).lemma_push_to_set_commute(items@[i as int]);
        }
        i += 1;
    }
    assert(items@.take(i as int) == items@);
    set
}

/// `n` zeros.
pub open spec fn zeros(n: nat) -> Seq<char> {
    Seq::new(n, |i: int| '0')
}

/// The text of a pattern, filled up with zeros on the left to `width`
/// characters. A longer text is left as it is.
pub open spec fn padded(p: Seq<Val>, width: nat) -> Seq<char> {
    if p.len() < width {
        zeros((width - p.len()) as nat) + rendered(p)
    } else {
        rendered(p)
    }
}

/// The padded texts of the first `n` terms, with a comma and a space between
/// each two.
pub open spec fn joined(terms: Seq<&Term>, width: nat, n: nat) -> Seq<char>
    decreases n,
{
    if n == 0 {
        Seq::empty()
    } else if n == 1 {
        padded(terms[0].term@, width)
    } else {
        joined(terms, width, (n - 1) as nat) + seq![',', ' '] + padded(terms[n - 1].term@, width)
    }
}

/// The list of the terms as a text: in square brackets, each term as the text
/// of its pattern, most significant position first and filled up with zeros
/// to `max_len` characters, a comma and a space between each two.
pub fn format_terms(terms: &[&Term], max_len: usize) -> (r: String)
    ensures
        r@ == seq!['['] + joined(terms@, max_len as nat, terms@.len()) + seq![']'],
{
    proof {
        reveal_strlit("[");
        reveal_strlit("]");
        reveal_strlit(", ");
        reveal_strlit("0");
    }
    let mut out = String::new();
    out.append("[");
    let mut i: usize = 0;
    while i < terms.len()
        invariant
            i <= terms.len(),
            "0"@ == seq!['0'],
            ", "@ == seq![',', ' '],
            out@ == seq!['['] + joined(terms@, max_len as nat, i as nat),
        decreases terms.len() - i,
    {
        let ghost start = out@;
        if i > 0 {
            out.append(", ");
        }
        let ghost body = out@;
        let text = terms[i].to_string();
        let mut fill: usize = text.as_str().unicode_len();
        while fill < max_len
            invariant
                "0"@ == seq!['0'],
                text@.len() <= fill,
                fill <= max_len || fill == text@.len(),
                out@ == body + zeros((fill - text@.len()) as nat),
            decreases max_len - fill,
        {
            out.append("0");
            assert(out@ =~= body + zeros((fill + 1 - text@.len()) as nat));
            fill += 1;
        }
        out.append(text.as_str());
        assert(out@ =~= body + padded(terms@[i as int].term@, max_len as nat));
        assert(out@ =~= seq!['['] + joined(terms@, max_len as nat, (i + 1) as nat));
        i += 1;
    }
    out.append("]");
    out
}

} // verus!
