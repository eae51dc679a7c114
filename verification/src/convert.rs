use std::collections::HashSet;
use vstd::arithmetic::power2::pow2;
use vstd::prelude::*;
use vstd::string::StringExecFns;

use crate::adaptors::{assignments, is_assignment};
use crate::bits::{bit, lemma_bits_determine};
use crate::count::lemma_covered_count;
use crate::pattern::{agrees, covered, covers, fits, val_at, wilds_below};
use crate::sets::same;
use crate::term::{Term, Val};

verus! {

/// The binary digits of `n`, least significant first, without leading zeros:
/// `T` for 1 and `F` for 0.
pub open spec fn binary(n: nat) -> Seq<Val>
    decreases n,
{
    if n == 0 {
        Seq::empty()
    } else {
        seq![if n % 2 == 1 { Val::T } else { Val::F }] + binary(n / 2)
    }
}

/// The sum of the weights of the `T` positions of `p`, position `i` weighing
/// `2^i`.
pub open spec fn weight(p: Seq<Val>) -> nat
    decreases p.len(),
{
    if p.len() == 0 {
        0
    } else {
        (if p[0] == Val::T { 1nat } else { 0nat }) + 2 * weight(p.drop_first())
    }
}

/// The `T` positions of the binary pattern of `n` weigh `n`.
pub proof fn lemma_binary_weight(n: nat)
    ensures
        weight(binary(n)) == n,
    decreases n,
{
    if n > 0 {
        lemma_binary_weight(n / 2);
        assert(binary(n).drop_first() == binary(n / 2));
    }
}

/// The binary pattern of `n` reads `T` exactly at the digits that are set in
/// `n`.
pub proof fn lemma_binary_at(n: u32, i: int)
    requires
        0 <= i,
    ensures
        val_at(binary(n as nat), i) == if bit(n, i) { Val::T } else { Val::F },
    decreases i,
{
    let half: u32 = n / 2;
    if n == 0 {
        if i < 32 {
            let s = i as u32;
            assert((0u32 >> s) & 1 == 0) by (bit_vector);
        }
    } else if i == 0 {
        assert(((n >> 0u32) & 1 == 1) == (n % 2 == 1)) by (bit_vector);
    } else {
        lemma_binary_at(half, i - 1);
        assert(val_at(binary(n as nat), i) == val_at(binary(half as nat), i - 1));
        if i < 32 {
            let s = i as u32;
            let t = (i - 1) as u32;
            assert((n >> s) & 1 == ((n / 2) >> t) & 1) by (bit_vector)
                requires
                    1 <= s < 32,
                    t == s - 1,
            ;
        } else if i == 32 {
            assert(((n / 2) >> 31u32) & 1 == 0) by (bit_vector);
        }
    }
}

/// The binary pattern of `n` fits 32 bits and stands for `n` alone.
pub proof fn lemma_binary_covers(n: u32)
    ensures
        fits(binary(n as nat)),
        covered(binary(n as nat)) == set![n],
{
    let p = binary(n as nat);
    assert forall|i: int| 32 <= i implies val_at(p, i) == Val::F by {
        lemma_binary_at(n, i);
    }
    assert forall|x: u32| covers(p, x) <==> x == n by {
        if covers(p, x) {
            assert forall|i: int| 0 <= i < 32 implies bit(x, i) == bit(n, i) by {
                lemma_binary_at(n, i);
                assert(agrees(val_at(p, i), bit(x, i)));
            }
            lemma_bits_determine(x, n);
        }
        if x == n {
            assert forall|i: int| 0 <= i < 32 implies agrees(val_at(p, i), #[trigger] bit(x, i)) by {
                lemma_binary_at(n, i);
            }
        }
    }
    assert(covered(p) =~= set![n]);
}

impl From<u32> for Term {
    /// The term of a single number: its binary digits as the pattern, the
    /// number itself as the only source.
    fn from(num: u32) -> (r: Term)
        ensures
            r.term@ == binary(num as nat),
            r.sources@ == set![num],
            weight(r.term@) == num,
            r@.well_formed(),
    {
        let mut rest: u32 = num;
        let mut sources: HashSet<u32> = HashSet::new();
        sources.insert(num);
        let mut term: Vec<Val> = Vec::new();
        while rest > 0
            invariant
                term@ + binary(rest as nat) == binary(num as nat),
            decreases rest,
        {
            let ghost before = term@;
            let digit: u32 = rest & 1;
            assert(digit == rest % 2 && rest >> 1 == rest / 2) by (bit_vector)
                requires
                    digit == rest & 1,
            ;
            if digit == 0 {
                term.push(Val::F);
            } else {
                term.push(Val::T);
            }
            assert(term@ + binary((rest / 2) as nat) =~= before + binary(rest as nat));
            rest = rest >> 1;
        }
        proof {
            assert(term@ + binary(0) =~= term@);
            lemma_binary_weight(num as nat);
            lemma_binary_covers(num);
            assert(sources@ =~= set![num]);
        }
        Term::new(term, sources)
    }
}

/// A term cannot be written down in a specification, so there is nothing to
/// compare the result of `from` with: what `from` returns is stated in its
/// own contract.
impl vstd::std_specs::convert::FromSpecImpl<u32> for Term {
    open spec fn obeys_from_spec() -> bool {
        false
    }

    open spec fn from_spec(v: u32) -> Term {
        arbitrary()
    }
}

impl From<u16> for Term {
    /// The term of a single number.
    fn from(num: u16) -> (r: Term)
        ensures
            r.term@ == binary(num as nat),
            r.sources@ == set![num as u32],
            weight(r.term@) == num,
            r@.well_formed(),
    {
        Term::from(num as u32)
    }
}

impl vstd::std_specs::convert::FromSpecImpl<u16> for Term {
    open spec fn obeys_from_spec() -> bool {
        false
    }

    open spec fn from_spec(v: u16) -> Term {
        arbitrary()
    }
}

impl From<u8> for Term {
    /// The term of a single number.
    fn from(num: u8) -> (r: Term)
        ensures
            r.term@ == binary(num as nat),
            r.sources@ == set![num as u32],
            weight(r.term@) == num,
            r@.well_formed(),
    {
        Term::from(num as u32)
    }
}

impl vstd::std_specs::convert::FromSpecImpl<u8> for Term {
    open spec fn obeys_from_spec() -> bool {
        false
    }

    open spec fn from_spec(v: u8) -> Term {
        arbitrary()
    }
}

/// Why a text is not a pattern.
#[derive(Debug, Copy, Clone, PartialEq, Eq, Structural)]
pub enum ParseError {
    /// The text holds a character other than `'0'`, `'1'` and `'*'`.
    InvalidCharacter,
}

/// The character that shows a position value.
pub open spec fn symbol(v: Val) -> char {
    match v {
        Val::T => '1',
        Val::F => '0',
        Val::S => '*',
    }
}

/// The position value that a character stands for, if any.
pub open spec fn symbol_value(c: char) -> Option<Val> {
    if c == '1' {
        Some(Val::T)
    } else if c == '0' {
        Some(Val::F)
    } else if c == '*' {
        Some(Val::S)
    } else {
        None
    }
}

/// The text of a pattern, most significant position first.
pub open spec fn rendered(p: Seq<Val>) -> Seq<char> {
    Seq::new(p.len(), |i: int| symbol(p[p.len() - 1 - i]))
}

/// Every character of the text stands for a position value.
pub open spec fn readable(s: Seq<char>) -> bool {
    forall|i: int| 0 <= i < s.len() ==> symbol_value(#[trigger] s[i]) is Some
}

/// The pattern that a readable text shows, least significant position first.
pub open spec fn parsed(s: Seq<char>) -> Seq<Val> {
    Seq::new(s.len(), |i: int| symbol_value(s[s.len() - 1 - i])->0)
}

/// The text shows no `'1'` and no `'*'` before its last 32 characters, so
/// that what it stands for fits 32 bits.
pub open spec fn narrow(s: Seq<char>) -> bool {
    forall|i: int| 0 <= i < s.len() - 32 ==> #[trigger] s[i] != '1' && s[i] != '*'
}

/// Reading the text of a pattern gives the pattern back.
pub proof fn lemma_parse_rendered(p: Seq<Val>)
    ensures
        readable(rendered(p)),
        parsed(rendered(p)) == p,
        fits(p) ==> narrow(rendered(p)),
{
    assert(parsed(rendered(p)) =~= p);
    if fits(p) {
        assert forall|i: int| 0 <= i < rendered(p).len() - 32 implies #[trigger] rendered(p)[i]
            != '1' && rendered(p)[i] != '*' by {
            assert(val_at(p, p.len() - 1 - i) == Val::F);
        }
    }
}

/// Reading the text of a well-formed term gives an equal term: the text is
/// readable and fits 32 bits, it shows the term's pattern, and the pattern
/// stands for the term's sources.
pub proof fn lemma_read_back(t: crate::term::TermView)
    requires
        t.well_formed(),
    ensures
        readable(rendered(t.pattern)),
        narrow(rendered(t.pattern)),
        parsed(rendered(t.pattern)) == t.pattern,
        covered(parsed(rendered(t.pattern))) == t.sources,
{
    lemma_parse_rendered(t.pattern);
}

/// The binary digit that position `j` of `text`, a pattern written most
/// significant position first, takes under `choice`: a wildcard takes the
/// entry of `choice` that its rank among the wildcards selects.
spec fn digit(text: Seq<Val>, choice: Seq<u32>, j: int) -> bool {
    match text[j] {
        Val::T => true,
        Val::F => false,
        Val::S => choice[wilds_below(text, j as nat) as int] == 1,
    }
}

/// `x` is the number that `text` shows under `choice`, read through its last
/// 32 positions.
spec fn resolves(x: u32, text: Seq<Val>, choice: Seq<u32>) -> bool {
    forall|t: int|
        0 <= t < 32 ==> #[trigger] bit(x, t) == (t < text.len() && digit(
            text,
            choice,
            text.len() - 1 - t,
        ))
}

/// Appending a binary digit to a number moves its digits up by one place.
proof fn lemma_shift_in(acc: u32, v: u32, next: u32)
    requires
        v <= 1,
        next == (acc << 1u32) + v,
    ensures
        bit(next, 0) == (v == 1),
        forall|t: int| 1 <= t < 32 ==> #[trigger] bit(next, t) == bit(acc, t - 1),
{
    assert(((next >> 0u32) & 1 == 1) == (v == 1)) by (bit_vector)
        requires
            v <= 1,
            next == (acc << 1u32) + v,
    ;
    assert forall|t: int| 1 <= t < 32 implies #[trigger] bit(next, t) == bit(acc, t - 1) by {
        let s = t as u32;
        let s1 = (t - 1) as u32;
        assert((next >> s) & 1 == (acc >> s1) & 1) by (bit_vector)
            requires
                v <= 1,
                next == (acc << 1u32) + v,
                1 <= s < 32,
                s1 == s - 1,
        ;
    }
}

/// No position below `n` reads `S` unless it is one of the last 32.
proof fn lemma_wilds_narrow(text: Seq<Val>, n: nat)
    requires
        n <= text.len(),
        forall|j: int| 0 <= j < text.len() - 32 ==> text[j] != Val::S,
    ensures
        wilds_below(text, n) <= 32,
        wilds_below(text, n) <= n,
        n <= text.len() - 32 ==> wilds_below(text, n) == 0,
        n > text.len() - 32 ==> wilds_below(text, n) <= n - (text.len() - 32),
    decreases n,
{
    if n > 0 {
        lemma_wilds_narrow(text, (n - 1) as nat);
    }
}

/// Counting `S` further along never lowers the count.
proof fn lemma_wilds_monotone(text: Seq<Val>, i: nat, n: nat)
    requires
        i <= n,
    ensures
        wilds_below(text, i) <= wilds_below(text, n),
    decreases n,
{
    if i < n {
        lemma_wilds_monotone(text, i, (n - 1) as nat);
    }
}

/// The number that `text`, a pattern written most significant position
/// first, shows when its wildcards take the digits of `choice` in order.
fn resolve(text: &Vec<Val>, choice: &Vec<u32>) -> (x: u32)
    requires
        is_assignment(choice@, wilds_below(text@, text@.len())),
    ensures
        resolves(x, text@, choice@),
{
    let mut acc: u32 = 0;
    let mut used: usize = 0;
    let mut j: usize = 0;
    proof {
        assert forall|t: int| 0 <= t < 32 implies !#[trigger] bit(acc, t) by {
            let s = t as u32;
            assert((0u32 >> s) & 1 == 0) by (bit_vector);
        }
    }
    while j < text.len()
        invariant
            j <= text.len(),
            is_assignment(choice@, wilds_below(text@, text@.len())),
            used == wilds_below(text@, j as nat),
            used <= j,
            forall|t: int|
                0 <= t < 32 ==> #[trigger] bit(acc, t) == (t < j && digit(
                    text@,
                    choice@,
                    j - 1 - t,
                )),
        decreases text.len() - j,
    {
        proof {
            lemma_wilds_monotone(text@, (j + 1) as nat, text@.len());
        }
        let v: u32 = match text[j] {
            Val::T => 1,
            Val::F => 0,
            Val::S => {
                let d = choice[used];
                used += 1;
                d
            },
        };
        assert((v == 1) == digit(text@, choice@, j as int));
        assert((acc << 1u32) <= 0xffff_fffe) by (bit_vector);
        let next: u32 = (acc << 1) + v;
        proof {
            lemma_shift_in(acc, v, next);
        }
        acc = next;
        j += 1;
    }
    acc
}

/// The choice under which the first `n` positions of `text` show the digits
/// of `y`.
spec fn wanted(text: Seq<Val>, y: u32, n: nat) -> Seq<u32>
    decreases n,
{
    if n == 0 {
        Seq::empty()
    } else {
        let before = wanted(text, y, (n - 1) as nat);
        if text[n - 1] == Val::S {
            before.push(if bit(y, text.len() - n) { 1u32 } else { 0u32 })
        } else {
            before
        }
    }
}

/// The wanted choice has an entry for each wildcard, and the entry of each
/// wildcard is the digit of `y` at the wildcard's position.
proof fn lemma_wanted(text: Seq<Val>, y: u32, n: nat)
    requires
        n <= text.len(),
    ensures
        is_assignment(wanted(text, y, n), wilds_below(text, n)),
        forall|j: int|
            0 <= j < n && text[j] == Val::S ==> #[trigger] wanted(text, y, n)[wilds_below(
                text,
                j as nat,
            ) as int] == (if bit(y, text.len() - 1 - j) { 1u32 } else { 0u32 }),
    decreases n,
{
    if n > 0 {
        lemma_wanted(text, y, (n - 1) as nat);
        assert forall|j: int| 0 <= j < n && text[j] == Val::S implies #[trigger] wanted(
            text,
            y,
            n,
        )[wilds_below(text, j as nat) as int] == (if bit(y, text.len() - 1 - j) {
            1u32
        } else {
            0u32
        }) by {
            if j < n - 1 {
                lemma_wilds_monotone(text, (j + 1) as nat, (n - 1) as nat);
            }
        }
    }
}

/// The numbers that `text` shows under the given choices.
fn resolve_all(text: &Vec<Val>, choices: &Vec<Vec<u32>>) -> (sources: HashSet<u32>)
    requires
        forall|n: int|
            0 <= n < choices@.len() ==> is_assignment(
                #[trigger] choices@[n]@,
                wilds_below(text@, text@.len()),
            ),
    ensures
        forall|x: u32|
            sources@.contains(x) <==> exists|n: int|
                0 <= n < choices@.len() && resolves(x, text@, #[trigger] choices@[n]@),
{
    let mut sources: HashSet<u32> = HashSet::new();
    let mut n: usize = 0;
    while n < choices.len()
        invariant
            n <= choices.len(),
            forall|m: int|
                0 <= m < choices@.len() ==> is_assignment(
                    #[trigger] choices@[m]@,
                    wilds_below(text@, text@.len()),
                ),
            forall|x: u32|
                sources@.contains(x) <==> exists|m: int|
                    0 <= m < n && resolves(x, text@, #[trigger] choices@[m]@),
        decreases choices.len() - n,
    {
        let ghost before = sources@;
        let x = resolve(text, &choices[n]);
        sources.insert(x);
        proof {
            assert forall|z: u32| sources@.contains(z) <==> exists|m: int|
                0 <= m < n + 1 && resolves(z, text@, #[trigger] choices@[m]@) by {
                if sources@.contains(z) {
                    if z == x {
                        assert(resolves(z, text@, choices@[n as int]@));
                    } else {
                        assert(before.contains(z));
                        let m = choose|m: int|
                            0 <= m < n && resolves(z, text@, #[trigger] choices@[m]@);
                        assert(0 <= m < n + 1);
                    }
                }
                if exists|m: int| 0 <= m < n + 1 && resolves(z, text@, #[trigger] choices@[m]@) {
                    let m = choose|m: int|
                        0 <= m < n + 1 && resolves(z, text@, #[trigger] choices@[m]@);
                    if m == n {
                        assert forall|t: int| 0 <= t < 32 implies bit(z, t) == bit(x, t) by {}
                        lemma_bits_determine(z, x);
                    } else {
                        assert(before.contains(z));
                    }
                }
            }
        }
        n += 1;
    }
    sources
}

/// Where the choices hold every assignment of the wildcards of `text`, the
/// numbers that `text` shows under them are the numbers that the pattern
/// stands for.
proof fn lemma_resolved_covers(
    text: Seq<Val>,
    choices: Seq<Vec<u32>>,
    sources: Set<u32>,
    p: Seq<Val>,
)
    requires
        p.len() == text.len(),
        forall|i: int| 0 <= i < p.len() ==> p[i] == text[text.len() - 1 - i],
        forall|j: int| 0 <= j < text.len() - 32 ==> text[j] == Val::F,
        forall|n: int|
            0 <= n < choices.len() ==> is_assignment(
                #[trigger] choices[n]@,
                wilds_below(text, text.len()),
            ),
        forall|a: Seq<u32>|
            is_assignment(a, wilds_below(text, text.len())) ==> exists|n: int|
                0 <= n < choices.len() && #[trigger] choices[n]@ == a,
        forall|x: u32|
            sources.contains(x) <==> exists|n: int|
                0 <= n < choices.len() && resolves(x, text, #[trigger] choices[n]@),
    ensures
        sources == covered(p),
        fits(p),
{
    let len = text.len() as int;
    assert forall|x: u32| sources.contains(x) implies covers(p, x) by {
        let n = choose|n: int| 0 <= n < choices.len() && resolves(x, text, #[trigger] choices[n]@);
        assert forall|t: int| 0 <= t < 32 implies agrees(val_at(p, t), #[trigger] bit(x, t)) by {
            if t < len {
                assert(p[t] == text[len - 1 - t]);
            }
        }
    }
    assert forall|y: u32| covers(p, y) implies sources.contains(y) by {
        let a = wanted(text, y, text.len());
        lemma_wanted(text, y, text.len());
        let n = choose|n: int| 0 <= n < choices.len() && #[trigger] choices[n]@ == a;
        assert forall|t: int| 0 <= t < 32 implies #[trigger] bit(y, t) == (t < len && digit(
            text,
            a,
            len - 1 - t,
        )) by {
            assert(agrees(val_at(p, t), bit(y, t)));
            if t < len {
                assert(p[t] == text[len - 1 - t]);
            }
        }
        assert(resolves(y, text, choices[n]@));
    }
    assert(sources =~= covered(p));
    assert forall|i: int| 32 <= i implies val_at(p, i) == Val::F by {
        if i < len {
            assert(p[i] == text[len - 1 - i]);
        }
    }
}

impl Term {
    /// Reads a term from the text of a pattern over `'0'`, `'1'` and `'*'`,
    /// most significant position first. A text with any other character is
    /// refused. The term covers every number that the pattern stands for:
    /// each wildcard ranges over both digits, so that `k` wildcards give
    /// `2^k` sources. The empty text reads as the term of zero. The text may
    /// be longer than 32 characters as long as it shows nothing but `'0'`
    /// before the last 32.
    pub fn try_from(value: &str) -> (r: Result<Term, ParseError>)
        requires
            narrow(value@),
        ensures
            r is Err <==> !readable(value@),
            r matches Err(e) ==> e == ParseError::InvalidCharacter,
            r matches Ok(t) ==> t.term@ == parsed(value@) && t.sources@ == covered(parsed(value@))
                && t@.well_formed() && t.sources@.len() == pow2(wilds_below(t.term@, 32)),
    {
        let mut s_count: usize = 0;
        let mut text: Vec<Val> = Vec::new();
        for c in it: value.chars()
            invariant
                it.seq() == value@,
                text@.len() == it.index(),
                forall|j: int|
                    0 <= j < it.index() ==> symbol_value(value@[j]) == Some(#[trigger] text@[j]),
                s_count == wilds_below(text@, text@.len()),
                s_count <= text@.len(),
        {
            let ghost before = text@;
            if c == '1' {
                text.push(Val::T);
            } else if c == '0' {
                text.push(Val::F);
            } else if c == '*' {
                text.push(Val::S);
                let filled: usize = text.len();
                assert(s_count < filled);
                s_count += 1;
            } else {
                return Err(ParseError::InvalidCharacter);
            }
            proof {
                crate::pattern::lemma_wilds_respect_prefix(before, text@, before.len());
            }
        }
        assert(text@.len() == value@.len());
        assert forall|j: int| 0 <= j < value@.len() implies symbol_value(
            #[trigger] value@[j],
        ) is Some by {
            assert(symbol_value(value@[j]) == Some(text@[j]));
        }
        proof {
            lemma_wilds_narrow(text@, text@.len());
        }
        let choices = if s_count == 0 {
            let mut only: Vec<Vec<u32>> = Vec::new();
            only.push(Vec::new());
            proof {
                assert forall|a: Seq<u32>| is_assignment(a, 0) implies exists|n: int|
                    0 <= n < only@.len() && #[trigger] only@[n]@ == a by {
                    assert(only@[0]@ =~= a);
                }
            }
            only
        } else {
            assignments(s_count)
        };
        let sources = resolve_all(&text, &choices);
        let mut term: Vec<Val> = Vec::with_capacity(text.len());
        let mut i: usize = text.len();
        while i > 0
            invariant
                i <= text.len(),
                term@.len() == text@.len() - i,
                forall|j: int| 0 <= j < term@.len() ==> #[trigger] term@[j] == text@[text@.len() - 1 - j],
            decreases i,
        {
            i -= 1;
            term.push(text[i]);
        }
        proof {
            assert(term@ =~= parsed(value@));
            lemma_resolved_covers(text@, choices@, sources@, term@);
            lemma_covered_count(term@);
        }
        Ok(Term::new(term, sources))
    }

    /// The text of the term's pattern, most significant position first.
    pub fn to_string(&self) -> (r: String)
        ensures
            r@ == rendered(self.term@),
    {
        let mut out = String::new();
        let mut i: usize = self.term.len();
        proof {
            reveal_strlit("1");
            reveal_strlit("0");
            reveal_strlit("*");
        }
        while i > 0
            invariant
                i <= self.term.len(),
                "1"@ == seq!['1'],
                "0"@ == seq!['0'],
                "*"@ == seq!['*'],
                out@ == rendered(self.term@).take(self.term@.len() - i),
            decreases i,
        {
            i -= 1;
            let ghost before = out@;
            match self.term[i] {
                Val::T => out.append("1"),
                Val::F => out.append("0"),
                Val::S => out.append("*"),
            }
            assert(out@ =~= rendered(self.term@).take(self.term@.len() - i));
        }
        assert(out@ =~= rendered(self.term@));
        out
    }
}

impl Term {
    /// Whether the term is well formed: its pattern fits 32 bits and its
    /// sources are the numbers that the pattern stands for.
    pub fn is_well_formed(&self) -> (r: bool)
        ensures
            r == self@.well_formed(),
    {
        let mut i: usize = 32;
        while i < self.term.len()
            invariant
                32 <= i,
                forall|j: int| 32 <= j < i ==> val_at(self.term@, j) == Val::F,
            decreases self.term.len() - i,
        {
            if self.term[i] != Val::F {
                assert(val_at(self.term@, i as int) != Val::F);
                return false;
            }
            i += 1;
        }
        assert(fits(self.term@));
        proof {
            lemma_parse_rendered(self.term@);
        }
        let text = self.to_string();
        match Term::try_from(text.as_str()) {
            Ok(read) => same(&read.sources, &self.sources),
            Err(_) => false,
        }
    }
}

} // verus!
