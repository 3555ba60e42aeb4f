//! Order keys over a 65-symbol alphabet: strings that sort, and between any two of which,
//! or before or after any one, another key can be made without renumbering the others.
//!
//! Two variants share the order and the bisection engine of [`digits`]:
//! - [`KeyNumbers`] (also named [`BalancedKey`]) reads missing digits as the middle digit `T`,
//!   so `a` and `aT` are the same key;
//! - [`LexiconKey`] reads a missing digit as below every digit, so keys sort as their texts do.
use vstd::prelude::*;
use crate::alphabet::{decode, encode, encodes, first_invalid, renders, valid_digits, MAX_DIGIT, MID_DIGIT};
use crate::digits::{
    bisect_digits, bisected, compare, lemma_strip_keeps_order, lemma_trichotomy, padded_cmp, padded_eq,
    padded_lt, prefix_then, run_len, run_length, iterate, lemma_iterate_ordered, lt_at, lemma_run_len, strip_trailing, strip_trailing_in_place,
};
use core::cmp::Ordering;

pub mod alphabet;
pub mod digits;
pub mod lexicon_key;

pub use lexicon_key::LexiconKey;

verus! {

/// Direction of a carry: `Increased` adds one at the digit it stops at, `Decreased`
/// takes one away.
#[derive(Debug, Clone, Copy, PartialEq, Eq, Structural)]
pub enum NumberChange {
    Increased,
    Decreased,
}

/// Failures of the key operations.
#[derive(Debug, Clone, Copy, PartialEq, Eq, PartialOrd, Structural)]
pub enum KeyError {
    /// A character of the text is outside the alphabet.
    InvalidSymbol(char),
    /// The two keys are equal in the variant's order: nothing lies between them.
    NoRoomBetweenEqualKeys,
    /// A carry rippled past the first digit.
    CarryExhausted,
    /// The carry was asked to start past the end of the digits.
    IndexOutOfRange,
    /// The key is already the lowest one the operation can go below.
    CannotDecreaseFurther,
    /// A digit above the alphabet's highest one.
    InvalidDigit(u8),
}

/// Digit appended after a key's run of highest digits, and after the shared digits of a
/// bisection that ran out: two above the middle, leaving room on both sides.
pub const SPACER_UP: u8 = 34;

/// Digit appended where a balanced key's run of lowest digits is the whole key: two below
/// the middle, the missing digit there.
pub const SPACER_DOWN: u8 = 30;

/// A key of the balanced variant: missing digits read as the middle digit, so trailing
/// middle digits do not change the key.
#[derive(Debug)]
pub struct KeyNumbers(Vec<u8>);

/// The balanced variant under its descriptive name.
pub type BalancedKey = KeyNumbers;

impl View for KeyNumbers {
    type V = Seq<u8>;

    closed spec fn view(&self) -> Seq<u8> {
        self.0@
    }
}

/// Raised digit of the balanced variant after a run of highest digits.
pub open spec fn raise_balanced(x: u8) -> u8 {
    if x == 63 {
        MAX_DIGIT
    } else {
        (x + 2) as u8
    }
}

/// Lowered digit of the balanced variant after a run of lowest digits.
pub open spec fn lower_balanced(x: u8) -> u8 {
    if x == 1 {
        0
    } else {
        (x - 2) as u8
    }
}

/// The balanced key after `d`: its run of highest digits, then the next digit raised, or
/// the spacer where the run is all of `d`.
pub open spec fn after_balanced(d: Seq<u8>) -> Seq<u8> {
    let k = run_len(d, MAX_DIGIT) as int;
    d.subrange(0, k).push(if k < d.len() { raise_balanced(d[k]) } else { SPACER_UP })
}

/// The balanced key before `d`: its run of lowest digits, then the next digit lowered, or
/// the spacer below the middle where the run is all of `d`.
pub open spec fn before_balanced(d: Seq<u8>) -> Seq<u8> {
    let k = run_len(d, 0) as int;
    d.subrange(0, k).push(if k < d.len() { lower_balanced(d[k]) } else { SPACER_DOWN })
}

/// The balanced key after `d` is above it and keeps the digits valid.
pub proof fn lemma_after_balanced_step(d: Seq<u8>)
    requires
        valid_digits(d),
    ensures
        valid_digits(after_balanced(d)),
        padded_lt(d, after_balanced(d), MID_DIGIT as int),
{
    lemma_run_len(d, MAX_DIGIT);
    assert(lt_at(d, after_balanced(d), MID_DIGIT as int, run_len(d, MAX_DIGIT) as int));
}

/// The balanced key before `d` is below it and keeps the digits valid.
pub proof fn lemma_before_balanced_step(d: Seq<u8>)
    requires
        valid_digits(d),
    ensures
        valid_digits(before_balanced(d)),
        padded_lt(before_balanced(d), d, MID_DIGIT as int),
{
    lemma_run_len(d, 0);
    assert(lt_at(before_balanced(d), d, MID_DIGIT as int, run_len(d, 0) as int));
}

pub open spec fn after_balanced_step() -> spec_fn(Seq<u8>) -> Seq<u8> {
    |d: Seq<u8>| after_balanced(d)
}

pub open spec fn before_balanced_step() -> spec_fn(Seq<u8>) -> Seq<u8> {
    |d: Seq<u8>| before_balanced(d)
}

/// Repeated `bisect_end` from any balanced key gives keys that strictly increase, any number
/// of times: no two are equal or out of order.
pub proof fn lemma_after_chain_balanced(d: Seq<u8>, n: nat)
    requires
        valid_digits(d),
    ensures
        forall|i: nat, j: nat|
            i < j <= n ==> padded_lt(
                #[trigger] iterate(after_balanced_step(), d, i),
                #[trigger] iterate(after_balanced_step(), d, j),
                MID_DIGIT as int,
            ),
{
    let keep = |x: Seq<u8>| valid_digits(x);
    assert forall|x: Seq<u8>| #[trigger] keep(x) implies keep(after_balanced_step()(x)) && padded_lt(
        x,
        after_balanced_step()(x),
        MID_DIGIT as int,
    ) by {
        lemma_after_balanced_step(x);
    }
    lemma_iterate_ordered(after_balanced_step(), keep, d, n, MID_DIGIT as int, true);
}

/// Repeated `bisect_beginning` from any balanced key gives keys that strictly decrease, any
/// number of times: no two are equal or out of order.
pub proof fn lemma_before_chain_balanced(d: Seq<u8>, n: nat)
    requires
        valid_digits(d),
    ensures
        forall|i: nat, j: nat|
            i < j <= n ==> padded_lt(
                #[trigger] iterate(before_balanced_step(), d, j),
                #[trigger] iterate(before_balanced_step(), d, i),
                MID_DIGIT as int,
            ),
{
    let keep = |x: Seq<u8>| valid_digits(x);
    assert forall|x: Seq<u8>| #[trigger] keep(x) implies keep(before_balanced_step()(x)) && padded_lt(
        before_balanced_step()(x),
        x,
        MID_DIGIT as int,
    ) by {
        lemma_before_balanced_step(x);
    }
    lemma_iterate_ordered(before_balanced_step(), keep, d, n, MID_DIGIT as int, false);
}

impl KeyNumbers {
    #[verifier::type_invariant]
    spec fn well_formed(&self) -> bool {
        valid_digits(self.0@)
    }

    /// The key whose digits are the symbols of `s`.
    pub fn new(s: &str) -> (r: Result<Self, KeyError>)
        ensures
            match r {
                Ok(k) => encodes(s@, k@),
                Err(e) => exists|i: int| first_invalid(s@, i) && e == KeyError::InvalidSymbol(s@[i]),
            },
            r is Ok <==> forall|i: int| 0 <= i < s@.len() ==> (crate::alphabet::digit_of(#[trigger] s@[i]) is Some),
    {
        match encode(s) {
            Ok(d) => Ok(KeyNumbers(d)),
            Err(c) => Err(KeyError::InvalidSymbol(c)),
        }
    }

    /// The symbols of the key's digits.
    pub fn to_text(&self) -> (t: String)
        ensures
            renders(self@, t@),
    {
        proof {
            use_type_invariant(self);
        }
        decode(&self.0)
    }

    /// Drops trailing middle digits, which do not change the key.
    pub fn strip_last_mut(&mut self)
        ensures
            final(self)@ == strip_trailing(old(self)@, MID_DIGIT),
            padded_eq(old(self)@, final(self)@, MID_DIGIT as int),
    {
        proof {
            use_type_invariant(&*self);
            lemma_strip_keeps_order(self@, MID_DIGIT);
        }
        let ghost d = self@;
        let mut xs = Vec::new();
        std::mem::swap(&mut xs, &mut self.0);
        strip_trailing_in_place(&mut xs, MID_DIGIT);
        proof {
            lemma_strip_valid(d, MID_DIGIT);
        }
        self.0 = xs;
    }

    /// The key without its trailing middle digits, equal to it.
    pub fn strip_last(&self) -> (r: Self)
        ensures
            r@ == strip_trailing(self@, MID_DIGIT),
            padded_eq(self@, r@, MID_DIGIT as int),
    {
        proof {
            use_type_invariant(self);
            lemma_strip_keeps_order(self@, MID_DIGIT);
            lemma_strip_valid(self@, MID_DIGIT);
        }
        let mut xs = self.0.clone();
        strip_trailing_in_place(&mut xs, MID_DIGIT);
        KeyNumbers(xs)
    }

    /// A key strictly between `self` and `next`, in whichever order they stand, made by
    /// `digits::bisect_digits` from the lower to the higher with missing digits read as the
    /// middle digit.
    pub fn bisect(&self, next: &Self) -> (r: Result<Self, KeyError>)
        ensures
            match r {
                Ok(m) => (padded_lt(self@, next@, MID_DIGIT as int) ==> bisected(
                    self@,
                    next@,
                    m@,
                    MID_DIGIT as int,
                    SPACER_UP as int,
                )) && (padded_lt(next@, self@, MID_DIGIT as int) ==> bisected(
                    next@,
                    self@,
                    m@,
                    MID_DIGIT as int,
                    SPACER_UP as int,
                )),
                Err(e) => e == KeyError::NoRoomBetweenEqualKeys,
            },
            r is Err <==> padded_eq(self@, next@, MID_DIGIT as int),
    {
        proof {
            use_type_invariant(self);
            use_type_invariant(next);
            lemma_trichotomy(self@, next@, MID_DIGIT as int);
        }
        match compare(&self.0, &next.0, MID_DIGIT as i16) {
            Ordering::Equal => Err(KeyError::NoRoomBetweenEqualKeys),
            Ordering::Less => KeyNumbers(bisect_digits(&self.0, &next.0, MID_DIGIT, SPACER_UP)).checked(),
            Ordering::Greater => KeyNumbers(bisect_digits(&next.0, &self.0, MID_DIGIT, SPACER_UP)).checked(),
        }
    }

    /// A key after `self`: the leading run of highest digits is kept and the next digit
    /// raised by two (to the highest digit from the one below it); where the run is the whole
    /// key, the spacer is appended.
    pub fn bisect_end(&self) -> (r: Result<Self, KeyError>)
        ensures
            r is Ok,
            r->Ok_0@ == after_balanced(self@),
            padded_lt(self@, r->Ok_0@, MID_DIGIT as int),
    {
        proof {
            use_type_invariant(self);
        }
        let k = run_length(&self.0, MAX_DIGIT);
        let last = if k < self.0.len() {
            let x = self.0[k];
            if x == 63 {
                MAX_DIGIT
            } else {
                x + 2
            }
        } else {
            SPACER_UP
        };
        let ys = prefix_then(&self.0, k, last);
        proof {
            assert(crate::digits::lt_at(self@, ys@, MID_DIGIT as int, k as int));
        }
        KeyNumbers(ys).checked()
    }

    /// A key before `self`: the leading run of lowest digits is kept and the next digit
    /// lowered by two (to the lowest digit from the one above it). Where the run is the whole
    /// key, the missing middle digit after it is the one lowered: the spacer below the middle
    /// is appended, so a balanced key always has a key before it.
    pub fn bisect_beginning(&self) -> (r: Result<Self, KeyError>)
        ensures
            r is Ok,
            r->Ok_0@ == before_balanced(self@),
            padded_lt(r->Ok_0@, self@, MID_DIGIT as int),
    {
        proof {
            use_type_invariant(self);
        }
        let k = run_length(&self.0, 0);
        let last = if k < self.0.len() {
            let x = self.0[k];
            if x == 1 {
                0
            } else {
                x - 2
            }
        } else {
            SPACER_DOWN
        };
        let ys = prefix_then(&self.0, k, last);
        proof {
            assert(crate::digits::lt_at(ys@, self@, MID_DIGIT as int, k as int));
        }
        KeyNumbers(ys).checked()
    }

    /// The key after a carry into position `idx - 1` (see `digits::promote_from`).
    pub fn promote_from(&self, idx: usize, change: NumberChange) -> (r: Result<Self, KeyError>)
        ensures
            match r {
                Ok(k) => exists|j: int|
                    crate::digits::carry_stops_at(self@, j, idx as int, change) && k@
                        == crate::digits::carried(self@, j, idx as int, change),
                Err(e) => if idx > self@.len() {
                    e == KeyError::IndexOutOfRange
                } else {
                    e == KeyError::CarryExhausted && forall|t: int|
                        0 <= t < idx ==> crate::digits::saturated(#[trigger] self@[t], change)
                },
            },
            r is Ok <==> idx <= self@.len() && exists|j: int|
                crate::digits::carry_stops_at(self@, j, idx as int, change),
    {
        proof {
            use_type_invariant(self);
        }
        let base = self.0.clone();
        assert(base@ == self@);
        let r = crate::digits::promote_from(base, idx, change);
        match r {
            Ok(xs) => Ok(KeyNumbers(xs)),
            Err(e) => Err(e),
        }
    }

    /// Checks that every digit is within the alphabet; a key always passes.
    pub fn checked(self) -> (r: Result<Self, KeyError>)
        ensures
            r is Ok,
            r->Ok_0@ == self@,
    {
        proof {
            use_type_invariant(&self);
        }
        let mut i: usize = 0;
        while i < self.0.len()
            invariant
                valid_digits(self.0@),
            decreases self.0@.len() - i,
        {
            if self.0[i] > MAX_DIGIT {
                return Err(KeyError::InvalidDigit(self.0[i]));
            }
            i = i + 1;
        }
        Ok(self)
    }
}

/// Stripping keeps the digits valid.
proof fn lemma_strip_valid(d: Seq<u8>, x: u8)
    requires
        valid_digits(d),
    ensures
        valid_digits(strip_trailing(d, x)),
    decreases d.len(),
{
    if d.len() > 0 && d.last() == x {
        lemma_strip_valid(d.drop_last(), x);
    }
}

impl PartialEq for KeyNumbers {
    fn eq(&self, other: &Self) -> (r: bool) {
        proof {
            use_type_invariant(self);
            use_type_invariant(other);
        }
        match compare(&self.0, &other.0, MID_DIGIT as i16) {
            Ordering::Equal => true,
            _ => false,
        }
    }
}

impl vstd::std_specs::cmp::PartialEqSpecImpl for KeyNumbers {
    open spec fn obeys_eq_spec() -> bool {
        true
    }

    open spec fn eq_spec(&self, other: &KeyNumbers) -> bool {
        padded_eq(self@, other@, MID_DIGIT as int)
    }
}

impl PartialOrd for KeyNumbers {
    fn partial_cmp(&self, other: &Self) -> (r: Option<Ordering>) {
        proof {
            use_type_invariant(self);
            use_type_invariant(other);
        }
        Some(compare(&self.0, &other.0, MID_DIGIT as i16))
    }
}

impl vstd::std_specs::cmp::PartialOrdSpecImpl for KeyNumbers {
    open spec fn obeys_partial_cmp_spec() -> bool {
        true
    }

    open spec fn partial_cmp_spec(&self, other: &KeyNumbers) -> Option<Ordering> {
        Some(padded_cmp(self@, other@, MID_DIGIT as int))
    }
}

impl Default for KeyNumbers {
    fn default() -> (r: Self)
        ensures
            r@ == Seq::<u8>::empty(),
    {
        KeyNumbers(Vec::new())
    }
}

} // verus!
