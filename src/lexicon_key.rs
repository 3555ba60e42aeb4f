//! Keys of the lexicographic variant: a missing digit comes before every digit, so keys
//! sort exactly as their texts do.
use vstd::prelude::*;
use crate::alphabet::{decode, encode, encodes, first_invalid, renders, valid_digits, MAX_DIGIT, MID_DIGIT};
use crate::digits::{
    bisect_digits, bisected, compare, digit_at, lt_at, max_len, lemma_trichotomy, lemma_zero_fill_orders_lexicon, padded_cmp,
    padded_eq, padded_lt, prefix_then, run_end, run_length, BELOW_DIGITS, run_len, lemma_run_len,
    iterate, lemma_iterate_ordered,
};
use crate::{KeyError, SPACER_UP};
pub use crate::NumberChange;
use core::cmp::Ordering;

verus! {

/// Digit appended after the shared digits of a bisection that ran out, leaving the
/// digits below it free.
pub const SPACER_LOW: u8 = 4;

/// Digit appended after a lowered `1`, leaving the digits above it free.
pub const SPACER_HIGH: u8 = 60;

/// A key of the lexicographic variant.
#[derive(Debug)]
pub struct LexiconKey(Vec<u8>);

impl View for LexiconKey {
    type V = Seq<u8>;

    closed spec fn view(&self) -> Seq<u8> {
        self.0@
    }
}

/// Raised digit of the lexicographic variant after a run of highest digits.
pub open spec fn raise_lexicon(x: u8) -> u8 {
    if x >= 62 {
        (x + 1) as u8
    } else {
        (x + 2) as u8
    }
}

/// The lexicographic key after `d`: its run of highest digits, then the next digit raised, or
/// the spacer where the run is all of `d`.
pub open spec fn after_lexicon(d: Seq<u8>) -> Seq<u8> {
    let k = run_len(d, MAX_DIGIT) as int;
    d.subrange(0, k).push(if k < d.len() { raise_lexicon(d[k]) } else { SPACER_UP })
}

/// The lexicographic key before `d`: its run of lowest digits, then the next digit lowered;
/// a `1` becomes `0` followed by the high spacer, a `2` becomes `1`.
pub open spec fn before_lexicon(d: Seq<u8>) -> Seq<u8> {
    let k = run_len(d, 0) as int;
    if d[k] == 1 {
        d.subrange(0, k).push(0).push(SPACER_HIGH)
    } else if d[k] == 2 {
        d.subrange(0, k).push(1)
    } else {
        d.subrange(0, k).push((d[k] - 2) as u8)
    }
}

/// The lexicographic key after `d` is above it and keeps the digits valid.
pub proof fn lemma_after_lexicon_step(d: Seq<u8>)
    requires
        valid_digits(d),
    ensures
        valid_digits(after_lexicon(d)),
        padded_lt(d, after_lexicon(d), BELOW_DIGITS as int),
{
    lemma_run_len(d, MAX_DIGIT);
    assert(lt_at(d, after_lexicon(d), BELOW_DIGITS as int, run_len(d, MAX_DIGIT) as int));
}

/// Digits that are not all lowest: a lexicographic key with a key before it.
pub open spec fn lowerable(d: Seq<u8>) -> bool {
    valid_digits(d) && run_len(d, 0) < d.len()
}

/// The lexicographic key before a lowerable `d` is below it and lowerable again.
pub proof fn lemma_before_lexicon_step(d: Seq<u8>)
    requires
        lowerable(d),
    ensures
        lowerable(before_lexicon(d)),
        padded_lt(before_lexicon(d), d, BELOW_DIGITS as int),
{
    lemma_run_len(d, 0);
    let m = before_lexicon(d);
    assert(lt_at(m, d, BELOW_DIGITS as int, run_len(d, 0) as int));
    lemma_run_len(m, 0);
    assert(m[m.len() - 1] != 0);
}

pub open spec fn after_lexicon_step() -> spec_fn(Seq<u8>) -> Seq<u8> {
    |d: Seq<u8>| after_lexicon(d)
}

pub open spec fn before_lexicon_step() -> spec_fn(Seq<u8>) -> Seq<u8> {
    |d: Seq<u8>| before_lexicon(d)
}

/// Repeated `bisect_end` from any lexicographic key gives keys that strictly increase, any
/// number of times: no two are equal or out of order.
pub proof fn lemma_after_chain_lexicon(d: Seq<u8>, n: nat)
    requires
        valid_digits(d),
    ensures
        forall|i: nat, j: nat|
            i < j <= n ==> padded_lt(
                #[trigger] iterate(after_lexicon_step(), d, i),
                #[trigger] iterate(after_lexicon_step(), d, j),
                BELOW_DIGITS as int,
            ),
{
    let keep = |x: Seq<u8>| valid_digits(x);
    assert forall|x: Seq<u8>| #[trigger] keep(x) implies keep(after_lexicon_step()(x)) && padded_lt(
        x,
        after_lexicon_step()(x),
        BELOW_DIGITS as int,
    ) by {
        lemma_after_lexicon_step(x);
    }
    lemma_iterate_ordered(after_lexicon_step(), keep, d, n, BELOW_DIGITS as int, true);
}

/// Repeated `bisect_beginning` from a lexicographic key with a digit above the lowest never
/// fails and gives keys that strictly decrease, any number of times: each step is lowerable
/// again, and no two are equal or out of order.
pub proof fn lemma_before_chain_lexicon(d: Seq<u8>, n: nat)
    requires
        lowerable(d),
    ensures
        forall|i: nat| i <= n ==> lowerable(#[trigger] iterate(before_lexicon_step(), d, i)),
        forall|i: nat, j: nat|
            i < j <= n ==> padded_lt(
                #[trigger] iterate(before_lexicon_step(), d, j),
                #[trigger] iterate(before_lexicon_step(), d, i),
                BELOW_DIGITS as int,
            ),
{
    let keep = |x: Seq<u8>| lowerable(x);
    assert forall|x: Seq<u8>| #[trigger] keep(x) implies keep(before_lexicon_step()(x)) && padded_lt(
        before_lexicon_step()(x),
        x,
        BELOW_DIGITS as int,
    ) by {
        lemma_before_lexicon_step(x);
    }
    lemma_iterate_ordered(before_lexicon_step(), keep, d, n, BELOW_DIGITS as int, false);
    assert forall|i: nat| i <= n implies lowerable(#[trigger] iterate(before_lexicon_step(), d, i)) by {
        lemma_iterate_keeps_lowerable(d, i);
    }
}

proof fn lemma_iterate_keeps_lowerable(d: Seq<u8>, i: nat)
    requires
        lowerable(d),
    ensures
        lowerable(iterate(before_lexicon_step(), d, i)),
    decreases i,
{
    if i > 0 {
        lemma_iterate_keeps_lowerable(d, (i - 1) as nat);
        lemma_before_lexicon_step(iterate(before_lexicon_step(), d, (i - 1) as nat));
    }
}

/// Nothing lies strictly between a key and the same key followed by one lowest digit.
pub proof fn lemma_no_key_after_lowest_step(a: Seq<u8>, m: Seq<u8>)
    ensures
        !(padded_lt(a, m, BELOW_DIGITS as int) && padded_lt(m, a.push(0), BELOW_DIGITS as int)),
{
    let a0 = a.push(0);
    let n = a.len() as int;
    if padded_lt(a, m, -1) && padded_lt(m, a0, -1) {
        lemma_trichotomy(m, a0, -1);
        let k1 = choose|k: int| #[trigger] lt_at(a, m, -1, k);
        if k1 < n {
            assert forall|j: int| 0 <= j < k1 implies #[trigger] digit_at(a0, j, -1) == digit_at(m, j, -1) by {
                assert(digit_at(a, j, -1) == digit_at(m, j, -1));
            }
            assert(lt_at(a0, m, -1, k1));
        } else {
            if k1 > n {
                assert(digit_at(a, n, -1) == digit_at(m, n, -1));
            }
            assert(k1 == n);
            assert forall|j: int| 0 <= j < n implies #[trigger] digit_at(a0, j, -1) == digit_at(m, j, -1) by {
                assert(digit_at(a, j, -1) == digit_at(m, j, -1));
            }
            if m[n] > 0 {
                assert(lt_at(a0, m, -1, n));
            } else if m.len() == n + 1 {
                assert(m =~= a0);
                lemma_trichotomy(m, m, -1);
            } else {
                assert forall|j: int| 0 <= j < n + 1 implies #[trigger] digit_at(a0, j, -1) == digit_at(m, j, -1) by {
                    if j < n {
                        assert(digit_at(a, j, -1) == digit_at(m, j, -1));
                    }
                }
                assert(lt_at(a0, m, -1, n + 1));
            }
        }
    }
}

/// No key lies between `a` and `b`: they are equal, or one is the other followed by one
/// lowest digit.
pub open spec fn no_room_between(a: Seq<u8>, b: Seq<u8>) -> bool {
    a == b || b == a.push(0) || a == b.push(0)
}

/// Equal with missing digits read as `0`, the longer is the shorter followed by lowest digits.
proof fn lemma_zero_tail(short: Seq<u8>, long: Seq<u8>)
    requires
        padded_eq(short, long, 0) || padded_eq(long, short, 0),
        short.len() <= long.len(),
    ensures
        forall|j: int| 0 <= j < short.len() ==> #[trigger] long[j] == short[j],
        forall|j: int| short.len() <= j < long.len() ==> #[trigger] long[j] == 0,
        long.len() == short.len() ==> long == short,
        long.len() == short.len() + 1 ==> long == short.push(0),
{
    assert forall|j: int| 0 <= j < short.len() implies #[trigger] long[j] == short[j] by {
        assert(digit_at(short, j, 0) == digit_at(long, j, 0));
    }
    assert forall|j: int| short.len() <= j < long.len() implies #[trigger] long[j] == 0 by {
        assert(digit_at(short, j, 0) == digit_at(long, j, 0));
    }
    if long.len() == short.len() {
        assert(long =~= short);
    }
    if long.len() == short.len() + 1 {
        assert(long =~= short.push(0));
    }
}

/// The shorter followed by one lowest digit lies between it and the same followed by two or
/// more.
proof fn lemma_zero_step_between(short: Seq<u8>, long: Seq<u8>)
    requires
        short.len() + 2 <= long.len(),
        forall|j: int| 0 <= j < short.len() ==> #[trigger] long[j] == short[j],
        forall|j: int| short.len() <= j < long.len() ==> #[trigger] long[j] == 0,
    ensures
        padded_lt(short, short.push(0), BELOW_DIGITS as int),
        padded_lt(short.push(0), long, BELOW_DIGITS as int),
        !no_room_between(short, long) && !no_room_between(long, short),
{
    let m = short.push(0);
    let n = short.len() as int;
    assert forall|j: int| 0 <= j < n implies #[trigger] digit_at(short, j, -1) == digit_at(m, j, -1) by {}
    assert(lt_at(short, m, -1, n));
    assert forall|j: int| 0 <= j < n + 1 implies #[trigger] digit_at(m, j, -1) == digit_at(long, j, -1) by {}
    assert(lt_at(m, long, -1, n + 1));
    assert(long.len() != short.len() + 1);
}

/// Keys apart with missing digits read as `0` have room between them.
proof fn lemma_zero_fill_apart(a: Seq<u8>, b: Seq<u8>)
    requires
        padded_lt(a, b, 0),
    ensures
        !no_room_between(a, b),
{
    lemma_trichotomy(a, b, 0);
    if a == b || b == a.push(0) || a == b.push(0) {
        assert(padded_eq(a, b, 0)) by {
            assert forall|j: int| 0 <= j < max_len(a, b) implies #[trigger] digit_at(a, j, 0)
                == digit_at(b, j, 0) by {
                if b == a.push(0) && j == a.len() {
                } else if a == b.push(0) && j == b.len() {
                }
            }
        }
    }
}

impl LexiconKey {
    #[verifier::type_invariant]
    spec fn well_formed(&self) -> bool {
        valid_digits(self.0@)
    }

    /// The key whose digits are the symbols of `s`.
    pub fn new(s: &str) -> (r: Result<Self, KeyError>)
        ensures
            match r {
                Ok(k) => encodes(s@, k@),
                Err(e) => exists|i: int| first_invalid(s@, i) && e == KeyError::InvalidSymbol(s@[i]),
            },
            r is Ok <==> forall|i: int| 0 <= i < s@.len() ==> (crate::alphabet::digit_of(#[trigger] s@[i]) is Some),
    {
        match encode(s) {
            Ok(d) => Ok(LexiconKey(d)),
            Err(c) => Err(KeyError::InvalidSymbol(c)),
        }
    }

    /// The symbols of the key's digits.
    pub fn to_text(&self) -> (t: String)
        ensures
            renders(self@, t@),
    {
        proof {
            use_type_invariant(self);
        }
        decode(&self.0)
    }

    /// A key strictly between `self` and `next`, in whichever order they stand.
    ///
    /// Where the two differ with missing digits read as `0`, `digits::bisect_digits` makes it
    /// from the lower to the higher, and it lies between them in that reading too. Otherwise the
    /// longer is the shorter followed by lowest digits: with two or more of them, the shorter
    /// followed by one lowest digit lies between; with one, or none, no key does.
    pub fn bisect(&self, next: &Self) -> (r: Result<Self, KeyError>)
        ensures
            match r {
                Ok(m) => {
                    &&& padded_lt(self@, next@, 0) ==> bisected(
                        self@,
                        next@,
                        m@,
                        0,
                        SPACER_LOW as int,
                    ) && padded_lt(self@, m@, BELOW_DIGITS as int) && padded_lt(
                        m@,
                        next@,
                        BELOW_DIGITS as int,
                    )
                    &&& padded_lt(next@, self@, 0) ==> bisected(
                        next@,
                        self@,
                        m@,
                        0,
                        SPACER_LOW as int,
                    ) && padded_lt(next@, m@, BELOW_DIGITS as int) && padded_lt(
                        m@,
                        self@,
                        BELOW_DIGITS as int,
                    )
                    &&& padded_eq(self@, next@, 0) && self@.len() < next@.len() ==> m@ == self@.push(0)
                        && padded_lt(self@, m@, BELOW_DIGITS as int) && padded_lt(
                        m@,
                        next@,
                        BELOW_DIGITS as int,
                    )
                    &&& padded_eq(self@, next@, 0) && next@.len() < self@.len() ==> m@ == next@.push(0)
                        && padded_lt(next@, m@, BELOW_DIGITS as int) && padded_lt(
                        m@,
                        self@,
                        BELOW_DIGITS as int,
                    )
                },
                Err(e) => e == KeyError::NoRoomBetweenEqualKeys,
            },
            r is Err <==> no_room_between(self@, next@),
    {
        proof {
            use_type_invariant(self);
            use_type_invariant(next);
            lemma_trichotomy(self@, next@, 0);
        }
        match compare(&self.0, &next.0, 0) {
            Ordering::Less => {
                let m = bisect_digits(&self.0, &next.0, 0, SPACER_LOW);
                proof {
                    lemma_zero_fill_orders_lexicon(self@, m@);
                    lemma_zero_fill_orders_lexicon(m@, next@);
                    lemma_zero_fill_apart(self@, next@);
                }
                LexiconKey(m).checked()
            },
            Ordering::Greater => {
                let m = bisect_digits(&next.0, &self.0, 0, SPACER_LOW);
                proof {
                    lemma_zero_fill_orders_lexicon(next@, m@);
                    lemma_zero_fill_orders_lexicon(m@, self@);
                    lemma_zero_fill_apart(next@, self@);
                }
                LexiconKey(m).checked()
            },
            Ordering::Equal => {
                let self_shorter = self.0.len() <= next.0.len();
                let (short, long) = if self_shorter {
                    (&self.0, &next.0)
                } else {
                    (&next.0, &self.0)
                };
                proof {
                    lemma_zero_tail(short@, long@);
                }
                if long.len() - short.len() >= 2 {
                    let m = prefix_then(short, short.len(), 0);
                    proof {
                        assert(short@.subrange(0, short@.len() as int) =~= short@);
                        lemma_zero_step_between(short@, long@);
                    }
                    LexiconKey(m).checked()
                } else {
                    Err(KeyError::NoRoomBetweenEqualKeys)
                }
            },
        }
    }

    /// A key after `self`: the leading run of highest digits is kept and the next digit
    /// raised by two (by one from the two digits below the highest); where the run is the
    /// whole key, the spacer is appended.
    pub fn bisect_end(&self) -> (r: Result<Self, KeyError>)
        ensures
            r is Ok,
            r->Ok_0@ == after_lexicon(self@),
            padded_lt(self@, r->Ok_0@, BELOW_DIGITS as int),
    {
        proof {
            use_type_invariant(self);
        }
        let k = run_length(&self.0, MAX_DIGIT);
        let last = if k < self.0.len() {
            let x = self.0[k];
            if x >= 62 {
                x + 1
            } else {
                x + 2
            }
        } else {
            SPACER_UP
        };
        let ys = prefix_then(&self.0, k, last);
        proof {
            assert(crate::digits::lt_at(self@, ys@, BELOW_DIGITS as int, k as int));
        }
        LexiconKey(ys).checked()
    }

    /// A key before `self`: the leading run of lowest digits is kept and the next digit
    /// lowered. A key of lowest digits only, the empty key among them, has nothing before it
    /// that does not end in a lowest digit.
    pub fn bisect_beginning(&self) -> (r: Result<Self, KeyError>)
        ensures
            r is Err <==> run_end(self@, 0, self@.len() as int),
            match r {
                Ok(m) => padded_lt(m@, self@, BELOW_DIGITS as int) && m@ == before_lexicon(self@),
                Err(e) => e == KeyError::CannotDecreaseFurther,
            },
    {
        proof {
            use_type_invariant(self);
        }
        let k = run_length(&self.0, 0);
        if k == self.0.len() {
            return Err(KeyError::CannotDecreaseFurther);
        }
        let x = self.0[k];
        if x == 1 {
            let mut ys = prefix_then(&self.0, k, 0);
            ys.push(SPACER_HIGH);
            proof {
                assert(crate::digits::lt_at(ys@, self@, BELOW_DIGITS as int, k as int));
            }
            return LexiconKey(ys).checked();
        }
        let last = if x == 2 {
            1
        } else {
            x - 2
        };
        let ys = prefix_then(&self.0, k, last);
        proof {
            assert(crate::digits::lt_at(ys@, self@, BELOW_DIGITS as int, k as int));
        }
        LexiconKey(ys).checked()
    }

    /// The key after a carry into position `idx - 1` (see `digits::promote_from`).
    pub fn promote_from(&self, idx: usize, change: NumberChange) -> (r: Result<Self, KeyError>)
        ensures
            match r {
                Ok(k) => exists|j: int|
                    crate::digits::carry_stops_at(self@, j, idx as int, change) && k@
                        == crate::digits::carried(self@, j, idx as int, change),
                Err(e) => if idx > self@.len() {
                    e == KeyError::IndexOutOfRange
                } else {
                    e == KeyError::CarryExhausted && forall|t: int|
                        0 <= t < idx ==> crate::digits::saturated(#[trigger] self@[t], change)
                },
            },
            r is Ok <==> idx <= self@.len() && exists|j: int|
                crate::digits::carry_stops_at(self@, j, idx as int, change),
    {
        proof {
            use_type_invariant(self);
        }
        let base = self.0.clone();
        assert(base@ == self@);
        let r = crate::digits::promote_from(base, idx, change);
        match r {
            Ok(xs) => Ok(LexiconKey(xs)),
            Err(e) => Err(e),
        }
    }

    /// Checks that every digit is within the alphabet; a key always passes.
    pub fn checked(self) -> (r: Result<Self, KeyError>)
        ensures
            r is Ok,
            r->Ok_0@ == self@,
    {
        proof {
            use_type_invariant(&self);
        }
        let mut i: usize = 0;
        while i < self.0.len()
            invariant
                valid_digits(self.0@),
            decreases self.0@.len() - i,
        {
            if self.0[i] > MAX_DIGIT {
                return Err(KeyError::InvalidDigit(self.0[i]));
            }
            i = i + 1;
        }
        Ok(self)
    }
}

impl PartialEq for LexiconKey {
    fn eq(&self, other: &Self) -> (r: bool) {
        proof {
            use_type_invariant(self);
            use_type_invariant(other);
        }
        match compare(&self.0, &other.0, BELOW_DIGITS) {
            Ordering::Equal => true,
            _ => false,
        }
    }
}

impl vstd::std_specs::cmp::PartialEqSpecImpl for LexiconKey {
    open spec fn obeys_eq_spec() -> bool {
        true
    }

    open spec fn eq_spec(&self, other: &LexiconKey) -> bool {
        padded_eq(self@, other@, BELOW_DIGITS as int)
    }
}

impl PartialOrd for LexiconKey {
    fn partial_cmp(&self, other: &Self) -> (r: Option<Ordering>) {
        proof {
            use_type_invariant(self);
            use_type_invariant(other);
        }
        Some(compare(&self.0, &other.0, BELOW_DIGITS))
    }
}

impl vstd::std_specs::cmp::PartialOrdSpecImpl for LexiconKey {
    open spec fn obeys_partial_cmp_spec() -> bool {
        true
    }

    open spec fn partial_cmp_spec(&self, other: &LexiconKey) -> Option<Ordering> {
        Some(padded_cmp(self@, other@, BELOW_DIGITS as int))
    }
}

impl Default for LexiconKey {
    /// The key of the middle digit alone, with room on both sides.
    fn default() -> (r: Self)
        ensures
            r@ == seq![MID_DIGIT],
    {
        let mut d: Vec<u8> = Vec::new();
        d.push(MID_DIGIT);
        LexiconKey(d)
    }
}

} // verus!
