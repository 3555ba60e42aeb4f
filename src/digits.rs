//! Digit sequences: the order of the two variants, carries, and the bisection engine.
use vstd::prelude::*;
use crate::alphabet::{valid_digits, MAX_DIGIT};
use crate::{KeyError, NumberChange};
use core::cmp::Ordering;

verus! {

/// Digit of `d` at position `i`, or `fill` past its end.
pub open spec fn digit_at(d: Seq<u8>, i: int, fill: int) -> int {
    if 0 <= i < d.len() {
        d[i] as int
    } else {
        fill
    }
}

pub open spec fn max_len(a: Seq<u8>, b: Seq<u8>) -> int {
    if a.len() >= b.len() {
        a.len() as int
    } else {
        b.len() as int
    }
}

/// `a` and `b` agree at every position once both are padded with `fill`.
pub open spec fn padded_eq(a: Seq<u8>, b: Seq<u8>, fill: int) -> bool {
    forall|j: int| 0 <= j < max_len(a, b) ==> #[trigger] digit_at(a, j, fill) == digit_at(b, j, fill)
}

/// `a` and `b` agree below `k` and `a` is lower at `k`, both padded with `fill`.
pub open spec fn lt_at(a: Seq<u8>, b: Seq<u8>, fill: int, k: int) -> bool {
    &&& 0 <= k < max_len(a, b)
    &&& digit_at(a, k, fill) < digit_at(b, k, fill)
    &&& forall|j: int| 0 <= j < k ==> #[trigger] digit_at(a, j, fill) == digit_at(b, j, fill)
}

/// `a` comes before `b` once both are padded with `fill`: the first difference decides.
pub open spec fn padded_lt(a: Seq<u8>, b: Seq<u8>, fill: int) -> bool {
    exists|k: int| lt_at(a, b, fill, k)
}

pub open spec fn padded_cmp(a: Seq<u8>, b: Seq<u8>, fill: int) -> Ordering {
    if padded_lt(a, b, fill) {
        Ordering::Less
    } else if padded_eq(a, b, fill) {
        Ordering::Equal
    } else {
        Ordering::Greater
    }
}

/// Exactly one of `a < b`, `a == b`, `b < a` holds.
pub proof fn lemma_trichotomy(a: Seq<u8>, b: Seq<u8>, fill: int)
    ensures
        padded_lt(a, b, fill) ==> !padded_lt(b, a, fill) && !padded_eq(a, b, fill),
        padded_lt(b, a, fill) ==> !padded_eq(a, b, fill),
        padded_lt(a, b, fill) || padded_lt(b, a, fill) || padded_eq(a, b, fill),
{
    if padded_lt(a, b, fill) {
        let k = choose|k: int| lt_at(a, b, fill, k);
        if padded_lt(b, a, fill) {
            let k2 = choose|k2: int| lt_at(b, a, fill, k2);
            if k < k2 {
                assert(digit_at(b, k, fill) == digit_at(a, k, fill));
            } else if k2 < k {
                assert(digit_at(a, k2, fill) == digit_at(b, k2, fill));
            }
        }
        assert(digit_at(a, k, fill) != digit_at(b, k, fill));
    }
    if padded_lt(b, a, fill) {
        let k = choose|k: int| lt_at(b, a, fill, k);
        assert(digit_at(a, k, fill) != digit_at(b, k, fill));
    }
    if !padded_eq(a, b, fill) {
        let w = choose|w: int|
            0 <= w < max_len(a, b) && #[trigger] digit_at(a, w, fill) != digit_at(b, w, fill);
        lemma_first_difference(a, b, fill, w);
    }
}

/// Where `a` and `b` differ somewhere below `w + 1`, one of them comes first.
proof fn lemma_first_difference(a: Seq<u8>, b: Seq<u8>, fill: int, w: int)
    requires
        0 <= w < max_len(a, b),
        digit_at(a, w, fill) != digit_at(b, w, fill),
    ensures
        padded_lt(a, b, fill) || padded_lt(b, a, fill),
    decreases w,
{
    if forall|j: int| 0 <= j < w ==> #[trigger] digit_at(a, j, fill) == digit_at(b, j, fill) {
        if digit_at(a, w, fill) < digit_at(b, w, fill) {
            assert(lt_at(a, b, fill, w));
        } else {
            assert(lt_at(b, a, fill, w));
        }
    } else {
        let v = choose|v: int| 0 <= v < w && #[trigger] digit_at(a, v, fill) != digit_at(b, v, fill);
        lemma_first_difference(a, b, fill, v);
    }
}

/// Digit of `d` at `i`, or `fill` past its end.
pub fn digit_or(d: &Vec<u8>, i: usize, fill: i16) -> (r: i16)
    requires
        valid_digits(d@),
        -1 <= fill <= 64,
    ensures
        r as int == digit_at(d@, i as int, fill as int),
        -1 <= r <= 64,
{
    if i < d.len() {
        d[i] as i16
    } else {
        fill
    }
}

/// Compares `a` and `b` padded with `fill`, position by position.
pub fn compare(a: &Vec<u8>, b: &Vec<u8>, fill: i16) -> (r: Ordering)
    requires
        valid_digits(a@),
        valid_digits(b@),
        -1 <= fill <= 64,
    ensures
        r == padded_cmp(a@, b@, fill as int),
{
    let n: usize = if a.len() >= b.len() {
        a.len()
    } else {
        b.len()
    };
    let mut i: usize = 0;
    while i < n
        invariant
            n == max_len(a@, b@),
            i <= n,
            valid_digits(a@),
            valid_digits(b@),
            -1 <= fill <= 64,
            forall|j: int| 0 <= j < i ==> #[trigger] digit_at(a@, j, fill as int) == digit_at(b@, j, fill as int),
        decreases n - i,
    {
        let x = digit_or(a, i, fill);
        let y = digit_or(b, i, fill);
        if x < y {
            proof {
                assert(lt_at(a@, b@, fill as int, i as int));
                lemma_trichotomy(a@, b@, fill as int);
            }
            return Ordering::Less;
        } else if x > y {
            proof {
                assert(lt_at(b@, a@, fill as int, i as int));
                lemma_trichotomy(a@, b@, fill as int);
                lemma_trichotomy(b@, a@, fill as int);
            }
            return Ordering::Greater;
        }
        i = i + 1;
    }
    proof {
        lemma_trichotomy(a@, b@, fill as int);
    }
    Ordering::Equal
}

/// 65 to the power `n`.
pub open spec fn pow65(n: nat) -> int
    decreases n,
{
    if n == 0 {
        1
    } else {
        65 * pow65((n - 1) as nat)
    }
}

/// The first `n` digits of `d`, padded with `fill`, read as a number in base 65.
pub open spec fn prefix_value(d: Seq<u8>, n: nat, fill: int) -> int
    decreases n,
{
    if n == 0 {
        0
    } else {
        65 * prefix_value(d, (n - 1) as nat, fill) + digit_at(d, n - 1, fill)
    }
}

/// Every padded digit below `n` is a digit of the alphabet.
pub open spec fn digits_below(d: Seq<u8>, n: nat, fill: int) -> bool {
    forall|j: int| 0 <= j < n ==> 0 <= #[trigger] digit_at(d, j, fill) <= 64
}

/// The value of a prefix depends on its digits alone.
proof fn lemma_value_congruent(a: Seq<u8>, fa: int, b: Seq<u8>, fb: int, n: nat)
    requires
        forall|j: int| 0 <= j < n ==> #[trigger] digit_at(a, j, fa) == digit_at(b, j, fb),
    ensures
        prefix_value(a, n, fa) == prefix_value(b, n, fb),
    decreases n,
{
    if n > 0 {
        lemma_value_congruent(a, fa, b, fb, (n - 1) as nat);
        assert(digit_at(a, n - 1, fa) == digit_at(b, n - 1, fb));
    }
}

proof fn lemma_value_bounds(d: Seq<u8>, n: nat, fill: int)
    requires
        digits_below(d, n, fill),
    ensures
        0 <= prefix_value(d, n, fill) < pow65(n),
    decreases n,
{
    if n > 0 {
        lemma_value_bounds(d, (n - 1) as nat, fill);
        assert(0 <= digit_at(d, n - 1, fill) <= 64);
    }
}

/// A prefix of highest digits only is one below the next power.
proof fn lemma_value_all_max(d: Seq<u8>, n: nat)
    requires
        n <= d.len(),
        forall|j: int| 0 <= j < n ==> #[trigger] d[j] == MAX_DIGIT,
    ensures
        prefix_value(d, n, 0) == pow65(n) - 1,
    decreases n,
{
    if n > 0 {
        lemma_value_all_max(d, (n - 1) as nat);
        assert(d[n - 1] == MAX_DIGIT);
    }
}

/// Equal values of prefixes of alphabet digits mean equal digits.
proof fn lemma_value_injective(a: Seq<u8>, b: Seq<u8>, fill: int, n: nat)
    requires
        digits_below(a, n, fill),
        digits_below(b, n, fill),
        prefix_value(a, n, fill) == prefix_value(b, n, fill),
    ensures
        forall|j: int| 0 <= j < n ==> #[trigger] digit_at(a, j, fill) == digit_at(b, j, fill),
    decreases n,
{
    if n > 0 {
        let m = (n - 1) as nat;
        let x = digit_at(a, n - 1, fill);
        let y = digit_at(b, n - 1, fill);
        let va = prefix_value(a, m, fill);
        let vb = prefix_value(b, m, fill);
        assert(0 <= x <= 64 && 0 <= y <= 64);
        assert(va == vb) by {
            if va < vb {
                assert(65 * va + x < 65 * vb + y);
            } else if va > vb {
                assert(65 * va + x > 65 * vb + y);
            }
        }
        lemma_value_injective(a, b, fill, m);
    }
}

/// A lower prefix value means an earlier first difference in favour of `a`.
proof fn lemma_value_orders(a: Seq<u8>, b: Seq<u8>, fill: int, n: nat)
    requires
        digits_below(a, n, fill),
        digits_below(b, n, fill),
        prefix_value(a, n, fill) < prefix_value(b, n, fill),
    ensures
        padded_lt(a, b, fill),
    decreases n,
{
    let m = (n - 1) as nat;
    let x = digit_at(a, n - 1, fill);
    let y = digit_at(b, n - 1, fill);
    let va = prefix_value(a, m, fill);
    let vb = prefix_value(b, m, fill);
    assert(0 <= x <= 64 && 0 <= y <= 64);
    if va < vb {
        lemma_value_orders(a, b, fill, m);
    } else if va == vb {
        lemma_value_injective(a, b, fill, m);
        assert(x < y);
        assert(n - 1 < max_len(a, b)) by {
            if n - 1 >= a.len() && n - 1 >= b.len() {
                assert(x == y);
            }
        }
        assert(lt_at(a, b, fill, n - 1));
    } else {
        assert(65 * va + x > 65 * vb + y);
    }
}

/// `x` cannot take a carry in the direction `change`.
pub open spec fn saturated(x: u8, change: NumberChange) -> bool {
    match change {
        NumberChange::Increased => x == MAX_DIGIT,
        NumberChange::Decreased => x == 0,
    }
}

/// `d` after a carry that stops at `j` and ripples through the positions between `j` and `idx`.
pub open spec fn carried(d: Seq<u8>, j: int, idx: int, change: NumberChange) -> Seq<u8> {
    Seq::new(
        d.len(),
        |t: int|
            if t == j {
                match change {
                    NumberChange::Increased => (d[t] + 1) as u8,
                    NumberChange::Decreased => (d[t] - 1) as u8,
                }
            } else if j < t < idx {
                match change {
                    NumberChange::Increased => 0u8,
                    NumberChange::Decreased => MAX_DIGIT,
                }
            } else {
                d[t]
            },
    )
}

/// A carry into position `idx - 1` stops at `j`.
pub open spec fn carry_stops_at(d: Seq<u8>, j: int, idx: int, change: NumberChange) -> bool {
    &&& 0 <= j < idx <= d.len()
    &&& !saturated(d[j], change)
    &&& forall|t: int| j < t < idx ==> saturated(#[trigger] d[t], change)
}

/// Carries into position `idx - 1` of `xs`, rippling left over saturated digits.
fn carry_from(xs: &mut Vec<u8>, idx: usize, change: NumberChange)
    requires
        valid_digits(old(xs)@),
        idx <= old(xs)@.len(),
        exists|j: int| 0 <= j < idx && !saturated(#[trigger] old(xs)@[j], change),
    ensures
        exists|j: int|
            carry_stops_at(old(xs)@, j, idx as int, change) && final(xs)@ == carried(
                old(xs)@,
                j,
                idx as int,
                change,
            ),
        valid_digits(final(xs)@),
{
    let ghost base = xs@;
    let mut pos: usize = idx - 1;
    loop
        invariant
            pos < idx <= base.len(),
            base == old(xs)@,
            xs@.len() == base.len(),
            valid_digits(base),
            exists|j: int| 0 <= j <= pos && !saturated(#[trigger] base[j], change),
            forall|t: int| pos < t < idx ==> saturated(#[trigger] base[t], change),
            forall|t: int|
                0 <= t < xs@.len() ==> #[trigger] xs@[t] == if pos < t < idx {
                    match change {
                        NumberChange::Increased => 0u8,
                        NumberChange::Decreased => MAX_DIGIT,
                    }
                } else {
                    base[t]
                },
        decreases pos,
    {
        let x = xs[pos];
        if change == NumberChange::Decreased {
            if x == 0 {
                xs.set(pos, MAX_DIGIT);
            } else {
                xs.set(pos, x - 1);
                assert(carry_stops_at(base, pos as int, idx as int, change));
                assert(xs@ =~= carried(base, pos as int, idx as int, change));
                return;
            }
        } else if x == MAX_DIGIT {
            xs.set(pos, 0);
        } else {
            xs.set(pos, x + 1);
            assert(carry_stops_at(base, pos as int, idx as int, change));
            assert(xs@ =~= carried(base, pos as int, idx as int, change));
            return;
        }
        assert(pos > 0) by {
            let j = choose|j: int| 0 <= j <= pos && !saturated(#[trigger] base[j], change);
            assert(j != pos);
        }
        pos = pos - 1;
    }
}

/// Carries into position `idx - 1` of `base`: the first digit to the left that can take
/// the change takes it, and the saturated digits passed on the way wrap around.
pub fn promote_from(base: Vec<u8>, idx: usize, change: NumberChange) -> (r: Result<Vec<u8>, KeyError>)
    requires
        valid_digits(base@),
    ensures
        match r {
            Ok(xs) => valid_digits(xs@) && exists|j: int|
                carry_stops_at(base@, j, idx as int, change) && xs@ == carried(
                    base@,
                    j,
                    idx as int,
                    change,
                ),
            Err(e) => if idx > base@.len() {
                e == KeyError::IndexOutOfRange
            } else {
                e == KeyError::CarryExhausted && forall|t: int|
                    0 <= t < idx ==> saturated(#[trigger] base@[t], change)
            },
        },
        r is Ok <==> idx <= base@.len() && exists|j: int| carry_stops_at(base@, j, idx as int, change),
{
    if idx > base.len() {
        return Err(KeyError::IndexOutOfRange);
    }
    let mut i: usize = 0;
    let mut found = false;
    while i < idx
        invariant
            i <= idx <= base@.len(),
            found ==> exists|j: int| 0 <= j < i && !saturated(#[trigger] base@[j], change),
            !found ==> forall|t: int| 0 <= t < i ==> saturated(#[trigger] base@[t], change),
        decreases idx - i,
    {
        if !saturated_digit(base[i], change) {
            found = true;
        }
        i = i + 1;
    }
    if !found {
        proof {
            assert forall|j: int| !carry_stops_at(base@, j, idx as int, change) by {
                if 0 <= j < idx {
                    assert(saturated(base@[j], change));
                }
            }
        }
        return Err(KeyError::CarryExhausted);
    }
    let mut xs = base;
    carry_from(&mut xs, idx, change);
    Ok(xs)
}

fn saturated_digit(x: u8, change: NumberChange) -> (r: bool)
    ensures
        r == saturated(x, change),
{
    match change {
        NumberChange::Increased => x == MAX_DIGIT,
        NumberChange::Decreased => x == 0,
    }
}

/// Appending a digit shifts the value one place and adds the digit.
proof fn lemma_push_value(d: Seq<u8>, x: u8, fill: int)
    ensures
        prefix_value(d.push(x), (d.len() + 1) as nat, fill) == 65 * prefix_value(
            d,
            d.len(),
            fill,
        ) + x,
{
    let e = d.push(x);
    assert forall|j: int| 0 <= j < d.len() implies #[trigger] digit_at(e, j, fill) == digit_at(
        d,
        j,
        fill,
    ) by {}
    lemma_value_congruent(e, fill, d, fill, d.len());
    assert(digit_at(e, d.len() as int, fill) == x);
}

/// An increasing carry adds one to the value of the digits before `idx`.
proof fn lemma_carry_value(d: Seq<u8>, j: int, idx: int, m: nat, fill: int)
    requires
        carry_stops_at(d, j, idx, NumberChange::Increased),
        valid_digits(d),
        j < m <= idx,
    ensures
        prefix_value(carried(d, j, idx, NumberChange::Increased), m, fill) == prefix_value(
            d,
            m,
            fill,
        ) + 1,
    decreases m,
{
    let c = carried(d, j, idx, NumberChange::Increased);
    if m == j + 1 {
        assert forall|t: int| 0 <= t < j implies #[trigger] digit_at(c, t, fill) == digit_at(
            d,
            t,
            fill,
        ) by {}
        lemma_value_congruent(c, fill, d, fill, j as nat);
        assert(d[j] < MAX_DIGIT);
        assert(digit_at(c, j, fill) == d[j] + 1);
    } else {
        lemma_carry_value(d, j, idx, (m - 1) as nat, fill);
        assert(d[m - 1] == MAX_DIGIT);
        assert(digit_at(c, m - 1, fill) == 0);
        assert(digit_at(d, m - 1, fill) == 64);
    }
}

/// Values of the first `n` digits of `lo`, `mid` and `hi`, padded with `fill`.
pub open spec fn values_ordered(lo: Seq<u8>, mid: Seq<u8>, hi: Seq<u8>, n: nat, fill: int) -> bool {
    prefix_value(lo, n, fill) <= prefix_value(mid, n, fill) < prefix_value(hi, n, fill)
}

proof fn lemma_strictly_between(lo: Seq<u8>, mid: Seq<u8>, hi: Seq<u8>, n: nat, fill: int)
    requires
        valid_digits(lo),
        valid_digits(mid),
        valid_digits(hi),
        0 <= fill <= 64,
        prefix_value(lo, n, fill) < prefix_value(mid, n, fill) < prefix_value(hi, n, fill),
    ensures
        padded_lt(lo, mid, fill),
        padded_lt(mid, hi, fill),
{
    lemma_value_orders(lo, mid, fill, n);
    lemma_value_orders(mid, hi, fill, n);
}

/// The first difference of `a` and `b` is at one position only.
proof fn lemma_lt_at_unique(a: Seq<u8>, b: Seq<u8>, fill: int, k1: int, k2: int)
    requires
        lt_at(a, b, fill, k1),
        lt_at(a, b, fill, k2),
    ensures
        k1 == k2,
{
    if k1 < k2 {
        assert(digit_at(a, k1, fill) == digit_at(b, k1, fill));
    } else if k2 < k1 {
        assert(digit_at(a, k2, fill) == digit_at(b, k2, fill));
    }
}

/// `mid` is the digits of `lo` below `k`, padded with `fill`, then `last`.
pub open spec fn lo_prefix_then(lo: Seq<u8>, mid: Seq<u8>, fill: int, k: int, last: int) -> bool {
    &&& mid.len() == k + 1
    &&& forall|j: int| 0 <= j < k ==> #[trigger] mid[j] as int == digit_at(lo, j, fill)
    &&& mid[k] as int == last
}

/// Between `k` and `n`, `lo` holds only highest digits and `hi` only lowest ones, padded
/// with `fill`.
pub open spec fn top_over_bottom(lo: Seq<u8>, hi: Seq<u8>, fill: int, k: int, n: int) -> bool {
    forall|j: int|
        k < j < n ==> #[trigger] digit_at(lo, j, fill) == MAX_DIGIT && digit_at(hi, j, fill) == 0
}

/// What bisecting `lo < hi` gives: a sequence strictly between them, at most one digit longer
/// than the longer of them. Where their first difference is two or more, it is the shared
/// digits and then the floor mean of the two digits there. Where the difference is one and
/// nothing deeper gives room (`lo` continues with highest digits, `hi` with lowest ones, to
/// the end of both), it is `lo`'s padded digits and then `spacer`.
pub open spec fn bisected(lo: Seq<u8>, hi: Seq<u8>, mid: Seq<u8>, fill: int, spacer: int) -> bool {
    &&& padded_lt(lo, mid, fill)
    &&& padded_lt(mid, hi, fill)
    &&& mid.len() <= max_len(lo, hi) + 1
    &&& forall|k: int|
        #[trigger] lt_at(lo, hi, fill, k) ==> {
            &&& digit_at(hi, k, fill) >= digit_at(lo, k, fill) + 2 ==> lo_prefix_then(
                lo,
                mid,
                fill,
                k,
                (digit_at(lo, k, fill) + digit_at(hi, k, fill)) / 2,
            )
            &&& digit_at(hi, k, fill) == digit_at(lo, k, fill) + 1 && top_over_bottom(
                lo,
                hi,
                fill,
                k,
                max_len(lo, hi),
            ) ==> lo_prefix_then(lo, mid, fill, max_len(lo, hi), spacer)
        }
}

/// Digits strictly between `lo` and `hi` in the order padded with `fill`.
///
/// Scans both sequences from the left. Shared digits are kept. At the first difference, a gap
/// of two or more takes the average and ends. A gap of one keeps `lo`'s digit and looks deeper:
/// each deeper position then takes the average of `lo`'s digit and `hi`'s digit one carry up,
/// carrying into the digits already built where that average wraps past the top. When both run
/// out first, `spacer` is appended after the shared digits.
pub fn bisect_digits(lo: &Vec<u8>, hi: &Vec<u8>, fill: u8, spacer: u8) -> (mid: Vec<u8>)
    requires
        valid_digits(lo@),
        valid_digits(hi@),
        fill < spacer <= MAX_DIGIT,
        padded_lt(lo@, hi@, fill as int),
    ensures
        valid_digits(mid@),
        bisected(lo@, hi@, mid@, fill as int, spacer as int),
{
    let ghost f = fill as int;
    let ghost mut split: int = 0;
    let n: usize = if lo.len() >= hi.len() {
        lo.len()
    } else {
        hi.len()
    };
    let mut mid: Vec<u8> = Vec::new();
    let mut changed = false;
    let mut i: usize = 0;
    while i < n
        invariant
            n == max_len(lo@, hi@),
            i <= n,
            valid_digits(lo@),
            valid_digits(hi@),
            fill < spacer <= MAX_DIGIT,
            f == fill as int,
            padded_lt(lo@, hi@, f),
            mid@.len() == i,
            valid_digits(mid@),
            !changed ==> forall|j: int|
                0 <= j < i ==> #[trigger] digit_at(lo@, j, f) == digit_at(hi@, j, f) && mid@[j]
                    as int == digit_at(lo@, j, f),
            changed ==> i >= 1 && values_ordered(lo@, mid@, hi@, i as nat, f),
            changed ==> split < i && lt_at(lo@, hi@, f, split) && digit_at(hi@, split, f)
                == digit_at(lo@, split, f) + 1,
            changed && top_over_bottom(lo@, hi@, f, split, i as int) ==> forall|j: int|
                0 <= j < i ==> #[trigger] mid@[j] as int == digit_at(lo@, j, f),
        decreases n - i,
    {
        let curr = digit_or(lo, i, fill as i16) as u8;
        let edge = digit_or(hi, i, fill as i16) as u8;
        let ghost old_mid = mid@;
        if !changed {
            proof {
                assert forall|j: int| 0 <= j < i implies #[trigger] digit_at(mid@, j, f) == digit_at(
                    lo@,
                    j,
                    f,
                ) by {}
                assert forall|j: int| 0 <= j < i implies #[trigger] digit_at(hi@, j, f) == digit_at(
                    lo@,
                    j,
                    f,
                ) by {}
                lemma_value_congruent(mid@, f, lo@, f, i as nat);
                lemma_value_congruent(hi@, f, lo@, f, i as nat);
                assert(edge >= curr) by {
                    let k = choose|k: int| lt_at(lo@, hi@, f, k);
                    if k < i {
                        assert(digit_at(lo@, k, f) == digit_at(hi@, k, f));
                    } else if k > i {
                        assert(digit_at(lo@, i as int, f) == digit_at(hi@, i as int, f));
                    }
                }
            }
            if curr == edge {
                mid.push(curr);
                proof {
                    assert forall|j: int| 0 <= j < i + 1 implies #[trigger] digit_at(lo@, j, f)
                        == digit_at(hi@, j, f) && mid@[j] as int == digit_at(lo@, j, f) by {
                        if j < i {
                            assert(mid@[j] == old_mid[j]);
                        }
                    }
                }
            } else if edge >= curr + 2 {
                mid.push((curr + edge) / 2);
                proof {
                    lemma_push_value(old_mid, ((curr + edge) / 2) as u8, f);
                    lemma_strictly_between(lo@, mid@, hi@, (i + 1) as nat, f);
                    assert(lt_at(lo@, hi@, f, i as int));
                    assert forall|k: int| lt_at(lo@, hi@, f, k) implies k == i by {
                        lemma_lt_at_unique(lo@, hi@, f, k, i as int);
                    }
                    assert forall|j: int| 0 <= j < i implies #[trigger] mid@[j] as int == digit_at(
                        lo@,
                        j,
                        f,
                    ) by {
                        assert(mid@[j] == old_mid[j]);
                    }
                }
                return mid;
            } else {
                changed = true;
                mid.push(curr);
                proof {
                    lemma_push_value(old_mid, curr, f);
                    split = i as int;
                    assert(lt_at(lo@, hi@, f, i as int));
                    assert forall|j: int| 0 <= j < i + 1 implies #[trigger] mid@[j] as int
                        == digit_at(lo@, j, f) by {
                        if j < i {
                            assert(mid@[j] == old_mid[j]);
                        }
                    }
                }
            }
        } else {
            let ghost a = prefix_value(lo@, i as nat, f);
            let ghost b = prefix_value(hi@, i as nat, f);
            let ghost r = prefix_value(mid@, i as nat, f);
            let reach = MAX_DIGIT - curr;
            if edge > reach {
                // the average wraps past the top: keep the low part and carry one to the left
                let m = (curr + edge - MAX_DIGIT) / 2;
                mid.push(m);
                let ghost pushed = mid@;
                proof {
                    assert forall|j: int| 0 <= j < i implies #[trigger] digit_at(pushed, j, f)
                        == digit_at(old_mid, j, f) by {}
                    lemma_value_congruent(pushed, f, old_mid, f, i as nat);
                    assert forall|j: int| 0 <= j < i implies #[trigger] digit_at(pushed, j, f)
                        == digit_at(pushed, j, 0) by {}
                    lemma_value_congruent(pushed, f, pushed, 0, i as nat);
                    lemma_value_bounds(hi@, i as nat, f);
                    if forall|j: int| 0 <= j < i ==> #[trigger] pushed[j] == MAX_DIGIT {
                        lemma_value_all_max(pushed, i as nat);
                    }
                }
                carry_from(&mut mid, i, NumberChange::Increased);
                proof {
                    let j = choose|j: int|
                        carry_stops_at(pushed, j, i as int, NumberChange::Increased) && mid@
                            == carried(pushed, j, i as int, NumberChange::Increased);
                    lemma_carry_value(pushed, j, i as int, i as nat, f);
                    let rr = prefix_value(mid@, i as nat, f);
                    assert(rr == r + 1);
                    assert(mid@ =~= mid@.subrange(0, i as int).push(m));
                    lemma_push_value(mid@.subrange(0, i as int), m, f);
                    assert forall|t: int| 0 <= t < i implies #[trigger] digit_at(
                        mid@.subrange(0, i as int),
                        t,
                        f,
                    ) == digit_at(mid@, t, f) by {}
                    lemma_value_congruent(mid@.subrange(0, i as int), f, mid@, f, i as nat);
                    assert(prefix_value(mid@, (i + 1) as nat, f) == 65 * (r + 1) + m);
                }
                if edge != 1 {
                    proof {
                        lemma_strictly_between(lo@, mid@, hi@, (i + 1) as nat, f);
                    assert forall|k: int| lt_at(lo@, hi@, f, k) implies k == split by {
                        lemma_lt_at_unique(lo@, hi@, f, k, split);
                    }
                    assert(!top_over_bottom(lo@, hi@, f, split, n as int)) by {
                        assert(!(digit_at(lo@, i as int, f) == MAX_DIGIT && digit_at(hi@, i as int, f)
                            == 0));
                    }
                    }
                    return mid;
                }
            } else if edge == reach {
                mid.push(MAX_DIGIT);
                proof {
                    lemma_push_value(old_mid, MAX_DIGIT, f);
                    if top_over_bottom(lo@, hi@, f, split, i + 1) {
                        assert(top_over_bottom(lo@, hi@, f, split, i as int));
                        assert forall|j: int| 0 <= j < i + 1 implies #[trigger] mid@[j] as int
                            == digit_at(lo@, j, f) by {
                            if j < i {
                                assert(mid@[j] == old_mid[j]);
                            } else {
                                assert(digit_at(lo@, i as int, f) == MAX_DIGIT);
                            }
                        }
                    }
                }
                if reach != 0 {
                    proof {
                        lemma_strictly_between(lo@, mid@, hi@, (i + 1) as nat, f);
                    assert forall|k: int| lt_at(lo@, hi@, f, k) implies k == split by {
                        lemma_lt_at_unique(lo@, hi@, f, k, split);
                    }
                    assert(!top_over_bottom(lo@, hi@, f, split, n as int)) by {
                        assert(!(digit_at(lo@, i as int, f) == MAX_DIGIT && digit_at(hi@, i as int, f)
                            == 0));
                    }
                    }
                    return mid;
                }
            } else {
                // the average of `curr` and `edge` one carry up fits at this position
                mid.push((curr + edge + 65) / 2);
                proof {
                    lemma_push_value(old_mid, ((curr + edge + 65) / 2) as u8, f);
                    lemma_strictly_between(lo@, mid@, hi@, (i + 1) as nat, f);
                    assert forall|k: int| lt_at(lo@, hi@, f, k) implies k == split by {
                        lemma_lt_at_unique(lo@, hi@, f, k, split);
                    }
                    assert(!top_over_bottom(lo@, hi@, f, split, n as int)) by {
                        assert(!(digit_at(lo@, i as int, f) == MAX_DIGIT && digit_at(hi@, i as int, f)
                            == 0));
                    }
                }
                return mid;
            }
        }
        i = i + 1;
    }
    proof {
        if !changed {
            let k = choose|k: int| lt_at(lo@, hi@, f, k);
            assert(digit_at(lo@, k, f) == digit_at(hi@, k, f));
        }
        assert(digit_at(lo@, n as int, f) == f);
        assert(digit_at(hi@, n as int, f) == f);
    }
    let ghost old_mid = mid@;
    mid.push(spacer);
    proof {
        lemma_push_value(old_mid, spacer, f);
        lemma_strictly_between(lo@, mid@, hi@, (n + 1) as nat, f);
        assert forall|k: int| lt_at(lo@, hi@, f, k) implies k == split by {
            lemma_lt_at_unique(lo@, hi@, f, k, split);
        }
        if top_over_bottom(lo@, hi@, f, split, n as int) {
            assert forall|j: int| 0 <= j < n implies #[trigger] mid@[j] as int == digit_at(
                lo@,
                j,
                f,
            ) by {
                assert(mid@[j] == old_mid[j]);
            }
        }
    }
    mid
}

/// Below every digit: the fill of the lexicographic order, where a missing digit comes first.
pub const BELOW_DIGITS: i16 = -1;

/// An order found with missing digits read as `0` holds in the lexicographic order too.
pub proof fn lemma_zero_fill_orders_lexicon(a: Seq<u8>, b: Seq<u8>)
    requires
        padded_lt(a, b, 0),
    ensures
        padded_lt(a, b, -1),
{
    let k = choose|k: int| lt_at(a, b, 0, k);
    assert(k < b.len()) by {
        if k >= b.len() {
            assert(digit_at(b, k, 0) == 0);
        }
    }
    if a.len() < k {
        let w = a.len() as int;
        assert forall|j: int| 0 <= j < w implies #[trigger] digit_at(a, j, -1) == digit_at(b, j, -1) by {
            assert(digit_at(a, j, 0) == digit_at(b, j, 0));
        }
        assert(lt_at(a, b, -1, w));
    } else {
        assert forall|j: int| 0 <= j < k implies #[trigger] digit_at(a, j, -1) == digit_at(b, j, -1) by {
            assert(digit_at(a, j, 0) == digit_at(b, j, 0));
        }
        assert(lt_at(a, b, -1, k));
    }
}

/// The digits of `d` below `k` all equal `x`, and the one at `k`, if any, does not.
pub open spec fn run_end(d: Seq<u8>, x: u8, k: int) -> bool {
    &&& 0 <= k <= d.len()
    &&& forall|j: int| 0 <= j < k ==> #[trigger] d[j] == x
    &&& k < d.len() ==> d[k] != x
}

/// Length of the leading run of `x` in `d`.
pub open spec fn run_len(d: Seq<u8>, x: u8) -> nat
    decreases d.len(),
{
    if d.len() > 0 && d[0] == x {
        1 + run_len(d.drop_first(), x)
    } else {
        0
    }
}

pub proof fn lemma_run_len(d: Seq<u8>, x: u8)
    ensures
        run_end(d, x, run_len(d, x) as int),
    decreases d.len(),
{
    if d.len() > 0 && d[0] == x {
        let e = d.drop_first();
        lemma_run_len(e, x);
        let k = run_len(d, x) as int;
        assert forall|j: int| 0 <= j < k implies #[trigger] d[j] == x by {
            if j > 0 {
                assert(d[j] == e[j - 1]);
            }
        }
        if k < d.len() {
            assert(d[k] == e[k - 1]);
        }
    }
}

pub proof fn lemma_run_end_unique(d: Seq<u8>, x: u8, k1: int, k2: int)
    requires
        run_end(d, x, k1),
        run_end(d, x, k2),
    ensures
        k1 == k2,
{
    if k1 < k2 {
        assert(d[k1] == x);
    } else if k2 < k1 {
        assert(d[k2] == x);
    }
}

/// `d` after `i` applications of `step`.
pub open spec fn iterate(step: spec_fn(Seq<u8>) -> Seq<u8>, d: Seq<u8>, i: nat) -> Seq<u8>
    decreases i,
{
    if i == 0 {
        d
    } else {
        step(iterate(step, d, (i - 1) as nat))
    }
}

proof fn lemma_iterate_keeps(
    step: spec_fn(Seq<u8>) -> Seq<u8>,
    keep: spec_fn(Seq<u8>) -> bool,
    d: Seq<u8>,
    i: nat,
)
    requires
        keep(d),
        forall|x: Seq<u8>| #[trigger] keep(x) ==> keep(step(x)),
    ensures
        keep(iterate(step, d, i)),
    decreases i,
{
    if i > 0 {
        lemma_iterate_keeps(step, keep, d, (i - 1) as nat);
    }
}

/// Repeating a step that keeps `keep` and always moves strictly up (or, where `rising` is
/// false, strictly down) gives keys that are all strictly ordered: no two are equal or out of
/// order.
pub proof fn lemma_iterate_ordered(
    step: spec_fn(Seq<u8>) -> Seq<u8>,
    keep: spec_fn(Seq<u8>) -> bool,
    d: Seq<u8>,
    n: nat,
    fill: int,
    rising: bool,
)
    requires
        keep(d),
        forall|x: Seq<u8>|
            #[trigger] keep(x) ==> keep(step(x)) && if rising {
                padded_lt(x, step(x), fill)
            } else {
                padded_lt(step(x), x, fill)
            },
    ensures
        forall|i: nat, j: nat|
            i < j <= n ==> if rising {
                padded_lt(#[trigger] iterate(step, d, i), #[trigger] iterate(step, d, j), fill)
            } else {
                padded_lt(iterate(step, d, j), iterate(step, d, i), fill)
            },
{
    let ks = Seq::new(
        n + 1,
        |t: int|
            if rising {
                iterate(step, d, t as nat)
            } else {
                iterate(step, d, (n - t) as nat)
            },
    );
    assert forall|t: int| 0 <= t < ks.len() - 1 implies padded_lt(#[trigger] ks[t], ks[t + 1], fill) by {
        if rising {
            lemma_iterate_keeps(step, keep, d, t as nat);
            assert(iterate(step, d, (t + 1) as nat) == step(iterate(step, d, t as nat)));
        } else {
            lemma_iterate_keeps(step, keep, d, (n - t - 1) as nat);
            assert(iterate(step, d, (n - t) as nat) == step(iterate(step, d, (n - t - 1) as nat)));
        }
    }
    lemma_chain_ordered(ks, fill);
    assert forall|i: nat, j: nat| i < j <= n implies if rising {
        padded_lt(#[trigger] iterate(step, d, i), #[trigger] iterate(step, d, j), fill)
    } else {
        padded_lt(iterate(step, d, j), iterate(step, d, i), fill)
    } by {
        if rising {
            assert(ks[i as int] == iterate(step, d, i) && ks[j as int] == iterate(step, d, j));
        } else {
            let a = (n - j) as int;
            let b = (n - i) as int;
            assert(ks[a] == iterate(step, d, j) && ks[b] == iterate(step, d, i));
            assert(padded_lt(ks[a], ks[b], fill));
        }
    }
}

/// Length of the leading run of `x` in `d`.
pub fn run_length(d: &Vec<u8>, x: u8) -> (k: usize)
    ensures
        run_end(d@, x, k as int),
        k == run_len(d@, x),
{
    let mut k: usize = 0;
    while k < d.len() && d[k] == x
        invariant
            k <= d@.len(),
            forall|j: int| 0 <= j < k ==> #[trigger] d@[j] == x,
        decreases d@.len() - k,
    {
        k = k + 1;
    }
    proof {
        lemma_run_len(d@, x);
        lemma_run_end_unique(d@, x, k as int, run_len(d@, x) as int);
    }
    k
}

/// The first `k` digits of `d`, then `last`.
pub fn prefix_then(d: &Vec<u8>, k: usize, last: u8) -> (r: Vec<u8>)
    requires
        k <= d@.len(),
    ensures
        r@ == d@.subrange(0, k as int).push(last),
{
    let mut r: Vec<u8> = Vec::new();
    let mut i: usize = 0;
    while i < k
        invariant
            i <= k <= d@.len(),
            r@ == d@.subrange(0, i as int),
        decreases k - i,
    {
        r.push(d[i]);
        i = i + 1;
        assert(r@ =~= d@.subrange(0, i as int));
    }
    r.push(last);
    r
}

/// `d` without its trailing run of `x`.
pub open spec fn strip_trailing(d: Seq<u8>, x: u8) -> Seq<u8>
    decreases d.len(),
{
    if d.len() > 0 && d.last() == x {
        strip_trailing(d.drop_last(), x)
    } else {
        d
    }
}

/// Dropping a trailing run of the fill digit keeps a sequence equal in the order padded with it.
pub proof fn lemma_strip_keeps_order(d: Seq<u8>, x: u8)
    ensures
        padded_eq(d, strip_trailing(d, x), x as int),
        strip_trailing(d, x).len() <= d.len(),
    decreases d.len(),
{
    if d.len() > 0 && d.last() == x {
        let e = d.drop_last();
        lemma_strip_keeps_order(e, x);
        let s = strip_trailing(d, x);
        assert forall|j: int| 0 <= j < max_len(d, s) implies #[trigger] digit_at(d, j, x as int)
            == digit_at(s, j, x as int) by {
            assert(digit_at(e, j, x as int) == digit_at(s, j, x as int));
        }
    }
}

/// Drops the trailing run of `x` from `xs`.
pub fn strip_trailing_in_place(xs: &mut Vec<u8>, x: u8)
    ensures
        final(xs)@ == strip_trailing(old(xs)@, x),
{
    while xs.len() > 0 && xs[xs.len() - 1] == x
        invariant
            strip_trailing(xs@, x) == strip_trailing(old(xs)@, x),
        decreases xs@.len(),
    {
        xs.pop();
    }
}

/// The order padded with `fill` is transitive.
pub proof fn lemma_lt_transitive(a: Seq<u8>, b: Seq<u8>, c: Seq<u8>, fill: int)
    requires
        padded_lt(a, b, fill),
        padded_lt(b, c, fill),
    ensures
        padded_lt(a, c, fill),
{
    let k1 = choose|k: int| lt_at(a, b, fill, k);
    let k2 = choose|k: int| lt_at(b, c, fill, k);
    let k = if k1 <= k2 {
        k1
    } else {
        k2
    };
    if k1 < k2 {
        assert(digit_at(b, k1, fill) == digit_at(c, k1, fill));
    } else if k2 < k1 {
        assert(digit_at(a, k2, fill) == digit_at(b, k2, fill));
    }
    assert forall|j: int| 0 <= j < k implies #[trigger] digit_at(a, j, fill) == digit_at(c, j, fill) by {
        assert(digit_at(a, j, fill) == digit_at(b, j, fill));
        assert(digit_at(b, j, fill) == digit_at(c, j, fill));
    }
    assert(lt_at(a, c, fill, k));
}

/// Keys each made after the one before it (or each before the one before it, read backwards)
/// are strictly ordered as a whole: no two of them are equal or out of order.
#[verifier::rlimit(60)]
pub proof fn lemma_chain_ordered(ks: Seq<Seq<u8>>, fill: int)
    requires
        forall|i: int| 0 <= i < ks.len() - 1 ==> padded_lt(#[trigger] ks[i], ks[i + 1], fill),
    ensures
        forall|i: int, j: int|
            0 <= i < j < ks.len() ==> padded_lt(#[trigger] ks[i], #[trigger] ks[j], fill)
                && !padded_eq(ks[i], ks[j], fill),
    decreases ks.len(),
{
    if ks.len() > 1 {
        let front = ks.drop_last();
        assert forall|i: int| 0 <= i < front.len() - 1 implies padded_lt(
            #[trigger] front[i],
            front[i + 1],
            fill,
        ) by {
            assert(front[i] == ks[i] && front[i + 1] == ks[i + 1]);
        }
        lemma_chain_ordered(front, fill);
        assert forall|i: int, j: int| 0 <= i < j < ks.len() implies padded_lt(
            #[trigger] ks[i],
            #[trigger] ks[j],
            fill,
        ) && !padded_eq(ks[i], ks[j], fill) by {
            let last = ks.len() - 1;
            if j < last {
                assert(front[i] == ks[i] && front[j] == ks[j]);
            } else if i < last - 1 {
                assert(front[i] == ks[i] && front[last - 1] == ks[last - 1]);
                assert(padded_lt(ks[i], ks[last - 1], fill));
                assert(padded_lt(ks[last - 1], ks[last], fill));
                lemma_lt_transitive(ks[i], ks[last - 1], ks[j], fill);
            }
            lemma_trichotomy(ks[i], ks[j], fill);
        }
    }
}

/// A key made between `l` and `r`, where each of them is an end of the interval from `a` to
/// `b` or lies inside it, lies inside that interval too: repeated bisection that narrows the
/// interval from either side never leaves it.
pub proof fn lemma_between_nested(
    a: Seq<u8>,
    l: Seq<u8>,
    m: Seq<u8>,
    r: Seq<u8>,
    b: Seq<u8>,
    fill: int,
)
    requires
        l == a || padded_lt(a, l, fill),
        r == b || padded_lt(r, b, fill),
        padded_lt(l, m, fill),
        padded_lt(m, r, fill),
    ensures
        padded_lt(a, m, fill),
        padded_lt(m, b, fill),
{
    if l != a {
        lemma_lt_transitive(a, l, m, fill);
    }
    if r != b {
        lemma_lt_transitive(m, r, b, fill);
    }
}

} // verus!
