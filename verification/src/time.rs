//! Wrapping tick stamps and the clock discipline that mints them.

use vstd::prelude::*;
use crate::keyed::Key;

verus! {

/// Length of one tick in milliseconds.
pub const MILLIS_PER_TICK: i64 = 50;

/// Number of ticks after which stamps start again at zero.
pub const TICKS_PER_WRAP: i64 = 48_000;

/// Wrapping tick number that every healthy peer derives alike.
#[derive(Debug, Clone, Copy, PartialEq, Eq, Hash, PartialOrd, Ord, Structural)]
pub struct TickStamp(pub u16);

/// The sum of `a` and `b`, held within the range of an `i64`.
pub open spec fn saturated_sum(a: int, b: int) -> int {
    if a + b > i64::MAX {
        i64::MAX as int
    } else if a + b < i64::MIN {
        i64::MIN as int
    } else {
        a + b
    }
}

/// Adds within the range of an `i64`.
pub(crate) fn saturating_sum(a: i64, b: i64) -> (r: i64)
    ensures
        r == saturated_sum(a as int, b as int),
{
    match a.checked_add(b) {
        Some(sum) => sum,
        None => if b > 0 {
            i64::MAX
        } else {
            i64::MIN
        },
    }
}

/// The difference of `a` and `b`, held within the range of an `i64`.
pub open spec fn saturated_difference(a: int, b: int) -> int {
    saturated_sum(a, -b)
}

/// Subtracts within the range of an `i64`.
pub(crate) fn saturating_difference(a: i64, b: i64) -> (r: i64)
    ensures
        r == saturated_difference(a as int, b as int),
{
    match a.checked_sub(b) {
        Some(difference) => difference,
        None => if b < 0 {
            i64::MAX
        } else {
            i64::MIN
        },
    }
}

/// The quotient rounded towards zero.
pub open spec fn truncated_quotient(a: int, b: int) -> int {
    if a >= 0 {
        a / b
    } else {
        -((-a) / b)
    }
}

/// Divides and rounds towards zero.
pub(crate) fn truncating_div(a: i64, b: i64) -> (q: i64)
    requires
        1 < b <= 1000,
    ensures
        q == truncated_quotient(a as int, b as int),
{
    let q: i64 = floor_div(a, b);
    proof {
        let x = a as int;
        let y = b as int;
        if x < 0 {
            assert(x % y == 0 ==> x / y == -((-x) / y)) by (nonlinear_arith)
                requires
                    0 < y,
            ;
            assert(x % y != 0 ==> x / y + 1 == -((-x) / y)) by (nonlinear_arith)
                requires
                    0 < y,
            ;
            assert(x / y < 0) by (nonlinear_arith)
                requires
                    0 < y,
                    x < 0,
            ;
        }
    }
    if a < 0 && floor_rem(a, b) != 0 {
        q + 1
    } else {
        q
    }
}

/// The number of the tick that holds the instant `millis`, before wrapping to a stamp.
pub open spec fn tick_number(millis: int) -> int {
    (millis / (MILLIS_PER_TICK as int)) % (TICKS_PER_WRAP as int)
}

impl TickStamp {
    /// Stamp of the instant `millis` on the local clock, corrected by `offset`.
    pub fn from_disciplined_millis(millis: i64, offset: i64) -> (t: Self)
        ensures
            t.0 == tick_number(saturated_sum(millis as int, offset as int)),
    {
        let corrected: i64 = saturating_sum(millis, offset);
        let ticks: i64 = floor_div(corrected, MILLIS_PER_TICK);
        let stamp: i64 = floor_rem(ticks, TICKS_PER_WRAP);
        TickStamp(stamp as u16)
    }

    /// Ticks that passed from `earlier` to `self`, counted round the wrap.
    pub fn distance_since(self, earlier: Self) -> (d: u16)
        ensures
            d == (self.0 - earlier.0) % (TICKS_PER_WRAP as int),
            d < TICKS_PER_WRAP,
    {
        let gap: i64 = self.0 as i64 - earlier.0 as i64;
        floor_rem(gap, TICKS_PER_WRAP) as u16
    }
}

impl Default for TickStamp {
    fn default() -> (t: Self)
        ensures
            t == TickStamp(0),
    {
        TickStamp(0)
    }
}

impl Key for TickStamp {
    open spec fn rank(self) -> int {
        self.0 as int
    }

    proof fn rank_injective(a: Self, b: Self) {
    }

    fn precedes(&self, other: &Self) -> (r: bool) {
        self.0 < other.0
    }
}

/// Quotient rounded towards negative infinity.
pub(crate) fn floor_div(a: i64, b: i64) -> (q: i64)
    requires
        0 < b,
    ensures
        q == a as int / b as int,
{
    proof {
        assert(i64::MIN <= a as int / b as int <= i64::MAX) by (nonlinear_arith)
            requires
                0 < b,
                i64::MIN <= a <= i64::MAX,
        ;
    }
    match a.checked_div_euclid(b) {
        Some(q) => q,
        None => 0,
    }
}

/// Remainder that is never negative.
pub(crate) fn floor_rem(a: i64, b: i64) -> (r: i64)
    requires
        0 < b,
    ensures
        r == a as int % b as int,
{
    match a.checked_rem_euclid(b) {
        Some(r) => r,
        None => 0,
    }
}

/// Latest clock correction and how large a correction stamps tolerate.
#[derive(Debug, Clone, Copy, PartialEq, Eq, Structural)]
pub struct NtpDiscipline {
    /// Correction in milliseconds (`server - local`), once one was sampled.
    pub offset_millis: Option<i64>,
    /// Largest `|offset|` under which stamps are minted.
    pub max_offset_millis: i64,
}

/// Whether a correction is no larger than the tolerance; a negative tolerance counts as zero.
pub open spec fn offset_within(offset: int, max: int) -> bool {
    let bound = if max < 0 { 0 } else { max };
    -bound <= offset <= bound
}

/// Whether a correction is no larger than the tolerance.
pub fn is_offset_within(offset: i64, max_offset_millis: i64) -> (b: bool)
    ensures
        b == offset_within(offset as int, max_offset_millis as int),
{
    let bound: i64 = if max_offset_millis < 0 {
        0
    } else {
        max_offset_millis
    };
    -bound <= offset && offset <= bound
}

impl NtpDiscipline {
    /// A clock without a correction yet.
    pub fn unconfigured(max_offset_millis: i64) -> (d: Self)
        ensures
            d.offset_millis is None,
            d.max_offset_millis == max_offset_millis,
    {
        NtpDiscipline { offset_millis: None, max_offset_millis }
    }

    /// Takes over a sampled correction.
    pub fn observe(&mut self, offset: i64)
        ensures
            final(self).offset_millis == Some(offset),
            final(self).max_offset_millis == old(self).max_offset_millis,
    {
        self.offset_millis = Some(offset);
    }

    /// Stamp of `unix_millis`, or nothing while the correction is missing or too large.
    pub fn tick_at(&self, unix_millis: i64) -> (t: Option<TickStamp>)
        ensures
            t is Some <==> (self.offset_millis matches Some(offset) && offset_within(
                offset as int,
                self.max_offset_millis as int,
            )),
            t matches Some(stamp) ==> stamp.0 == tick_number(
                saturated_sum(unix_millis as int, self.offset_millis->0 as int),
            ),
    {
        match self.offset_millis {
            None => None,
            Some(offset) => if is_offset_within(offset, self.max_offset_millis) {
                Some(TickStamp::from_disciplined_millis(unix_millis, offset))
            } else {
                None
            },
        }
    }
}

/// A stamp stays below the wrap.
pub proof fn lemma_tick_number_wraps(millis: int)
    ensures
        0 <= tick_number(millis) < TICKS_PER_WRAP,
        tick_number(millis + MILLIS_PER_TICK * TICKS_PER_WRAP) == tick_number(millis),
{
    let q = millis / (MILLIS_PER_TICK as int);
    assert((millis + 2_400_000) / 50 == q + 48_000);
    assert((q + 48_000) % 48_000 == q % 48_000);
}

/// Advancing a stamp that is below the wrap by fewer ticks than one wrap, and
/// wrapping there, is undone by the distance.
pub proof fn lemma_distance_inverts_advance(start: int, step: int)
    requires
        0 <= start < TICKS_PER_WRAP,
        0 <= step < TICKS_PER_WRAP,
    ensures
        ((start + step) % (TICKS_PER_WRAP as int) - start) % (TICKS_PER_WRAP as int) == step,
{
}

/// A saturated sum is the sum where that fits, and the nearest bound otherwise; a
/// saturated difference likewise.
pub proof fn lemma_saturation_stops_at_the_bounds(a: int, b: int)
    ensures
        i64::MIN <= a + b <= i64::MAX ==> saturated_sum(a, b) == a + b,
        a + b > i64::MAX ==> saturated_sum(a, b) == i64::MAX,
        a + b < i64::MIN ==> saturated_sum(a, b) == i64::MIN,
        i64::MIN <= a - b <= i64::MAX ==> saturated_difference(a, b) == a - b,
        a - b > i64::MAX ==> saturated_difference(a, b) == i64::MAX,
        a - b < i64::MIN ==> saturated_difference(a, b) == i64::MIN,
{
}

/// A quotient that is rounded towards zero leaves a remainder with the sign of the
/// dividend and below the divisor.
pub proof fn lemma_quotient_rounds_towards_zero(a: int, b: int)
    requires
        0 < b,
    ensures
        a >= 0 ==> 0 <= a - truncated_quotient(a, b) * b < b,
        a <= 0 ==> -b < a - truncated_quotient(a, b) * b <= 0,
{
    vstd::arithmetic::div_mod::lemma_fundamental_div_mod(a, b);
    vstd::arithmetic::div_mod::lemma_fundamental_div_mod(-a, b);
    vstd::arithmetic::div_mod::lemma_mod_bound(a, b);
    vstd::arithmetic::div_mod::lemma_mod_bound(-a, b);
    vstd::arithmetic::mul::lemma_mul_is_commutative(a / b, b);
    vstd::arithmetic::mul::lemma_mul_is_commutative((-a) / b, b);
    vstd::arithmetic::mul::lemma_mul_unary_negation((-a) / b, b);
}

/// Ticks start at zero, last fifty milliseconds each, and start again behind
/// 47,999.
pub proof fn lemma_ticks_last_fifty_millis(millis: int, d: int)
    ensures
        tick_number(0) == 0,
        tick_number(millis + 50) == (tick_number(millis) + 1) % 48_000,
        0 <= d && millis % 50 + d < 50 ==> tick_number(millis + d) == tick_number(millis),
{
    assert((millis + 50) / 50 == millis / 50 + 1);
    assert((millis / 50 + 1) % 48_000 == ((millis / 50) % 48_000 + 1) % 48_000);
    if 0 <= d && millis % 50 + d < 50 {
        assert((millis + d) / 50 == millis / 50);
    }
}

/// A correction is within a tolerance exactly if its size is not above it; a
/// negative tolerance allows none.
pub proof fn lemma_tolerance_bounds_the_size(offset: int, max: int)
    ensures
        offset_within(offset, max) == offset_within(-offset, max),
        offset >= 0 && max >= 0 ==> (offset_within(offset, max) <==> offset <= max),
        max < 0 ==> (offset_within(offset, max) <==> offset == 0),
{
}

} // verus!
