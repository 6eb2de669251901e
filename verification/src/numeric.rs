//! Ratios of counts, narrowed so that a float can hold both sides exactly.

use vstd::prelude::*;

verus! {

/// The number of values that a `u16` has.
pub const U16_RANGE: usize = 65536;

/// The divisor that brings a count into the range of `u16`.
pub fn scale_to_u16(count: usize) -> (scale: usize)
    ensures
        scale == count / 65536 + 1,
        count / scale <= u16::MAX,
        count <= u16::MAX ==> scale == 1,
{
    let scale: usize = count / U16_RANGE + 1;
    proof {
        lemma_scaled_fits(count as int);
    }
    scale
}

proof fn lemma_scaled_fits(count: int)
    requires
        0 <= count,
    ensures
        count / (count / 65536 + 1) <= 65535,
{
    let scale = count / 65536 + 1;
    assert(count < 65536 * scale) by {
        vstd::arithmetic::div_mod::lemma_fundamental_div_mod(count, 65536);
    }
    assert(count / scale < 65536) by (nonlinear_arith)
        requires
            0 <= count,
            scale >= 1,
            count < 65536 * scale,
    ;
}

/// A count held at another.
pub open spec fn held_at(count: int, most: int) -> int {
    if count <= most {
        count
    } else {
        most
    }
}

/// The two sides of the ratio of a part to a whole, after both were divided by
/// the divisor that brings the whole into the range of `u16`. A part is no
/// larger than its whole: one that is counts as all of it.
pub open spec fn ratio_sides(part: int, whole: int) -> (int, int) {
    let scale = whole / 65536 + 1;
    (held_at(part, whole) / scale, whole / scale)
}

/// The two sides of the ratio of two counts, each narrowed to `u16`. There is
/// no ratio over zero.
pub fn unit_ratio(numerator: usize, denominator: usize) -> (sides: Option<(u16, u16)>)
    ensures
        sides is None <==> denominator == 0,
        sides matches Some(s) ==> (s.0 as int, s.1 as int) == ratio_sides(
            numerator as int,
            denominator as int,
        ),
{
    if denominator == 0 {
        return None;
    }
    let part: usize = if numerator <= denominator {
        numerator
    } else {
        denominator
    };
    let scale: usize = scale_to_u16(denominator);
    proof {
        lemma_division_keeps_order(part as int, denominator as int, scale as int);
    }
    Some(((part / scale) as u16, (denominator / scale) as u16))
}

proof fn lemma_division_keeps_order(a: int, b: int, d: int)
    requires
        0 <= a <= b,
        d >= 1,
    ensures
        0 <= a / d <= b / d,
{
    vstd::arithmetic::div_mod::lemma_div_is_ordered(a, b, d);
    vstd::arithmetic::div_mod::lemma_div_pos_is_pos(a, d);
}

/// Every ratio lies between zero and one: the narrowed part is no larger than
/// the narrowed whole, and the narrowed whole is not zero. A part and a whole
/// that fit in `u16` are not changed.
pub proof fn a_narrowed_ratio_stays_in_the_unit_interval(part: int, whole: int)
    requires
        0 <= part,
        0 < whole,
    ensures
        0 <= ratio_sides(part, whole).0 <= ratio_sides(part, whole).1,
        0 < ratio_sides(part, whole).1 <= u16::MAX,
        part <= whole <= u16::MAX ==> ratio_sides(part, whole) == (part, whole),
{
    let scale = whole / 65536 + 1;
    let held = held_at(part, whole);
    lemma_division_keeps_order(held, whole, scale);
    lemma_scaled_fits(whole);
    assert(scale <= whole) by {
        if whole < 65536 {
        } else {
            assert(whole / 65536 + 1 <= whole);
        }
    }
    assert(whole / scale >= 1) by (nonlinear_arith)
        requires
            1 <= scale <= whole,
    ;
    if part <= whole <= u16::MAX {
        assert(scale == 1);
        assert(part / 1 == part && whole / 1 == whole) by (nonlinear_arith);
    }
}

/// The two sides of the ratio of two counts, each held at `u32::MAX`, and the
/// first at the second. There is no ratio over zero.
pub fn wide_unit_ratio(numerator: u64, denominator: u64) -> (sides: Option<(u32, u32)>)
    ensures
        sides is None <==> denominator == 0,
        sides matches Some(s) ==> {
            &&& s.1 == held_at(denominator as int, u32::MAX as int)
            &&& s.0 == held_at(numerator as int, s.1 as int)
        },
{
    if denominator == 0 {
        return None;
    }
    let bottom: u32 = if denominator <= u32::MAX as u64 {
        denominator as u32
    } else {
        u32::MAX
    };
    let top: u32 = if numerator <= bottom as u64 {
        numerator as u32
    } else {
        bottom
    };
    Some((top, bottom))
}

/// Both sides of a ratio are divided by one divisor, rounded down: the smallest
/// that brings the whole below the range. A part beyond its whole counts as the
/// whole.
pub proof fn both_sides_are_divided_alike(part: int, whole: int) -> (divisor: int)
    requires
        0 <= part,
        0 < whole,
    ensures
        (divisor - 1) * 65536 <= whole < divisor * 65536,
        divisor * ratio_sides(part, whole).1 <= whole < divisor * (ratio_sides(part, whole).1 + 1),
        part <= whole ==> divisor * ratio_sides(part, whole).0 <= part < divisor * (ratio_sides(
            part,
            whole,
        ).0 + 1),
        part > whole ==> ratio_sides(part, whole).0 == ratio_sides(part, whole).1,
{
    let divisor = whole / 65536 + 1;
    let least = held_at(part, whole);
    vstd::arithmetic::div_mod::lemma_fundamental_div_mod(whole, divisor);
    vstd::arithmetic::div_mod::lemma_fundamental_div_mod(least, divisor);
    assert(divisor * (whole / divisor + 1) == divisor * (whole / divisor) + divisor)
        by (nonlinear_arith);
    assert(divisor * (least / divisor + 1) == divisor * (least / divisor) + divisor)
        by (nonlinear_arith);
    divisor
}

} // verus!
