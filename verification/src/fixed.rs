use vstd::prelude::*;

verus! {

/// The fixed-point representation of 1.0: every weight, activation, fitness
/// and probability is an integer count of 1/65536ths.
pub const ONE: i32 = 65536;

/// Distance between two neighbouring knots of the squashing table (0.125).
pub const KNOT_STEP: i32 = 8192;

/// Index of the last knot of the squashing table; it sits at 12.0.
pub const LAST_KNOT: usize = 96;

/// Absolute value of a mathematical integer.
pub open spec fn magnitude(x: int) -> int {
    if x < 0 {
        -x
    } else {
        x
    }
}

/// `x` limited to the interval `[lo, hi]`.
pub open spec fn clamped(x: int, lo: int, hi: int) -> int {
    if x < lo {
        lo
    } else if x > hi {
        hi
    } else {
        x
    }
}

/// The squashing curve `2 / (1 + e^-x) - 1` sampled at `x = i / 8`, rounded to
/// the nearest representable value below 1.0.
pub open spec fn squash_knot(i: usize) -> int {
    match i {
        0 => 0, 1 => 4091, 2 => 8150, 3 => 12146, 4 => 16051, 5 => 19838,
        6 => 23485, 7 => 26973, 8 => 30285, 9 => 33412, 10 => 36346, 11 => 39084,
        12 => 41625, 13 => 43972, 14 => 46131, 15 => 48108, 16 => 49912, 17 => 51552,
        18 => 53038, 19 => 54382, 20 => 55593, 21 => 56683, 22 => 57660, 23 => 58536,
        24 => 59320, 25 => 60019, 26 => 60643, 27 => 61199, 28 => 61694, 29 => 62134,
        30 => 62524, 31 => 62871, 32 => 63179, 33 => 63451, 34 => 63693, 35 => 63907,
        36 => 64096, 37 => 64263, 38 => 64412, 39 => 64543, 40 => 64659, 41 => 64761,
        42 => 64852, 43 => 64932, 44 => 65003, 45 => 65065, 46 => 65120, 47 => 65169,
        48 => 65212, 49 => 65250, 50 => 65283, 51 => 65313, 52 => 65339, 53 => 65362,
        54 => 65383, 55 => 65401, 56 => 65417, 57 => 65431, 58 => 65443, 59 => 65454,
        60 => 65464, 61 => 65472, 62 => 65480, 63 => 65486, 64 => 65492, 65 => 65497,
        66 => 65502, 67 => 65506, 68 => 65509, 69 => 65512, 70 => 65515, 71 => 65518,
        72 => 65520, 73 => 65522, 74 => 65523, 75 => 65525, 76 => 65526, 77 => 65527,
        78 => 65528, 79 => 65529, 80 => 65530, 81 => 65531, 82 => 65531, 83 => 65532,
        84 => 65532, 85 => 65533, 86 => 65533, 87 => 65534, 88 => 65534, 89 => 65534,
        90 => 65534, 91 => 65534, 92 => 65535, 93 => 65535, 94 => 65535, 95 => 65535,
        _ => 65535,
    }
}

/// The squashing curve on a non-negative argument: linear interpolation
/// between the two knots around `m`, and the largest value below 1.0 from the
/// last knot on.
pub open spec fn squash_magnitude(m: int) -> int {
    if m >= LAST_KNOT * KNOT_STEP {
        ONE - 1
    } else {
        let i = (m / (KNOT_STEP as int)) as usize;
        let part = m % (KNOT_STEP as int);
        let low = squash_knot(i);
        let high = squash_knot((i + 1) as usize);
        low + (high - low) * part / (KNOT_STEP as int)
    }
}

/// The squashing function in fixed point. It is odd by construction: a
/// negative argument gives the negated value of its magnitude.
pub open spec fn squash(x: int) -> int {
    if x < 0 {
        -squash_magnitude(-x)
    } else {
        squash_magnitude(x)
    }
}

/// A product of two fixed-point numbers brought back to the common scale,
/// rounding towards zero.
pub open spec fn rescaled(product: int) -> int {
    if product < 0 {
        -((-product) / (ONE as int))
    } else {
        product / (ONE as int)
    }
}

/// Neighbouring knots never descend, and every knot lies in `[0, 1)`.
pub proof fn lemma_knots_ascend(i: usize)
    requires
        i < LAST_KNOT,
    ensures
        0 <= squash_knot(i) <= squash_knot((i + 1) as usize) < ONE,
{
}

/// Knots are ordered like their indices.
pub proof fn lemma_knots_ordered(i: usize, j: usize)
    requires
        i <= j <= LAST_KNOT,
    ensures
        0 <= squash_knot(i) <= squash_knot(j) < ONE,
    decreases j - i,
{
    if i < j {
        lemma_knots_ascend(i);
        lemma_knots_ordered((i + 1) as usize, j);
    } else if i < LAST_KNOT {
        lemma_knots_ascend(i);
    }
}

/// The value of the segment that starts at knot `i`, `part` units into it:
/// it stays between the two knots and grows with `part`.
proof fn lemma_segment(i: usize, part: int, later: int)
    requires
        i < LAST_KNOT,
        0 <= part <= later < KNOT_STEP,
    ensures
        squash_knot(i) <= squash_knot(i) + (squash_knot((i + 1) as usize) - squash_knot(i)) * part
            / (KNOT_STEP as int) <= squash_knot(i) + (squash_knot((i + 1) as usize) - squash_knot(
            i,
        )) * later / (KNOT_STEP as int) <= squash_knot((i + 1) as usize),
{
    lemma_knots_ascend(i);
    let rise = squash_knot((i + 1) as usize) - squash_knot(i);
    assert(0 <= rise * part <= rise * later <= rise * KNOT_STEP) by (nonlinear_arith)
        requires
            0 <= rise,
            0 <= part <= later < KNOT_STEP,
    ;
}

/// On non-negative arguments the squashing curve stays in `[0, 1)`.
pub proof fn lemma_squash_magnitude_bounds(m: int)
    requires
        0 <= m,
    ensures
        0 <= squash_magnitude(m) < ONE,
{
    if m < LAST_KNOT * KNOT_STEP {
        let i = (m / (KNOT_STEP as int)) as usize;
        let part = m % (KNOT_STEP as int);
        lemma_segment(i, part, part);
        lemma_knots_ascend(i);
    }
}

/// On non-negative arguments the squashing curve never descends.
pub proof fn lemma_squash_magnitude_monotonic(a: int, b: int)
    requires
        0 <= a <= b,
    ensures
        squash_magnitude(a) <= squash_magnitude(b),
{
    lemma_squash_magnitude_bounds(a);
    if b < LAST_KNOT * KNOT_STEP {
        let i = (a / (KNOT_STEP as int)) as usize;
        let j = (b / (KNOT_STEP as int)) as usize;
        let part_a = a % (KNOT_STEP as int);
        let part_b = b % (KNOT_STEP as int);
        if i == j {
            lemma_segment(i, part_a, part_b);
        } else {
            lemma_segment(i, part_a, part_a);
            lemma_segment(j, part_b, part_b);
            lemma_knots_ordered((i + 1) as usize, j);
        }
    }
}

/// The squashing function maps zero to zero.
pub proof fn lemma_squash_zero()
    ensures
        squash(0) == 0,
{
    assert(squash_knot(0) == 0 && squash_knot(1) == 4091);
    assert(0int / (KNOT_STEP as int) == 0 && 0int % (KNOT_STEP as int) == 0);
    assert((4091 - 0) * 0int / (KNOT_STEP as int) == 0);
}

/// The squashing function is odd.
pub proof fn lemma_squash_odd(x: int)
    ensures
        squash(-x) == -squash(x),
{
    if x == 0 {
        lemma_squash_zero();
    }
}

/// Every value of the squashing function lies strictly between -1.0 and 1.0.
pub proof fn lemma_squash_bounded(x: int)
    ensures
        -ONE < squash(x) < ONE,
{
    lemma_squash_magnitude_bounds(magnitude(x));
}

/// The squashing function is monotonic: a larger argument never gives a
/// smaller value.
pub proof fn lemma_squash_monotonic(x: int, y: int)
    requires
        x <= y,
    ensures
        squash(x) <= squash(y),
{
    if y < 0 {
        lemma_squash_magnitude_monotonic(-y, -x);
    } else if x < 0 {
        lemma_squash_magnitude_bounds(-x);
        lemma_squash_magnitude_bounds(y);
    } else {
        lemma_squash_magnitude_monotonic(x, y);
    }
}

/// Looks up one knot of the squashing table.
pub fn knot_value(i: usize) -> (value: i32)
    requires
        i <= LAST_KNOT,
    ensures
        value == squash_knot(i),
{
    match i {
        0 => 0, 1 => 4091, 2 => 8150, 3 => 12146, 4 => 16051, 5 => 19838,
        6 => 23485, 7 => 26973, 8 => 30285, 9 => 33412, 10 => 36346, 11 => 39084,
        12 => 41625, 13 => 43972, 14 => 46131, 15 => 48108, 16 => 49912, 17 => 51552,
        18 => 53038, 19 => 54382, 20 => 55593, 21 => 56683, 22 => 57660, 23 => 58536,
        24 => 59320, 25 => 60019, 26 => 60643, 27 => 61199, 28 => 61694, 29 => 62134,
        30 => 62524, 31 => 62871, 32 => 63179, 33 => 63451, 34 => 63693, 35 => 63907,
        36 => 64096, 37 => 64263, 38 => 64412, 39 => 64543, 40 => 64659, 41 => 64761,
        42 => 64852, 43 => 64932, 44 => 65003, 45 => 65065, 46 => 65120, 47 => 65169,
        48 => 65212, 49 => 65250, 50 => 65283, 51 => 65313, 52 => 65339, 53 => 65362,
        54 => 65383, 55 => 65401, 56 => 65417, 57 => 65431, 58 => 65443, 59 => 65454,
        60 => 65464, 61 => 65472, 62 => 65480, 63 => 65486, 64 => 65492, 65 => 65497,
        66 => 65502, 67 => 65506, 68 => 65509, 69 => 65512, 70 => 65515, 71 => 65518,
        72 => 65520, 73 => 65522, 74 => 65523, 75 => 65525, 76 => 65526, 77 => 65527,
        78 => 65528, 79 => 65529, 80 => 65530, 81 => 65531, 82 => 65531, 83 => 65532,
        84 => 65532, 85 => 65533, 86 => 65533, 87 => 65534, 88 => 65534, 89 => 65534,
        90 => 65534, 91 => 65534, 92 => 65535, 93 => 65535, 94 => 65535, 95 => 65535,
        _ => 65535,
    }
}

/// Limits `x` to `[lo, hi]`.
pub fn clamp(x: i64, lo: i32, hi: i32) -> (r: i32)
    requires
        lo <= hi,
    ensures
        r == clamped(x as int, lo as int, hi as int),
{
    if x < lo as i64 {
        lo
    } else if x > hi as i64 {
        hi
    } else {
        x as i32
    }
}

} // verus!
