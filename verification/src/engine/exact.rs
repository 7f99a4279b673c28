//! Comparing integers with floats by their exact values.
use crate::engine::expression;
use crate::engine::float;
use crate::engine::float::{MANTISSAS, SIGN};
use crate::index::key::KeyOrder;
use vstd::arithmetic::power2::pow2;
use vstd::prelude::*;

verus! {

/// The size of a number without its sign, counted in the smallest number above zero, of which two to
/// the power 1074 make one. What stands for no finite number is counted on, beyond all that do.
pub open spec fn size(magnitude: u64) -> int {
    let exponent = magnitude / MANTISSAS;
    let mantissa = magnitude % MANTISSAS;
    if exponent == 0 {
        mantissa as int
    } else {
        (MANTISSAS + mantissa) * pow2((exponent - 1) as nat)
    }
}

/// The place of a float among all numbers: its exact value, doubled and moved by one away from zero,
/// so that the negative zero comes before the positive one.
pub open spec fn float_place(bits: u64) -> int {
    if bits < SIGN {
        2 * size(bits) + 1
    } else {
        -(2 * size((bits - SIGN) as u64) + 1)
    }
}

/// The place of an integer among the same numbers; zero is the positive one.
pub open spec fn integer_place(value: int) -> int {
    if value < 0 {
        2 * (value * pow2(1074)) - 1
    } else {
        2 * (value * pow2(1074)) + 1
    }
}

proof fn lemma_size_bounds(magnitude: u64)
    requires
        magnitude < SIGN,
    ensures
        ({
            let exponent = magnitude / MANTISSAS;
            &&& exponent < 2048
            &&& 0 <= size(magnitude)
            &&& exponent == 0 ==> size(magnitude) < MANTISSAS
            &&& exponent > 0 ==> MANTISSAS * pow2((exponent - 1) as nat) <= size(magnitude)
                < MANTISSAS * pow2(exponent as nat)
        }),
{
    let exponent = magnitude / MANTISSAS;
    let mantissa = magnitude % MANTISSAS;
    assert(exponent < 2048) by (nonlinear_arith)
        requires
            exponent == magnitude / MANTISSAS,
            magnitude < 2048 * MANTISSAS,
            MANTISSAS == 0x10_0000_0000_0000,
    ;
    if exponent > 0 {
        let under = (exponent - 1) as nat;
        let step = pow2(under) as int;
        vstd::arithmetic::power2::lemma_pow2_pos(under);
        vstd::arithmetic::power2::lemma_pow2_unfold(exponent as nat);
        assert(MANTISSAS * step <= (MANTISSAS + mantissa) * step < MANTISSAS * (2 * step))
            by (nonlinear_arith)
            requires
                0 <= mantissa < MANTISSAS,
                step > 0,
        ;
    }
}

/// A larger magnitude is a larger size.
proof fn lemma_size_rises(a: u64, b: u64)
    requires
        a < b < SIGN,
    ensures
        size(a) < size(b),
{
    let x = a / MANTISSAS;
    let y = b / MANTISSAS;
    lemma_size_bounds(a);
    lemma_size_bounds(b);
    assert(a == x * MANTISSAS + a % MANTISSAS && b == y * MANTISSAS + b % MANTISSAS) by (
    nonlinear_arith)
        requires
            x == a / MANTISSAS,
            y == b / MANTISSAS,
            MANTISSAS > 0,
    ;
    if x > y {
        assert(x * MANTISSAS >= (y + 1) * MANTISSAS) by (nonlinear_arith)
            requires
                x >= y + 1,
                MANTISSAS > 0,
        ;
        assert((y + 1) * MANTISSAS == y * MANTISSAS + MANTISSAS) by (nonlinear_arith);
        assert(false);
    }
    if x == y {
        if x > 0 {
            let step = pow2((x - 1) as nat) as int;
            vstd::arithmetic::power2::lemma_pow2_pos((x - 1) as nat);
            let p = MANTISSAS + a % MANTISSAS;
            let q = MANTISSAS + b % MANTISSAS;
            assert(p * step < q * step) by (nonlinear_arith)
                requires
                    p < q,
                    step > 0,
            ;
        }
    } else {
        let low = pow2(x as nat) as int;
        let high = pow2((y - 1) as nat) as int;
        vstd::arithmetic::power2::lemma_pow2_pos(x as nat);
        vstd::arithmetic::power2::lemma_pow2_pos((y - 1) as nat);
        if x < y - 1 {
            vstd::arithmetic::power2::lemma_pow2_strictly_increases(x as nat, (y - 1) as nat);
        }
        assert(low <= high);
        assert(MANTISSAS <= MANTISSAS * low <= MANTISSAS * high) by (nonlinear_arith)
            requires
                1 <= low <= high,
                MANTISSAS > 0,
        ;
    }
}

/// The exact value of a float, counted in the smallest number above zero; both zeros are nothing.
pub open spec fn exact_value(bits: u64) -> int {
    if bits < SIGN {
        size(bits)
    } else {
        -size((bits - SIGN) as u64)
    }
}

/// The value of a float has its sign, and is nothing for the zeros only.
pub proof fn lemma_sizes(bits: u64)
    ensures
        bits < SIGN ==> exact_value(bits) >= 0,
        bits >= SIGN ==> exact_value(bits) <= 0,
        exact_value(bits) == 0 <==> bits == 0 || bits == SIGN,
{
    let x = if bits < SIGN { bits } else { (bits - SIGN) as u64 };
    lemma_size_bounds(x);
    if x > 0 {
        lemma_size_rises(0, x);
        lemma_size_bounds(0);
    }
}

/// Floats rank by their exact values.
pub proof fn lemma_ranks_are_values(a: u64, b: u64)
    ensures
        float::rank(a) < float::rank(b) <==> exact_value(a) < exact_value(b),
        float::rank(a) == float::rank(b) <==> exact_value(a) == exact_value(b),
        float::rank(a) == 0 <==> exact_value(a) == 0,
{
    let x = if a < SIGN { a } else { (a - SIGN) as u64 };
    let y = if b < SIGN { b } else { (b - SIGN) as u64 };
    lemma_size_bounds(x);
    lemma_size_bounds(y);
    if x < y {
        lemma_size_rises(x, y);
    }
    if y < x {
        lemma_size_rises(y, x);
    }
    if x > 0 {
        lemma_size_rises(0, x);
    }
    if y > 0 {
        lemma_size_rises(0, y);
    }
}

/// Floats stand among all numbers as they do among each other.
pub proof fn lemma_float_places(a: u64, b: u64)
    ensures
        expression::number_order(float::total_rank(a), float::total_rank(b))
            == expression::number_order(float_place(a), float_place(b)),
{
    let x = if a < SIGN { a } else { (a - SIGN) as u64 };
    let y = if b < SIGN { b } else { (b - SIGN) as u64 };
    lemma_size_bounds(x);
    lemma_size_bounds(y);
    if x < y {
        lemma_size_rises(x, y);
    }
    if y < x {
        lemma_size_rises(y, x);
    }
}

/// Integers stand among all numbers as they do among each other.
pub proof fn lemma_integer_places(a: int, b: int)
    ensures
        expression::number_order(a, b) == expression::number_order(
            integer_place(a),
            integer_place(b),
        ),
{
    let one = pow2(1074) as int;
    vstd::arithmetic::power2::lemma_pow2_pos(1074);
    if a < b {
        assert(a * one < b * one) by (nonlinear_arith)
            requires
                a < b,
                one > 0,
        ;
    }
    if b < a {
        assert(b * one < a * one) by (nonlinear_arith)
            requires
                b < a,
                one > 0,
        ;
    }
}

fn power(exponent: u64) -> (found: u128)
    requires
        exponent <= 64,
    ensures
        found == pow2(exponent as nat),
        1 <= found <= 0x1_0000_0000_0000_0000,
{
    proof {
        vstd::arithmetic::power2::lemma2_to64();
    }
    let mut found: u128 = 1;
    let mut index: u64 = 0;
    while index < exponent
        invariant
            index <= exponent <= 64,
            pow2(64) == 0x1_0000_0000_0000_0000,
            found == pow2(index as nat),
        decreases exponent - index,
    {
        proof {
            vstd::arithmetic::power2::lemma_pow2_unfold((index + 1) as nat);
            vstd::arithmetic::power2::lemma_pow2_strictly_increases(index as nat, 64);
        }
        found = found * 2;
        index = index + 1;
    }
    proof {
        vstd::arithmetic::power2::lemma_pow2_pos(index as nat);
        if index < 64 {
            vstd::arithmetic::power2::lemma_pow2_strictly_increases(index as nat, 64);
        }
    }
    found
}

pub fn number_before(left: i128, right: i128) -> (order: KeyOrder)
    ensures
        order == expression::number_order(left as int, right as int),
{
    if left < right {
        KeyOrder::Before
    } else if left == right {
        KeyOrder::Same
    } else {
        KeyOrder::After
    }
}

/// Taking a common factor out leaves the order as it is.
proof fn lemma_common_factor(left: int, right: int, factor: int)
    requires
        factor > 0,
    ensures
        expression::number_order(left * factor, right * factor) == expression::number_order(
            left,
            right,
        ),
{
    if left < right {
        assert(left * factor < right * factor) by (nonlinear_arith)
            requires
                left < right,
                factor > 0,
        ;
    }
    if right < left {
        assert(right * factor < left * factor) by (nonlinear_arith)
            requires
                right < left,
                factor > 0,
        ;
    }
}

proof fn lemma_far(whole: u64, magnitude: u64)
    requires
        whole <= SIGN,
        magnitude < SIGN,
    ensures
        magnitude / MANTISSAS < 1023 && whole > 0 ==> size(magnitude) < whole * pow2(1074),
        magnitude / MANTISSAS > 1086 ==> whole * pow2(1074) < size(magnitude),
        magnitude > 0 ==> size(magnitude) > 0,
        size(0) == 0,
{
    let exponent = magnitude / MANTISSAS;
    let one = pow2(1074) as int;
    lemma_size_bounds(magnitude);
    vstd::arithmetic::power2::lemma_pow2_pos(1074);
    vstd::arithmetic::power2::lemma2_to64_rest();
    vstd::arithmetic::power2::lemma2_to64();
    assert(MANTISSAS == pow2(52)) by {
        assert(pow2(52) == 0x10_0000_0000_0000);
    }
    if exponent < 1023 && whole > 0 {
        vstd::arithmetic::power2::lemma_pow2_adds(52, exponent as nat);
        if exponent + 52 < 1074 {
            vstd::arithmetic::power2::lemma_pow2_strictly_increases((exponent + 52) as nat, 1074);
        }
        if exponent == 0 {
            vstd::arithmetic::power2::lemma_pow2_strictly_increases(52, 1074);
        }
        assert(one <= whole * one) by (nonlinear_arith)
            requires
                whole >= 1,
                one > 0,
        ;
    }
    if exponent > 1086 {
        let under = (exponent - 1) as nat;
        vstd::arithmetic::power2::lemma_pow2_adds(52, under);
        vstd::arithmetic::power2::lemma_pow2_adds(63, 1074);
        vstd::arithmetic::power2::lemma_pow2_strictly_increases(1137, 52 + under);
        assert(whole * one <= SIGN * one) by (nonlinear_arith)
            requires
                whole <= SIGN,
                one > 0,
        ;
        assert(SIGN == pow2(63));
    }
    if magnitude > 0 {
        lemma_size_bounds(0);
        lemma_size_rises(0, magnitude);
    }
}

/// How a whole number is ordered beside a size.
fn compare_sizes(whole: u64, magnitude: u64) -> (order: KeyOrder)
    requires
        whole <= SIGN,
        magnitude < SIGN,
    ensures
        order == expression::number_order(whole * pow2(1074), size(magnitude)),
{
    let exponent: u64 = magnitude / MANTISSAS;
    let mantissa: u64 = magnitude % MANTISSAS;
    proof {
        lemma_far(whole, magnitude);
        vstd::arithmetic::power2::lemma_pow2_pos(1074);
    }
    if exponent < 1023 {
        if whole > 0 {
            KeyOrder::After
        } else if magnitude == 0 {
            KeyOrder::Same
        } else {
            KeyOrder::Before
        }
    } else if exponent > 1086 {
        KeyOrder::Before
    } else {
        let significand: u64 = MANTISSAS + mantissa;
        if exponent >= 1075 {
            let factor = power(exponent - 1075);
            proof {
                vstd::arithmetic::power2::lemma_pow2_adds((exponent - 1075) as nat, 1074);
                assert(significand * factor <= 0x20_0000_0000_0000 * 0x1_0000_0000_0000_0000)
                    by (nonlinear_arith)
                    requires
                        0 <= significand <= 0x20_0000_0000_0000,
                        0 <= factor <= 0x1_0000_0000_0000_0000,
                ;
                let one = pow2(1074) as int;
                assert((significand * factor) * one == significand * (factor * one)) by (
                nonlinear_arith);
                lemma_common_factor(whole as int, significand * factor, one);
            }
            number_before(whole as i128, (significand as u128 * factor) as i128)
        } else {
            let factor = power(1075 - exponent);
            proof {
                vstd::arithmetic::power2::lemma_pow2_adds(
                    (1075 - exponent) as nat,
                    (exponent - 1) as nat,
                );
                assert(whole * factor <= 0x8000_0000_0000_0000 * 0x10_0000_0000_0000) by {
                    vstd::arithmetic::power2::lemma2_to64_rest();
                    vstd::arithmetic::power2::lemma2_to64();
                    if 1075 - exponent < 52 {
                        vstd::arithmetic::power2::lemma_pow2_strictly_increases(
                            (1075 - exponent) as nat,
                            52,
                        );
                    }
                    assert(factor <= 0x10_0000_0000_0000);
                    assert(whole * factor <= 0x8000_0000_0000_0000 * 0x10_0000_0000_0000)
                        by (nonlinear_arith)
                        requires
                            0 <= whole <= 0x8000_0000_0000_0000,
                            0 <= factor <= 0x10_0000_0000_0000,
                    ;
                }
                let step = pow2((exponent - 1) as nat) as int;
                vstd::arithmetic::power2::lemma_pow2_pos((exponent - 1) as nat);
                assert((whole * factor) * step == whole * (factor * step)) by (nonlinear_arith);
                lemma_common_factor(whole * factor, significand as int, step);
            }
            number_before((whole as u128 * factor) as i128, significand as i128)
        }
    }
}

fn turn(order: KeyOrder) -> (other: KeyOrder)
    ensures
        order is Before ==> other is After,
        order is Same ==> other is Same,
        order is After ==> other is Before,
{
    match order {
        KeyOrder::Before => KeyOrder::After,
        KeyOrder::Same => KeyOrder::Same,
        KeyOrder::After => KeyOrder::Before,
    }
}

/// How an integer is ordered beside a float.
pub fn order_mixed(value: i64, bits: u64) -> (order: KeyOrder)
    ensures
        order == expression::number_order(integer_place(value as int), float_place(bits)),
{
    let ghost one = pow2(1074) as int;
    let ghost magnitude = if bits < SIGN { bits } else { (bits - SIGN) as u64 };
    proof {
        lemma_size_bounds(magnitude);
        vstd::arithmetic::power2::lemma_pow2_pos(1074);
        assert(value < 0 ==> value * one < 0) by (nonlinear_arith)
            requires
                one > 0,
        ;
        assert(value >= 0 ==> value * one >= 0) by (nonlinear_arith)
            requires
                one > 0,
        ;
    }
    if value < 0 {
        if bits < SIGN {
            KeyOrder::Before
        } else {
            let whole: u64 = (-(value as i128)) as u64;
            assert(whole * one == -(value * one)) by (nonlinear_arith)
                requires
                    whole == -value,
            ;
            turn(compare_sizes(whole, bits - SIGN))
        }
    } else if bits < SIGN {
        compare_sizes(value as u64, bits)
    } else {
        KeyOrder::After
    }
}

} // verus!
