//! Integer arithmetic on `i32` operands, as chosen from a numbered menu.
use vstd::prelude::*;

verus! {

/// The quotient of `a` by `b` rounded toward zero, as Rust's `/` computes
/// it: the quotient of the magnitudes, negated when the signs differ.
pub open spec fn quotient_toward_zero(a: int, b: int) -> int {
    let q = (if a < 0 { -a } else { a }) / (if b < 0 { -b } else { b });
    if (a < 0) == (b < 0) {
        q
    } else {
        -q
    }
}

/// The result of menu entry `choice` (1 add, 2 subtract, 3 multiply,
/// 4 divide) applied to `a` and `b`.
pub open spec fn operation_result(choice: int, a: int, b: int) -> int {
    if choice == 1 {
        a + b
    } else if choice == 2 {
        a - b
    } else if choice == 3 {
        a * b
    } else {
        quotient_toward_zero(a, b)
    }
}

/// Whether menu entry `choice` can be applied to `a` and `b` without
/// leaving the range of `i32` or dividing by zero.
pub open spec fn operation_defined(choice: int, a: int, b: int) -> bool {
    &&& 1 <= choice <= 4
    &&& choice == 4 ==> b != 0
    &&& i32::MIN <= operation_result(choice, a, b) <= i32::MAX
}

/// Adds two numbers.
pub fn add(a: i32, b: i32) -> (r: i32)
    requires
        i32::MIN <= a + b <= i32::MAX,
    ensures
        r == a + b,
{
    a + b
}

/// Subtracts `b` from `a`.
pub fn subtract(a: i32, b: i32) -> (r: i32)
    requires
        i32::MIN <= a - b <= i32::MAX,
    ensures
        r == a - b,
{
    a - b
}

/// Multiplies two numbers.
pub fn multiply(a: i32, b: i32) -> (r: i32)
    requires
        i32::MIN <= a * b <= i32::MAX,
    ensures
        r == a * b,
{
    a * b
}

/// Divides `a` by `b`, rounding toward zero. Dividing by zero is refused by
/// the contract, as is the one quotient that does not fit (`i32::MIN / -1`).
pub fn divide(a: i32, b: i32) -> (r: i32)
    requires
        b != 0,
        !(a == i32::MIN && b == -1),
    ensures
        r == quotient_toward_zero(a as int, b as int),
{
    // Rust's `/` rounds toward zero; spelling it out on the magnitudes lets
    // the quotient be checked against the definition above.
    let magnitude_a: u32 = if a < 0 { (-(a as i64)) as u32 } else { a as u32 };
    let magnitude_b: u32 = if b < 0 { (-(b as i64)) as u32 } else { b as u32 };
    let q: u32 = magnitude_a / magnitude_b;
    assert(q <= magnitude_a) by (nonlinear_arith)
        requires
            magnitude_b >= 1,
            q == magnitude_a / magnitude_b,
    ;
    assert(q == magnitude_a ==> magnitude_b == 1 || magnitude_a == 0) by (nonlinear_arith)
        requires
            magnitude_b >= 1,
            q == magnitude_a / magnitude_b,
    ;
    if (a < 0) == (b < 0) {
        q as i32
    } else {
        (-(q as i64)) as i32
    }
}

/// Applies menu entry `choice` (1 add, 2 subtract, 3 multiply, 4 divide).
pub fn apply_choice(choice: i32, a: i32, b: i32) -> (r: i32)
    requires
        operation_defined(choice as int, a as int, b as int),
    ensures
        r == operation_result(choice as int, a as int, b as int),
{
    if choice == 1 {
        self::add(a, b)
    } else if choice == 2 {
        subtract(a, b)
    } else if choice == 3 {
        multiply(a, b)
    } else {
        divide(a, b)
    }
}

/// Whether menu entry `choice` can be applied to `a` and `b`: a valid entry,
/// no division by zero, and a result within `i32`.
pub fn operation_is_defined(choice: i32, a: i32, b: i32) -> (r: bool)
    ensures
        r == operation_defined(choice as int, a as int, b as int),
{
    let x = a as i64;
    let y = b as i64;
    if choice == 1 {
        i32::MIN as i64 <= x + y && x + y <= i32::MAX as i64
    } else if choice == 2 {
        i32::MIN as i64 <= x - y && x - y <= i32::MAX as i64
    } else if choice == 3 {
        assert(-0x4000_0000_0000_0000 <= x * y <= 0x4000_0000_0000_0000) by (nonlinear_arith)
            requires
                -0x8000_0000 <= x <= 0x7fff_ffff,
                -0x8000_0000 <= y <= 0x7fff_ffff,
        ;
        let r = i32::MIN as i64 <= x * y && x * y <= i32::MAX as i64;
        assert(r == operation_defined(choice as int, a as int, b as int));
        r
    } else if choice == 4 {
        if b == 0 {
            false
        } else {
            let ghost ma: int = if a < 0 { -a } else { a as int };
            let ghost mb: int = if b < 0 { -b } else { b as int };
            assert(ma / mb <= ma) by (nonlinear_arith)
                requires
                    ma >= 0,
                    mb >= 1,
            ;
            assert(ma / mb == ma ==> mb == 1 || ma == 0) by (nonlinear_arith)
                requires
                    ma >= 0,
                    mb >= 1,
            ;
            assert(ma / mb >= 0) by (nonlinear_arith)
                requires
                    ma >= 0,
                    mb >= 1,
            ;
            let ghost q = ma / mb;
            assert(quotient_toward_zero(a as int, b as int) == if (a < 0) == (b < 0) {
                q
            } else {
                -q
            });
            assert(ma <= 0x8000_0000);
            assert(0 <= q <= 0x8000_0000);
            proof {
                if q == 0x8000_0000 {
                    assert(q == ma);
                    assert(a == i32::MIN);
                    assert(mb == 1);
                }
            }
            assert(operation_result(4, a as int, b as int) == quotient_toward_zero(
                a as int,
                b as int,
            ));
            let r = !(a == i32::MIN && b == -1);
            let ghost res = quotient_toward_zero(a as int, b as int);
            assert(r ==> i32::MIN <= res <= i32::MAX);
            proof {
                if !r {
                    assert(ma == 0x8000_0000 && mb == 1);
                    assert(q == ma / 1);
                }
            }
            assert(!r ==> res == 0x8000_0000);
            assert(r == operation_defined(choice as int, a as int, b as int));
            r
        }
    } else {
        false
    }
}

/// Division rounds toward zero: the remainder `a - q * b` is smaller than
/// `b` in magnitude and, unless it is zero, has the sign of `a`.
pub proof fn lemma_division_truncates(a: int, b: int)
    requires
        b != 0,
    ensures
        ({
            let r = a - quotient_toward_zero(a, b) * b;
            &&& (if r < 0 { -r } else { r }) < (if b < 0 { -b } else { b })
            &&& a >= 0 ==> r >= 0
            &&& a <= 0 ==> r <= 0
        }),
{
    let ma: int = if a < 0 { -a } else { a };
    let mb: int = if b < 0 { -b } else { b };
    let qm = ma / mb;
    let rm = ma % mb;
    assert(ma == qm * mb + rm && 0 <= rm < mb) by (nonlinear_arith)
        requires
            mb > 0,
            ma >= 0,
            qm == ma / mb,
            rm == ma % mb,
    ;
    let q = quotient_toward_zero(a, b);
    let r = a - q * b;
    if a >= 0 && b > 0 {
        assert(r == rm) by (nonlinear_arith)
            requires
                ma == a, mb == b, q == qm, r == a - q * b, ma == qm * mb + rm,
        ;
    } else if a >= 0 && b < 0 {
        assert(r == rm) by (nonlinear_arith)
            requires
                ma == a, mb == -b, q == -qm, r == a - q * b, ma == qm * mb + rm,
        ;
    } else if a < 0 && b > 0 {
        assert(r == -rm) by (nonlinear_arith)
            requires
                ma == -a, mb == b, q == -qm, r == a - q * b, ma == qm * mb + rm,
        ;
    } else {
        assert(r == -rm) by (nonlinear_arith)
            requires
                ma == -a, mb == -b, q == qm, r == a - q * b, ma == qm * mb + rm,
        ;
    }
}

} // verus!
