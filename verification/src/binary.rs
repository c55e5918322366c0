//! Binary floating point in whole numbers: values with a 53-bit significand,
//! rounded to the nearest with ties to even, and their decimal text.

use crate::text;
use vstd::prelude::*;

verus! {

/// One more than the largest significand.
pub const TOP: u128 = 0x20_0000_0000_0000;

/// The smallest significand of a value that is not zero.
pub const LOW: u128 = 0x10_0000_0000_0000;

/// `num / den` rounded to a whole number, ties to even.
pub open spec fn half_even(num: nat, den: nat) -> nat {
    let whole = num / den;
    let rest = num % den;
    if 2 * rest < den {
        whole
    } else if 2 * rest > den {
        whole + 1
    } else if whole % 2 == 0 {
        whole
    } else {
        whole + 1
    }
}

/// `num / den` rounded to a whole number, ties away from zero.
pub open spec fn half_up(num: nat, den: nat) -> nat {
    (2 * num + den) / (2 * den)
}

/// A quotient of two whole numbers.
pub struct Fraction {
    pub num: nat,
    pub den: nat,
}

/// The nearest value with a 53-bit significand, for `num / den` below the top
/// of the significand.
pub open spec fn nearest_small(num: nat, den: nat) -> Fraction
    decreases TOP * den - num,
{
    if num == 0 || num >= LOW * den {
        Fraction { num: half_even(num, den), den: 1 }
    } else {
        let doubled = nearest_small(2 * num, den);
        Fraction { num: doubled.num, den: 2 * doubled.den }
    }
}

/// The nearest value with a 53-bit significand, for `num / den` from the
/// bottom of the significand on: a whole number.
pub open spec fn nearest_large(num: nat, den: nat) -> nat
    decreases num - den,
{
    if den == 0 || num < TOP * den {
        half_even(num, den)
    } else {
        2 * nearest_large(num, 2 * den)
    }
}

/// The value with a 53-bit significand that is nearest to `num / den`, ties
/// to even.
pub open spec fn nearest(num: nat, den: nat) -> Fraction {
    if num < TOP * den {
        nearest_small(num, den)
    } else {
        Fraction { num: nearest_large(num, den), den: 1 }
    }
}

/// A whole number as a value with a 53-bit significand.
pub open spec fn rounded(value: nat) -> nat {
    nearest_large(value, 1)
}

/// A value with one decimal place.
pub open spec fn one_place(value: Fraction) -> Seq<char> {
    let tenths = half_even(10 * value.num, value.den);
    text::decimal(tenths / 10) + "."@ + text::decimal(tenths % 10)
}

/// A value with two decimal places.
pub open spec fn two_places(value: Fraction) -> Seq<char> {
    let hundredths = half_even(100 * value.num, value.den);
    text::decimal(hundredths / 100) + "."@ + text::decimal(hundredths / 10 % 10) + text::decimal(
        hundredths % 10,
    )
}

proof fn lemma_half_even_bounds(num: nat, den: nat, low: nat, high: nat)
    requires
        den > 0,
        low * den <= num < high * den,
    ensures
        low <= half_even(num, den) <= high,
{
    let whole = num / den;
    assert(low <= whole < high) by (nonlinear_arith)
        requires
            den > 0,
            low * den <= num < high * den,
            whole == num / den,
    ;
}

proof fn lemma_half_even_close(num: nat, den: nat)
    requires
        den > 0,
    ensures
        2 * half_even(num, den) * den <= 2 * num + den,
{
    let whole = num / den;
    let rest = num % den;
    assert(num == whole * den + rest) by {
        vstd::arithmetic::div_mod::lemma_fundamental_div_mod(num as int, den as int);
        vstd::arithmetic::mul::lemma_mul_is_commutative(den as int, whole as int);
    }
    assert(2 * whole * den == 2 * (whole * den)) by (nonlinear_arith);
    assert(2 * (whole + 1) * den == 2 * (whole * den) + 2 * den) by (nonlinear_arith);
}

proof fn lemma_half_even_of_multiple(whole: nat, rest: nat, den: nat)
    requires
        den > 0,
        rest < den,
    ensures
        (whole * den + rest) / den == whole,
        (whole * den + rest) % den == rest,
{
    vstd::arithmetic::div_mod::lemma_fundamental_div_mod_converse(
        (whole * den + rest) as int,
        den as int,
        whole as int,
        rest as int,
    );
}

/// Doubling both sides of a quotient rounds to the same value.
proof fn lemma_half_even_doubled(num: nat, den: nat)
    requires
        den > 0,
    ensures
        half_even(2 * num, 2 * den) == half_even(num, den),
{
    let whole = num / den;
    let rest = num % den;
    assert(num == whole * den + rest && rest < den) by {
        vstd::arithmetic::div_mod::lemma_fundamental_div_mod(num as int, den as int);
        vstd::arithmetic::mul::lemma_mul_is_commutative(den as int, whole as int);
    }
    assert(2 * num == whole * (2 * den) + 2 * rest) by (nonlinear_arith)
        requires
            num == whole * den + rest,
    ;
    lemma_half_even_of_multiple(whole, 2 * rest, 2 * den);
}

proof fn lemma_nearest_small_doubled(num: nat, den: nat)
    requires
        den > 0,
    ensures
        nearest_small(2 * num, 2 * den) == nearest_small(num, den),
    decreases TOP * den - num,
{
    if num == 0 || num >= LOW * den {
        lemma_half_even_doubled(num, den);
    } else {
        lemma_nearest_small_doubled(2 * num, den);
        assert(2 * num < LOW * (2 * den));
    }
}

fn round_half_even(num: u128, den: u128) -> (whole: u128)
    requires
        0 < den <= 0x4000_0000_0000_0000_0000_0000_0000_0000,
        num < 0x8000_0000_0000_0000_0000_0000_0000_0000,
    ensures
        whole == half_even(num as nat, den as nat),
        whole <= num + 1,
{
    let whole: u128 = num / den;
    let rest: u128 = num % den;
    assert(whole <= num) by (nonlinear_arith)
        requires
            whole == num / den,
            den > 0,
    ;
    if 2 * rest < den {
        whole
    } else if 2 * rest > den {
        whole + 1
    } else if whole % 2 == 0 {
        whole
    } else {
        whole + 1
    }
}

/// Whether a number is a power of two.
pub open spec fn power_of_two(value: nat) -> bool
    decreases value,
{
    if value <= 1 {
        value == 1
    } else {
        value % 2 == 0 && power_of_two(value / 2)
    }
}

/// A value that is not negative, with a 53-bit significand.
#[derive(Clone, Copy, Debug, PartialEq, Eq)]
pub struct Binary {
    num: u128,
    den: u128,
}

impl Binary {
    #[verifier::type_invariant]
    spec fn normal(self) -> bool {
        &&& power_of_two(self.den as nat)
        &&& self.den <= 0x4000_0000_0000_0000_0000_0000_0000_0000
        &&& self.den > 1 ==> LOW <= self.num <= TOP
        &&& self.num <= 0x10_0000_0000_0000_0000_0000
    }
}

impl View for Binary {
    type V = Fraction;

    closed spec fn view(&self) -> Fraction {
        Fraction { num: self.num as nat, den: self.den as nat }
    }
}

fn round_small(num: u128, den: u128) -> (value: Binary)
    requires
        0 < den <= 0x200_0000_0000_0000_0000,
        num < TOP * den,
    ensures
        value@ == nearest_small(num as nat, den as nat),
        value.num <= TOP,
        power_of_two(value.den as nat),
        value.den > 1 ==> value.num >= LOW,
        2 * value.num * den <= (2 * num * value.den) + den,
        num > 0 ==> num * value.den >= LOW * den,
{
    let mut scaled: u128 = num;
    let mut scale: u128 = 1;
    if num == 0 {
        assert(half_even(0, den as nat) == 0);
        assert(power_of_two(1));
        return Binary { num: 0, den: 1 };
    }
    while scaled < LOW * den
        invariant
            0 < den <= 0x200_0000_0000_0000_0000,
            0 < num,
            0 < scale,
            scaled == num * scale,
            scaled < TOP * den,
            power_of_two(scale as nat),
            scale > 1 ==> scaled >= 2,
            nearest_small(num as nat, den as nat).num == nearest_small(
                scaled as nat,
                den as nat,
            ).num,
            nearest_small(num as nat, den as nat).den == scale * nearest_small(
                scaled as nat,
                den as nat,
            ).den,
        decreases TOP * den - scaled,
    {
        let ghost inner = nearest_small((2 * scaled) as nat, den as nat);
        assert(scale <= scaled) by (nonlinear_arith)
            requires
                scaled == num * scale,
                num > 0,
        ;
        assert(scale * (2 * inner.den) == (2 * scale) * inner.den) by (nonlinear_arith);
        assert(2 * scaled == num * (2 * scale)) by (nonlinear_arith)
            requires
                scaled == num * scale,
        ;
        assert(0 < scaled) by (nonlinear_arith)
            requires
                scaled == num * scale,
                num > 0,
                scale > 0,
        ;
        scaled = 2 * scaled;
        scale = 2 * scale;
        assert(power_of_two(scale as nat));
    }
    proof {
        lemma_half_even_bounds(scaled as nat, den as nat, LOW as nat, TOP as nat);
        assert(scale * num == scaled) by (nonlinear_arith)
            requires
                scaled == num * scale,
        ;
        assert(scale * 1nat == scale) by (nonlinear_arith);
    }
    let whole: u128 = round_half_even(scaled, den);
    proof {
        lemma_half_even_close(scaled as nat, den as nat);
        assert(2 * num * scale == 2 * scaled) by (nonlinear_arith)
            requires
                scaled == num * scale,
        ;
        assert(scale <= scaled) by (nonlinear_arith)
            requires
                scaled == num * scale,
                num > 0,
        ;
    }
    Binary { num: whole, den: scale }
}

/// A value of at least half the top of the significand is a significand times
/// a power of two.
proof fn lemma_nearest_large_shape(num: nat, den: nat) -> (shape: (nat, nat))
    requires
        den > 0,
        num >= LOW * den,
    ensures
        LOW <= shape.0 < TOP,
        nearest_large(num, den) == shape.0 * shift(shape.1),
    decreases num - den,
{
    if num < TOP * den {
        lemma_half_even_bounds(num, den, LOW as nat, TOP as nat);
        let whole = half_even(num, den);
        if whole < TOP {
            lemma_times_one(whole, shift(0));
            (whole, 0)
        } else {
            assert(shift(1) == 2 * shift(0));
            (LOW as nat, 1)
        }
    } else {
        let inner = lemma_nearest_large_shape(num, 2 * den);
        let shape = (inner.0, inner.1 + 1);
        assert(shift(shape.1) == 2 * shift(inner.1));
        assert(2 * (inner.0 * shift(inner.1)) == inner.0 * (2 * shift(inner.1)))
            by (nonlinear_arith);
        shape
    }
}

/// Two to the power of `count`.
spec fn shift(count: nat) -> nat
    decreases count,
{
    if count == 0 {
        1
    } else {
        2 * shift((count - 1) as nat)
    }
}

/// Less than one unit on top of a large value rounds away.
proof fn lemma_nearest_large_absorbs(head: nat, count: nat, rest: nat, den: nat)
    requires
        LOW <= head < TOP,
        rest < den,
        count == 0 ==> 2 * rest < den,
    ensures
        nearest_large(head * shift(count) * den + rest, den) == head * shift(count),
    decreases count,
{
    let num = head * shift(count) * den + rest;
    if count == 0 {
        lemma_times_one(head, shift(0));
        assert(num < TOP * den) by (nonlinear_arith)
            requires
                num == head * den + rest,
                head + 1 <= TOP,
                rest < den,
        ;
        lemma_half_even_of_multiple(head, rest, den);
    } else {
        let less = shift((count - 1) as nat);
        lemma_shift_positive((count - 1) as nat);
        assert(num >= TOP * den) by (nonlinear_arith)
            requires
                num == head * (2 * less) * den + rest,
                2 * head >= TOP,
                less >= 1,
        ;
        assert(num == head * less * (2 * den) + rest) by (nonlinear_arith)
            requires
                num == head * (2 * less) * den + rest,
        ;
        lemma_nearest_large_absorbs(head, (count - 1) as nat, rest, 2 * den);
        assert(2 * (head * less) == head * (2 * less)) by (nonlinear_arith);
    }
}

proof fn lemma_times_one(value: nat, one: nat)
    requires
        one == 1,
    ensures
        value * one == value,
{
}

proof fn lemma_shift_positive(count: nat)
    ensures
        shift(count) >= 1,
    decreases count,
{
    if count > 0 {
        lemma_shift_positive((count - 1) as nat);
    }
}

/// Adding less than one unit to a rounded whole number beyond the significand
/// gives that number back.
proof fn lemma_rounded_absorbs(value: nat, rest: nat, den: nat)
    requires
        value >= TOP,
        rest < den,
    ensures
        rounded(value) >= TOP,
        nearest_large(rounded(value) * den + rest, den) == rounded(value),
{
    let shape = lemma_nearest_large_shape(value, 1);
    lemma_nearest_large_grows(value, 1);
    if shape.1 == 0 {
        lemma_times_one(shape.0, shift(0));
    }
    lemma_nearest_large_absorbs(shape.0, shape.1, rest, den);
}

proof fn lemma_nearest_large_grows(num: nat, den: nat)
    requires
        den > 0,
        num >= TOP * den,
    ensures
        nearest_large(num, den) >= TOP,
    decreases num - den,
{
    if num >= TOP * (2 * den) {
        lemma_nearest_large_grows(num, 2 * den);
    } else {
        lemma_half_even_bounds(num, 2 * den, LOW as nat, TOP as nat);
        assert(nearest_large(num, 2 * den) == half_even(num, 2 * den));
    }
}

fn round_large(num: u128, den: u128) -> (whole: u128)
    requires
        LOW * den <= num <= 0x4_0000_0000_0000_0000_0000,
        0 < den,
    ensures
        whole == nearest_large(num as nat, den as nat),
        whole * den <= 2 * num,
{
    let mut scale: u128 = 1;
    let mut wide: u128 = den;
    assert(den == den * scale);
    while num / TOP >= wide
        invariant
            0 < den <= wide,
            0 < scale,
            wide == den * scale,
            LOW * wide <= num <= 0x4_0000_0000_0000_0000_0000,
            nearest_large(num as nat, den as nat) == scale * nearest_large(
                num as nat,
                wide as nat,
            ),
        decreases num - wide,
    {
        assert(TOP * wide <= num) by (nonlinear_arith)
            requires
                num / TOP >= wide,
                TOP == 0x20_0000_0000_0000,
        ;
        assert(scale <= wide) by (nonlinear_arith)
            requires
                wide == den * scale,
                den > 0,
        ;
        let ghost inner = nearest_large(num as nat, (2 * wide) as nat);
        assert(scale * (2 * inner) == (2 * scale) * inner) by (nonlinear_arith);
        assert(2 * wide == den * (2 * scale)) by (nonlinear_arith)
            requires
                wide == den * scale,
        ;
        wide = 2 * wide;
        scale = 2 * scale;
    }
    assert(num < TOP * wide) by (nonlinear_arith)
        requires
            num / TOP < wide,
            TOP == 0x20_0000_0000_0000,
    ;
    proof {
        lemma_half_even_bounds(num as nat, wide as nat, LOW as nat, TOP as nat);
    }
    let whole: u128 = round_half_even(num, wide);
    assert(scale * whole * den <= 2 * num) by (nonlinear_arith)
        requires
            wide == den * scale,
            LOW * wide <= num,
            whole <= TOP,
            TOP == 2 * LOW,
    ;
    assert(scale * whole <= scale * whole * den) by (nonlinear_arith)
        requires
            den >= 1,
            scale >= 0,
            whole >= 0,
    ;
    scale * whole
}

/// Rounds a whole number to a value with a 53-bit significand.
pub fn round_whole(value: u64) -> (whole: u128)
    ensures
        whole == rounded(value as nat),
        whole <= 2 * value,
        value < TOP ==> whole == value,
{
    let wide: u128 = value as u128;
    if wide < TOP {
        assert(half_even(value as nat, 1) == value);
        wide
    } else {
        round_large(wide, 1)
    }
}

fn round_quotient(num: u128, den: u128) -> (value: Binary)
    requires
        0 < den <= 0x200_0000_0000_0000_0000,
        num <= 0x4_0000_0000_0000_0000_0000,
    ensures
        value@ == nearest(num as nat, den as nat),
{
    assert(power_of_two(1));
    if num / TOP < den {
        assert(num < TOP * den) by (nonlinear_arith)
            requires
                num / TOP < den,
                TOP == 0x20_0000_0000_0000,
        ;
        round_small(num, den)
    } else {
        assert(num >= TOP * den) by (nonlinear_arith)
            requires
                num / TOP >= den,
                TOP == 0x20_0000_0000_0000,
        ;
        let whole: u128 = round_large(num, den);
        assert(whole <= whole * den) by (nonlinear_arith)
            requires
                den >= 1,
                whole >= 0,
        ;
        Binary { num: whole, den: 1 }
    }
}

/// The quotient of two counts, each rounded before the quotient is.
pub open spec fn quotient(num: nat, den: nat) -> Fraction {
    nearest(rounded(num), rounded(den))
}

/// A value, or one if it is more than one.
pub open spec fn at_most_one(value: Fraction) -> Fraction {
    if value.num > value.den {
        Fraction { num: 1, den: 1 }
    } else {
        value
    }
}

/// A duration in seconds.
pub open spec fn seconds(secs: nat, nanos: nat) -> Fraction {
    let part = nearest(nanos, 1_000_000_000);
    nearest(rounded(secs) * part.den + part.num, part.den)
}

/// A duration in minutes.
pub open spec fn minutes(secs: nat, nanos: nat) -> Fraction {
    let value = seconds(secs, nanos);
    nearest(value.num, 60 * value.den)
}

/// Writes a fraction with one decimal place.
pub fn one_place_text(num: u128, den: u128) -> (shown: String)
    requires
        num <= 0x10_0000_0000_0000_0000_0000,
        0 < den <= 0x4000_0000_0000_0000_0000_0000_0000_0000,
    ensures
        shown@ == one_place(Fraction { num: num as nat, den: den as nat }),
{
    let tenths: u128 = round_half_even(10 * num, den);
    let mut shown = text::decimal_text(tenths / 10);
    shown.append(".");
    shown.append(text::decimal_text(tenths % 10).as_str());
    shown
}

proof fn lemma_part_below_one(nanos: nat, over: nat, under: nat)
    requires
        nanos < 1_000_000_000,
        2 * over * 1_000_000_000 <= 2 * nanos * under + 1_000_000_000,
        nanos > 0 ==> nanos * under >= LOW * 1_000_000_000,
        nanos == 0 ==> over == 0 && under == 1,
    ensures
        over < under,
{
    if nanos > 0 {
        assert(under >= LOW) by (nonlinear_arith)
            requires
                nanos * under >= LOW * 1_000_000_000,
                nanos < 1_000_000_000,
        ;
        assert(nanos * under <= 999_999_999 * under) by (nonlinear_arith)
            requires
                nanos <= 999_999_999,
        ;
        assert(2 * nanos * under == 2 * (nanos * under)) by (nonlinear_arith);
    }
}

proof fn lemma_head(whole: nat, over: nat, under: nat, scale: nat, total: nat)
    requires
        under > 0,
        total == whole * under + over,
    ensures
        total * scale / under == whole * scale + over * scale / under,
        total * scale % under == over * scale % under,
{
    let carried = over * scale / under;
    let rest = over * scale % under;
    assert(over * scale == carried * under + rest) by {
        vstd::arithmetic::div_mod::lemma_fundamental_div_mod((over * scale) as int, under as int);
        vstd::arithmetic::mul::lemma_mul_is_commutative(under as int, carried as int);
    }
    assert(total * scale == (whole * scale + carried) * under + rest) by (nonlinear_arith)
        requires
            total == whole * under + over,
            over * scale == carried * under + rest,
    ;
    lemma_half_even_of_multiple(whole * scale + carried, rest, under);
}

/// A whole number below the top of the significand plus less than one.
fn add_below_one(whole: u128, over: u128, under: u128) -> (value: Binary)
    requires
        1 <= whole < TOP,
        over < under,
        over <= TOP,
        under <= 0x4000_0000_0000_0000_0000_0000_0000_0000,
    ensures
        value@ == nearest((whole * under + over) as nat, under as nat),
        value@.den <= TOP,
        value@.num <= TOP,
{
    let ghost total: nat = (whole * under + over) as nat;
    let ghost width: nat = under as nat;
    let mut scale: u128 = 1;
    let mut carried: u128 = over / under;
    let mut head: u128 = whole + carried;
    proof {
        assert(total < TOP * under) by (nonlinear_arith)
            requires
                total == whole * under + over,
                whole + 1 <= TOP,
                over < under,
        ;
        assert(total * 1 == total);
        assert(power_of_two(1));
        lemma_head(whole as nat, over as nat, width, 1, total);
    }
    while head < LOW
        invariant
            1 <= whole < TOP,
            over < under,
            over <= TOP,
            under <= 0x4000_0000_0000_0000_0000_0000_0000_0000,
            width == under,
            total == whole * under + over,
            1 <= scale <= TOP,
            power_of_two(scale as nat),
            carried == over * scale / (under as int),
            head == whole * scale + carried,
            head == total * (scale as nat) / width,
            total * scale < TOP * width,
            nearest_small(total, width).num == nearest_small(total * scale as nat, width).num,
            nearest_small(total, width).den == scale * nearest_small(
                total * scale as nat,
                width,
            ).den,
        decreases TOP - scale,
    {
        let ghost inner = nearest_small(total * (2 * scale) as nat, width);
        proof {
            assert(total * scale < LOW * width) by (nonlinear_arith)
                requires
                    total * (scale as nat) / width < LOW,
                    width > 0,
            ;
            assert(total * (2 * scale) == 2 * (total * scale)) by (nonlinear_arith);
            assert(scale * (2 * inner.den) == (2 * scale) * inner.den) by (nonlinear_arith);
            assert(total >= under) by (nonlinear_arith)
                requires
                    total == whole * under + over,
                    whole >= 1,
            ;
            assert(total * scale > 0) by (nonlinear_arith)
                requires
                    total >= under,
                    under > 0,
                    scale >= 1,
            ;
            assert(scale <= whole * scale) by (nonlinear_arith)
                requires
                    whole >= 1,
            ;
            assert(over * (2 * scale) <= TOP * TOP) by (nonlinear_arith)
                requires
                    over <= TOP,
                    2 * scale <= TOP,
            ;
        }
        assert(over * (2 * scale) == over * 2 * scale) by (nonlinear_arith);
        scale = 2 * scale;
        carried = over * scale / under;
        proof {
            lemma_head(whole as nat, over as nat, width, scale as nat, total);
            assert(total * (scale as nat) / width < TOP) by (nonlinear_arith)
                requires
                    total * scale < TOP * width,
                    width > 0,
            ;
            assert(power_of_two(scale as nat));
        }
        head = whole * scale + carried;
    }
    assert(over * scale <= TOP * TOP) by (nonlinear_arith)
        requires
            over <= TOP,
            scale <= TOP,
    ;
    let rest: u128 = over * scale % under;
    proof {
        lemma_head(whole as nat, over as nat, width, scale as nat, total);
        assert(total * scale >= LOW * width) by (nonlinear_arith)
            requires
                total * (scale as nat) / width >= LOW,
                width > 0,
        ;
        lemma_half_even_bounds(total * scale as nat, width, LOW as nat, TOP as nat);
        assert(scale * 1nat == scale) by (nonlinear_arith);
    }
    let up: bool = 2 * rest > under || (2 * rest == under && head % 2 == 1);
    if up {
        Binary { num: head + 1, den: scale }
    } else {
        Binary { num: head, den: scale }
    }
}

impl Binary {
    /// Zero.
    pub fn zero() -> (value: Binary)
        ensures
            value@ == (Fraction { num: 0, den: 1 }),
    {
        assert(power_of_two(1));
        Binary { num: 0, den: 1 }
    }

    /// One.
    pub fn one() -> (value: Binary)
        ensures
            value@ == (Fraction { num: 1, den: 1 }),
    {
        assert(power_of_two(1));
        Binary { num: 1, den: 1 }
    }

    /// The quotient of two counts.
    pub fn quotient(num: u64, den: u64) -> (value: Binary)
        requires
            den > 0,
        ensures
            value@ == quotient(num as nat, den as nat),
    {
        let over: u128 = round_whole(num);
        let under: u128 = round_whole(den);
        proof {
            if den >= TOP {
                lemma_nearest_large_grows(den as nat, 1);
            }
        }
        round_quotient(over, under)
    }

    /// The numerator and the denominator of this value; the denominator is a
    /// power of two.
    pub fn parts(&self) -> (parts: (u128, u128))
        ensures
            parts.0 == self@.num,
            parts.1 == self@.den,
            power_of_two(parts.1 as nat),
    {
        proof {
            use_type_invariant(self);
        }
        (self.num, self.den)
    }

    /// This value, or one if it is more than one.
    pub fn at_most_one(&self) -> (value: Binary)
        ensures
            value@ == at_most_one(self@),
            value@.den > 0,
    {
        proof {
            use_type_invariant(self);
        }
        if self.num > self.den {
            Binary::one()
        } else {
            *self
        }
    }

    /// A multiple of a value that is at most one.
    pub fn times(&self, factor: u64) -> (value: Binary)
        requires
            self@.num <= self@.den,
            0 < factor <= 100,
        ensures
            value@ == nearest(self@.num * factor as nat, self@.den),
    {
        proof {
            use_type_invariant(self);
        }
        assert(self.num <= self.num * factor <= 100 * self.num) by (nonlinear_arith)
            requires
                0 < factor <= 100,
        ;
        let num: u128 = self.num * (factor as u128);
        let mut under: u128 = self.den;
        if under == 1 {
            assert(num < TOP * under);
            return round_small(num, under);
        }
        let mut scale: u128 = 1;
        assert(num < TOP * self.den);
        while num / LOW < under
            invariant
                LOW <= num < TOP * under,
                num < 0x1000_0000_0000_0000,
                power_of_two(under as nat),
                power_of_two(scale as nat),
                0 < scale,
                scale * under == self.den,
                self.den <= 0x4000_0000_0000_0000_0000_0000_0000_0000,
                nearest_small(num as nat, self.den as nat).num == nearest_small(
                    num as nat,
                    under as nat,
                ).num,
                nearest_small(num as nat, self.den as nat).den == scale * nearest_small(
                    num as nat,
                    under as nat,
                ).den,
            decreases under,
        {
            assert(num < LOW * under) by (nonlinear_arith)
                requires
                    num / LOW < under,
                    LOW == 0x10_0000_0000_0000,
            ;
            let half: u128 = under / 2;
            let ghost inner = nearest_small(num as nat, half as nat);
            proof {
                lemma_nearest_small_doubled(num as nat, half as nat);
            }
            assert(scale * (2 * inner.den) == (2 * scale) * inner.den) by (nonlinear_arith);
            assert((2 * scale) * half == self.den && scale <= self.den) by (nonlinear_arith)
                requires
                    scale * under == self.den,
                    under == 2 * half,
                    under > 1,
            ;
            assert(2 * scale <= self.den) by (nonlinear_arith)
                requires
                    (2 * scale) * half == self.den,
                    half >= 1,
            ;
            under = half;
            scale = 2 * scale;
            assert(power_of_two(scale as nat));
        }
        assert(num >= LOW * under) by (nonlinear_arith)
            requires
                num / LOW >= under,
                LOW == 0x10_0000_0000_0000,
        ;
        proof {
            lemma_half_even_bounds(num as nat, under as nat, LOW as nat, TOP as nat);
            assert(scale * 1nat == scale) by (nonlinear_arith);
            assert(scale <= self.den) by (nonlinear_arith)
                requires
                    scale * under == self.den,
                    under >= 1,
            ;
        }
        Binary { num: round_half_even(num, under), den: scale }
    }

    /// A duration of at least one second, in seconds.
    pub fn seconds(secs: u64, nanos: u32) -> (value: Binary)
        requires
            secs >= 1,
            nanos < 1_000_000_000,
        ensures
            value@ == seconds(secs as nat, nanos as nat),
            value@.den <= TOP,
            value@.num <= 0x2_0000_0000_0000_0000,
    {
        let part = round_small(nanos as u128, 1_000_000_000);
        let under: u128 = part.den;
        let over: u128 = part.num;
        proof {
            use_type_invariant(&part);
            lemma_part_below_one(nanos as nat, over as nat, under as nat);
            assert(power_of_two(1));
        }
        let whole: u128 = round_whole(secs);
        if whole >= TOP {
            proof {
                lemma_rounded_absorbs(secs as nat, over as nat, under as nat);
                assert(whole * under + over >= TOP * under) by (nonlinear_arith)
                    requires
                        whole >= TOP,
                        over >= 0,
                        under >= 1,
                ;
            }
            return Binary { num: whole, den: 1 };
        }
        proof {
            if secs >= TOP {
                lemma_nearest_large_grows(secs as nat, 1);
            }
        }
        add_below_one(secs as u128, over, under)
    }

    /// A duration of at least one second, in minutes.
    pub fn minutes(secs: u64, nanos: u32) -> (value: Binary)
        requires
            secs >= 1,
            nanos < 1_000_000_000,
        ensures
            value@ == minutes(secs as nat, nanos as nat),
    {
        let value = Binary::seconds(secs, nanos);
        proof {
            use_type_invariant(&value);
        }
        round_quotient(value.num, 60 * value.den)
    }

    /// Writes this value with one decimal place.
    pub fn one_place(&self) -> (shown: String)
        ensures
            shown@ == one_place(self@),
    {
        proof {
            use_type_invariant(self);
        }
        one_place_text(self.num, self.den)
    }

    /// Writes this value with two decimal places.
    pub fn two_places(&self) -> (shown: String)
        ensures
            shown@ == two_places(self@),
    {
        proof {
            use_type_invariant(self);
        }
        let hundredths: u128 = round_half_even(100 * self.num, self.den);
        let mut shown = text::decimal_text(hundredths / 100);
        shown.append(".");
        shown.append(text::decimal_text(hundredths / 10 % 10).as_str());
        shown.append(text::decimal_text(hundredths % 10).as_str());
        shown
    }

    /// This value rounded to a whole number, ties to even.
    pub fn round_even(&self) -> (whole: u128)
        ensures
            whole == half_even(self@.num, self@.den),
    {
        proof {
            use_type_invariant(self);
        }
        round_half_even(self.num, self.den)
    }

    /// This value rounded to a whole number, ties away from zero.
    pub fn round_up(&self) -> (whole: u128)
        ensures
            whole == half_up(self@.num, self@.den),
    {
        proof {
            use_type_invariant(self);
        }
        (2 * self.num + self.den) / (2 * self.den)
    }
}

proof fn lemma_nearest_small_bound(num: nat, den: nat, bound: nat)
    requires
        den > 0,
        num <= bound * den,
    ensures
        nearest_small(num, den).den > 0,
        nearest_small(num, den).num <= bound * nearest_small(num, den).den,
    decreases TOP * den - num,
{
    if num == 0 || num >= LOW * den {
        let whole = num / den;
        assert(whole < bound || (whole == bound && num % den == 0)) by (nonlinear_arith)
            requires
                den > 0,
                num <= bound * den,
                whole == num / den,
        ;
    } else {
        assert(LOW * den < TOP * den) by (nonlinear_arith)
            requires
                den > 0,
        ;
        assert(2 * num <= (2 * bound) * den) by (nonlinear_arith)
            requires
                num <= bound * den,
        ;
        lemma_nearest_small_bound(2 * num, den, 2 * bound);
        let doubled = nearest_small(2 * num, den);
        assert(doubled.num <= bound * (2 * doubled.den)) by (nonlinear_arith)
            requires
                doubled.num <= (2 * bound) * doubled.den,
        ;
    }
}

/// Rounding takes no value above a whole number that it was not above.
pub proof fn lemma_nearest_bound(num: nat, den: nat, bound: nat)
    requires
        den > 0,
        num <= bound * den,
        bound < TOP,
    ensures
        nearest(num, den).den > 0,
        nearest(num, den).num <= bound * nearest(num, den).den,
        half_even(nearest(num, den).num, nearest(num, den).den) <= bound,
        half_up(nearest(num, den).num, nearest(num, den).den) <= bound,
{
    assert(num < TOP * den) by (nonlinear_arith)
        requires
            den > 0,
            num <= bound * den,
            bound < TOP,
    ;
    lemma_nearest_small_bound(num, den, bound);
    let value = nearest(num, den);
    let whole = value.num / value.den;
    assert(whole < bound || (whole == bound && value.num % value.den == 0)) by (nonlinear_arith)
        requires
            value.den > 0,
            value.num <= bound * value.den,
            whole == value.num / value.den,
    ;
    assert((2 * value.num + value.den) / (2 * value.den) <= bound) by (nonlinear_arith)
        requires
            value.den > 0,
            value.num <= bound * value.den,
    ;
}

proof fn lemma_nearest_small_floor(num: nat, den: nat, bound: nat)
    requires
        den > 0,
        bound * den <= num,
    ensures
        nearest_small(num, den).den > 0,
        bound * nearest_small(num, den).den <= nearest_small(num, den).num,
    decreases TOP * den - num,
{
    if num == 0 || num >= LOW * den {
        assert(bound <= num / den) by (nonlinear_arith)
            requires
                den > 0,
                bound * den <= num,
        ;
    } else {
        assert(LOW * den < TOP * den) by (nonlinear_arith)
            requires
                den > 0,
        ;
        assert((2 * bound) * den <= 2 * num) by (nonlinear_arith)
            requires
                bound * den <= num,
        ;
        lemma_nearest_small_floor(2 * num, den, 2 * bound);
        let doubled = nearest_small(2 * num, den);
        assert(bound * (2 * doubled.den) <= doubled.num) by (nonlinear_arith)
            requires
                (2 * bound) * doubled.den <= doubled.num,
        ;
    }
}

/// Rounding takes no value below a whole number that it was not below.
pub proof fn lemma_nearest_floor(num: nat, den: nat, bound: nat)
    requires
        den > 0,
        bound * den <= num < TOP * den,
    ensures
        bound <= half_even(nearest(num, den).num, nearest(num, den).den),
        bound <= half_up(nearest(num, den).num, nearest(num, den).den),
{
    lemma_nearest_small_floor(num, den, bound);
    let value = nearest(num, den);
    assert(bound <= value.num / value.den) by (nonlinear_arith)
        requires
            value.den > 0,
            bound * value.den <= value.num,
    ;
    assert(bound <= (2 * value.num + value.den) / (2 * value.den)) by (nonlinear_arith)
        requires
            value.den > 0,
            bound * value.den <= value.num,
    ;
}

/// A quotient of counts is well-formed, and one where the counts are equal.
pub proof fn lemma_quotient_of_counts(num: nat, den: nat)
    requires
        den > 0,
    ensures
        quotient(num, den).den > 0,
        num == den ==> quotient(num, den).num == quotient(num, den).den,
{
    let over = rounded(num);
    let under = rounded(den);
    assert(under > 0) by {
        if den >= TOP {
            lemma_nearest_large_grows(den, 1);
        }
    }
    if over < TOP * under {
        assert(over <= over * under) by (nonlinear_arith)
            requires
                under > 0,
        ;
        lemma_nearest_small_bound(over, under, over);
    }
    if num == den {
        assert(over < TOP * under) by (nonlinear_arith)
            requires
                0 < under == over,
        ;
        lemma_nearest_small_bound(over, under, 1);
        lemma_nearest_small_floor(over, under, 1);
    }
}

} // verus!
