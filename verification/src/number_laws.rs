//! How numbers are written and rounded.

use crate::action;
use crate::action::{ActionState, ProgressView};
use crate::binary;
use crate::binary::Fraction;
use crate::screen;
use crate::screen::Totals;
use crate::text;
use vstd::prelude::*;

verus! {

/// The number that a row of digits says.
pub open spec fn said_by(digits: Seq<char>) -> nat
    decreases digits.len(),
{
    if digits.len() == 0 {
        0
    } else {
        (10 * said_by(digits.drop_last()) + (digits.last() as u32 - '0' as u32)) as nat
    }
}

/// A number is written with the ten digits, says itself, and begins with no
/// nought unless it is nought.
pub proof fn law_numbers_say_themselves(value: nat)
    ensures
        said_by(text::decimal(value)) == value,
        text::decimal(value).len() > 0,
        value > 0 ==> text::decimal(value)[0] != '0',
        value < 10 ==> text::decimal(value).len() == 1,
        forall|i: int|
            0 <= i < text::decimal(value).len() ==> '0' <= #[trigger] text::decimal(value)[i]
                <= '9',
    decreases value,
{
    let shown = text::decimal(value);
    if value < 10 {
        assert(shown.drop_last() =~= Seq::empty());
        assert(said_by(shown.drop_last()) == 0);
    } else {
        law_numbers_say_themselves(value / 10);
        assert(shown.drop_last() =~= text::decimal(value / 10));
        assert(shown[0] == text::decimal(value / 10)[0]);
    }
}

/// Aligning fills up with blanks on one side, to the width and no further.
pub proof fn law_texts_are_filled_up(shown: Seq<char>, width: nat)
    ensures
        ({
            let left = text::aligned_left(shown, width);
            let right = text::aligned_right(shown, width);
            &&& shown.len() <= width ==> left.len() == width && right.len() == width
            &&& shown.len() >= width ==> left == shown && right == shown
            &&& left.take(shown.len() as int) == shown
            &&& right.skip(right.len() - shown.len()) == shown
            &&& forall|i: int| shown.len() <= i < left.len() ==> #[trigger] left[i] == ' '
            &&& forall|i: int|
                0 <= i < right.len() - shown.len() ==> #[trigger] right[i] == ' '
        }),
{
    let left = text::aligned_left(shown, width);
    let right = text::aligned_right(shown, width);
    assert(left.take(shown.len() as int) =~= shown);
    assert(right.skip(right.len() - shown.len()) =~= shown);
}

/// The distance of two numbers.
pub open spec fn apart(left: nat, right: nat) -> nat {
    if left < right {
        (right - left) as nat
    } else {
        (left - right) as nat
    }
}

/// Whether a whole number is nearest to a quotient; the even one of two.
pub open spec fn is_nearest(whole: nat, num: nat, den: nat) -> bool {
    &&& 2 * apart(whole * den, num) <= den
    &&& 2 * apart(whole * den, num) == den ==> whole % 2 == 0
}

/// A quotient is rounded to the nearest whole number, halves to the even one, or
/// upwards.
pub proof fn law_quotients_are_rounded(num: nat, den: nat)
    requires
        den > 0,
    ensures
        is_nearest(binary::half_even(num, den), num, den),
        (2 * binary::half_up(num, den)) * den <= 2 * num + den,
        2 * num + den < (2 * binary::half_up(num, den) + 2) * den,
{
    let whole = num / den;
    let rest = num % den;
    assert(num == whole * den + rest) by {
        vstd::arithmetic::div_mod::lemma_fundamental_div_mod(num as int, den as int);
        vstd::arithmetic::mul::lemma_mul_is_commutative(den as int, whole as int);
    }
    assert((whole + 1) * den == whole * den + den) by (nonlinear_arith);
    let up = binary::half_up(num, den);
    let sum = 2 * num + den;
    let twice = 2 * den;
    assert(up * twice <= sum < (up + 1) * twice) by (nonlinear_arith)
        requires
            up == sum / twice,
            twice > 0,
    ;
    assert((2 * up) * den == up * twice) by (nonlinear_arith)
        requires
            twice == 2 * den,
    ;
    assert((2 * up + 2) * den == (up + 1) * twice) by (nonlinear_arith)
        requires
            twice == 2 * den,
    ;
}

/// A number is shown with one place as the nearest tenth, halves as the even
/// one: these are the tenths.
pub proof fn law_one_place_is_the_nearest_tenth(value: Fraction) -> (tenths: nat)
    requires
        value.den > 0,
    ensures
        is_nearest(tenths, 10 * value.num, value.den),
        binary::one_place(value) == text::decimal(tenths / 10) + "."@ + text::decimal(tenths % 10),
{
    law_quotients_are_rounded(10 * value.num, value.den);
    binary::half_even(10 * value.num, value.den)
}

/// A number is shown with two places as the nearest hundredth, halves as the
/// even one: these are the hundredths.
pub proof fn law_two_places_are_the_nearest_hundredth(value: Fraction) -> (hundredths: nat)
    requires
        value.den > 0,
    ensures
        is_nearest(hundredths, 100 * value.num, value.den),
        binary::two_places(value) == text::decimal(hundredths / 100) + "."@ + text::decimal(
            hundredths / 10 % 10,
        ) + text::decimal(hundredths % 10),
{
    law_quotients_are_rounded(100 * value.num, value.den);
    binary::half_even(100 * value.num, value.den)
}

/// Whether a fraction is a quotient but for so many parts in two to the
/// fifty-second.
pub open spec fn is_about(value: Fraction, num: nat, den: nat, parts: nat) -> bool {
    &&& value.den > 0
    &&& 0x10_0000_0000_0000 * apart(value.num * den, num * value.den) <= parts * (
    num * value.den)
}

proof fn lemma_half_is_small(whole: nat, num: nat, den: nat)
    requires
        den > 0,
        0x10_0000_0000_0000 * den <= num,
        2 * apart(whole * den, num) <= den,
    ensures
        0x20_0000_0000_0000 * apart(whole * den, num) <= num,
{
    let off = apart(whole * den, num);
    assert(0x20_0000_0000_0000 * off <= 0x10_0000_0000_0000 * den);
}

proof fn lemma_small_is_close(num: nat, den: nat)
    requires
        den > 0,
        num < binary::TOP * den,
    ensures
        ({
            let value = binary::nearest_small(num, den);
            &&& value.den > 0
            &&& 0x20_0000_0000_0000 * apart(
                value.num * den,
                num * value.den,
            ) <= num * value.den
        }),
    decreases binary::TOP * den - num,
{
    let value = binary::nearest_small(num, den);
    if num == 0 {
        assert(value.num == 0) by {
            law_quotients_are_rounded(0, den);
            assert(0nat / den == 0 && 0nat % den == 0) by (nonlinear_arith)
                requires
                    den > 0,
            ;
        }
        assert(value.num * den == 0) by (nonlinear_arith)
            requires
                value.num == 0,
        ;
    } else if num >= binary::LOW * den {
        law_quotients_are_rounded(num, den);
        lemma_half_is_small(value.num, num, den);
        assert(num * value.den == num) by (nonlinear_arith)
            requires
                value.den == 1,
        ;
    } else {
        lemma_small_is_close(2 * num, den);
        let doubled = binary::nearest_small(2 * num, den);
        assert(num * value.den == (2 * num) * doubled.den) by (nonlinear_arith)
            requires
                value.den == 2 * doubled.den,
        ;
    }
}

proof fn lemma_large_is_close(num: nat, den: nat)
    requires
        den > 0,
        num >= binary::LOW * den,
    ensures
        0x20_0000_0000_0000 * apart(
            binary::nearest_large(num, den) * den,
            num,
        ) <= num,
    decreases num - den,
{
    if num < binary::TOP * den {
        law_quotients_are_rounded(num, den);
        lemma_half_is_small(binary::half_even(num, den), num, den);
    } else {
        lemma_large_is_close(num, 2 * den);
        let half = binary::nearest_large(num, 2 * den);
        assert((2 * half) * den == half * (2 * den)) by (nonlinear_arith);
    }
}

/// What is computed of a quotient differs from it by less than one part in two to
/// the fifty-second; whole numbers below two to the fifty-third are kept.
pub proof fn law_quotients_are_about_right(num: nat, den: nat)
    requires
        den > 0,
    ensures
        is_about(binary::nearest(num, den), num, den, 1),
        num < 0x20_0000_0000_0000 ==> binary::rounded(num) == num,
        num >= 0x20_0000_0000_0000 ==> is_about(
            (Fraction { num: binary::rounded(num), den: 1 }),
            num,
            1,
            1,
        ),
{
    if num < binary::TOP * den {
        lemma_small_is_close(num, den);
    } else {
        assert(num >= binary::LOW * den) by (nonlinear_arith)
            requires
                num >= 0x20_0000_0000_0000 * den,
        ;
        lemma_large_is_close(num, den);
        assert(num * 1 == num);
    }
    if num < 0x20_0000_0000_0000 {
        assert(num / 1 == num && num % 1 == 0);
    } else {
        lemma_large_is_close(num, 1);
        assert(binary::rounded(num) * 1 == binary::rounded(num));
        assert(num * 1 == num);
    }
}

proof fn lemma_large_doubled(num: nat, den: nat)
    requires
        den > 0,
    ensures
        binary::nearest_large(2 * num, 2 * den) == binary::nearest_large(num, den),
    decreases num - den,
{
    if num < binary::TOP * den {
        lemma_doubled(num, den);
    } else {
        lemma_large_doubled(num, 2 * den);
    }
}

proof fn lemma_doubled(num: nat, den: nat)
    requires
        den > 0,
    ensures
        binary::half_even(2 * num, 2 * den) == binary::half_even(num, den),
{
    let whole = num / den;
    let rest = num % den;
    assert(num == whole * den + rest && rest < den) by {
        vstd::arithmetic::div_mod::lemma_fundamental_div_mod(num as int, den as int);
        vstd::arithmetic::mul::lemma_mul_is_commutative(den as int, whole as int);
    }
    assert(2 * num == whole * (2 * den) + 2 * rest) by (nonlinear_arith)
        requires
            num == whole * den + rest,
    ;
    vstd::arithmetic::div_mod::lemma_fundamental_div_mod_converse(
        (2 * num) as int,
        (2 * den) as int,
        whole as int,
        (2 * rest) as int,
    );
}

/// What is computed of a quotient has fifty-three binary digits, the nearest
/// there are, halves the even ones; and that of twice the quotient is twice as
/// much.
pub proof fn law_quotients_are_computed_to_a_scale(num: nat, den: nat)
    requires
        den > 0,
    ensures
        ({
            let one = binary::nearest(num, den);
            let two = binary::nearest(2 * num, den);
            &&& 0x10_0000_0000_0000 * den <= num < 0x20_0000_0000_0000 * den ==> one.den == 1
                && is_nearest(one.num, num, den)
            &&& two.num * one.den == 2 * (one.num * two.den)
        }),
{
    let one = binary::nearest(num, den);
    let two = binary::nearest(2 * num, den);
    law_quotients_are_rounded(num, den);
    if num == 0 {
        assert(one.num == 0) by {
            assert(0nat / den == 0 && 0nat % den == 0) by (nonlinear_arith)
                requires
                    den > 0,
            ;
        }
        assert(two.num * one.den == 0 && one.num * two.den == 0) by (nonlinear_arith)
            requires
                one.num == 0,
                two.num == 0,
        ;
    } else if num < binary::LOW * den {
        assert(two.num * one.den == 2 * (one.num * two.den)) by (nonlinear_arith)
            requires
                one.num == two.num,
                one.den == 2 * two.den,
        ;
    } else {
        assert(2 * num >= binary::TOP * den);
        lemma_large_doubled(num, den);
        assert(binary::nearest_large(2 * num, den) == 2 * binary::nearest_large(2 * num, 2 * den));
        assert(one.num == binary::nearest_large(num, den));
        assert(two.num * 1 == two.num && one.num * 1 == one.num);
    }
}

#[verifier::spinoff_prover]
#[verifier::rlimit(50)]
proof fn lemma_steps_add_up(
    num: nat,
    den: nat,
    over: nat,
    under: nat,
    end: nat,
    scale: nat,
    factor: nat,
    first: nat,
    second: nat,
)
    requires
        num >= 0,
        den > 0,
        over >= 0,
        under > 0,
        end >= 0,
        scale > 0,
        factor > 0,
        first >= 0,
        second >= 0,
        first * second <= 0x10_0000_0000_0000,
        0x10_0000_0000_0000 * apart(over * den, num * under) <= first * (num * under),
        0x10_0000_0000_0000 * apart(end * (factor * under), over * scale) <= second * (over
            * scale),
    ensures
        0x10_0000_0000_0000 * apart(end * (factor * den), num * scale) <= (first + second + 1) * (
        num * scale),
{
    let large = 0x10_0000_0000_0000int;
    let off = over * den - num * under;
    let miss = end * (factor * under) - over * scale;
    let gap = end * (factor * den) - num * scale;
    let base = num * under;
    assert(gap * under == den * miss + scale * off) by (nonlinear_arith)
        requires
            off == over * den - num * under,
            miss == end * (factor * under) - over * scale,
            gap == end * (factor * den) - num * scale,
    ;
    assert(large * (den * miss) <= second * (over * scale) * den && -(large * (den * miss))
        <= second * (over * scale) * den) by (nonlinear_arith)
        requires
            den > 0,
            large * miss <= second * (over * scale),
            -(large * miss) <= second * (over * scale),
    ;
    assert(large * (scale * off) <= first * base * scale && -(large * (scale * off)) <= first * base
        * scale) by (nonlinear_arith)
        requires
            scale > 0,
            large * off <= first * base,
            -(large * off) <= first * base,
    ;
    assert(large * (over * den) <= large * base + first * base);
    assert(large * (second * (over * den)) <= second * (large * base + first * base))
        by (nonlinear_arith)
        requires
            second >= 0,
            large * (over * den) <= large * base + first * base,
    ;
    assert(second * (large * base + first * base) == large * (second * base) + (first * second)
        * base) by (nonlinear_arith);
    assert(base >= 0) by (nonlinear_arith)
        requires
            base == num * under,
            num >= 0,
            under > 0,
    ;
    assert((first * second) * base <= large * base) by (nonlinear_arith)
        requires
            first * second <= large,
            base >= 0,
    ;
    assert(second * (over * den) <= second * base + base);
    let share = second * (over * den);
    let room = second * base + base;
    assert(share * scale <= room * scale) by (nonlinear_arith)
        requires
            share <= room,
            scale > 0,
    ;
    assert(share * scale == second * (over * scale) * den) by (nonlinear_arith)
        requires
            share == second * (over * den),
    ;
    assert(room * scale + first * base * scale == (first + second + 1) * (base * scale))
        by (nonlinear_arith)
        requires
            room == second * base + base,
    ;
    let bound = (first + second + 1) * (num * scale);
    assert((first + second + 1) * (base * scale) == bound * under) by (nonlinear_arith)
        requires
            base == num * under,
            bound == (first + second + 1) * (num * scale),
    ;
    assert(large * (gap * under) <= bound * under && -(large * (gap * under)) <= bound * under);
    assert(large * gap <= bound && -(large * gap) <= bound) by (nonlinear_arith)
        requires
            under > 0,
            large * (gap * under) <= bound * under,
            -(large * (gap * under)) <= bound * under,
    ;
}

/// A quotient of what is about right is about right.
proof fn lemma_about_again(
    value: Fraction,
    num: nat,
    den: nat,
    parts: nat,
    factor: nat,
    end: Fraction,
)
    requires
        den > 0,
        factor > 0,
        parts <= 16,
        is_about(value, num, den, parts),
        end == binary::nearest(value.num, factor * value.den),
    ensures
        is_about(end, num, factor * den, parts + 2),
{
    assert(factor * value.den > 0) by (nonlinear_arith)
        requires
            factor > 0,
            value.den > 0,
    ;
    law_quotients_are_about_right(value.num, factor * value.den);
    lemma_steps_add_up(
        num,
        den,
        value.num,
        value.den,
        end.num,
        end.den,
        factor,
        parts,
        1,
    );
}

/// The whole number nearest to what is about a quotient is about nearest to it.
#[verifier::spinoff_prover]
#[verifier::rlimit(50)]
proof fn lemma_about_nearest(value: Fraction, num: nat, den: nat, parts: nat, whole: nat)
    requires
        den > 0,
        is_about(value, num, den, parts),
        2 * apart(whole * value.den, value.num) <= value.den,
    ensures
        0x20_0000_0000_0000 * apart(whole * den, num) <= 0x10_0000_0000_0000 * den + 2
            * parts * num,
{
    let large = 0x10_0000_0000_0000int;
    let gap = whole * den - num;
    let off = whole * value.den - value.num;
    let miss = value.num * den - num * value.den;
    assert(gap * value.den == den * off + miss) by (nonlinear_arith)
        requires
            gap == whole * den - num,
            off == whole * value.den - value.num,
            miss == value.num * den - num * value.den,
    ;
    assert(2 * (den * off) <= den * value.den && -(2 * (den * off)) <= den * value.den)
        by (nonlinear_arith)
        requires
            den > 0,
            2 * off <= value.den,
            -(2 * off) <= value.den,
    ;
    let bound = large * den + 2 * parts * num;
    assert(bound * value.den == large * (den * value.den) + 2 * (parts * (num * value.den)))
        by (nonlinear_arith)
        requires
            bound == large * den + 2 * parts * num,
    ;
    assert(2 * large * (gap * value.den) <= bound * value.den && -(2 * large * (gap * value.den))
        <= bound * value.den);
    assert(2 * large * gap <= bound && -(2 * large * gap) <= bound) by (nonlinear_arith)
        requires
            value.den > 0,
            2 * large * (gap * value.den) <= bound * value.den,
            -(2 * large * (gap * value.den)) <= bound * value.den,
    ;
}

#[verifier::spinoff_prover]
#[verifier::rlimit(50)]
proof fn lemma_about_times(value: Fraction, num: nat, den: nat, parts: nat, factor: nat)
    requires
        is_about(value, num, den, parts),
        factor > 0,
    ensures
        is_about((Fraction { num: factor * value.num, den: value.den }), factor * num, den, parts),
{
    let off = apart(value.num * den, num * value.den);
    let base = num * value.den;
    assert((factor * value.num) * den == factor * (value.num * den)) by (nonlinear_arith);
    assert((factor * num) * value.den == factor * (num * value.den)) by (nonlinear_arith);
    assert(factor * (value.num * den) - factor * (num * value.den) == factor * (value.num * den
        - num * value.den)) by (nonlinear_arith);
    assert(0x10_0000_0000_0000 * (factor * off) <= parts * (factor * base)) by (nonlinear_arith)
        requires
            0x10_0000_0000_0000 * off <= parts * base,
            factor > 0,
    ;
    assert(apart(factor * (value.num * den), factor * base) == factor * off)
        by (nonlinear_arith)
        requires
            off == apart(value.num * den, base),
            factor > 0,
    {
        let left = value.num * den;
        assert(left < base ==> factor * left < factor * base);
        assert(left >= base ==> factor * left >= factor * base);
    }
}

proof fn lemma_seconds_are_about_right(secs: nat, nanos: nat)
    requires
        secs < 0x20_0000_0000_0000,
        nanos < 1_000_000_000,
    ensures
        is_about(
            binary::seconds(secs, nanos),
            secs * 1_000_000_000 + nanos,
            1_000_000_000,
            3,
        ),
{
    let part = binary::nearest(nanos, 1_000_000_000);
    let total = secs * 1_000_000_000 + nanos;
    law_quotients_are_about_right(nanos, 1_000_000_000);
    law_quotients_are_about_right(secs, 1);
    let sum = Fraction { num: secs * part.den + part.num, den: part.den };
    assert(sum.num * 1_000_000_000 - total * part.den == part.num * 1_000_000_000 - nanos
        * part.den) by (nonlinear_arith)
        requires
            sum.num == secs * part.den + part.num,
            total == secs * 1_000_000_000 + nanos,
    ;
    assert(nanos * part.den <= total * part.den) by (nonlinear_arith)
        requires
            nanos <= total,
    ;
    assert(is_about(sum, total, 1_000_000_000, 1));
    assert(1 * sum.den == sum.den);
    lemma_about_again(sum, total, 1_000_000_000, 1, 1, binary::seconds(secs, nanos));
}

/// A length of time is shown in minutes with one place from a minute on, in
/// seconds with two places from a second on, and in whole milliseconds below
/// that; what is shown is nearest to it, or cut off in the last case.
#[verifier::spinoff_prover]
#[verifier::rlimit(50)]
pub proof fn law_durations_are_shown_in_their_unit(secs: nat, nanos: nat) -> (count: nat)
    requires
        secs < 0x20_0000_0000_0000,
        nanos < 1_000_000_000,
    ensures
        ({
            let shown = crate::format::duration_text(secs, nanos);
            let total = secs * 1_000_000_000 + nanos;
            &&& secs >= 60 ==> shown == text::decimal(count / 10) + "."@ + text::decimal(count % 10)
                + "m"@ && 0x20_0000_0000_0000 * apart(count * 60_000_000_000, 10 * total)
                <= 0x10_0000_0000_0000 * 60_000_000_000 + 100 * total
            &&& 1 <= secs < 60 ==> shown == text::decimal(count / 100) + "."@ + text::decimal(
                count / 10 % 10,
            ) + text::decimal(count % 10) + "s"@ && apart(count * 10_000_000, total)
                <= 5_000_000
            &&& secs == 0 ==> shown == text::decimal(count) + "ms"@ && count * 1_000_000 <= nanos
                < (count + 1) * 1_000_000
        }),
{
    let total = secs * 1_000_000_000 + nanos;
    lemma_seconds_are_about_right(secs, nanos);
    let value = binary::seconds(secs, nanos);
    if secs >= 60 {
        let long = binary::minutes(secs, nanos);
        lemma_about_again(value, total, 1_000_000_000, 3, 60, long);
        let count = law_one_place_is_the_nearest_tenth(long);
        lemma_about_times(long, total, 60_000_000_000, 5, 10);
        lemma_about_nearest(
            Fraction { num: 10 * long.num, den: long.den },
            10 * total,
            60_000_000_000,
            5,
            count,
        );
        assert(2 * 5 * (10 * total) == 100 * total) by (nonlinear_arith);
        count
    } else if secs >= 1 {
        let count = law_two_places_are_the_nearest_hundredth(value);
        lemma_about_times(value, total, 1_000_000_000, 3, 100);
        lemma_about_nearest(
            Fraction { num: 100 * value.num, den: value.den },
            100 * total,
            1_000_000_000,
            3,
            count,
        );
        assert(2 * 3 * (100 * total) == 600 * total) by (nonlinear_arith);
        count
    } else {
        nanos / 1_000_000
    }
}

/// A size is shown in the largest of the units that it reaches: bytes as they
/// are, and from there with one place in kibibytes, mebibytes, gibibytes and
/// tebibytes, to the nearest tenth.
#[verifier::spinoff_prover]
#[verifier::rlimit(50)]
pub proof fn law_sizes_are_shown_in_their_unit(bytes: nat) -> (tenths: nat)
    requires
        bytes < 0x20_0000_0000_0000,
    ensures
        ({
            let shown = crate::format::size_text(bytes);
            let number = text::decimal(tenths / 10) + "."@ + text::decimal(tenths % 10);
            &&& bytes < 1024 ==> shown == text::decimal(bytes) + " B"@
            &&& 1024 <= bytes < 1024 * 1024 ==> shown == number + " KiB"@ && is_nearest(
                tenths,
                10 * bytes,
                1024,
            )
            &&& 1024 * 1024 <= bytes < 1024 * 1024 * 1024 ==> shown == number + " MiB"@
                && is_nearest(tenths, 10 * bytes, 1024 * 1024)
            &&& 1024 * 1024 * 1024 <= bytes < 1024 * 1024 * 1024 * 1024 ==> shown == number
                + " GiB"@ && is_nearest(tenths, 10 * bytes, 1024 * 1024 * 1024)
            &&& 1024 * 1024 * 1024 * 1024 <= bytes ==> shown == number + " TiB"@ && is_nearest(
                tenths,
                10 * bytes,
                1024 * 1024 * 1024 * 1024,
            )
        }),
{
    law_quotients_are_about_right(bytes, 1);
    let den: nat = if bytes < 1024 * 1024 {
        1024
    } else if bytes < 1024 * 1024 * 1024 {
        1024 * 1024
    } else if bytes < 1024 * 1024 * 1024 * 1024 {
        1024 * 1024 * 1024
    } else {
        1024 * 1024 * 1024 * 1024
    };
    law_one_place_is_the_nearest_tenth(Fraction { num: bytes, den })
}

/// A size that is too large to be kept exactly is shown in tebibytes, and as the
/// nearest there is.
pub proof fn law_vast_sizes_are_shown_in_tebibytes(bytes: nat) -> (shown: nat)
    requires
        bytes >= 0x20_0000_0000_0000,
    ensures
        is_about((Fraction { num: shown, den: 1 }), bytes, 1, 1),
        crate::format::size_text(bytes) == binary::one_place(
            (Fraction { num: shown, den: 1024 * 1024 * 1024 * 1024 }),
        ) + " TiB"@,
{
    law_quotients_are_about_right(bytes, 1);
    let shown = binary::rounded(bytes);
    assert(shown * 1 == shown && bytes * 1 == bytes && 1 * bytes == bytes);
    assert(0x10_0000_0000_0000 * apart(shown, bytes) <= bytes);
    shown
}

/// A rate is shown as a size per second, and as a dash where there is none.
pub proof fn law_rates_are_sizes_per_second(rate: u64)
    ensures
        crate::format::rate_text(Some(rate)) == crate::format::size_text(rate as nat) + "/s"@,
        crate::format::rate_text(None) == "—"@,
{
}

/// A share that is more than everything counts as everything; any other stays.
pub proof fn law_shares_end_at_everything(share: Fraction)
    ensures
        share.num <= share.den ==> binary::at_most_one(share) == share,
        share.num > share.den ==> binary::at_most_one(share) == (Fraction { num: 1, den: 1 }),
{
}

proof fn lemma_shares(done: nat, total: nat)
    requires
        done <= total,
        0 < total < 0x20_0000_0000_0000,
    ensures
        is_about(binary::at_most_one(binary::quotient(done, total)), done, total, 1),
        binary::at_most_one(binary::quotient(done, total)) == binary::nearest(done, total),
{
    law_quotients_are_about_right(done, 1);
    law_quotients_are_about_right(total, 1);
    law_quotients_are_about_right(done, total);
    binary::lemma_nearest_bound(done, total, 1);
}

/// The share that is done of an action, and that of all actions together, is
/// what is done in proportion to what there is.
pub proof fn law_shares_are_in_proportion(summary: Totals, progress: ProgressView)
    ensures
        progress.total matches Some(total) ==> {
            0 < total < 0x20_0000_0000_0000 && progress.done_bytes <= total ==> is_about(
                screen::known_ratio(progress),
                progress.done_bytes as nat,
                total as nat,
                1,
            )
        },
        progress.total matches Some(total) ==> {
            total == 0 ==> screen::known_ratio(progress).num == screen::known_ratio(progress).den
        },
        progress.total is None ==> screen::known_ratio(progress).num == 0,
        0 < summary.known_bytes < 0x20_0000_0000_0000 && summary.done_bytes <= summary.known_bytes
            ==> is_about(
            screen::overall(summary),
            summary.done_bytes as nat,
            summary.known_bytes as nat,
            1,
        ),
        summary.known_bytes == 0 ==> screen::overall(summary).num == 0,
{
    if let Some(total) = progress.total {
        if 0 < total < 0x20_0000_0000_0000 && progress.done_bytes <= total {
            lemma_shares(progress.done_bytes as nat, total as nat);
        }
    }
    if 0 < summary.known_bytes < 0x20_0000_0000_0000 && summary.done_bytes <= summary.known_bytes {
        lemma_shares(summary.done_bytes as nat, summary.known_bytes as nat);
    }
}

/// A share in percent is the nearest whole number to it, and as many tenths of a
/// bar are filled, but for what computing takes away.
#[verifier::spinoff_prover]
#[verifier::rlimit(50)]
pub proof fn law_shares_are_shown_in_proportion(ratio: Fraction, num: nat, den: nat)
    requires
        0 < den,
        num <= den,
        is_about(ratio, num, den, 1),
        ratio.num <= ratio.den,
    ensures
        0x20_0000_0000_0000 * apart(screen::percent(ratio) * den, 100 * num)
            <= 0x10_0000_0000_0000 * den + 600 * num,
        0x20_0000_0000_0000 * apart(screen::filled(ratio) * den, 10 * num) <= 0x10_0000_0000_0000
            * den + 60 * num,
{
    let scaled = binary::nearest(ratio.num * 100, ratio.den);
    lemma_about_times(ratio, num, den, 1, 100);
    assert(100 * ratio.num == ratio.num * 100);
    assert(1 * ratio.den == ratio.den && 1 * den == den);
    lemma_about_again(
        Fraction { num: 100 * ratio.num, den: ratio.den },
        100 * num,
        den,
        1,
        1,
        scaled,
    );
    law_quotients_are_rounded(scaled.num, scaled.den);
    lemma_about_nearest(scaled, 100 * num, den, 3, screen::percent(ratio));
    assert(2 * 3 * (100 * num) == 600 * num) by (nonlinear_arith);
    let places = binary::nearest(ratio.num * 10, ratio.den);
    lemma_about_times(ratio, num, den, 1, 10);
    assert(10 * ratio.num == ratio.num * 10);
    lemma_about_again(
        Fraction { num: 10 * ratio.num, den: ratio.den },
        10 * num,
        den,
        1,
        1,
        places,
    );
    law_quotients_are_rounded(places.num, places.den);
    let full = screen::filled(ratio);
    assert(2 * apart(full * places.den, places.num) <= places.den) by {
        assert((2 * full) * places.den == 2 * (full * places.den)) by (nonlinear_arith);
        assert((2 * full + 2) * places.den == 2 * (full * places.den) + 2 * places.den)
            by (nonlinear_arith);
    }
    lemma_about_nearest(places, 10 * num, den, 3, full);
    assert(2 * 3 * (10 * num) == 60 * num) by (nonlinear_arith);
}

/// A bar has ten places: those that are filled, and then those that are not.
pub proof fn law_bars_are_filled_from_the_left(ratio: Fraction)
    requires
        ratio.den > 0,
    ensures
        screen::bar_text(ratio).len() == 10,
        screen::filled(ratio) <= 10,
        forall|i: int|
            0 <= i < 10 ==> #[trigger] screen::bar_text(ratio)[i] == (if i < screen::filled(ratio) {
                '▓'
            } else {
                '░'
            }),
{
    screen::law_bars_have_one_width(ratio);
    let share = binary::at_most_one(ratio);
    binary::lemma_nearest_bound(share.num * 10, share.den, 10);
}

/// Each state has a code of its own, and a code that no state has means one that
/// has not begun.
pub proof fn law_states_have_codes(code: u8)
    ensures
        action::state_code(ActionState::Pending) == 0,
        action::state_code(ActionState::Waiting) == 1,
        action::state_code(ActionState::Sizing) == 2,
        action::state_code(ActionState::Deleting) == 3,
        action::state_code(ActionState::Done) == 4,
        code <= 4 ==> action::state_code(action::coded_state(code)) == code,
        code > 4 ==> action::coded_state(code) == ActionState::Pending,
{
}

/// A removal adds its bytes and one file, and changes nothing else.
pub proof fn law_removals_are_recorded(progress: ProgressView, bytes: u64)
    ensures
        progress.done_bytes + bytes <= u64::MAX ==> action::with_removed(
            progress,
            bytes,
        ).done_bytes == progress.done_bytes + bytes,
        progress.done_files < u64::MAX ==> action::with_removed(progress, bytes).done_files
            == progress.done_files + 1,
        action::with_removed(progress, bytes).state == progress.state,
        action::with_removed(progress, bytes).total == progress.total,
{
}

/// An action that has not begun has nothing to show.
pub proof fn law_actions_begin_with_nothing()
    ensures
        action::no_progress().state == ActionState::Pending,
        action::no_progress().total is None,
        action::no_progress().done_bytes == 0,
        action::no_progress().done_files == 0,
{
}

} // verus!
