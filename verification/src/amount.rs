//! Amounts of money as text.
//!
//! An amount is a whole number of ten-thousandths of a unit, held in an
//! `i64`. On the way in it is written without a sign, with up to four digits
//! behind the point; on the way out it is written with exactly four.

use crate::text::{
    after, all_digits, before, decimal, digit, digit_text, find, is_digit,
    lemma_decimal_is_natural, lemma_numeral, lemma_position_is, numeral, parse_digits,
    push_numeral,
};
use vstd::prelude::*;
use vstd::string::StringExecFns;

verus! {

/// How many ten-thousandths make a unit.
pub const SCALE: i64 = 10_000;

/// What a fraction of `digits` digits is multiplied by to count
/// ten-thousandths.
pub open spec fn padding(digits: nat) -> int {
    if digits == 0 {
        10_000
    } else if digits == 1 {
        1_000
    } else if digits == 2 {
        100
    } else if digits == 3 {
        10
    } else {
        1
    }
}

/// The amount that `text` writes, in ten-thousandths, if it writes one: a
/// whole part and a fraction of at most four digits with a point between
/// them, or the whole part alone; with or without a `+` in front; either part
/// may be empty but not both; no more than `i64::MAX` ten-thousandths.
pub open spec fn amount(text: Seq<char>) -> Option<int> {
    let number = if text.len() > 0 && text.first() == '+' {
        text.drop_first()
    } else {
        text
    };
    let whole = before(number, '.');
    let fraction = match after(number, '.') {
        Some(fraction) => fraction,
        None => Seq::empty(),
    };
    let value = decimal(whole) * 10_000 + decimal(fraction) * padding(fraction.len());
    if whole.len() + fraction.len() > 0 && fraction.len() <= 4 && all_digits(whole) && all_digits(
        fraction,
    ) && value <= i64::MAX {
        Some(value)
    } else {
        None
    }
}

/// Ten to the power of `digits`.
pub open spec fn power_of_ten(digits: nat) -> int
    decreases digits,
{
    if digits == 0 {
        1
    } else {
        10 * power_of_ten((digits - 1) as nat)
    }
}

/// A number written with digits is below the power of ten that has as many
/// zeros as the number has digits.
pub proof fn lemma_decimal_is_bounded(text: Seq<char>)
    requires
        all_digits(text),
    ensures
        0 <= decimal(text) < power_of_ten(text.len()),
    decreases text.len(),
{
    if text.len() > 0 {
        assert(crate::text::is_digit(text.last()));
        lemma_decimal_is_bounded(text.drop_last());
    }
}

/// A number written with at most four digits is below ten thousand, even
/// when it is padded to four digits.
pub proof fn lemma_fraction_is_small(text: Seq<char>)
    requires
        all_digits(text),
        text.len() <= 4,
    ensures
        0 <= decimal(text) * padding(text.len()) <= 9_999,
        0 <= decimal(text) <= 9_999,
{
    lemma_decimal_is_bounded(text);
    reveal_with_fuel(power_of_ten, 5);
    if text.len() == 0 {
        assert(power_of_ten(0) == 1);
    } else if text.len() == 1 {
        assert(power_of_ten(1) == 10);
    } else if text.len() == 2 {
        assert(power_of_ten(2) == 100);
    } else if text.len() == 3 {
        assert(power_of_ten(3) == 1_000);
    } else {
        assert(power_of_ten(4) == 10_000);
    }
}

/// Reads the part of `list` from `from` to `to` as an amount.
pub fn parse_amount(list: &Vec<char>, from: usize, to: usize) -> (value: Option<i64>)
    requires
        from <= to <= list.len(),
    ensures
        match value {
            Some(value) => value >= 0 && amount(list@.subrange(from as int, to as int)) == Some(
                value as int,
            ),
            None => amount(list@.subrange(from as int, to as int)) is None,
        },
{
    let ghost text = list@.subrange(from as int, to as int);
    let first = if from < to && list[from] == '+' {
        from + 1
    } else {
        from
    };
    let ghost number = list@.subrange(first as int, to as int);
    proof {
        if first > from {
            assert(text.drop_first() =~= number);
        }
    }
    let point = find(list, first, to, '.');
    let behind = if point < to {
        point + 1
    } else {
        to
    };
    let ghost whole = list@.subrange(first as int, point as int);
    let ghost fraction = list@.subrange(behind as int, to as int);
    proof {
        assert(before(number, '.') =~= whole);
        if point < to {
            assert(after(number, '.') == Some(number.skip(point - first + 1)));
            assert(number.skip(point - first + 1) =~= fraction);
        } else {
            assert(after(number, '.') == None::<Seq<char>>);
            assert(fraction =~= Seq::<char>::empty());
        }
    }
    if (point - first) + (to - behind) == 0 || to - behind > 4 {
        return None;
    }
    let Some(units) = parse_digits(list, first, point, 922_337_203_685_477) else {
        proof {
            if all_digits(whole) && all_digits(fraction) {
                lemma_decimal_is_natural(fraction);
            }
        }
        return None;
    };
    let Some(parts) = parse_digits(list, behind, to, 9_999) else {
        proof {
            if all_digits(fraction) {
                lemma_fraction_is_small(fraction);
            }
        }
        return None;
    };
    proof {
        lemma_decimal_is_natural(whole);
        lemma_fraction_is_small(fraction);
        assert(units == decimal(whole));
        assert(parts == decimal(fraction));
    }
    let pad: u64 = match to - behind {
        0 => 10_000,
        1 => 1_000,
        2 => 100,
        3 => 10,
        _ => 1,
    };
    let value = units * 10_000 + parts * pad;
    if value > i64::MAX as u64 {
        return None;
    }
    Some(value as i64)
}

/// `amount` as it is written out: a `-` if it is negative, the whole units
/// without leading zeros, a point, and four digits of ten-thousandths.
pub open spec fn rendered(amount: int) -> Seq<char> {
    let size = if amount < 0 {
        -amount
    } else {
        amount
    };
    let sign = if amount < 0 {
        seq!['-']
    } else {
        Seq::empty()
    };
    sign + numeral((size / 10_000) as nat) + seq![
        '.',
        digit(size / 1_000 % 10),
        digit(size / 100 % 10),
        digit(size / 10 % 10),
        digit(size % 10),
    ]
}

/// Four digits write the number that their places make.
proof fn lemma_four_digits(thousands: int, hundreds: int, tens: int, ones: int)
    requires
        0 <= thousands <= 9,
        0 <= hundreds <= 9,
        0 <= tens <= 9,
        0 <= ones <= 9,
    ensures
        all_digits(seq![digit(thousands), digit(hundreds), digit(tens), digit(ones)]),
        decimal(seq![digit(thousands), digit(hundreds), digit(tens), digit(ones)]) == thousands
            * 1_000 + hundreds * 100 + tens * 10 + ones,
{
    let four = seq![digit(thousands), digit(hundreds), digit(tens), digit(ones)];
    let three = four.drop_last();
    let two = three.drop_last();
    let one = two.drop_last();
    assert(one.drop_last().len() == 0);
    assert(decimal(one.drop_last()) == 0);
    assert(one.last() == digit(thousands));
    assert(decimal(one) == thousands);
    assert(two.last() == digit(hundreds));
    assert(decimal(two) == thousands * 10 + hundreds);
    assert(three.last() == digit(tens));
    assert(decimal(three) == decimal(two) * 10 + tens);
    assert(four.last() == digit(ones));
    assert(decimal(four) == decimal(three) * 10 + ones);
}

/// A whole part, a point and a fraction are taken apart again at the point.
proof fn lemma_split_at_point(whole: Seq<char>, fraction: Seq<char>)
    requires
        all_digits(whole),
    ensures
        before(whole + seq!['.'] + fraction, '.') == whole,
        after(whole + seq!['.'] + fraction, '.') == Some(fraction),
{
    let text = whole + seq!['.'] + fraction;
    assert forall|i: int| 0 <= i < whole.len() implies text[i] != '.' by {
        assert(is_digit(whole[i]));
    }
    assert(text[whole.len() as int] == '.');
    lemma_position_is(text, '.', whole.len() as int);
    assert(text.take(whole.len() as int) =~= whole);
    assert(text.skip(whole.len() as int + 1) =~= fraction);
}

/// A whole part of one digit or more, a point and a fraction of at most four
/// digits write the amount that the two numbers make.
proof fn lemma_amount_of_parts(whole: Seq<char>, fraction: Seq<char>)
    requires
        whole.len() >= 1,
        all_digits(whole),
        all_digits(fraction),
        fraction.len() <= 4,
        decimal(whole) * 10_000 + decimal(fraction) * padding(fraction.len()) <= i64::MAX,
    ensures
        amount(whole + seq!['.'] + fraction) == Some(
            decimal(whole) * 10_000 + decimal(fraction) * padding(fraction.len()),
        ),
{
    let text = whole + seq!['.'] + fraction;
    lemma_split_at_point(whole, fraction);
    assert(text[0] == whole[0]);
    assert(is_digit(whole[0]));
}

/// The last four places of a number make its remainder by ten thousand.
proof fn lemma_places(value: int)
    requires
        0 <= value,
    ensures
        (value / 1_000 % 10) * 1_000 + (value / 100 % 10) * 100 + (value / 10 % 10) * 10 + value
            % 10 == value % 10_000,
        (value / 10_000) * 10_000 + value % 10_000 == value,
        0 <= value / 1_000 % 10 <= 9,
        0 <= value / 100 % 10 <= 9,
        0 <= value / 10 % 10 <= 9,
        0 <= value % 10 <= 9,
{
    let tens = value / 10;
    let hundreds = tens / 10;
    let thousands = hundreds / 10;
    assert(value / 100 == hundreds) by (nonlinear_arith)
        requires
            0 <= value,
            tens == value / 10,
            hundreds == tens / 10,
    ;
    assert(value / 1_000 == thousands) by (nonlinear_arith)
        requires
            0 <= value,
            hundreds == value / 100,
            thousands == hundreds / 10,
    ;
    assert(value / 10_000 == thousands / 10) by (nonlinear_arith)
        requires
            0 <= value,
            thousands == value / 1_000,
    ;
    assert(value == tens * 10 + value % 10);
    assert(tens == hundreds * 10 + tens % 10);
    assert(hundreds == thousands * 10 + hundreds % 10);
    assert(thousands == (thousands / 10) * 10 + thousands % 10);
    assert(value % 10_000 == value - (value / 10_000) * 10_000);
}

/// What is written out is read back: an amount that is not negative, written
/// as [`rendered`] writes it, is the amount that [`amount`] reads.
pub proof fn lemma_rendered_is_read_back(value: int)
    requires
        0 <= value <= i64::MAX,
    ensures
        amount(rendered(value)) == Some(value),
{
    let units = (value / 10_000) as nat;
    let whole = numeral(units);
    let fraction = seq![
        digit(value / 1_000 % 10),
        digit(value / 100 % 10),
        digit(value / 10 % 10),
        digit(value % 10),
    ];
    lemma_places(value);
    lemma_numeral(units);
    lemma_four_digits(value / 1_000 % 10, value / 100 % 10, value / 10 % 10, value % 10);
    assert(decimal(whole) * 10_000 + decimal(fraction) * padding(fraction.len()) == value);
    lemma_amount_of_parts(whole, fraction);
    assert(rendered(value) =~= whole + seq!['.'] + fraction);
}

/// Writes `amount` behind what `out` holds.
pub fn push_amount(out: &mut String, amount: i64)
    ensures
        final(out)@ == old(out)@ + rendered(amount as int),
{
    let size: u64 = if amount < 0 {
        out.append("-");
        (-(amount + 1)) as u64 + 1
    } else {
        amount as u64
    };
    proof {
        reveal_strlit("-");
        reveal_strlit(".");
        assert("-"@ =~= seq!['-']);
        assert("."@ =~= seq!['.']);
    }
    push_numeral(out, size / 10_000);
    out.append(".");
    out.append(digit_text(size / 1_000 % 10));
    out.append(digit_text(size / 100 % 10));
    out.append(digit_text(size / 10 % 10));
    out.append(digit_text(size % 10));
    assert(out@ =~= old(out)@ + rendered(amount as int));
}

} // verus!
