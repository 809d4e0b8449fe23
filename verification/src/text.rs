//! Text as lists of characters: trimming, splitting and decimal numbers.

use vstd::prelude::*;
use vstd::std_specs::iter::IteratorSpec;
use vstd::string::StringExecFns;

verus! {

/// The characters of `text`.
pub fn characters(text: &str) -> (list: Vec<char>)
    ensures
        list@ == text@,
{
    let mut list: Vec<char> = Vec::new();
    let mut rest = text.chars();
    loop
        invariant
            list@ + rest.remaining() == text@,
            rest.decrease() is Some,
        ensures
            list@ == text@,
        decreases rest.decrease()->0,
    {
        match rest.next() {
            Some(character) => {
                list.push(character);
            },
            None => {
                assert(list@ =~= text@);
                break ;
            },
        }
    }
    list
}

/// Whether `character` is white space: one of the code points with the
/// Unicode property `White_Space`.
pub open spec fn whitespace(character: char) -> bool {
    let code = character as u32;
    ||| 0x09 <= code <= 0x0d
    ||| code == 0x20
    ||| code == 0x85
    ||| code == 0xa0
    ||| code == 0x1680
    ||| 0x2000 <= code <= 0x200a
    ||| code == 0x2028
    ||| code == 0x2029
    ||| code == 0x202f
    ||| code == 0x205f
    ||| code == 0x3000
}

/// `text` without the white space it starts with.
pub open spec fn trim_start(text: Seq<char>) -> Seq<char>
    decreases text.len(),
{
    if text.len() > 0 && whitespace(text.first()) {
        trim_start(text.drop_first())
    } else {
        text
    }
}

/// `text` without the white space it ends with.
pub open spec fn trim_end(text: Seq<char>) -> Seq<char>
    decreases text.len(),
{
    if text.len() > 0 && whitespace(text.last()) {
        trim_end(text.drop_last())
    } else {
        text
    }
}

/// `text` without the white space around it.
pub open spec fn trim(text: Seq<char>) -> Seq<char> {
    trim_end(trim_start(text))
}

/// Where `mark` first stands in `text`, or the length of `text` if it holds
/// no `mark`.
pub open spec fn position(text: Seq<char>, mark: char) -> int
    decreases text.len(),
{
    if text.len() == 0 || text.first() == mark {
        0
    } else {
        1 + position(text.drop_first(), mark)
    }
}

/// The part of `text` before the first `mark`: all of it if it holds none.
pub open spec fn before(text: Seq<char>, mark: char) -> Seq<char> {
    text.take(position(text, mark))
}

/// The part of `text` after the first `mark`, if it holds one.
pub open spec fn after(text: Seq<char>, mark: char) -> Option<Seq<char>> {
    if position(text, mark) < text.len() {
        Some(text.skip(position(text, mark) + 1))
    } else {
        None
    }
}

/// How often `mark` stands in `text`.
pub open spec fn count(text: Seq<char>, mark: char) -> nat
    decreases text.len(),
{
    if text.len() == 0 {
        0
    } else if text.first() == mark {
        1 + count(text.drop_first(), mark)
    } else {
        count(text.drop_first(), mark)
    }
}

/// Whether `character` is one of `0` to `9`.
pub open spec fn is_digit(character: char) -> bool {
    '0' <= character <= '9'
}

/// Whether `text` holds digits only.
pub open spec fn all_digits(text: Seq<char>) -> bool {
    forall|i: int| 0 <= i < text.len() ==> is_digit(#[trigger] text[i])
}

/// The number that the digits of `text` write in base ten; zero for the
/// empty text.
pub open spec fn decimal(text: Seq<char>) -> int
    decreases text.len(),
{
    if text.len() == 0 {
        0
    } else {
        decimal(text.drop_last()) * 10 + (text.last() as int - '0' as int)
    }
}

/// The number that `text` writes, if it is one of `0` to `limit`: one digit
/// or more, with or without a `+` in front.
pub open spec fn unsigned(text: Seq<char>, limit: int) -> Option<int> {
    let digits = if text.len() > 0 && text.first() == '+' {
        text.drop_first()
    } else {
        text
    };
    if digits.len() > 0 && all_digits(digits) && decimal(digits) <= limit {
        Some(decimal(digits))
    } else {
        None
    }
}

/// `position` is a place in `text` or its length, it holds the mark if it is
/// a place, and no earlier place does.
pub proof fn lemma_position(text: Seq<char>, mark: char)
    ensures
        0 <= position(text, mark) <= text.len(),
        position(text, mark) < text.len() ==> text[position(text, mark)] == mark,
        forall|i: int| 0 <= i < position(text, mark) ==> text[i] != mark,
    decreases text.len(),
{
    if text.len() == 0 || text.first() == mark {
    } else {
        let rest = text.drop_first();
        lemma_position(rest, mark);
        assert forall|i: int| 0 <= i < position(text, mark) implies text[i] != mark by {
            if i > 0 {
                assert(rest[i - 1] != mark);
            }
        }
    }
}

/// The first place that holds the mark, or the length where none does, is
/// `position`.
pub proof fn lemma_position_is(text: Seq<char>, mark: char, place: int)
    requires
        0 <= place <= text.len(),
        place < text.len() ==> text[place] == mark,
        forall|i: int| 0 <= i < place ==> text[i] != mark,
    ensures
        position(text, mark) == place,
{
    lemma_position(text, mark);
    let found = position(text, mark);
    if found < place {
        assert(text[found] != mark);
    } else if place < found {
        assert(text[place] != mark);
    }
}

/// A text without the mark has nothing after it; a text with the mark holds
/// it once more than what stands after the first.
pub proof fn lemma_count_after(text: Seq<char>, mark: char)
    ensures
        match after(text, mark) {
            None => count(text, mark) == 0,
            Some(rest) => count(text, mark) == 1 + count(rest, mark),
        },
    decreases text.len(),
{
    lemma_position(text, mark);
    if text.len() == 0 {
    } else if text.first() == mark {
        assert(text.skip(1) =~= text.drop_first());
    } else {
        let rest = text.drop_first();
        lemma_count_after(rest, mark);
        lemma_position(rest, mark);
        if position(rest, mark) < rest.len() {
            assert(text.skip(position(text, mark) + 1) =~= rest.skip(position(rest, mark) + 1));
        }
    }
}

/// A number written with digits is not negative, and grows with every digit
/// written behind it.
pub proof fn lemma_decimal_grows(text: Seq<char>, shorter: int)
    requires
        all_digits(text),
        0 <= shorter <= text.len(),
    ensures
        0 <= decimal(text.take(shorter)) <= decimal(text),
    decreases text.len() - shorter,
{
    if shorter == text.len() {
        assert(text.take(shorter) =~= text);
        lemma_decimal_is_natural(text);
    } else {
        lemma_decimal_grows(text, shorter + 1);
        let longer = text.take(shorter + 1);
        assert(longer.drop_last() =~= text.take(shorter));
        assert(is_digit(text[shorter]));
        assert(longer.last() == text[shorter]);
        lemma_decimal_is_natural(text.take(shorter));
    }
}

/// A number written with digits is not negative.
pub proof fn lemma_decimal_is_natural(text: Seq<char>)
    requires
        all_digits(text),
    ensures
        0 <= decimal(text),
    decreases text.len(),
{
    if text.len() > 0 {
        assert(is_digit(text.last()));
        lemma_decimal_is_natural(text.drop_last());
    }
}

/// Whether `character` is white space.
pub fn is_whitespace(character: char) -> (space: bool)
    ensures
        space == whitespace(character),
{
    let code = character as u32;
    (0x09 <= code && code <= 0x0d) || code == 0x20 || code == 0x85 || code == 0xa0 || code
        == 0x1680 || (0x2000 <= code && code <= 0x200a) || code == 0x2028 || code == 0x2029
        || code == 0x202f || code == 0x205f || code == 0x3000
}

/// Trims the part of `list` from `from` to `to`: returns the bounds of what
/// is left of it without the white space around.
pub fn trim_range(list: &Vec<char>, from: usize, to: usize) -> (bounds: (usize, usize))
    requires
        from <= to <= list.len(),
    ensures
        from <= bounds.0 <= bounds.1 <= to,
        list@.subrange(bounds.0 as int, bounds.1 as int) == trim(
            list@.subrange(from as int, to as int),
        ),
{
    let mut start = from;
    while start < to && is_whitespace(list[start])
        invariant
            from <= start <= to <= list.len(),
            trim_start(list@.subrange(from as int, to as int)) == trim_start(
                list@.subrange(start as int, to as int),
            ),
        decreases to - start,
    {
        proof {
            assert(list@.subrange(start as int, to as int).drop_first() =~= list@.subrange(
                start + 1,
                to as int,
            ));
        }
        start += 1;
    }
    let mut end = to;
    while end > start && is_whitespace(list[end - 1])
        invariant
            start <= end <= to <= list.len(),
            trim_end(list@.subrange(start as int, to as int)) == trim_end(
                list@.subrange(start as int, end as int),
            ),
        decreases end - start,
    {
        proof {
            assert(list@.subrange(start as int, end as int).drop_last() =~= list@.subrange(
                start as int,
                end - 1,
            ));
        }
        end -= 1;
    }
    (start, end)
}

/// Looks for the first `mark` in the part of `list` from `from` to `to`:
/// returns its place, or `to` if there is none.
pub fn find(list: &Vec<char>, from: usize, to: usize, mark: char) -> (place: usize)
    requires
        from <= to <= list.len(),
    ensures
        from <= place <= to,
        place - from == position(list@.subrange(from as int, to as int), mark),
{
    let mut place = from;
    while place < to && list[place] != mark
        invariant
            from <= place <= to <= list.len(),
            forall|i: int| from <= i < place ==> list[i] != mark,
        decreases to - place,
    {
        place += 1;
    }
    proof {
        let text = list@.subrange(from as int, to as int);
        assert forall|i: int| 0 <= i < place - from implies text[i] != mark by {
            assert(list[from + i] != mark);
        }
        lemma_position_is(text, mark, place - from);
    }
    place
}

/// Reads the part of `list` from `from` to `to` as digits that write a
/// number up to `limit`.
pub fn parse_digits(list: &Vec<char>, from: usize, to: usize, limit: u64) -> (number: Option<u64>)
    requires
        from <= to <= list.len(),
        limit <= u64::MAX / 10 - 1,
    ensures
        match number {
            Some(number) => {
                &&& all_digits(list@.subrange(from as int, to as int))
                &&& decimal(list@.subrange(from as int, to as int)) == number
                &&& number <= limit
            },
            None => !all_digits(list@.subrange(from as int, to as int)) || decimal(
                list@.subrange(from as int, to as int),
            ) > limit,
        },
{
    let ghost text = list@.subrange(from as int, to as int);
    let mut number: u64 = 0;
    let mut next = from;
    while next < to
        invariant
            from <= next <= to <= list.len(),
            text == list@.subrange(from as int, to as int),
            limit <= u64::MAX / 10 - 1,
            all_digits(text.take(next - from)),
            number == decimal(text.take(next - from)),
            number <= limit,
        decreases to - next,
    {
        let character = list[next];
        let ghost longer = text.take(next - from + 1);
        proof {
            assert(longer.drop_last() =~= text.take(next - from));
            assert(longer.last() == character);
            assert(text[next - from] == character);
        }
        if !('0' <= character && character <= '9') {
            return None;
        }
        let digit = (character as u32 - '0' as u32) as u64;
        number = number * 10 + digit;
        if number > limit {
            proof {
                if all_digits(text) {
                    lemma_decimal_grows(text, next - from + 1);
                }
            }
            return None;
        }
        proof {
            assert forall|i: int| 0 <= i < longer.len() implies is_digit(#[trigger] longer[i]) by {
                if i < longer.len() - 1 {
                    assert(longer[i] == text.take(next - from)[i]);
                }
            }
        }
        next += 1;
    }
    proof {
        assert(text.take(next - from) =~= text);
    }
    Some(number)
}

/// Reads the part of `list` from `from` to `to` as a number up to `limit`.
pub fn parse_unsigned(list: &Vec<char>, from: usize, to: usize, limit: u64) -> (number: Option<u64>)
    requires
        from <= to <= list.len(),
        limit <= u64::MAX / 10 - 1,
    ensures
        match number {
            Some(number) => number <= limit && unsigned(
                list@.subrange(from as int, to as int),
                limit as int,
            ) == Some(number as int),
            None => unsigned(list@.subrange(from as int, to as int), limit as int) is None,
        },
{
    let ghost text = list@.subrange(from as int, to as int);
    let first = if from < to && list[from] == '+' {
        from + 1
    } else {
        from
    };
    proof {
        if first > from {
            assert(text.drop_first() =~= list@.subrange(first as int, to as int));
        }
    }
    if first == to {
        return None;
    }
    parse_digits(list, first, to, limit)
}

/// The digit that writes `value`, one of zero to nine.
pub open spec fn digit(value: int) -> char {
    ('0' as int + value) as char
}

/// `value` written in base ten, without leading zeros.
pub open spec fn numeral(value: nat) -> Seq<char>
    decreases value,
{
    if value < 10 {
        seq![digit(value as int)]
    } else {
        numeral(value / 10).push(digit((value % 10) as int))
    }
}

/// A numeral holds digits only, at least one, and writes the number it was
/// made from.
pub proof fn lemma_numeral(value: nat)
    ensures
        numeral(value).len() >= 1,
        all_digits(numeral(value)),
        decimal(numeral(value)) == value,
    decreases value,
{
    if value < 10 {
        assert(numeral(value).drop_last() =~= Seq::<char>::empty());
        assert(decimal(numeral(value).drop_last()) == 0);
    } else {
        lemma_numeral(value / 10);
        assert(numeral(value).drop_last() =~= numeral(value / 10));
        assert forall|i: int| 0 <= i < numeral(value).len() implies is_digit(
            #[trigger] numeral(value)[i],
        ) by {
            if i < numeral(value).len() - 1 {
                assert(numeral(value)[i] == numeral(value / 10)[i]);
            }
        }
    }
}

/// The digit that writes `value`, as text.
pub fn digit_text(value: u64) -> (text: &'static str)
    requires
        value < 10,
    ensures
        text@ == seq![digit(value as int)],
{
    proof {
        reveal_strlit("0");
        reveal_strlit("1");
        reveal_strlit("2");
        reveal_strlit("3");
        reveal_strlit("4");
        reveal_strlit("5");
        reveal_strlit("6");
        reveal_strlit("7");
        reveal_strlit("8");
        reveal_strlit("9");
    }
    let text = match value {
        0 => "0",
        1 => "1",
        2 => "2",
        3 => "3",
        4 => "4",
        5 => "5",
        6 => "6",
        7 => "7",
        8 => "8",
        _ => "9",
    };
    assert(text@ =~= seq![digit(value as int)]);
    text
}

/// Writes `value` in base ten behind what `out` holds.
pub fn push_numeral(out: &mut String, value: u64)
    ensures
        final(out)@ == old(out)@ + numeral(value as nat),
    decreases value,
{
    if value >= 10 {
        push_numeral(out, value / 10);
    }
    out.append(digit_text(value % 10));
    assert(out@ =~= old(out)@ + numeral(value as nat));
}

} // verus!
