//! Text: the characters of a string, the decimal form of a number, and the
//! order of names.

use vstd::prelude::*;

verus! {

/// The characters of the text, in order.
pub fn chars_of(text: &str) -> (chars: Vec<char>)
    ensures
        chars@ == text@,
{
    let mut chars: Vec<char> = Vec::new();
    for c in it: text.chars()
        invariant
            it.seq() == text@,
            chars@ == text@.take(it.index() as int),
    {
        chars.push(c);
        proof {
            assert(chars@ =~= text@.take(it.index() + 1));
        }
    }
    proof {
        assert(text@.take(text@.len() as int) =~= text@);
    }
    chars
}

/// `c` is one of the digits `0` to `9`.
pub open spec fn is_digit(c: char) -> bool {
    '0' <= c <= '9'
}

/// The number that the digit stands for.
pub open spec fn digit_value(c: char) -> int {
    c as int - '0' as int
}

/// Whether `c` is a digit.
pub(crate) fn check_digit(c: char) -> (digit: bool)
    ensures
        digit == is_digit(c),
{
    c >= '0' && c <= '9'
}

/// The number that the digit stands for.
pub(crate) fn value_of_digit(c: char) -> (value: u8)
    requires
        is_digit(c),
    ensures
        value == digit_value(c),
{
    (c as u32 - '0' as u32) as u8
}

/// The digit that stands for a number below ten.
pub open spec fn digit_char(value: int) -> char {
    (value + '0' as int) as char
}

/// The decimal form of a number that is not negative, without leading
/// zeros.
pub open spec fn decimal_digits(value: nat) -> Seq<char>
    decreases value,
{
    if value < 10 {
        seq![digit_char(value as int)]
    } else {
        decimal_digits(value / 10).push(digit_char((value % 10) as int))
    }
}

/// The decimal form of a number: a minus sign where it is negative, then its
/// digits.
pub open spec fn decimal(value: int) -> Seq<char> {
    if value < 0 {
        seq!['-'] + decimal_digits((-value) as nat)
    } else {
        decimal_digits(value as nat)
    }
}

/// The digits of `low`, the last first.
pub open spec fn digits_reversed(low: Seq<u8>) -> Seq<char> {
    Seq::new(low.len(), |i: int| digit_char(low[low.len() - 1 - i] as int))
}

fn digit_text(value: u8) -> (text: &'static str)
    requires
        value < 10,
    ensures
        text@ == seq![digit_char(value as int)],
{
    proof {
        reveal_strlit("0");
        reveal_strlit("1");
        reveal_strlit("2");
        reveal_strlit("3");
        reveal_strlit("4");
        reveal_strlit("5");
        reveal_strlit("6");
        reveal_strlit("7");
        reveal_strlit("8");
        reveal_strlit("9");
    }
    let text = match value {
        0 => "0",
        1 => "1",
        2 => "2",
        3 => "3",
        4 => "4",
        5 => "5",
        6 => "6",
        7 => "7",
        8 => "8",
        _ => "9",
    };
    proof {
        assert(text@ =~= seq![digit_char(value as int)]);
    }
    text
}

/// Appends the decimal form of a number that is not negative to `text`.
pub fn append_number(text: &mut String, value: u64)
    ensures
        final(text)@ == old(text)@ + decimal_digits(value as nat),
{
    let ghost before = text@;
    let ghost magnitude = value as nat;
    let mut rest: u64 = value;
    let mut low: Vec<u8> = Vec::new();
    low.push((rest % 10) as u8);
    rest = rest / 10;
    proof {
        assert(digits_reversed(low@) =~= seq![digit_char((magnitude % 10) as int)]);
        if rest > 0 {
            assert(decimal_digits(magnitude) =~= decimal_digits(rest as nat) + digits_reversed(
                low@,
            ));
        }
    }
    while rest > 0
        invariant
            low.len() > 0,
            forall|i: int| 0 <= i < low.len() ==> low[i] < 10,
            rest > 0 ==> decimal_digits(magnitude) == decimal_digits(rest as nat) + digits_reversed(
                low@,
            ),
            rest == 0 ==> decimal_digits(magnitude) == digits_reversed(low@),
        decreases rest,
    {
        let ghost lower = low@;
        let ghost more = rest as nat;
        low.push((rest % 10) as u8);
        rest = rest / 10;
        proof {
            assert(digits_reversed(low@) =~= seq![digit_char((more % 10) as int)]
                + digits_reversed(lower));
            if rest > 0 {
                assert(decimal_digits(more) == decimal_digits(rest as nat).push(
                    digit_char((more % 10) as int),
                ));
                assert(decimal_digits(magnitude) =~= decimal_digits(rest as nat)
                    + digits_reversed(low@));
            } else {
                assert(decimal_digits(more) == seq![digit_char(more as int)]);
                assert(decimal_digits(magnitude) =~= digits_reversed(low@));
            }
        }
    }
    let ghost digits = digits_reversed(low@);
    let mut left: usize = low.len();
    while left > 0
        invariant
            left <= low.len(),
            forall|i: int| 0 <= i < low.len() ==> low[i] < 10,
            digits == digits_reversed(low@),
            text@ == before + digits.take(low.len() - left),
        decreases left,
    {
        left -= 1;
        text.append(digit_text(low[left]));
        proof {
            assert(digits[low.len() - 1 - left] == digit_char(low[left as int] as int));
            assert(text@ =~= before + digits.take(low.len() - left));
        }
    }
    proof {
        assert(digits.take(low.len() as int) =~= digits);
    }
}

/// Appends the decimal form of `value` to `text`.
pub fn append_decimal(text: &mut String, value: i16)
    ensures
        final(text)@ == old(text)@ + decimal(value as int),
{
    let ghost before = text@;
    if value < 0 {
        proof {
            reveal_strlit("-");
        }
        text.append("-");
        append_number(text, (-(value as i32)) as u64);
        proof {
            assert(text@ =~= before + decimal(value as int));
        }
    } else {
        append_number(text, value as u64);
    }
}

/// The order of names: at the first place where two names differ, the one
/// with the smaller character comes first, and a name comes before every
/// longer name that starts with it.
pub open spec fn text_before(a: Seq<char>, b: Seq<char>) -> bool
    decreases a.len(),
{
    if b.len() == 0 {
        false
    } else if a.len() == 0 {
        true
    } else if a[0] != b[0] {
        a[0] < b[0]
    } else {
        text_before(a.drop_first(), b.drop_first())
    }
}

/// Whether `a` comes before `b` in the order of names.
pub fn comes_before(a: &str, b: &str) -> (before: bool)
    ensures
        before == text_before(a@, b@),
{
    let left = chars_of(a);
    let right = chars_of(b);
    let mut i: usize = 0;
    proof {
        assert(left@.skip(0) =~= left@);
        assert(right@.skip(0) =~= right@);
    }
    while i < left.len() && i < right.len()
        invariant
            i <= left.len(),
            i <= right.len(),
            left@ == a@,
            right@ == b@,
            text_before(a@, b@) == text_before(left@.skip(i as int), right@.skip(i as int)),
        decreases left.len() - i,
    {
        proof {
            assert(left@.skip(i as int).drop_first() =~= left@.skip(i + 1));
            assert(right@.skip(i as int).drop_first() =~= right@.skip(i + 1));
            assert(left@.skip(i as int)[0] == left[i as int]);
            assert(right@.skip(i as int)[0] == right[i as int]);
        }
        if left[i] != right[i] {
            return left[i] < right[i];
        }
        i += 1;
    }
    i < right.len()
}

/// The delimiter of fields, a dash between two spaces, stands at `at`.
pub open spec fn delimiter_at(line: Seq<char>, at: int) -> bool {
    &&& 0 <= at
    &&& at + 3 <= line.len()
    &&& line[at] == ' '
    &&& line[at + 1] == '-'
    &&& line[at + 2] == ' '
}

/// The fields of the line from `start` on, where no delimiter begins
/// between `start` and `at`: the line is read from `at` on, a field ends
/// where the next delimiter begins, and the next field begins behind that
/// delimiter.
pub open spec fn fields_scan(line: Seq<char>, start: int, at: int) -> Seq<Seq<char>>
    decreases line.len() - at,
{
    if at + 3 > line.len() {
        seq![line.subrange(start, line.len() as int)]
    } else if delimiter_at(line, at) {
        seq![line.subrange(start, at)] + fields_scan(line, at + 3, at + 3)
    } else {
        fields_scan(line, start, at + 1)
    }
}

/// The fields of a line: the texts between its delimiters, which are found
/// from left to right and do not overlap. A line without a delimiter is one
/// field.
pub open spec fn fields(line: Seq<char>) -> Seq<Seq<char>> {
    fields_scan(line, 0, 0)
}

/// The number that the digits stand for.
pub open spec fn digits_value(digits: Seq<char>) -> int
    decreases digits.len(),
{
    if digits.len() == 0 {
        0
    } else {
        10 * digits_value(digits.drop_last()) + digit_value(digits.last())
    }
}

/// The field begins with a sign.
pub open spec fn has_sign(field: Seq<char>) -> bool {
    field.len() > 0 && (field[0] == '-' || field[0] == '+')
}

/// The field without its sign, if it has one.
pub open spec fn unsigned_part(field: Seq<char>) -> Seq<char> {
    if has_sign(field) {
        field.drop_first()
    } else {
        field
    }
}

/// The number that the field stands for, read as a sign, if any, and digits.
pub open spec fn signed_value(field: Seq<char>) -> int {
    if field.len() > 0 && field[0] == '-' {
        -digits_value(unsigned_part(field))
    } else {
        digits_value(unsigned_part(field))
    }
}

/// The rating that a field holds: the field is an optional sign and at least
/// one digit, nothing else, and stands for a number that a rating can hold.
pub open spec fn rating_of(field: Seq<char>) -> Option<i16> {
    let digits = unsigned_part(field);
    if digits.len() > 0 && (forall|i: int| 0 <= i < digits.len() ==> is_digit(#[trigger] digits[i]))
        && i16::MIN <= signed_value(field) <= i16::MAX {
        Some(signed_value(field) as i16)
    } else {
        None
    }
}

/// The bounds of a field: where it begins and where it ends in the line.
pub open spec fn bounded(line: Seq<char>, bounds: (usize, usize)) -> Seq<char> {
    line.subrange(bounds.0 as int, bounds.1 as int)
}

/// Where the fields of the line begin and end.
pub fn split_fields(line: &Vec<char>) -> (bounds: Vec<(usize, usize)>)
    ensures
        bounds.len() == fields(line@).len(),
        forall|k: int|
            0 <= k < bounds.len() ==> {
                &&& (#[trigger] bounds[k]).0 <= bounds[k].1 <= line.len()
                &&& bounded(line@, bounds[k]) == fields(line@)[k]
            },
{
    let mut bounds: Vec<(usize, usize)> = Vec::new();
    let mut start: usize = 0;
    let mut at: usize = 0;
    let ghost mut done: Seq<Seq<char>> = Seq::empty();
    while line.len() >= 3 && at <= line.len() - 3
        invariant
            start <= at <= line.len(),
            fields(line@) == done + fields_scan(line@, start as int, at as int),
            bounds.len() == done.len(),
            forall|k: int|
                0 <= k < bounds.len() ==> {
                    &&& (#[trigger] bounds[k]).0 <= bounds[k].1 <= line.len()
                    &&& bounded(line@, bounds[k]) == done[k]
                },
        decreases line.len() - at,
    {
        if line[at] == ' ' && line[at + 1] == '-' && line[at + 2] == ' ' {
            proof {
                assert(delimiter_at(line@, at as int));
                assert(done + (seq![line@.subrange(start as int, at as int)] + fields_scan(
                    line@,
                    at + 3,
                    at + 3,
                )) =~= done.push(line@.subrange(start as int, at as int)) + fields_scan(
                    line@,
                    at + 3,
                    at + 3,
                ));
                done = done.push(line@.subrange(start as int, at as int));
            }
            bounds.push((start, at));
            start = at + 3;
            at = at + 3;
        } else {
            at += 1;
        }
    }
    proof {
        assert(fields(line@) =~= done.push(line@.subrange(start as int, line.len() as int)));
    }
    bounds.push((start, line.len()));
    bounds
}

/// The rating that the text from `from` to `to` holds, if it holds one.
pub(crate) fn parse_rating(line: &Vec<char>, from: usize, to: usize) -> (rating: Option<i16>)
    requires
        from <= to <= line.len(),
    ensures
        rating == rating_of(line@.subrange(from as int, to as int)),
{
    let ghost field = line@.subrange(from as int, to as int);
    let negative = from < to && line[from] == '-';
    let signed = from < to && (line[from] == '-' || line[from] == '+');
    let first: usize = if signed {
        from + 1
    } else {
        from
    };
    let ghost digits = unsigned_part(field);
    proof {
        assert(digits =~= line@.subrange(first as int, to as int));
    }
    if first == to {
        return None;
    }
    let mut value: i32 = 0;
    let mut too_large = false;
    let mut at: usize = first;
    proof {
        assert(digits.take(0) =~= Seq::<char>::empty());
    }
    while at < to
        invariant
            first <= at <= to <= line.len(),
            first < to,
            field == line@.subrange(from as int, to as int),
            digits == unsigned_part(field),
            digits == line@.subrange(first as int, to as int),
            negative == (field.len() > 0 && field[0] == '-'),
            forall|i: int| 0 <= i < at - first ==> is_digit(#[trigger] digits[i]),
            0 <= digits_value(digits.take(at - first)),
            !too_large ==> value == digits_value(digits.take(at - first)) && value <= 32768,
            too_large ==> digits_value(digits.take(at - first)) > 32768,
        decreases to - at,
    {
        let c = line[at];
        if !check_digit(c) {
            proof {
                assert(digits[at - first] == c);
            }
            return None;
        }
        proof {
            let longer = digits.take(at - first + 1);
            assert(longer.drop_last() =~= digits.take(at - first));
            assert(longer.last() == c);
        }
        if !too_large {
            value = 10 * value + value_of_digit(c) as i32;
            if value > 32768 {
                too_large = true;
            }
        }
        at += 1;
    }
    proof {
        assert(digits.take(to - first) =~= digits);
    }
    if too_large {
        None
    } else if negative {
        Some((-value) as i16)
    } else if value > 32767 {
        None
    } else {
        Some(value as i16)
    }
}

/// Whether the character occurs in the text from `from` to `to`.
pub(crate) fn has_char(line: &Vec<char>, from: usize, to: usize, wanted: char) -> (found: bool)
    requires
        from <= to <= line.len(),
    ensures
        found == line@.subrange(from as int, to as int).contains(wanted),
{
    let ghost field = line@.subrange(from as int, to as int);
    let mut at: usize = from;
    while at < to
        invariant
            from <= at <= to <= line.len(),
            field == line@.subrange(from as int, to as int),
            forall|i: int| 0 <= i < at - from ==> field[i] != wanted,
        decreases to - at,
    {
        if line[at] == wanted {
            proof {
                assert(field[at - from] == wanted);
            }
            return true;
        }
        at += 1;
    }
    false
}

} // verus!
