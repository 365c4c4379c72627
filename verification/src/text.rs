//! Lines of text that hold integers in fields separated by blanks.

use vstd::prelude::*;

verus! {

/// The characters that separate the fields of a line.
pub open spec fn is_blank(c: char) -> bool {
    c == ' ' || c == '\t' || c == '\r' || c == '\n'
}

/// The characters that decimal numbers are written with.
pub open spec fn is_digit(c: char) -> bool {
    '0' <= c <= '9'
}

/// The fields of a line: its longest runs of characters that are not blank,
/// from left to right.
pub open spec fn fields(line: Seq<char>) -> Seq<Seq<char>>
    decreases line.len(),
{
    if line.len() == 0 {
        Seq::empty()
    } else {
        let before = fields(line.drop_last());
        if is_blank(line.last()) {
            before
        } else if line.len() >= 2 && !is_blank(line[line.len() - 2]) {
            before.drop_last().push(before.last().push(line.last()))
        } else {
            before.push(seq![line.last()])
        }
    }
}

/// The number that a sequence of decimal digits denotes.
pub open spec fn digits_value(digits: Seq<char>) -> int
    decreases digits.len(),
{
    if digits.len() == 0 {
        0
    } else {
        digits_value(digits.drop_last()) * 10 + (digits.last() as int - '0' as int)
    }
}

/// Every character is a decimal digit.
pub open spec fn all_digits(digits: Seq<char>) -> bool {
    forall|i: int| 0 <= i < digits.len() ==> is_digit(#[trigger] digits[i])
}

/// The field starts with a sign.
pub open spec fn has_sign(field: Seq<char>) -> bool {
    field.len() > 0 && (field[0] == '-' || field[0] == '+')
}

/// The field without its sign, if it has one.
pub open spec fn unsigned_part(field: Seq<char>) -> Seq<char> {
    if has_sign(field) {
        field.skip(1)
    } else {
        field
    }
}

/// The integer that a field denotes: an optional sign, then one or more decimal
/// digits, the whole within the range of `i32`.
pub open spec fn integer_of(field: Seq<char>) -> Option<int> {
    let digits = unsigned_part(field);
    let magnitude = digits_value(digits);
    let number = if has_sign(field) && field[0] == '-' {
        -magnitude
    } else {
        magnitude
    };
    if digits.len() > 0 && all_digits(digits) && i32::MIN <= number <= i32::MAX {
        Some(number)
    } else {
        None
    }
}

/// The character sequences that the vectors hold.
pub open spec fn views(fields: Seq<Vec<char>>) -> Seq<Seq<char>> {
    fields.map_values(|field: Vec<char>| field@)
}

fn blank(c: char) -> (yes: bool)
    ensures
        yes == is_blank(c),
{
    c == ' ' || c == '\t' || c == '\r' || c == '\n'
}

/// Cuts a line into its fields.
pub fn split_fields(line: &str) -> (out: Vec<Vec<char>>)
    ensures
        views(out@) == fields(line@),
{
    let mut out: Vec<Vec<char>> = Vec::new();
    let mut in_field = false;
    assert(line@.take(0) =~= Seq::<char>::empty());
    assert(views(out@) =~= fields(line@.take(0)));
    for c in it: line.chars()
        invariant
            it.seq() == line@,
            views(out@) == fields(line@.take(it.index())),
            in_field == (it.index() > 0 && !is_blank(line@[it.index() - 1])),
            in_field ==> out@.len() > 0,
    {
        let ghost seen = line@.take(it.index());
        let ghost longer = line@.take(it.index() + 1);
        assert(longer.drop_last() =~= seen);
        assert(longer.last() == c);
        if blank(c) {
            in_field = false;
        } else if in_field {
            let ghost before = out@;
            let last = out.len() - 1;
            out[last].push(c);
            assert(views(out@) =~= views(before).drop_last().push(views(before).last().push(c)));
        } else {
            let ghost before = out@;
            let mut field: Vec<char> = Vec::new();
            field.push(c);
            out.push(field);
            assert(field@ =~= seq![c]);
            assert(views(out@) =~= views(before).push(seq![c]));
            in_field = true;
        }
    }
    assert(line@.take(line@.len() as int) =~= line@);
    out
}

/// Reads the integer that a field denotes, if it denotes one.
pub fn read_integer(field: &Vec<char>) -> (number: Option<i32>)
    ensures
        match number {
            Some(n) => integer_of(field@) == Some(n as int),
            None => integer_of(field@) is None,
        },
{
    let to = field.len();
    let signed = to > 0 && (field[0] == '-' || field[0] == '+');
    let negative = signed && field[0] == '-';
    let first: usize = if signed {
        1
    } else {
        0
    };
    let ghost digits = field@.subrange(first as int, to as int);
    assert(digits =~= unsigned_part(field@));
    if first == to {
        return None;
    }
    let limit: i64 = 0x8000_0000;
    let mut magnitude: i64 = 0;
    let mut too_large = false;
    let mut at = first;
    assert(digits.take(0) =~= Seq::<char>::empty());
    while at < to
        invariant
            first <= at <= to == field@.len(),
            digits == field@.subrange(first as int, to as int),
            digits == unsigned_part(field@),
            limit == 0x8000_0000,
            forall|i: int| 0 <= i < at - first ==> is_digit(#[trigger] digits[i]),
            !too_large ==> magnitude == digits_value(digits.take(at - first)),
            too_large ==> digits_value(digits.take(at - first)) > limit,
            0 <= magnitude <= limit,
        decreases to - at,
    {
        let c = field[at];
        if !('0' <= c && c <= '9') {
            assert(!is_digit(digits[at - first]));
            return None;
        }
        assert(digits.take(at - first + 1).drop_last() =~= digits.take(at - first));
        let digit = (c as u32 - '0' as u32) as i64;
        if !too_large {
            let next = magnitude * 10 + digit;
            if next > limit {
                too_large = true;
            } else {
                magnitude = next;
            }
        }
        at += 1;
    }
    assert(digits.take(to - first) =~= digits);
    if too_large {
        None
    } else if negative {
        Some((-magnitude) as i32)
    } else if magnitude == limit {
        None
    } else {
        Some(magnitude as i32)
    }
}

} // verus!
