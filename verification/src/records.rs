//! The text form of points and segments: one record to a line, the fields
//! of a record parted by colons.
//!
//! A point is written `Point:<x>:<y>`, a segment
//! `Path:<start.x>:<start.y>:<end.x>:<end.y>`. A line that starts with
//! another word is passed over. The numbers are decimal, with or without
//! an exponent; a coordinate holds a number in thousandths, and digits
//! behind the third decimal are dropped. Numbers are written as the
//! shortest decimal that reads back as the coordinate.

use vstd::prelude::*;
use crate::data::Error;
use crate::data::NumberError;
use crate::data::Path;
use crate::data::Point;

verus! {

/// The coordinate units that make up one: a number in a text stands for
/// the coordinate that is a thousand times as large.
pub const UNITS_PER_ONE: i32 = 1000;

/// What one line of a text holds.
#[derive(Debug, Clone, Copy, PartialEq, Eq, Structural)]
pub enum Record {
    /// A point.
    Point(Point),
    /// A segment.
    Path(Path),
    /// Nothing that this library reads.
    Other,
}

/// The byte is a decimal digit.
pub open spec fn is_digit(b: u8) -> bool {
    48 <= b <= 57
}

/// Every byte is a decimal digit.
pub open spec fn all_digits(s: Seq<u8>) -> bool {
    forall|i: int| 0 <= i < s.len() ==> is_digit(#[trigger] s[i])
}

/// The number that a row of digits writes.
pub open spec fn digits_value(s: Seq<u8>) -> nat
    decreases s.len(),
{
    if s.len() == 0 {
        0
    } else {
        digits_value(s.drop_last()) * 10 + (s.last() - 48) as nat
    }
}

/// The text starts with a sign.
pub open spec fn has_sign(s: Seq<u8>) -> bool {
    s.len() > 0 && (s[0] == 43 || s[0] == 45)
}

/// `to` ends the row of digits that starts at `from`: digits stand from
/// `from` up to it, and none stands at it.
pub open spec fn is_run_end(s: Seq<u8>, from: int, to: int) -> bool {
    &&& from <= to <= s.len()
    &&& forall|i: int| from <= i < to ==> is_digit(#[trigger] s[i])
    &&& to < s.len() ==> !is_digit(s[to])
}

/// Where the row of digits ends that starts at `from`.
pub open spec fn digit_run(s: Seq<u8>, from: int) -> int
    decreases s.len() - from,
{
    if from < 0 || from >= s.len() || !is_digit(s[from]) {
        from
    } else {
        digit_run(s, from + 1)
    }
}

/// The length of the sign: one or none.
pub open spec fn sign_len(s: Seq<u8>) -> int {
    if has_sign(s) {
        1
    } else {
        0
    }
}

/// Where the whole digits end.
pub open spec fn whole_end(s: Seq<u8>) -> int {
    digit_run(s, sign_len(s))
}

/// A full stop follows the whole digits.
pub open spec fn has_stop(s: Seq<u8>) -> bool {
    whole_end(s) < s.len() && s[whole_end(s)] == 46
}

/// Where the decimals start: behind the full stop where there is one.
pub open spec fn decimals_start(s: Seq<u8>) -> int {
    if has_stop(s) {
        whole_end(s) + 1
    } else {
        whole_end(s)
    }
}

/// Where the decimals end.
pub open spec fn decimals_end(s: Seq<u8>) -> int {
    digit_run(s, decimals_start(s))
}

/// The letter of an exponent follows the decimals.
pub open spec fn has_exponent(s: Seq<u8>) -> bool {
    decimals_end(s) < s.len() && (s[decimals_end(s)] == 101 || s[decimals_end(s)] == 69)
}

/// A sign stands behind the exponent's letter.
pub open spec fn has_exponent_sign(s: Seq<u8>) -> bool {
    decimals_end(s) + 1 < s.len() && (s[decimals_end(s) + 1] == 43 || s[decimals_end(s) + 1] == 45)
}

/// Where the digits of the exponent start.
pub open spec fn exponent_start(s: Seq<u8>) -> int {
    if has_exponent_sign(s) {
        decimals_end(s) + 2
    } else {
        decimals_end(s) + 1
    }
}

/// Where the digits of the exponent end.
pub open spec fn exponent_end(s: Seq<u8>) -> int {
    digit_run(s, exponent_start(s))
}

/// The text is a decimal number: an optional sign; digits with at most one
/// full stop among them and a digit on one side of it at least; and at
/// most one exponent, which is the letter `e` or `E`, an optional sign and
/// digits.
pub open spec fn is_decimal(s: Seq<u8>) -> bool {
    &&& (whole_end(s) - sign_len(s)) + (decimals_end(s) - decimals_start(s)) > 0
    &&& if has_exponent(s) {
        exponent_start(s) < exponent_end(s) && exponent_end(s) == s.len()
    } else {
        decimals_end(s) == s.len()
    }
}

/// The digits of the number: the whole ones and then the decimals.
pub open spec fn number_digits(s: Seq<u8>) -> Seq<u8> {
    s.subrange(sign_len(s), whole_end(s)) + s.subrange(decimals_start(s), decimals_end(s))
}

/// The exponent of the number, zero where none is written.
pub open spec fn exponent_value(s: Seq<u8>) -> int {
    if !has_exponent(s) {
        0
    } else if s[decimals_end(s) + 1] == 45 {
        -(digits_value(s.subrange(exponent_start(s), exponent_end(s))) as int)
    } else {
        digits_value(s.subrange(exponent_start(s), exponent_end(s))) as int
    }
}

/// How many of the digits are whole once the exponent has moved the full
/// stop.
pub open spec fn point_place(s: Seq<u8>) -> int {
    whole_end(s) - sign_len(s) + exponent_value(s)
}

/// The power of ten.
pub open spec fn pow10(e: nat) -> nat
    decreases e,
{
    if e == 0 {
        1
    } else {
        10 * pow10((e - 1) as nat)
    }
}

/// The number that the first `place` of the digits write, with zeros for
/// the places behind the last digit.
pub open spec fn whole_value(digits: Seq<u8>, place: int) -> nat {
    if place <= 0 {
        0
    } else if place <= digits.len() {
        digits_value(digits.take(place))
    } else {
        digits_value(digits) * pow10((place - digits.len()) as nat)
    }
}

/// The digit at a place, zero where none is written.
pub open spec fn decimal_digit(digits: Seq<u8>, i: int) -> nat {
    if 0 <= i < digits.len() {
        (digits[i] - 48) as nat
    } else {
        0
    }
}

/// The first three decimals as a number of thousandths.
pub open spec fn thousandths(decimals: Seq<u8>) -> nat {
    decimal_digit(decimals, 0) * 100 + decimal_digit(decimals, 1) * 10 + decimal_digit(decimals, 2)
}

/// The size in thousandths of the number whose first `place` digits are
/// whole: the whole part a thousandfold and the three digits behind it.
pub open spec fn shifted_size(digits: Seq<u8>, place: int) -> nat {
    whole_value(digits, place) * (UNITS_PER_ONE as nat) + decimal_digit(digits, place) * 100
        + decimal_digit(digits, place + 1) * 10 + decimal_digit(digits, place + 2)
}

/// The coordinate that a decimal number stands for.
pub open spec fn decimal_value(s: Seq<u8>) -> int {
    if s.len() > 0 && s[0] == 45 {
        -(shifted_size(number_digits(s), point_place(s)) as int)
    } else {
        shifted_size(number_digits(s), point_place(s)) as int
    }
}

/// The coordinate that a field stands for, or why it stands for none.
#[verifier::opaque]
pub open spec fn spec_parse_number(s: Seq<u8>) -> Result<i32, NumberError> {
    if s.len() == 0 {
        Err(NumberError::Empty)
    } else if !is_decimal(s) {
        Err(NumberError::Invalid)
    } else if !(i32::MIN <= decimal_value(s) <= i32::MAX) {
        Err(NumberError::OutOfRange)
    } else {
        Ok(decimal_value(s) as i32)
    }
}

/// The row of digits ends where its definition says.
pub proof fn lemma_digit_run(s: Seq<u8>, from: int)
    requires
        0 <= from <= s.len(),
    ensures
        is_run_end(s, from, digit_run(s, from)),
    decreases s.len() - from,
{
    if from < s.len() && is_digit(s[from]) {
        lemma_digit_run(s, from + 1);
        let to = digit_run(s, from + 1);
        assert forall|i: int| from <= i < to implies is_digit(#[trigger] s[i]) by {
            if i > from {
            }
        }
    }
}

/// A row of digits has one end.
pub proof fn lemma_digit_run_is(s: Seq<u8>, from: int, to: int)
    requires
        0 <= from,
        is_run_end(s, from, to),
    ensures
        digit_run(s, from) == to,
{
    lemma_digit_run(s, from);
    let other = digit_run(s, from);
    if other < to {
        assert(is_digit(s[other]));
    } else if to < other {
        assert(is_digit(s[to]));
    }
}

/// A further digit makes the number ten times as large, and the digit more.
pub proof fn lemma_digits_value_push(s: Seq<u8>, b: u8)
    ensures
        digits_value(s.push(b)) == digits_value(s) * 10 + (b - 48) as nat,
{
    assert(s.push(b).drop_last() =~= s);
}

/// A power of ten is at least one and grows with its exponent.
pub proof fn lemma_pow10_grows(a: nat, b: nat)
    requires
        a <= b,
    ensures
        1 <= pow10(a) <= pow10(b),
    decreases b,
{
    if b > 0 {
        if a < b {
            lemma_pow10_grows(a, (b - 1) as nat);
        } else {
            lemma_pow10_grows((a - 1) as nat, (b - 1) as nat);
        }
    }
}

/// Finds the end of the row of digits that starts at `from`.
pub fn scan_digits(field: &[u8], from: usize) -> (to: usize)
    requires
        from <= field@.len(),
    ensures
        to == digit_run(field@, from as int),
        is_run_end(field@, from as int, to as int),
{
    let mut to = from;
    while to < field.len() && field[to] >= 48 && field[to] <= 57
        invariant
            from <= to <= field@.len(),
            forall|i: int| from <= i < to ==> is_digit(#[trigger] field@[i]),
        decreases field@.len() - to,
    {
        to += 1;
    }
    proof {
        lemma_digit_run_is(field@, from as int, to as int);
    }
    to
}

/// Appends a stretch of a text.
fn push_range(out: &mut Vec<u8>, field: &[u8], from: usize, to: usize)
    requires
        from <= to <= field@.len(),
    ensures
        final(out)@ == old(out)@ + field@.subrange(from as int, to as int),
{
    let mut i = from;
    while i < to
        invariant
            from <= i <= to <= field@.len(),
            out@ == old(out)@ + field@.subrange(from as int, i as int),
        decreases to - i,
    {
        out.push(field[i]);
        assert(out@ =~= old(out)@ + field@.subrange(from as int, i + 1));
        i += 1;
    }
    assert(field@.subrange(from as int, to as int) =~= field@.subrange(from as int, i as int));
}

/// Reads a row of digits as a number; numbers from 2^80 on are not told
/// apart.
fn read_digits(field: &[u8], from: usize, to: usize) -> (r: Option<u128>)
    requires
        from <= to <= field@.len(),
        all_digits(field@.subrange(from as int, to as int)),
    ensures
        r matches Some(v) ==> v == digits_value(field@.subrange(from as int, to as int)) && v
            < 0x1_0000_0000_0000_0000_0000,
        r is None ==> digits_value(field@.subrange(from as int, to as int)) >= 0x1_0000_0000_0000_0000_0000,
{
    let mut value: u128 = 0;
    let mut far = false;
    let mut i = from;
    assert(field@.subrange(from as int, from as int) =~= Seq::<u8>::empty());
    while i < to
        invariant
            from <= i <= to <= field@.len(),
            all_digits(field@.subrange(from as int, to as int)),
            !far ==> value == digits_value(field@.subrange(from as int, i as int)) && value
                < 0x1_0000_0000_0000_0000_0000,
            far ==> digits_value(field@.subrange(from as int, i as int)) >= 0x1_0000_0000_0000_0000_0000,
        decreases to - i,
    {
        let b = field[i];
        proof {
            let seen = field@.subrange(from as int, i as int);
            assert(field@.subrange(from as int, to as int)[i - from] == b);
            assert(is_digit(b));
            lemma_digits_value_push(seen, b);
            assert(field@.subrange(from as int, i + 1) =~= seen.push(b));
        }
        if !far {
            value = value * 10 + (b - 48) as u128;
            if value >= 0x1_0000_0000_0000_0000_0000 {
                far = true;
            }
        }
        i += 1;
    }
    if far {
        None
    } else {
        Some(value)
    }
}

/// The size in thousandths of the number whose first `place` digits are
/// whole, or nothing where it is beyond every coordinate.
fn size_at(digits: &Vec<u8>, place: i128) -> (r: Option<u64>)
    requires
        all_digits(digits@),
    ensures
        r matches Some(v) ==> v == shifted_size(digits@, place as int) && v <= 2_147_483_999,
        r is None ==> shifted_size(digits@, place as int) > 2_147_483_999,
{
    let count = digits.len();
    let whole_count: usize = if place <= 0 {
        0
    } else if place <= count as i128 {
        place as usize
    } else {
        count
    };
    let mut whole: u64 = 0;
    let mut huge = false;
    let mut i: usize = 0;
    assert(digits@.take(0) =~= Seq::<u8>::empty());
    while i < whole_count
        invariant
            i <= whole_count <= count,
            count == digits@.len(),
            all_digits(digits@),
            !huge ==> whole == digits_value(digits@.take(i as int)) && whole <= 2_147_483,
            huge ==> digits_value(digits@.take(i as int)) > 2_147_483,
        decreases whole_count - i,
    {
        let b = digits[i];
        proof {
            assert(is_digit(digits@[i as int]));
            lemma_digits_value_push(digits@.take(i as int), b);
            assert(digits@.take(i + 1) =~= digits@.take(i as int).push(b));
        }
        if !huge {
            whole = whole * 10 + (b - 48) as u64;
            if whole > 2_147_483 {
                huge = true;
            }
        }
        i += 1;
    }
    if place > count as i128 {
        assert(digits@.take(count as int) =~= digits@);
        let extra: i128 = place - count as i128;
        let mut pad: i128 = 0;
        assert(pow10(0) == 1);
        assert(i == count);
        assert(digits_value(digits@) * pow10(0) == digits_value(digits@)) by (nonlinear_arith)
            requires
                pow10(0) == 1,
        ;
        while pad < extra && whole != 0 && !huge
            invariant
                0 <= pad <= extra,
                extra == place - count,
                count == digits@.len(),
                !huge ==> whole == digits_value(digits@) * pow10(pad as nat) && whole <= 2_147_483,
                huge ==> digits_value(digits@) * pow10(pad as nat) > 2_147_483,
            decreases extra - pad,
        {
            assert(pow10((pad + 1) as nat) == 10 * pow10(pad as nat));
            assert(digits_value(digits@) * pow10((pad + 1) as nat) == 10 * (digits_value(digits@) * pow10(
                pad as nat,
            ))) by (nonlinear_arith)
                requires
                    pow10((pad + 1) as nat) == 10 * pow10(pad as nat),
            ;
            whole = whole * 10;
            if whole > 2_147_483 {
                huge = true;
            }
            pad += 1;
        }
        proof {
            let value = digits_value(digits@);
            lemma_pow10_grows(pad as nat, extra as nat);
            if huge {
                assert(value * pow10(extra as nat) >= value * pow10(pad as nat)) by (nonlinear_arith)
                    requires
                        pow10(pad as nat) <= pow10(extra as nat),
                        value >= 0,
                ;
            } else if pad < extra {
                assert(value == 0) by (nonlinear_arith)
                    requires
                        value * pow10(pad as nat) == 0,
                        pow10(pad as nat) >= 1,
                        value >= 0,
                ;
                assert(value * pow10(extra as nat) == 0) by (nonlinear_arith)
                    requires
                        value == 0,
                ;
            }
        }
    }
    assert(!huge ==> whole == whole_value(digits@, place as int));
    assert(huge ==> whole_value(digits@, place as int) > 2_147_483);
    let a: u64 = if 0 <= place && place < count as i128 {
        (digits[place as usize] - 48) as u64
    } else {
        0
    };
    let b: u64 = if -1 <= place && place < count as i128 - 1 {
        (digits[(place + 1) as usize] - 48) as u64
    } else {
        0
    };
    let c: u64 = if -2 <= place && place < count as i128 - 2 {
        (digits[(place + 2) as usize] - 48) as u64
    } else {
        0
    };
    proof {
        if 0 <= place < count {
            assert(is_digit(digits@[place as int]));
        }
        if 0 <= place + 1 < count {
            assert(is_digit(digits@[place + 1]));
        }
        if 0 <= place + 2 < count {
            assert(is_digit(digits@[place + 2]));
        }
    }
    if huge {
        assert(shifted_size(digits@, place as int) >= whole_value(digits@, place as int) * 1000);
        None
    } else {
        Some(whole * 1000 + a * 100 + b * 10 + c)
    }
}

/// Where the parts of a number stand in its text: the whole digits from
/// `start` to `whole_to`, the decimals from `decimals_from` to
/// `decimals_to`.
pub struct Layout {
    pub start: usize,
    pub whole_to: usize,
    pub decimals_from: usize,
    pub decimals_to: usize,
}

impl Layout {
    /// The layout is that of the text.
    pub open spec fn is_of(self, s: Seq<u8>) -> bool {
        &&& self.start == sign_len(s)
        &&& self.whole_to == whole_end(s)
        &&& self.decimals_from == decimals_start(s)
        &&& self.decimals_to == decimals_end(s)
        &&& self.start <= self.whole_to <= self.decimals_from <= self.decimals_to <= s.len()
        &&& is_run_end(s, self.start as int, self.whole_to as int)
        &&& is_run_end(s, self.decimals_from as int, self.decimals_to as int)
    }
}

/// How many digits are whole once the exponent has moved the full stop:
/// the number itself, or that it lies far to the left or to the right of
/// all digits.
pub enum Place {
    At(i128),
    FarDown,
    FarUp,
}

/// Finds the whole digits and the decimals of a number.
pub fn find_layout(field: &[u8]) -> (l: Layout)
    requires
        field@.len() > 0,
    ensures
        l.is_of(field@),
{
    let n = field.len();
    let start: usize = if field[0] == 43 || field[0] == 45 {
        1
    } else {
        0
    };
    let whole_to = scan_digits(field, start);
    let decimals_from: usize = if whole_to < n && field[whole_to] == 46 {
        whole_to + 1
    } else {
        whole_to
    };
    let decimals_to = scan_digits(field, decimals_from);
    Layout { start, whole_to, decimals_from, decimals_to }
}

/// Gathers the digits of a number.
pub fn collect_digits(field: &[u8], l: &Layout) -> (digits: Vec<u8>)
    requires
        l.is_of(field@),
    ensures
        digits@ == number_digits(field@),
        all_digits(digits@),
{
    let mut digits: Vec<u8> = Vec::new();
    push_range(&mut digits, field, l.start, l.whole_to);
    push_range(&mut digits, field, l.decimals_from, l.decimals_to);
    proof {
        assert(digits@ =~= number_digits(field@));
        assert forall|i: int| 0 <= i < digits@.len() implies is_digit(#[trigger] digits@[i]) by {
            if i < l.whole_to - l.start {
                assert(digits@[i] == field@[l.start + i]);
            } else {
                assert(digits@[i] == field@[l.decimals_from + (i - (l.whole_to - l.start))]);
            }
        }
    }
    digits
}

/// What stands behind the decimals is an exponent or nothing.
pub open spec fn has_sound_end(s: Seq<u8>) -> bool {
    if has_exponent(s) {
        exponent_start(s) < exponent_end(s) && exponent_end(s) == s.len()
    } else {
        decimals_end(s) == s.len()
    }
}

/// Reads the exponent and finds how many digits are whole; nothing where
/// what stands behind the decimals is no exponent.
pub fn find_place(field: &[u8], l: &Layout) -> (r: Option<Place>)
    requires
        l.is_of(field@),
    ensures
        r.is_some() == has_sound_end(field@),
        r matches Some(Place::At(place)) ==> place == point_place(field@),
        r matches Some(Place::FarDown) ==> point_place(field@) <= -3,
        r matches Some(Place::FarUp) ==> point_place(field@) >= number_digits(field@).len() + 10,
{
    let n = field.len();
    let end = l.decimals_to;
    let whole_count: i128 = (l.whole_to - l.start) as i128;
    if end == n {
        return Some(Place::At(whole_count));
    }
    if field[end] != 101 && field[end] != 69 {
        return None;
    }
    let down = end + 1 < n && field[end + 1] == 45;
    let from: usize = if end + 1 < n && (field[end + 1] == 43 || field[end + 1] == 45) {
        end + 2
    } else {
        end + 1
    };
    let to = scan_digits(field, from);
    if to == from || to != n {
        return None;
    }
    assert(number_digits(field@).len() <= n);
    match read_digits(field, from, to) {
        Some(exponent) => {
            if down {
                Some(Place::At(whole_count - exponent as i128))
            } else {
                Some(Place::At(whole_count + exponent as i128))
            }
        },
        None => {
            if down {
                Some(Place::FarDown)
            } else {
                Some(Place::FarUp)
            }
        },
    }
}

/// Reads a decimal number as a coordinate in thousandths.
///
/// The number may start with a sign, holds digits with at most one full
/// stop among them, and may end in an exponent: `12.5`, `-.5`, `3.`,
/// `1e3`, `2.5E-1`. Digits behind the third decimal are dropped.
pub fn parse_number(field: &[u8]) -> (r: Result<i32, NumberError>)
    ensures
        r == spec_parse_number(field@),
{
    proof {
        reveal(spec_parse_number);
    }
    let n = field.len();
    if n == 0 {
        return Err(NumberError::Empty);
    }
    let negative = field[0] == 45;
    let l = find_layout(field);
    if (l.whole_to - l.start) + (l.decimals_to - l.decimals_from) == 0 {
        return Err(NumberError::Invalid);
    }
    let place = match find_place(field, &l) {
        Some(place) => place,
        None => {
            return Err(NumberError::Invalid);
        },
    };
    assert(is_decimal(field@));
    let digits = collect_digits(field, &l);
    let size = match place {
        Place::At(place) => size_at(&digits, place),
        Place::FarDown => {
            proof {
                lemma_far_down(digits@, point_place(field@));
            }
            Some(0)
        },
        Place::FarUp => {
            let as_written = size_at(&digits, digits.len() as i128);
            proof {
                lemma_far_up(digits@, point_place(field@));
            }
            match as_written {
                Some(0) => Some(0),
                _ => None,
            }
        },
    };
    signed_coordinate(negative, size, Ghost(shifted_size(digits@, point_place(field@))))
}

/// Gives a size its sign, where the coordinate is within the range.
fn signed_coordinate(negative: bool, size: Option<u64>, Ghost(exact): Ghost<nat>) -> (r: Result<
    i32,
    NumberError,
>)
    requires
        size matches Some(v) ==> v == exact,
        size is None ==> exact > 2_147_483_999,
    ensures
        r == (if !(i32::MIN <= (if negative {
            -(exact as int)
        } else {
            exact as int
        }) <= i32::MAX) {
            Err::<i32, NumberError>(NumberError::OutOfRange)
        } else {
            Ok(
                (if negative {
                    -(exact as int)
                } else {
                    exact as int
                }) as i32,
            )
        }),
{
    let size = match size {
        Some(size) => size,
        None => {
            return Err(NumberError::OutOfRange);
        },
    };
    if negative {
        if size > 2_147_483_648 {
            Err(NumberError::OutOfRange)
        } else {
            Ok((-(size as i64)) as i32)
        }
    } else {
        if size > 2_147_483_647 {
            Err(NumberError::OutOfRange)
        } else {
            Ok(size as i32)
        }
    }
}

/// A full stop moved far to the left leaves nothing within a thousandth.
pub proof fn lemma_far_down(digits: Seq<u8>, place: int)
    requires
        place <= -3,
    ensures
        shifted_size(digits, place) == 0,
{
}

/// A full stop moved far to the right makes zero of zeros and a number
/// beyond every coordinate of anything else.
pub proof fn lemma_far_up(digits: Seq<u8>, place: int)
    requires
        all_digits(digits),
        place >= digits.len() + 10,
    ensures
        digits_value(digits) == 0 ==> shifted_size(digits, place) == 0,
        digits_value(digits) > 0 ==> shifted_size(digits, place) > 2_147_483_999,
        shifted_size(digits, digits.len() as int) == digits_value(digits) * 1000,
{
    let value = digits_value(digits);
    let extra = (place - digits.len()) as nat;
    assert(digits.take(digits.len() as int) =~= digits);
    lemma_pow10_grows(10, extra);
    assert(pow10(10) == 10_000_000_000) by {
        reveal_with_fuel(pow10, 11);
    }
    if value == 0 {
        assert(value * pow10(extra) == 0) by (nonlinear_arith)
            requires
                value == 0,
        ;
    } else {
        assert(value * pow10(extra) >= 10_000_000_000) by (nonlinear_arith)
            requires
                value >= 1,
                pow10(extra) >= 10_000_000_000,
        ;
        assert(whole_value(digits, place) == value * pow10(extra));
        assert(shifted_size(digits, place) >= whole_value(digits, place) * 1000);
    }
}

/// The parts of a text between separators: an empty text is one empty
/// part; a separator ends the last part and opens an empty one; any other
/// byte joins the last part.
pub open spec fn spec_split(s: Seq<u8>, sep: u8) -> Seq<Seq<u8>>
    decreases s.len(),
{
    if s.len() == 0 {
        seq![Seq::<u8>::empty()]
    } else if s.last() == sep {
        spec_split(s.drop_last(), sep).push(Seq::<u8>::empty())
    } else {
        spec_split(s.drop_last(), sep).drop_last().push(
            spec_split(s.drop_last(), sep).last().push(s.last()),
        )
    }
}

/// The byte rows that a list of vectors holds.
pub open spec fn rows_of(parts: Seq<Vec<u8>>) -> Seq<Seq<u8>> {
    Seq::new(parts.len(), |i: int| parts[i]@)
}

/// A text always has a part.
pub proof fn lemma_split_nonempty(s: Seq<u8>, sep: u8)
    ensures
        spec_split(s, sep).len() >= 1,
    decreases s.len(),
{
    if s.len() > 0 {
        lemma_split_nonempty(s.drop_last(), sep);
    }
}

/// Parts a text at every separator.
pub fn split(bytes: &[u8], sep: u8) -> (parts: Vec<Vec<u8>>)
    ensures
        rows_of(parts@) == spec_split(bytes@, sep),
        parts@.len() >= 1,
{
    let mut parts: Vec<Vec<u8>> = Vec::new();
    let mut current: Vec<u8> = Vec::new();
    let mut i: usize = 0;
    assert(bytes@.take(0) =~= Seq::<u8>::empty());
    assert(rows_of(parts@).push(current@) =~= seq![Seq::<u8>::empty()]);
    while i < bytes.len()
        invariant
            i <= bytes@.len(),
            rows_of(parts@).push(current@) == spec_split(bytes@.take(i as int), sep),
        decreases bytes@.len() - i,
    {
        let b = bytes[i];
        let ghost before = bytes@.take(i as int);
        let ghost old_rows = rows_of(parts@);
        let ghost old_current = current@;
        proof {
            assert(bytes@.take(i + 1).drop_last() =~= before);
            assert(bytes@.take(i + 1).last() == b);
            assert(old_rows.push(old_current).drop_last() =~= old_rows);
            assert(old_rows.push(old_current).last() == old_current);
        }
        if b == sep {
            parts.push(current);
            current = Vec::new();
            proof {
                assert(rows_of(parts@) =~= old_rows.push(old_current));
            }
        } else {
            current.push(b);
        }
        i += 1;
    }
    assert(bytes@.take(bytes@.len() as int) =~= bytes@);
    let ghost old_rows = rows_of(parts@);
    let ghost old_current = current@;
    parts.push(current);
    assert(rows_of(parts@) =~= old_rows.push(old_current));
    parts
}

/// The word that starts the record of a point.
pub open spec fn point_word() -> Seq<u8> {
    seq![80u8, 111u8, 105u8, 110u8, 116u8]
}

/// The word that starts the record of a segment.
pub open spec fn path_word() -> Seq<u8> {
    seq![80u8, 97u8, 116u8, 104u8]
}

/// The field at a position; a field that the line does not have is empty.
pub open spec fn field_at(fields: Seq<Seq<u8>>, i: int) -> Seq<u8> {
    if 0 <= i < fields.len() {
        fields[i]
    } else {
        Seq::empty()
    }
}

/// The point that two fields stand for, or the first field's error.
pub open spec fn spec_parse_point(x: Seq<u8>, y: Seq<u8>) -> Result<Point, NumberError> {
    match spec_parse_number(x) {
        Err(e) => Err(e),
        Ok(px) => match spec_parse_number(y) {
            Err(e) => Err(e),
            Ok(py) => Ok(Point { x: px, y: py }),
        },
    }
}

/// What a line holds: a point or a segment where it starts with their
/// word and the fields behind it are numbers, the first error among those
/// fields where one is no number, and nothing for any other word.
pub open spec fn spec_parse_line(line: Seq<u8>) -> Result<Record, NumberError> {
    let fields = spec_split(line, 58);
    if field_at(fields, 0) == point_word() {
        match spec_parse_point(field_at(fields, 1), field_at(fields, 2)) {
            Err(e) => Err(e),
            Ok(p) => Ok(Record::Point(p)),
        }
    } else if field_at(fields, 0) == path_word() {
        match spec_parse_point(field_at(fields, 1), field_at(fields, 2)) {
            Err(e) => Err(e),
            Ok(start) => match spec_parse_point(field_at(fields, 3), field_at(fields, 4)) {
                Err(e) => Err(e),
                Ok(end) => Ok(Record::Path(Path { start, end })),
            },
        }
    } else {
        Ok(Record::Other)
    }
}

/// Tells whether a field is the word of a point.
fn is_point_word(field: &[u8]) -> (r: bool)
    ensures
        r == (field@ == point_word()),
{
    let r = field.len() == 5 && field[0] == 80 && field[1] == 111 && field[2] == 105 && field[3] == 110
        && field[4] == 116;
    proof {
        if r {
            assert(field@ =~= point_word());
        } else if field@ == point_word() {
            assert(point_word().len() == 5);
            assert(point_word()[0] == 80 && point_word()[1] == 111 && point_word()[2] == 105
                && point_word()[3] == 110 && point_word()[4] == 116);
        }
    }
    r
}

/// Tells whether a field is the word of a segment.
fn is_path_word(field: &[u8]) -> (r: bool)
    ensures
        r == (field@ == path_word()),
{
    let r = field.len() == 4 && field[0] == 80 && field[1] == 97 && field[2] == 116 && field[3] == 104;
    proof {
        if r {
            assert(field@ =~= path_word());
        } else if field@ == path_word() {
            assert(path_word().len() == 4);
            assert(path_word()[0] == 80 && path_word()[1] == 97 && path_word()[2] == 116
                && path_word()[3] == 104);
        }
    }
    r
}

/// Reads the field at a position as a number; a field that the line does
/// not have reads as an empty one.
fn parse_field(fields: &Vec<Vec<u8>>, i: usize) -> (r: Result<i32, NumberError>)
    ensures
        r == spec_parse_number(field_at(rows_of(fields@), i as int)),
{
    if i < fields.len() {
        parse_number(fields[i].as_slice())
    } else {
        let none: Vec<u8> = Vec::new();
        assert(none@ =~= Seq::<u8>::empty());
        parse_number(none.as_slice())
    }
}

/// Reads two fields as the coordinates of a point.
fn parse_point(fields: &Vec<Vec<u8>>, i: usize) -> (r: Result<Point, NumberError>)
    requires
        i < usize::MAX,
    ensures
        r == spec_parse_point(field_at(rows_of(fields@), i as int), field_at(rows_of(fields@), i + 1)),
{
    let x = match parse_field(fields, i) {
        Ok(x) => x,
        Err(e) => {
            return Err(e);
        },
    };
    let y = match parse_field(fields, i + 1) {
        Ok(y) => y,
        Err(e) => {
            return Err(e);
        },
    };
    Ok(Point { x, y })
}

/// Reads one line.
pub fn parse_line(line: &[u8]) -> (r: Result<Record, NumberError>)
    ensures
        r == spec_parse_line(line@),
{
    let fields = split(line, 58);
    if is_point_word(fields[0].as_slice()) {
        match parse_point(&fields, 1) {
            Ok(p) => Ok(Record::Point(p)),
            Err(e) => Err(e),
        }
    } else if is_path_word(fields[0].as_slice()) {
        let start = match parse_point(&fields, 1) {
            Ok(p) => p,
            Err(e) => {
                return Err(e);
            },
        };
        match parse_point(&fields, 3) {
            Ok(end) => Ok(Record::Path(Path { start, end })),
            Err(e) => Err(e),
        }
    } else {
        Ok(Record::Other)
    }
}

/// A line without the carriage return that may end it.
pub open spec fn without_return(line: Seq<u8>) -> Seq<u8> {
    if line.len() > 0 && line.last() == 13 {
        line.drop_last()
    } else {
        line
    }
}

/// The lines of a text: what stands between line feeds, each without the
/// carriage return before its line feed; what follows the last line feed
/// is a line where it is not empty.
pub open spec fn spec_lines(text: Seq<u8>) -> Seq<Seq<u8>> {
    let parts = spec_split(text, 10);
    let ended = Seq::new((parts.len() - 1) as nat, |i: int| without_return(parts[i]));
    if parts.last().len() == 0 {
        ended
    } else {
        ended.push(parts.last())
    }
}

/// The points and segments of a list of lines in their order, or the
/// error of the first line that holds one.
pub open spec fn spec_parse_lines(lines: Seq<Seq<u8>>) -> Result<(Seq<Point>, Seq<Path>), NumberError>
    decreases lines.len(),
{
    if lines.len() == 0 {
        Ok((Seq::empty(), Seq::empty()))
    } else {
        match spec_parse_lines(lines.drop_last()) {
            Err(e) => Err(e),
            Ok(found) => match spec_parse_line(lines.last()) {
                Err(e) => Err(e),
                Ok(Record::Point(p)) => Ok((found.0.push(p), found.1)),
                Ok(Record::Path(s)) => Ok((found.0, found.1.push(s))),
                Ok(Record::Other) => Ok(found),
            },
        }
    }
}

/// What a text holds.
pub open spec fn spec_parse_records(text: Seq<u8>) -> Result<(Seq<Point>, Seq<Path>), NumberError> {
    spec_parse_lines(spec_lines(text))
}

/// Once a line has failed, the lines behind it do not matter.
pub proof fn lemma_parse_lines_fails(lines: Seq<Seq<u8>>, i: int)
    requires
        0 <= i <= lines.len(),
        spec_parse_lines(lines.take(i)) is Err,
    ensures
        spec_parse_lines(lines) == spec_parse_lines(lines.take(i)),
    decreases lines.len() - i,
{
    if i < lines.len() {
        assert(lines.take(i + 1).drop_last() =~= lines.take(i));
        lemma_parse_lines_fails(lines, i + 1);
    } else {
        assert(lines.take(i) =~= lines);
    }
}

/// Parts a text into its lines.
pub fn lines(text: &[u8]) -> (r: Vec<Vec<u8>>)
    ensures
        rows_of(r@) == spec_lines(text@),
{
    let mut parts = split(text, 10);
    let ghost all = rows_of(parts@);
    let count = parts.len();
    let mut r: Vec<Vec<u8>> = Vec::new();
    let mut i: usize = 0;
    while i + 1 < count
        invariant
            i + 1 <= count,
            count == parts@.len(),
            rows_of(parts@) == all,
            r@.len() == i,
            forall|t: int| 0 <= t < i ==> (#[trigger] r@[t])@ == without_return(all[t]),
        decreases count - i,
    {
        assert(all[i as int] == parts@[i as int]@);
        let part = &parts[i];
        let mut line: Vec<u8> = Vec::new();
        let keep = if part.len() > 0 && part[part.len() - 1] == 13 {
            part.len() - 1
        } else {
            part.len()
        };
        let mut j: usize = 0;
        while j < keep
            invariant
                j <= keep <= part@.len(),
                line@ == part@.take(j as int),
            decreases keep - j,
        {
            line.push(part[j]);
            assert(part@.take(j + 1) =~= part@.take(j as int).push(part@[j as int]));
            j += 1;
        }
        proof {
            if keep == part@.len() {
                assert(part@.take(keep as int) =~= part@);
            } else {
                assert(part@.take(keep as int) =~= part@.drop_last());
            }
        }
        r.push(line);
        i += 1;
    }
    let last = parts.pop().unwrap();
    assert(last@ == all[count - 1]);
    if last.len() > 0 {
        r.push(last);
    }
    assert(rows_of(r@) =~= spec_lines(text@));
    r
}

/// Reads the points and the segments of a text.
///
/// The text is read line by line. A line that starts with the word of a
/// point or of a segment gives one, or fails on the first of its fields
/// that is no number; then nothing is returned but that error. Other lines
/// are passed over.
pub fn parse_records(text: &[u8]) -> (r: Result<(Vec<Point>, Vec<Path>), Error>)
    ensures
        match spec_parse_records(text@) {
            Ok(found) => r matches Ok(v) && v.0@ == found.0 && v.1@ == found.1,
            Err(e) => r matches Err(Error::Parse(k)) && k == e,
        },
{
    let all = lines(text);
    let ghost rows = rows_of(all@);
    let mut points: Vec<Point> = Vec::new();
    let mut paths: Vec<Path> = Vec::new();
    let mut i: usize = 0;
    assert(rows.take(0) =~= Seq::<Seq<u8>>::empty());
    while i < all.len()
        invariant
            i <= all@.len(),
            rows == rows_of(all@),
            rows == spec_lines(text@),
            spec_parse_lines(rows.take(i as int)) == Ok::<(Seq<Point>, Seq<Path>), NumberError>(
                (points@, paths@),
            ),
        decreases all@.len() - i,
    {
        proof {
            assert(rows.take(i + 1).drop_last() =~= rows.take(i as int));
            assert(rows.take(i + 1).last() == all@[i as int]@);
        }
        match parse_line(all[i].as_slice()) {
            Ok(Record::Point(p)) => {
                points.push(p);
            },
            Ok(Record::Path(s)) => {
                paths.push(s);
            },
            Ok(Record::Other) => {},
            Err(e) => {
                proof {
                    lemma_parse_lines_fails(rows, i + 1);
                }
                return Err(Error::Parse(e));
            },
        }
        i += 1;
    }
    assert(rows.take(all@.len() as int) =~= rows);
    Ok((points, paths))
}

/// The digits that write a number.
pub open spec fn digits_of(n: nat) -> Seq<u8>
    decreases n,
{
    if n < 10 {
        seq![(48 + n) as u8]
    } else {
        digits_of(n / 10).push((48 + n % 10) as u8)
    }
}

/// The size of a coordinate, without its sign.
pub open spec fn spec_size(v: i32) -> nat {
    if v < 0 {
        (-v) as nat
    } else {
        v as nat
    }
}

/// The thousandths of a coordinate: what it holds beyond whole units.
pub open spec fn spec_rest(v: i32) -> nat {
    spec_size(v) % 1000
}

/// The decimals of a coordinate: the digits of its thousandths without
/// the zeros at their end, and none where it is a whole number.
pub open spec fn decimals_of(v: i32) -> Seq<u8> {
    if spec_rest(v) == 0 {
        Seq::empty()
    } else if spec_rest(v) % 10 != 0 {
        seq![
            (48 + spec_rest(v) / 100) as u8,
            (48 + spec_rest(v) % 100 / 10) as u8,
            (48 + spec_rest(v) % 10) as u8,
        ]
    } else if spec_rest(v) % 100 != 0 {
        seq![(48 + spec_rest(v) / 100) as u8, (48 + spec_rest(v) % 100 / 10) as u8]
    } else {
        seq![(48 + spec_rest(v) / 100) as u8]
    }
}

/// What follows the whole units of a coordinate: a full stop and the
/// decimals, or nothing where it is a whole number.
pub open spec fn decimal_tail(v: i32) -> Seq<u8> {
    if decimals_of(v).len() == 0 {
        Seq::<u8>::empty()
    } else {
        seq![46u8] + decimals_of(v)
    }
}

/// The shortest decimal number that writes a coordinate: a minus sign
/// where it is negative, the whole units, and, where it is no whole
/// number, a full stop and its decimals.
#[verifier::opaque]
pub open spec fn spec_format_number(v: i32) -> Seq<u8> {
    (if v < 0 {
        seq![45u8]
    } else {
        Seq::<u8>::empty()
    }) + digits_of(spec_size(v) / (UNITS_PER_ONE as nat)) + decimal_tail(v)
}

/// The digits of a number are digits and write the number.
pub proof fn lemma_digits_of(n: nat)
    ensures
        all_digits(digits_of(n)),
        digits_of(n).len() >= 1,
        digits_value(digits_of(n)) == n,
    decreases n,
{
    if n < 10 {
        let s = digits_of(n);
        assert(s.len() == 1);
        assert(s.drop_last() =~= Seq::<u8>::empty());
        assert(digits_value(s.drop_last()) == 0);
    } else {
        lemma_digits_of(n / 10);
        lemma_digits_value_push(digits_of(n / 10), (48 + n % 10) as u8);
    }
}

/// A number below a thousand is made of its three digits.
pub proof fn lemma_three_digits(rest: nat)
    requires
        rest < 1000,
    ensures
        rest == (rest / 100) * 100 + (rest % 100 / 10) * 10 + rest % 10,
        rest / 100 < 10,
        rest % 100 / 10 < 10,
        rest % 10 < 10,
{
    let a = rest / 100;
    let b = rest % 100;
    assert(rest == a * 100 + b && b < 100 && a < 10) by (nonlinear_arith)
        requires
            rest < 1000,
            a == rest / 100,
            b == rest % 100,
    ;
    let c = b / 10;
    let d = b % 10;
    assert(b == c * 10 + d && d < 10 && c < 10) by (nonlinear_arith)
        requires
            b < 100,
            c == b / 10,
            d == b % 10,
    ;
    assert(rest % 10 == d) by (nonlinear_arith)
        requires
            rest == a * 100 + c * 10 + d,
            d < 10,
            a >= 0,
            c >= 0,
    ;
}

/// The decimals of a coordinate are digits and write its thousandths.
pub proof fn lemma_decimals_of(v: i32)
    ensures
        all_digits(decimals_of(v)),
        thousandths(decimals_of(v)) == spec_rest(v),
        decimals_of(v).len() <= 3,
{
    let rest = spec_rest(v);
    let d = decimals_of(v);
    lemma_three_digits(rest);
    if rest == 0 {
        assert(thousandths(d) == 0);
    } else if rest % 10 != 0 {
        assert(d.len() == 3);
        assert(d[0] == 48 + rest / 100 && d[1] == 48 + rest % 100 / 10 && d[2] == 48 + rest % 10);
        assert(is_digit(d[0]) && is_digit(d[1]) && is_digit(d[2]));
        assert(decimal_digit(d, 0) == rest / 100);
        assert(decimal_digit(d, 1) == rest % 100 / 10);
        assert(decimal_digit(d, 2) == rest % 10);
    } else if rest % 100 != 0 {
        assert(d.len() == 2);
        assert(d[0] == 48 + rest / 100 && d[1] == 48 + rest % 100 / 10);
        assert(is_digit(d[0]) && is_digit(d[1]));
        assert(decimal_digit(d, 0) == rest / 100);
        assert(decimal_digit(d, 1) == rest % 100 / 10);
        assert(decimal_digit(d, 2) == 0);
    } else {
        assert(d.len() == 1);
        assert(d[0] == 48 + rest / 100);
        assert(is_digit(d[0]));
        assert(decimal_digit(d, 0) == rest / 100);
        assert(decimal_digit(d, 1) == 0);
        assert(decimal_digit(d, 2) == 0);
        assert(rest % 100 / 10 == 0);
    }
}

/// The length of the sign of a coordinate: one where it is negative.
pub open spec fn minus_len(v: i32) -> int {
    if v < 0 {
        1
    } else {
        0
    }
}

/// How a written coordinate is made up: the minus sign, the whole digits,
/// and a full stop with the decimals where there are decimals.
pub proof fn lemma_format_shape(v: i32)
    ensures
        spec_format_number(v).len() == minus_len(v) + digits_of(spec_size(v) / 1000).len() + decimal_tail(
            v,
        ).len(),
        decimal_tail(v).len() == if decimals_of(v).len() == 0 {
            0
        } else {
            1 + decimals_of(v).len()
        },
        v < 0 ==> spec_format_number(v)[0] == 45,
        forall|i: int|
            0 <= i < digits_of(spec_size(v) / 1000).len() ==> #[trigger] spec_format_number(v)[minus_len(v)
                + i] == digits_of(spec_size(v) / 1000)[i],
        decimals_of(v).len() > 0 ==> spec_format_number(v)[minus_len(v) + digits_of(
            spec_size(v) / 1000,
        ).len()] == 46,
        forall|i: int|
            0 <= i < decimals_of(v).len() ==> #[trigger] spec_format_number(v)[minus_len(v) + digits_of(
                spec_size(v) / 1000,
            ).len() + 1 + i] == decimals_of(v)[i],
{
    reveal(spec_format_number);
    let whole = digits_of(spec_size(v) / 1000);
    let sign = if v < 0 {
        seq![45u8]
    } else {
        Seq::<u8>::empty()
    };
    assert(spec_format_number(v) =~= sign + whole + decimal_tail(v));
}

/// Every byte of a written coordinate is a minus sign, a digit or a full
/// stop.
pub proof fn lemma_format_bytes(v: i32)
    ensures
        forall|i: int|
            0 <= i < spec_format_number(v).len() ==> {
                ||| is_digit(#[trigger] spec_format_number(v)[i])
                ||| spec_format_number(v)[i] == 45
                ||| spec_format_number(v)[i] == 46
            },
        forall|i: int|
            minus_len(v) <= i < minus_len(v) + digits_of(spec_size(v) / 1000).len() ==> is_digit(
                #[trigger] spec_format_number(v)[i],
            ),
        forall|i: int|
            minus_len(v) + digits_of(spec_size(v) / 1000).len() < i < spec_format_number(v).len()
                ==> is_digit(#[trigger] spec_format_number(v)[i]),
{
    let text = spec_format_number(v);
    let whole = digits_of(spec_size(v) / 1000);
    let d = decimals_of(v);
    let from = minus_len(v);
    let to = from + whole.len();
    lemma_format_shape(v);
    lemma_digits_of(spec_size(v) / 1000);
    lemma_decimals_of(v);
    assert forall|i: int| from <= i < to implies is_digit(#[trigger] text[i]) by {
        assert(text[from + (i - from)] == whole[i - from]);
        assert(is_digit(whole[i - from]));
    }
    assert forall|i: int| to < i < text.len() implies is_digit(#[trigger] text[i]) by {
        assert(text[to + 1 + (i - to - 1)] == d[i - to - 1]);
        assert(is_digit(d[i - to - 1]));
    }
    assert forall|i: int| 0 <= i < text.len() implies {
        ||| is_digit(#[trigger] text[i])
        ||| text[i] == 45
        ||| text[i] == 46
    } by {
        if i < from {
        } else if i < to {
            assert(is_digit(text[i]));
        } else if i == to {
        } else {
            assert(is_digit(text[i]));
        }
    }
}

/// Where the parts of a written coordinate stand, and which digits it
/// holds.
pub proof fn lemma_format_layout(v: i32)
    ensures
        sign_len(spec_format_number(v)) == minus_len(v),
        whole_end(spec_format_number(v)) == minus_len(v) + digits_of(spec_size(v) / 1000).len(),
        decimals_end(spec_format_number(v)) == spec_format_number(v).len(),
        !has_exponent(spec_format_number(v)),
        number_digits(spec_format_number(v)) == digits_of(spec_size(v) / 1000) + decimals_of(v),
{
    let text = spec_format_number(v);
    let whole = digits_of(spec_size(v) / 1000);
    let d = decimals_of(v);
    let from = minus_len(v);
    let to = from + whole.len();
    lemma_format_shape(v);
    lemma_format_bytes(v);
    lemma_digits_of(spec_size(v) / 1000);
    assert(is_digit(text[from]));
    assert(sign_len(text) == from);
    assert(is_run_end(text, from, to));
    lemma_digit_run_is(text, from, to);
    let after = decimals_start(text);
    assert(after == if d.len() == 0 {
        to
    } else {
        to + 1
    });
    assert(is_run_end(text, after, text.len() as int));
    lemma_digit_run_is(text, after, text.len() as int);
    assert(number_digits(text) =~= whole + d) by {
        assert forall|i: int| 0 <= i < whole.len() implies text.subrange(from, to)[i] == whole[i] by {
            assert(text[from + i] == whole[i]);
        }
        assert forall|i: int| 0 <= i < d.len() implies text.subrange(after, text.len() as int)[i] == d[i] by {
            assert(text[to + 1 + i] == d[i]);
        }
        assert(text.subrange(from, to) =~= whole);
        assert(text.subrange(after, text.len() as int) =~= d);
    }
}

/// The digits of a coordinate, with the full stop behind the whole ones,
/// write its size.
pub proof fn lemma_format_size(v: i32)
    ensures
        shifted_size(
            digits_of(spec_size(v) / 1000) + decimals_of(v),
            digits_of(spec_size(v) / 1000).len() as int,
        ) == spec_size(v),
{
    let size = spec_size(v);
    let whole = digits_of(size / 1000);
    let d = decimals_of(v);
    let digits = whole + d;
    let place = whole.len() as int;
    lemma_digits_of(size / 1000);
    lemma_decimals_of(v);
    assert(digits.take(place) =~= whole);
    assert(decimal_digit(digits, place) == decimal_digit(d, 0));
    assert(decimal_digit(digits, place + 1) == decimal_digit(d, 1));
    assert(decimal_digit(digits, place + 2) == decimal_digit(d, 2));
    assert(size / 1000 * 1000 + size % 1000 == size);
}

/// Reading what writes a coordinate gives the coordinate back.
pub proof fn lemma_number_round_trip(v: i32)
    ensures
        spec_parse_number(spec_format_number(v)) == Ok::<i32, NumberError>(v),
        forall|i: int| 0 <= i < spec_format_number(v).len() ==> #[trigger] spec_format_number(v)[i] != 58
            && spec_format_number(v)[i] != 10 && spec_format_number(v)[i] != 13,
{
    reveal(spec_parse_number);
    let text = spec_format_number(v);
    lemma_format_shape(v);
    lemma_format_bytes(v);
    lemma_format_layout(v);
    lemma_format_size(v);
    lemma_digits_of(spec_size(v) / 1000);
    assert(is_decimal(text));
    assert(point_place(text) == digits_of(spec_size(v) / 1000).len());
    assert(decimal_value(text) == v);
}

/// Appends the digits of a number.
fn push_digits(out: &mut Vec<u8>, n: u64)
    ensures
        final(out)@ == old(out)@ + digits_of(n as nat),
    decreases n,
{
    if n < 10 {
        out.push(48 + n as u8);
        assert(out@ =~= old(out)@ + digits_of(n as nat));
    } else {
        push_digits(out, n / 10);
        out.push(48 + (n % 10) as u8);
        assert(out@ =~= old(out)@ + digits_of(n as nat));
    }
}

/// Appends what follows the whole units of a coordinate.
fn push_decimal_tail(out: &mut Vec<u8>, v: i32, rest: u64)
    requires
        rest == spec_rest(v),
    ensures
        final(out)@ == old(out)@ + decimal_tail(v),
{
    if rest == 0 {
        assert(out@ =~= old(out)@ + decimal_tail(v));
    } else {
        proof {
            lemma_three_digits(rest as nat);
        }
        let a: u8 = 48 + (rest / 100) as u8;
        let b: u8 = 48 + (rest % 100 / 10) as u8;
        let c: u8 = 48 + (rest % 10) as u8;
        out.push(46);
        out.push(a);
        if rest % 10 != 0 {
            out.push(b);
            out.push(c);
            assert(decimals_of(v) =~= seq![a, b, c]);
            assert(out@ =~= old(out)@ + (seq![46u8] + seq![a, b, c]));
        } else if rest % 100 != 0 {
            out.push(b);
            assert(decimals_of(v) =~= seq![a, b]);
            assert(out@ =~= old(out)@ + (seq![46u8] + seq![a, b]));
        } else {
            assert(decimals_of(v) =~= seq![a]);
            assert(out@ =~= old(out)@ + (seq![46u8] + seq![a]));
        }
    }
}

/// Appends the shortest decimal number that writes a coordinate.
pub fn push_number(out: &mut Vec<u8>, v: i32)
    ensures
        final(out)@ == old(out)@ + spec_format_number(v),
{
    let size: u64 = if v < 0 {
        (-(v as i64)) as u64
    } else {
        v as u64
    };
    if v < 0 {
        out.push(45);
    }
    let ghost signed = out@;
    push_digits(out, size / 1000);
    let ghost whole = out@;
    push_decimal_tail(out, v, size % 1000);
    proof {
        reveal(spec_format_number);
        let sign = if v < 0 {
            seq![45u8]
        } else {
            Seq::<u8>::empty()
        };
        assert(signed =~= old(out)@ + sign);
        assert(whole == signed + digits_of(size as nat / 1000));
        assert(out@ == whole + decimal_tail(v));
        assert(out@ =~= old(out)@ + (sign + digits_of(size as nat / 1000) + decimal_tail(v)));
    }
}

/// Writes a coordinate as the shortest decimal number that reads back as
/// it: `1500` as `1.5`, `2000` as `2`, `-500` as `-0.5`.
pub fn format_number(v: i32) -> (text: Vec<u8>)
    ensures
        text@ == spec_format_number(v),
{
    let mut text: Vec<u8> = Vec::new();
    push_number(&mut text, v);
    assert(text@ =~= spec_format_number(v));
    text
}

/// The line that holds a point, without the line feed.
pub open spec fn spec_point_line(p: Point) -> Seq<u8> {
    point_word().push(58u8) + spec_format_number(p.x).push(58u8) + spec_format_number(p.y)
}

/// The line that holds a segment, without the line feed.
pub open spec fn spec_path_line(s: Path) -> Seq<u8> {
    path_word().push(58u8) + spec_format_number(s.start.x).push(58u8) + spec_format_number(
        s.start.y,
    ).push(58u8) + spec_format_number(s.end.x).push(58u8) + spec_format_number(s.end.y)
}

impl Point {
    /// The record of the point: its line and a line feed.
    pub fn to_record(&self) -> (text: Vec<u8>)
        ensures
            text@ == spec_point_line(*self).push(10u8),
    {
        let mut text: Vec<u8> = Vec::new();
        text.push(80);
        text.push(111);
        text.push(105);
        text.push(110);
        text.push(116);
        text.push(58);
        push_number(&mut text, self.x);
        text.push(58);
        push_number(&mut text, self.y);
        text.push(10);
        assert(text@ =~= spec_point_line(*self).push(10u8));
        text
    }
}

impl Path {
    /// The record of the segment: its line and a line feed.
    pub fn to_record(&self) -> (text: Vec<u8>)
        ensures
            text@ == spec_path_line(*self).push(10u8),
    {
        let mut text: Vec<u8> = Vec::new();
        text.push(80);
        text.push(97);
        text.push(116);
        text.push(104);
        text.push(58);
        push_number(&mut text, self.start.x);
        text.push(58);
        push_number(&mut text, self.start.y);
        text.push(58);
        push_number(&mut text, self.end.x);
        text.push(58);
        push_number(&mut text, self.end.y);
        text.push(10);
        assert(text@ =~= spec_path_line(*self).push(10u8));
        text
    }
}

/// No byte of the text is the separator.
pub open spec fn is_free_of(s: Seq<u8>, sep: u8) -> bool {
    forall|i: int| 0 <= i < s.len() ==> #[trigger] s[i] != sep
}

/// Bytes without a separator that follow a text join its last part.
pub proof fn lemma_split_append(a: Seq<u8>, b: Seq<u8>, sep: u8)
    requires
        is_free_of(b, sep),
    ensures
        spec_split(a + b, sep) == spec_split(a, sep).drop_last().push(spec_split(a, sep).last() + b),
    decreases b.len(),
{
    lemma_split_nonempty(a, sep);
    let parts = spec_split(a, sep);
    if b.len() == 0 {
        assert(a + b =~= a);
        assert(parts.last() + b =~= parts.last());
        assert(parts.drop_last().push(parts.last()) =~= parts);
    } else {
        let front = b.drop_last();
        assert(is_free_of(front, sep)) by {
            assert forall|i: int| 0 <= i < front.len() implies #[trigger] front[i] != sep by {
                assert(front[i] == b[i]);
            }
        }
        lemma_split_append(a, front, sep);
        assert((a + b).drop_last() =~= a + front);
        assert((a + b).last() == b.last());
        assert(b.last() != sep) by {
            assert(b[b.len() - 1] != sep);
        }
        let grown = parts.drop_last().push(parts.last() + front);
        assert(grown.drop_last() =~= parts.drop_last());
        assert(grown.last() == parts.last() + front);
        assert((parts.last() + front).push(b.last()) =~= parts.last() + b);
    }
}

/// A text without a separator is its own single part.
pub proof fn lemma_split_plain(s: Seq<u8>, sep: u8)
    requires
        is_free_of(s, sep),
    ensures
        spec_split(s, sep) == seq![s],
{
    let none = Seq::<u8>::empty();
    lemma_split_append(none, s, sep);
    assert(none + s =~= s);
    assert(spec_split(none, sep) =~= seq![none]);
    assert(seq![none].drop_last().push(seq![none].last() + s) =~= seq![s]);
}

/// A separator and bytes without one that follow a text make a new part.
pub proof fn lemma_split_field(a: Seq<u8>, b: Seq<u8>, sep: u8)
    requires
        is_free_of(b, sep),
    ensures
        spec_split(a.push(sep) + b, sep) == spec_split(a, sep).push(b),
{
    let opened = a.push(sep);
    assert(opened.drop_last() =~= a);
    assert(spec_split(opened, sep) == spec_split(a, sep).push(Seq::<u8>::empty()));
    lemma_split_append(opened, b, sep);
    let parts = spec_split(opened, sep);
    assert(parts.drop_last() =~= spec_split(a, sep));
    assert(parts.last() + b =~= b);
}

/// A word and numbers with a colon before each number.
pub open spec fn spec_fields_line(word: Seq<u8>, numbers: Seq<Seq<u8>>) -> Seq<u8>
    decreases numbers.len(),
{
    if numbers.len() == 0 {
        word
    } else {
        spec_fields_line(word, numbers.drop_last()).push(58u8) + numbers.last()
    }
}

/// The line of a word and two numbers.
pub proof fn lemma_fields_line_two(word: Seq<u8>, x: Seq<u8>, y: Seq<u8>)
    ensures
        spec_fields_line(word, seq![x, y]) == word.push(58u8) + x.push(58u8) + y,
{
    let two = seq![x, y];
    let one = seq![x];
    let none = Seq::<Seq<u8>>::empty();
    assert(two.drop_last() =~= one);
    assert(one.drop_last() =~= none);
    assert(spec_fields_line(word, none) == word);
    assert(spec_fields_line(word, one) == word.push(58u8) + x);
    assert(spec_fields_line(word, two) == (word.push(58u8) + x).push(58u8) + y);
    assert((word.push(58u8) + x).push(58u8) + y =~= word.push(58u8) + x.push(58u8) + y);
}

/// The line of a word and four numbers.
pub proof fn lemma_fields_line_four(word: Seq<u8>, a: Seq<u8>, b: Seq<u8>, c: Seq<u8>, d: Seq<u8>)
    ensures
        spec_fields_line(word, seq![a, b, c, d]) == word.push(58u8) + a.push(58u8) + b.push(58u8)
            + c.push(58u8) + d,
{
    let four = seq![a, b, c, d];
    let three = seq![a, b, c];
    let two = seq![a, b];
    let one = seq![a];
    let none = Seq::<Seq<u8>>::empty();
    assert(four.drop_last() =~= three);
    assert(three.drop_last() =~= two);
    assert(two.drop_last() =~= one);
    assert(one.drop_last() =~= none);
    assert(spec_fields_line(word, none) == word);
    let l1 = word.push(58u8) + a;
    let l2 = l1.push(58u8) + b;
    let l3 = l2.push(58u8) + c;
    let l4 = l3.push(58u8) + d;
    assert(spec_fields_line(word, one) == l1);
    assert(spec_fields_line(word, two) == l2);
    assert(spec_fields_line(word, three) == l3);
    assert(spec_fields_line(word, four) == l4);
    assert(word.push(58u8) + a.push(58u8) =~= l1.push(58u8));
    assert(l1.push(58u8) + b.push(58u8) =~= l2.push(58u8));
    assert(l2.push(58u8) + c.push(58u8) =~= l3.push(58u8));
}

/// The two words hold no colon, line feed or carriage return.
pub proof fn lemma_word_is_plain()
    ensures
        is_free_of(point_word(), 58),
        is_free_of(point_word(), 10),
        is_free_of(point_word(), 13),
        is_free_of(path_word(), 58),
        is_free_of(path_word(), 10),
        is_free_of(path_word(), 13),
{
}

/// Two texts without a separator make one without it.
pub proof fn lemma_free_of_concat(a: Seq<u8>, b: Seq<u8>, sep: u8)
    requires
        is_free_of(a, sep),
        is_free_of(b, sep),
    ensures
        is_free_of(a + b, sep),
{
    assert forall|i: int| 0 <= i < (a + b).len() implies #[trigger] (a + b)[i] != sep by {
        if i < a.len() {
            assert((a + b)[i] == a[i]);
        } else {
            assert((a + b)[i] == b[i - a.len()]);
        }
    }
}

/// A text without a separator stays so when another byte joins it.
pub proof fn lemma_free_of_push(a: Seq<u8>, b: u8, sep: u8)
    requires
        is_free_of(a, sep),
        b != sep,
    ensures
        is_free_of(a.push(b), sep),
{
    assert forall|i: int| 0 <= i < a.push(b).len() implies #[trigger] a.push(b)[i] != sep by {
        if i < a.len() {
            assert(a.push(b)[i] == a[i]);
        }
    }
}

/// The fields of a word and two more fields that colons part.
pub proof fn lemma_fields_of_three(word: Seq<u8>, x: Seq<u8>, y: Seq<u8>)
    requires
        is_free_of(word, 58),
        is_free_of(x, 58),
        is_free_of(y, 58),
    ensures
        spec_split(word.push(58u8) + x.push(58u8) + y, 58) == seq![word, x, y],
{
    lemma_split_plain(word, 58);
    lemma_split_field(word, x, 58);
    lemma_split_field(word.push(58u8) + x, y, 58);
    assert(word.push(58u8) + x.push(58u8) + y =~= (word.push(58u8) + x).push(58u8) + y);
    assert(seq![word].push(x).push(y) =~= seq![word, x, y]);
}

/// The fields of a word and four more fields that colons part.
pub proof fn lemma_fields_of_five(word: Seq<u8>, a: Seq<u8>, b: Seq<u8>, c: Seq<u8>, d: Seq<u8>)
    requires
        is_free_of(word, 58),
        is_free_of(a, 58),
        is_free_of(b, 58),
        is_free_of(c, 58),
        is_free_of(d, 58),
    ensures
        spec_split(word.push(58u8) + a.push(58u8) + b.push(58u8) + c.push(58u8) + d, 58) == seq![
            word,
            a,
            b,
            c,
            d,
        ],
{
    let t1 = word.push(58u8) + a;
    let t2 = t1.push(58u8) + b;
    let t3 = t2.push(58u8) + c;
    lemma_split_plain(word, 58);
    lemma_split_field(word, a, 58);
    lemma_split_field(t1, b, 58);
    lemma_split_field(t2, c, 58);
    lemma_split_field(t3, d, 58);
    assert(word.push(58u8) + a.push(58u8) =~= t1.push(58u8));
    assert(t1.push(58u8) + b.push(58u8) =~= t2.push(58u8));
    assert(t2.push(58u8) + c.push(58u8) =~= t3.push(58u8));
    assert(seq![word].push(a).push(b).push(c).push(d) =~= seq![word, a, b, c, d]);
}

/// A line made of a word and numbers holds neither a line feed nor a
/// carriage return where the word and the numbers hold none.
pub proof fn lemma_line_free_of(word: Seq<u8>, numbers: Seq<Seq<u8>>, sep: u8) -> (line: Seq<u8>)
    requires
        sep != 58,
        is_free_of(word, sep),
        forall|i: int| 0 <= i < numbers.len() ==> is_free_of(#[trigger] numbers[i], sep),
    ensures
        line == spec_fields_line(word, numbers),
        is_free_of(line, sep),
    decreases numbers.len(),
{
    if numbers.len() == 0 {
        word
    } else {
        let front = lemma_line_free_of(word, numbers.drop_last(), sep);
        lemma_free_of_push(front, 58, sep);
        lemma_free_of_concat(front.push(58u8), numbers.last(), sep);
        front.push(58u8) + numbers.last()
    }
}

/// What writes a coordinate reads back as the coordinate, and holds no
/// colon, line feed or carriage return.
pub proof fn lemma_number_text(v: i32) -> (text: Seq<u8>)
    ensures
        text == spec_format_number(v),
        spec_parse_number(text) == Ok::<i32, NumberError>(v),
        is_free_of(text, 58),
        is_free_of(text, 10),
        is_free_of(text, 13),
{
    lemma_number_round_trip(v);
    spec_format_number(v)
}

/// A line whose fields are the word of a point and two numbers holds the
/// point of those numbers.
pub proof fn lemma_parse_point_line(line: Seq<u8>, x: Seq<u8>, y: Seq<u8>, p: Point)
    requires
        spec_split(line, 58) == seq![point_word(), x, y],
        spec_parse_number(x) == Ok::<i32, NumberError>(p.x),
        spec_parse_number(y) == Ok::<i32, NumberError>(p.y),
    ensures
        spec_parse_line(line) == Ok::<Record, NumberError>(Record::Point(p)),
{
    let fields = spec_split(line, 58);
    assert(field_at(fields, 0) == point_word());
    assert(field_at(fields, 1) == x);
    assert(field_at(fields, 2) == y);
}

/// A line whose fields are the word of a segment and four numbers holds
/// the segment of those numbers.
pub proof fn lemma_parse_path_line(line: Seq<u8>, a: Seq<u8>, b: Seq<u8>, c: Seq<u8>, d: Seq<u8>, s: Path)
    requires
        spec_split(line, 58) == seq![path_word(), a, b, c, d],
        spec_parse_number(a) == Ok::<i32, NumberError>(s.start.x),
        spec_parse_number(b) == Ok::<i32, NumberError>(s.start.y),
        spec_parse_number(c) == Ok::<i32, NumberError>(s.end.x),
        spec_parse_number(d) == Ok::<i32, NumberError>(s.end.y),
    ensures
        spec_parse_line(line) == Ok::<Record, NumberError>(Record::Path(s)),
{
    let fields = spec_split(line, 58);
    assert(field_at(fields, 0) == path_word());
    assert(field_at(fields, 1) == a);
    assert(field_at(fields, 2) == b);
    assert(field_at(fields, 3) == c);
    assert(field_at(fields, 4) == d);
    assert(path_word() != point_word()) by {
        assert(path_word().len() != point_word().len());
    }
    assert(spec_parse_point(a, b) == Ok::<Point, NumberError>(s.start));
    assert(spec_parse_point(c, d) == Ok::<Point, NumberError>(s.end));
}

/// Reading the line of a point gives the point back.
pub proof fn lemma_point_line_round_trip(p: Point)
    ensures
        spec_parse_line(spec_point_line(p)) == Ok::<Record, NumberError>(Record::Point(p)),
        is_free_of(spec_point_line(p), 10),
        is_free_of(spec_point_line(p), 13),
{
    let x = lemma_number_text(p.x);
    let y = lemma_number_text(p.y);
    lemma_word_is_plain();
    lemma_fields_of_three(point_word(), x, y);
    lemma_fields_line_two(point_word(), x, y);
    let numbers = seq![x, y];
    assert forall|i: int| 0 <= i < numbers.len() implies is_free_of(#[trigger] numbers[i], 10)
        && is_free_of(numbers[i], 13) by {}
    lemma_line_free_of(point_word(), numbers, 10);
    lemma_line_free_of(point_word(), numbers, 13);
    lemma_parse_point_line(spec_point_line(p), x, y, p);
}

/// Reading the line of a segment gives the segment back.
pub proof fn lemma_path_line_round_trip(s: Path)
    ensures
        spec_parse_line(spec_path_line(s)) == Ok::<Record, NumberError>(Record::Path(s)),
        is_free_of(spec_path_line(s), 10),
        is_free_of(spec_path_line(s), 13),
{
    let a = lemma_number_text(s.start.x);
    let b = lemma_number_text(s.start.y);
    let c = lemma_number_text(s.end.x);
    let d = lemma_number_text(s.end.y);
    lemma_word_is_plain();
    lemma_fields_of_five(path_word(), a, b, c, d);
    lemma_fields_line_four(path_word(), a, b, c, d);
    let numbers = seq![a, b, c, d];
    assert forall|i: int| 0 <= i < numbers.len() implies is_free_of(#[trigger] numbers[i], 10)
        && is_free_of(numbers[i], 13) by {}
    lemma_line_free_of(path_word(), numbers, 10);
    lemma_line_free_of(path_word(), numbers, 13);
    lemma_parse_path_line(spec_path_line(s), a, b, c, d, s);
}

/// The text of a list of lines: each line with a line feed behind it.
pub open spec fn spec_join_lines(lines: Seq<Seq<u8>>) -> Seq<u8>
    decreases lines.len(),
{
    if lines.len() == 0 {
        Seq::empty()
    } else {
        spec_join_lines(lines.drop_last()) + lines.last().push(10u8)
    }
}

/// The lines of the points, then those of the segments.
pub open spec fn record_lines(points: Seq<Point>, paths: Seq<Path>) -> Seq<Seq<u8>> {
    Seq::new(points.len(), |i: int| spec_point_line(points[i])) + Seq::new(
        paths.len(),
        |i: int| spec_path_line(paths[i]),
    )
}

/// The text that holds the points and then the segments, a record each.
pub open spec fn spec_format_records(points: Seq<Point>, paths: Seq<Path>) -> Seq<u8> {
    spec_join_lines(record_lines(points, paths))
}

/// A text made of lines that hold neither line feed nor carriage return
/// parts into those lines again.
pub proof fn lemma_join_then_split(lines: Seq<Seq<u8>>)
    requires
        forall|i: int| 0 <= i < lines.len() ==> is_free_of(#[trigger] lines[i], 10) && is_free_of(lines[i], 13),
    ensures
        spec_split(spec_join_lines(lines), 10) == lines.push(Seq::<u8>::empty()),
        spec_lines(spec_join_lines(lines)) == lines,
    decreases lines.len(),
{
    let none = Seq::<u8>::empty();
    if lines.len() == 0 {
        assert(spec_split(spec_join_lines(lines), 10) =~= lines.push(none));
    } else {
        let front = lines.drop_last();
        let l = lines.last();
        assert forall|i: int| 0 <= i < front.len() implies is_free_of(#[trigger] front[i], 10)
            && is_free_of(front[i], 13) by {
            assert(front[i] == lines[i]);
        }
        lemma_join_then_split(front);
        let text = spec_join_lines(front);
        lemma_split_append(text, l, 10);
        assert(spec_split(text, 10).drop_last() =~= front);
        assert(none + l =~= l);
        assert(spec_split(text + l, 10) == front.push(l));
        assert(text + l.push(10u8) =~= (text + l).push(10u8));
        assert((text + l).push(10u8).drop_last() =~= text + l);
        assert(front.push(l) =~= lines);
    }
    let parts = spec_split(spec_join_lines(lines), 10);
    assert(parts.last() == none);
    assert forall|i: int| 0 <= i < lines.len() implies without_return(#[trigger] parts[i]) == lines[i] by {
        assert(parts[i] == lines[i]);
        if lines[i].len() > 0 {
            assert(lines[i][lines[i].len() - 1] != 13);
        }
    }
    assert(spec_lines(spec_join_lines(lines)) =~= lines);
}

/// What a further line adds to what the lines before it hold.
pub proof fn lemma_parse_lines_push(lines: Seq<Seq<u8>>, line: Seq<u8>)
    ensures
        spec_parse_lines(lines.push(line)) == match spec_parse_lines(lines) {
            Err(e) => Err::<(Seq<Point>, Seq<Path>), NumberError>(e),
            Ok(found) => match spec_parse_line(line) {
                Err(e) => Err(e),
                Ok(Record::Point(p)) => Ok((found.0.push(p), found.1)),
                Ok(Record::Path(s)) => Ok((found.0, found.1.push(s))),
                Ok(Record::Other) => Ok(found),
            },
        },
{
    assert(lines.push(line).drop_last() =~= lines);
    assert(lines.push(line).last() == line);
}

/// Reading the lines of points and segments gives them back.
pub proof fn lemma_record_lines_parse(points: Seq<Point>, paths: Seq<Path>)
    ensures
        spec_parse_lines(record_lines(points, paths)) == Ok::<(Seq<Point>, Seq<Path>), NumberError>(
            (points, paths),
        ),
    decreases points.len() + paths.len(),
{
    let lines = record_lines(points, paths);
    if paths.len() > 0 {
        let before = paths.drop_last();
        let line = spec_path_line(paths.last());
        lemma_record_lines_parse(points, before);
        lemma_path_line_round_trip(paths.last());
        lemma_parse_lines_push(record_lines(points, before), line);
        assert(lines =~= record_lines(points, before).push(line));
        assert(before.push(paths.last()) =~= paths);
    } else if points.len() > 0 {
        let before = points.drop_last();
        let line = spec_point_line(points.last());
        lemma_record_lines_parse(before, paths);
        lemma_point_line_round_trip(points.last());
        lemma_parse_lines_push(record_lines(before, paths), line);
        assert(lines =~= record_lines(before, paths).push(line));
        assert(before.push(points.last()) =~= points);
    } else {
        assert(lines =~= Seq::<Seq<u8>>::empty());
        assert(points =~= Seq::<Point>::empty());
        assert(paths =~= Seq::<Path>::empty());
    }
}

/// Reading the text that holds points and segments gives them back in
/// their order.
pub proof fn lemma_records_round_trip(points: Seq<Point>, paths: Seq<Path>)
    ensures
        spec_parse_records(spec_format_records(points, paths)) == Ok::<
            (Seq<Point>, Seq<Path>),
            NumberError,
        >((points, paths)),
{
    let lines = record_lines(points, paths);
    assert forall|i: int| 0 <= i < lines.len() implies is_free_of(#[trigger] lines[i], 10) && is_free_of(
        lines[i],
        13,
    ) by {
        if i < points.len() {
            lemma_point_line_round_trip(points[i]);
        } else {
            lemma_path_line_round_trip(paths[i - points.len()]);
        }
    }
    lemma_join_then_split(lines);
    lemma_record_lines_parse(points, paths);
}

/// Writes the points and then the segments, a record each.
pub fn format_records(points: &Vec<Point>, paths: &Vec<Path>) -> (text: Vec<u8>)
    ensures
        text@ == spec_format_records(points@, paths@),
{
    let mut text: Vec<u8> = Vec::new();
    let ghost none = Seq::<Path>::empty();
    let mut i: usize = 0;
    assert(record_lines(points@.take(0), none) =~= Seq::<Seq<u8>>::empty());
    while i < points.len()
        invariant
            i <= points@.len(),
            none == Seq::<Path>::empty(),
            text@ == spec_join_lines(record_lines(points@.take(i as int), none)),
        decreases points@.len() - i,
    {
        let mut record = points[i].to_record();
        proof {
            let lines = record_lines(points@.take(i + 1), none);
            assert(lines.drop_last() =~= record_lines(points@.take(i as int), none));
            assert(lines.last() == spec_point_line(points@[i as int]));
        }
        text.append(&mut record);
        i += 1;
    }
    assert(points@.take(points@.len() as int) =~= points@);
    assert(record_lines(points@, paths@.take(0)) =~= record_lines(points@, none));
    let mut j: usize = 0;
    while j < paths.len()
        invariant
            j <= paths@.len(),
            text@ == spec_join_lines(record_lines(points@, paths@.take(j as int))),
        decreases paths@.len() - j,
    {
        let mut record = paths[j].to_record();
        proof {
            let lines = record_lines(points@, paths@.take(j + 1));
            assert(lines.drop_last() =~= record_lines(points@, paths@.take(j as int)));
            assert(lines.last() == spec_path_line(paths@[j as int]));
        }
        text.append(&mut record);
        j += 1;
    }
    assert(paths@.take(paths@.len() as int) =~= paths@);
    text
}

} // verus!
