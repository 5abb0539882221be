//! Numbers written as text: reading and writing decimals, zero padding, hexadecimals.

use vstd::prelude::*;

use crate::text::{lemma_order_by_parts, lemma_text_order_total, text_before};

verus! {

/// A decimal digit.
pub open spec fn is_digit(character: char) -> bool {
    '0' <= character <= '9'
}

/// The value of a decimal digit.
pub open spec fn digit_value(character: char) -> nat {
    (character as int - '0' as int) as nat
}

/// The decimal digit of a value below ten.
pub open spec fn digit_char(value: nat) -> char {
    (value + '0' as int) as char
}

/// Every character is a decimal digit.
pub open spec fn all_digits(text: Seq<char>) -> bool {
    forall|i: int| 0 <= i < text.len() ==> is_digit(#[trigger] text[i])
}

/// The number that a run of decimal digits stands for.
pub open spec fn decimal(digits: Seq<char>) -> nat
    decreases digits.len(),
{
    if digits.len() == 0 {
        0
    } else {
        decimal(digits.drop_last()) * 10 + digit_value(digits.last())
    }
}

/// The decimal digits of a number, without leading zeros.
pub open spec fn digits_of(number: nat) -> Seq<char>
    decreases number,
{
    if number < 10 {
        seq![digit_char(number)]
    } else {
        digits_of(number / 10).push(digit_char(number % 10))
    }
}

/// A text filled up with zeros on the left to at least `width` characters.
pub open spec fn zero_filled(text: Seq<char>, width: nat) -> Seq<char> {
    if text.len() >= width {
        text
    } else {
        Seq::new((width - text.len()) as nat, |i: int| '0') + text
    }
}

/// A number filled up with zeros to at least `width` characters; the sign of a
/// negative number counts as one of them.
pub open spec fn padded(number: int, width: nat) -> Seq<char> {
    if number < 0 {
        seq!['-'] + zero_filled(digits_of((-number) as nat), (width - 1) as nat)
    } else {
        zero_filled(digits_of(number as nat), width)
    }
}

/// What an unsigned number of at most `max` is read from: an optional plus sign and digits.
pub open spec fn unsigned_value(text: Seq<char>, max: nat) -> Option<nat> {
    let digits = if text.len() > 0 && text[0] == '+' {
        text.skip(1)
    } else {
        text
    };
    if digits.len() > 0 && all_digits(digits) && decimal(digits) <= max {
        Some(decimal(digits))
    } else {
        None
    }
}

/// What a number from `-max - 1` to `max` is read from: an optional sign and digits.
pub open spec fn signed_value(text: Seq<char>, max: nat) -> Option<int> {
    if text.len() > 0 && text[0] == '-' {
        match unsigned_digits(text.skip(1)) {
            Some(value) if value <= max + 1 => Some(-(value as int)),
            _ => None,
        }
    } else {
        match unsigned_value(text, max) {
            Some(value) => Some(value as int),
            None => None,
        }
    }
}

/// The value of a nonempty run of digits.
pub open spec fn unsigned_digits(text: Seq<char>) -> Option<nat> {
    if text.len() > 0 && all_digits(text) {
        Some(decimal(text))
    } else {
        None
    }
}

/// The last `width` hexadecimal digits of a number, in lower case.
pub open spec fn hexadecimal(number: nat, width: nat) -> Seq<char>
    decreases width,
{
    if width == 0 {
        Seq::empty()
    } else {
        hexadecimal(number / 16, (width - 1) as nat).push(hexadecimal_digit(number % 16))
    }
}

/// The hexadecimal digits of a number, without leading zeros, in lower case.
pub open spec fn hexadecimal_digits(number: nat) -> Seq<char>
    decreases number,
{
    if number < 16 {
        seq![hexadecimal_digit(number)]
    } else {
        hexadecimal_digits(number / 16).push(hexadecimal_digit(number % 16))
    }
}

/// The hexadecimal digit of a value below sixteen.
pub open spec fn hexadecimal_digit(value: nat) -> char {
    if value < 10 {
        (value + '0' as int) as char
    } else {
        (value - 10 + 'a' as int) as char
    }
}

// ---------------------------------------------------------------------------
// Facts
// ---------------------------------------------------------------------------

/// The digits of a number are digits, and stand for it.
pub proof fn lemma_digits_of(number: nat)
    ensures
        digits_of(number).len() > 0,
        all_digits(digits_of(number)),
        decimal(digits_of(number)) == number,
    decreases number,
{
    if number < 10 {
        let digits = digits_of(number);
        assert(digits.drop_last() =~= Seq::<char>::empty());
        assert(decimal(digits.drop_last()) == 0);
    } else {
        lemma_digits_of(number / 10);
        let digits = digits_of(number);
        assert(digits.drop_last() =~= digits_of(number / 10));
        assert forall|i: int| 0 <= i < digits.len() implies is_digit(#[trigger] digits[i]) by {
            if i < digits.len() - 1 {
                assert(digits[i] == digits_of(number / 10)[i]);
            }
        }
    }
}

/// Reading back what was written gives the number.
pub proof fn law_written_number_is_read_back(number: nat, max: nat)
    requires
        number <= max,
    ensures
        unsigned_value(digits_of(number), max) == Some(number),
        signed_value(digits_of(number), max) == Some(number as int),
{
    lemma_digits_of(number);
    assert(is_digit(digits_of(number)[0]));
}

/// A run of digits stands for at least what its start stands for.
pub proof fn lemma_decimal_grows(digits: Seq<char>, n: int)
    requires
        0 <= n <= digits.len(),
    ensures
        decimal(digits.take(n)) <= decimal(digits),
    decreases digits.len() - n,
{
    if n < digits.len() {
        lemma_decimal_grows(digits, n + 1);
        assert(digits.take(n + 1).drop_last() =~= digits.take(n));
    } else {
        assert(digits.take(n) =~= digits);
    }
}

/// Zeros on the left do not change what a run of digits stands for.
pub proof fn lemma_zero_filled(text: Seq<char>, width: nat)
    requires
        all_digits(text),
    ensures
        all_digits(zero_filled(text, width)),
        decimal(zero_filled(text, width)) == decimal(text),
        zero_filled(text, width).len() == if text.len() >= width { text.len() } else { width },
    decreases text.len(),
{
    let filled = zero_filled(text, width);
    if text.len() < width {
        let zeros = Seq::new((width - text.len()) as nat, |i: int| '0');
        assert forall|i: int| 0 <= i < filled.len() implies is_digit(#[trigger] filled[i]) by {
            if i >= zeros.len() {
                assert(filled[i] == text[i - zeros.len()]);
            }
        }
        lemma_decimal_of_zeros(zeros, text);
    }
}

/// Zeros before a run of digits do not change what it stands for.
pub proof fn lemma_decimal_of_zeros(zeros: Seq<char>, text: Seq<char>)
    requires
        forall|i: int| 0 <= i < zeros.len() ==> #[trigger] zeros[i] == '0',
    ensures
        decimal(zeros + text) == decimal(text),
    decreases zeros.len() + text.len(),
{
    if text.len() > 0 {
        assert((zeros + text).drop_last() =~= zeros + text.drop_last());
        lemma_decimal_of_zeros(zeros, text.drop_last());
    } else if zeros.len() > 0 {
        assert((zeros + text).drop_last() =~= zeros.drop_last() + text);
        assert((zeros + text).last() == zeros.last());
        lemma_decimal_of_zeros(zeros.drop_last(), text);
        assert(decimal(text) == 0);
    } else {
        assert(zeros + text =~= text);
    }
}

/// Runs of digits of the same length are ordered as the numbers that they stand for.
pub proof fn lemma_digits_order(left: Seq<char>, right: Seq<char>)
    requires
        left.len() == right.len(),
        all_digits(left),
        all_digits(right),
    ensures
        text_before(left, right) == (decimal(left) < decimal(right)),
        (left == right) == (decimal(left) == decimal(right)),
    decreases left.len(),
{
    if left.len() == 0 {
        assert(left =~= right);
    } else {
        lemma_digits_order(left.drop_last(), right.drop_last());
        lemma_order_by_parts(left.drop_last(), right.drop_last(), seq![left.last()], seq![right.last()]);
        assert(left =~= left.drop_last() + seq![left.last()]);
        assert(right =~= right.drop_last() + seq![right.last()]);
        assert(is_digit(left.last()));
        assert(is_digit(right.last()));
        lemma_text_order_total(left, right);
        if left.last() == right.last() {
            assert(seq![left.last()].skip(1) =~= Seq::<char>::empty());
            assert(seq![right.last()].skip(1) =~= Seq::<char>::empty());
        }
    }
}

/// A number that fits in the width of its padded text is read back from it.
pub proof fn lemma_padded_is_read_back(number: int, width: nat, max: nat)
    requires
        width == 2 && 0 <= number < 100 || width == 4 && 0 <= number < 10_000,
        number <= max,
    ensures
        padded(number, width).len() == width,
        all_digits(padded(number, width)),
        unsigned_value(padded(number, width), max) == Some(number as nat),
{
    lemma_padded_order(number, number, width);
    lemma_digits_of(number as nat);
    lemma_zero_filled(digits_of(number as nat), width);
    assert(is_digit(padded(number, width)[0]));
}

/// Numbers that fit in the same width are ordered by their padded texts as they are.
pub proof fn lemma_padded_order(left: int, right: int, width: nat)
    requires
        width == 2 && 0 <= left < 100 && 0 <= right < 100 || width == 4 && 0 <= left < 10_000 && 0
            <= right < 10_000,
    ensures
        padded(left, width).len() == width,
        padded(right, width).len() == width,
        text_before(padded(left, width), padded(right, width)) == (left < right),
        (padded(left, width) == padded(right, width)) == (left == right),
{
    reveal_with_fuel(digits_of, 5);
    lemma_digits_of(left as nat);
    lemma_digits_of(right as nat);
    lemma_zero_filled(digits_of(left as nat), width);
    lemma_zero_filled(digits_of(right as nat), width);
    lemma_digits_order(padded(left, width), padded(right, width));
}

// ---------------------------------------------------------------------------
// Reading and writing
// ---------------------------------------------------------------------------

/// Whether a character is a decimal digit.
pub fn is_decimal_digit(character: char) -> (found: bool)
    ensures
        found == is_digit(character),
{
    '0' <= character && character <= '9'
}

/// Reads the digits from `from` on as a number of at most `max`.
pub fn read_digits(text: &Vec<char>, from: usize, max: u128) -> (value: Option<u128>)
    requires
        from <= text@.len(),
    ensures
        match value {
            Some(value) => unsigned_digits(text@.skip(from as int)) == Some(value as nat) && value <= max,
            None => match unsigned_digits(text@.skip(from as int)) {
                Some(value) => value > max,
                None => true,
            },
        },
{
    let ghost digits = text@.skip(from as int);
    if from == text.len() {
        return None;
    }
    let mut value: u128 = 0;
    let mut at: usize = from;
    assert(digits.take(0) =~= Seq::<char>::empty());
    while at < text.len()
        invariant
            from <= at <= text@.len(),
            digits == text@.skip(from as int),
            value == decimal(digits.take(at - from)),
            value <= max,
            all_digits(digits.take(at - from)),
        decreases text@.len() - at,
    {
        let character: char = text[at];
        let ghost n = at - from;
        assert(digits[n] == character);
        if !is_decimal_digit(character) {
            assert(!is_digit(digits[n]));
            return None;
        }
        let digit: u128 = (character as u32 - '0' as u32) as u128;
        proof {
            assert(digits.take(n + 1).drop_last() =~= digits.take(n));
            assert(digits.take(n + 1).last() == character);
            lemma_decimal_grows(digits, n + 1);
        }
        if digit > max || value > (max - digit) / 10 {
            return None;
        }
        value = value * 10 + digit;
        assert forall|i: int| 0 <= i < n + 1 implies is_digit(#[trigger] digits.take(n + 1)[i]) by {
            if i < n {
                assert(is_digit(digits.take(n)[i]));
            }
        }
        at = at + 1;
    }
    assert(digits.take(digits.len() as int) =~= digits);
    Some(value)
}

/// Reads an unsigned number of at most `max`.
pub fn read_unsigned(text: &Vec<char>, max: u128) -> (value: Option<u128>)
    ensures
        match value {
            Some(value) => unsigned_value(text@, max as nat) == Some(value as nat),
            None => unsigned_value(text@, max as nat) is None,
        },
{
    assert(text@.skip(0) =~= text@);
    if text.len() > 0 && text[0] == '+' {
        read_digits(text, 1, max)
    } else {
        read_digits(text, 0, max)
    }
}

/// Reads a signed number of 64 bits.
pub fn read_i64(text: &Vec<char>) -> (value: Option<i64>)
    ensures
        match value {
            Some(value) => signed_value(text@, i64::MAX as nat) == Some(value as int),
            None => signed_value(text@, i64::MAX as nat) is None,
        },
{
    if text.len() > 0 && text[0] == '-' {
        match read_digits(text, 1, 0x8000_0000_0000_0000) {
            Some(value) => Some((-(value as i128)) as i64),
            None => None,
        }
    } else {
        match read_unsigned(text, 0x7fff_ffff_ffff_ffff) {
            Some(value) => Some(value as i64),
            None => None,
        }
    }
}

/// Appends the decimal digits of a number.
pub fn push_digits(out: &mut Vec<char>, number: u128)
    ensures
        final(out)@ == old(out)@ + digits_of(number as nat),
    decreases number,
{
    if number >= 10 {
        push_digits(out, number / 10);
    }
    let digit: u8 = (number % 10) as u8;
    out.push(('0' as u8 + digit) as char);
}

/// Appends a number filled up with zeros to at least `width` characters.
pub fn push_padded(out: &mut Vec<char>, number: i64, width: usize)
    requires
        width >= 1,
    ensures
        final(out)@ == old(out)@ + padded(number as int, width as nat),
{
    let mut digits: Vec<char> = Vec::new();
    let mut room: usize = width;
    let ghost before = out@;
    if number < 0 {
        out.push('-');
        room = width - 1;
        push_digits(&mut digits, (-(number as i128)) as u128);
    } else {
        push_digits(&mut digits, number as u128);
    }
    let ghost signed = out@;
    let ghost filled = zero_filled(digits@, room as nat);
    let missing: usize = if digits.len() < room { room - digits.len() } else { 0 };
    for i in 0..missing
        invariant
            out@ == signed + Seq::new(i as nat, |k: int| '0'),
    {
        out.push('0');
        assert(out@ =~= signed + Seq::new((i + 1) as nat, |k: int| '0'));
    }
    crate::text::append_chars(out, &digits);
    assert(out@ =~= signed + filled);
    assert(digits@ =~= digits_of((if number < 0 { -(number as int) } else { number as int }) as nat));
    assert(out@ =~= before + padded(number as int, width as nat));
}

/// The decimal digits of a number, as a string.
pub fn decimal_string(number: u128) -> (text: String)
    ensures
        text@ == digits_of(number as nat),
{
    let mut out: Vec<char> = Vec::new();
    push_digits(&mut out, number);
    assert(out@ =~= digits_of(number as nat));
    crate::text::string_of(&out)
}

/// Appends the last `width` hexadecimal digits of a number.
pub fn push_hexadecimal(out: &mut Vec<char>, number: u64, width: usize)
    ensures
        final(out)@ == old(out)@ + hexadecimal(number as nat, width as nat),
    decreases width,
{
    if width > 0 {
        push_hexadecimal(out, number / 16, width - 1);
        let digit: u8 = (number % 16) as u8;
        if digit < 10 {
            out.push(('0' as u8 + digit) as char);
        } else {
            out.push(('a' as u8 + (digit - 10)) as char);
        }
    }
}

/// Appends the hexadecimal digits of a number.
pub fn push_hexadecimal_digits(out: &mut Vec<char>, number: u64)
    ensures
        final(out)@ == old(out)@ + hexadecimal_digits(number as nat),
    decreases number,
{
    if number >= 16 {
        push_hexadecimal_digits(out, number / 16);
    }
    let digit: u8 = (number % 16) as u8;
    if digit < 10 {
        out.push(('0' as u8 + digit) as char);
    } else {
        out.push(('a' as u8 + (digit - 10)) as char);
    }
}

/// A number is written digit by digit: one below ten as its digit, any other as what it is without
/// its last digit, and that digit.
pub proof fn law_numbers_are_written_digit_by_digit(number: u128, text: String, start: String, last: String)
    requires
        call_ensures(decimal_string, (number,), text),
        call_ensures(decimal_string, ((number / 10) as u128,), start),
        call_ensures(decimal_string, ((number % 10) as u128,), last),
    ensures
        number < 10 ==> text@.len() == 1 && text@[0] as int == '0' as int + number,
        number >= 10 ==> text@ == start@ + last@,
{
    if number >= 10 {
        assert(start@.push(digit_char((number % 10) as nat)) =~= start@ + last@);
    }
}

/// What a digit behind a text of digits adds to the number that is read: ten times the number
/// before it, and the digit. Every text of digits is read where its number is not too large, with
/// a plus sign or without one, and no other text is.
pub proof fn law_numbers_are_read_digit_by_digit(
    start: &Vec<char>,
    text: &Vec<char>,
    signed: &Vec<char>,
    max: u128,
    before: Option<u128>,
    value: Option<u128>,
    with_sign: Option<u128>,
    digit: u8,
)
    requires
        call_ensures(read_unsigned, (start, max), before),
        call_ensures(read_unsigned, (text, max), value),
        call_ensures(read_unsigned, (signed, max), with_sign),
        digit < 10,
        start@.len() > 0 ==> start@[0] != '+',
        text@ == start@.push(('0' as int + digit) as char),
        signed@ == seq!['+'] + text@,
    ensures
        start@.len() == 0 ==> before is None && (digit <= max ==> value == Some(digit as u128)),
        before is Some && before->0 * 10 + digit <= max ==> value == Some((before->0 * 10 + digit) as u128),
        before is Some && before->0 * 10 + digit > max ==> value is None,
        before is None && start@.len() > 0 ==> value is None,
        with_sign == value,
        value is Some ==> value->0 <= max && all_digits(text@),
{
    let last = ('0' as int + digit) as char;
    assert(text@.drop_last() =~= start@);
    assert(text@.last() == last);
    assert(signed@.skip(1) =~= text@);
    assert(text@[0] == if start@.len() > 0 { start@[0] } else { last });
    if start@.len() == 0 {
        assert(decimal(start@) == 0);
        assert(all_digits(text@));
    }
    if all_digits(text@) {
        assert forall|i: int| 0 <= i < start@.len() implies is_digit(#[trigger] start@[i]) by {
            assert(is_digit(text@[i]));
        }
    }
    if all_digits(start@) {
        assert forall|i: int| 0 <= i < text@.len() implies is_digit(#[trigger] text@[i]) by {
            if i < start@.len() {
                assert(is_digit(start@[i]));
            }
        }
        assert(decimal(text@) == decimal(start@) * 10 + digit);
    }
}

/// Signed numbers are read as unsigned ones are, and with a minus sign as their opposites.
pub proof fn law_signed_numbers_are_read(
    text: &Vec<char>,
    signed: &Vec<char>,
    max: u128,
    magnitude: Option<u128>,
    value: Option<i64>,
    opposite: Option<i64>,
)
    requires
        max == i64::MAX,
        call_ensures(read_unsigned, (text, max), magnitude),
        call_ensures(read_i64, (text,), value),
        call_ensures(read_i64, (signed,), opposite),
        text@.len() > 0,
        text@[0] != '+',
        text@[0] != '-',
        signed@ == seq!['-'] + text@,
    ensures
        value is Some <==> magnitude is Some,
        value is Some ==> value->0 == magnitude->0,
        value is Some ==> opposite is Some && opposite->0 == -value->0,
{
    assert(signed@.skip(1) =~= text@);
}

/// Writing a number behind a text keeps the text; what is written fills the width with zeros before
/// the digits of the number, behind the sign of a negative one.
pub proof fn law_written_numbers_fill_their_width(
    out: &mut Vec<char>,
    number: i64,
    width: usize,
    digits: String,
    zeros: Seq<char>,
)
    requires
        width >= 1,
        call_ensures(push_padded, (out, number, width), ()),
        number >= 0 ==> call_ensures(decimal_string, (number as u128,), digits),
        number < 0 ==> call_ensures(decimal_string, ((-number) as u128,), digits),
        forall|i: int| 0 <= i < zeros.len() ==> #[trigger] zeros[i] == '0',
        zeros.len() == if digits@.len() >= width - if number < 0 { 1int } else { 0int } {
            0int
        } else {
            width - digits@.len() - if number < 0 { 1int } else { 0int }
        },
    ensures
        number >= 0 ==> final(out)@ == old(out)@ + zeros + digits@,
        number < 0 ==> final(out)@ == old(out)@ + seq!['-'] + zeros + digits@,
{
    if number >= 0 {
        assert(zero_filled(digits@, width as nat) =~= zeros + digits@);
        assert(old(out)@ + (zeros + digits@) =~= old(out)@ + zeros + digits@);
    } else {
        assert(zero_filled(digits@, (width - 1) as nat) =~= zeros + digits@);
        assert(old(out)@ + (seq!['-'] + (zeros + digits@)) =~= old(out)@ + seq!['-'] + zeros + digits@);
    }
}

/// Hexadecimals are written digit by digit behind what is there, in lower case: a value below ten
/// as its digit, the others as the letters from a on.
pub proof fn law_hexadecimals_are_written_digit_by_digit(
    out: &mut Vec<char>,
    start: &mut Vec<char>,
    number: u64,
    width: usize,
    last: char,
)
    requires
        width >= 1,
        *old(out) == *old(start),
        call_ensures(push_hexadecimal, (out, number, width), ()),
        call_ensures(push_hexadecimal, (start, (number / 16) as u64, (width - 1) as usize), ()),
        number % 16 < 10 ==> last as int == '0' as int + number % 16,
        number % 16 >= 10 ==> last as int == 'a' as int + number % 16 - 10,
    ensures
        final(out)@ == final(start)@.push(last),
        width == 1 ==> final(start)@ == old(out)@,
{
    assert(hexadecimal_digit((number % 16) as nat) == last);
    assert(final(out)@ =~= final(start)@.push(last));
}

/// Hexadecimals without a width have as many digits as they need.
pub proof fn law_hexadecimals_start_with_no_zero(
    out: &mut Vec<char>,
    start: &mut Vec<char>,
    number: u64,
    last: char,
)
    requires
        *old(out) == *old(start),
        call_ensures(push_hexadecimal_digits, (out, number), ()),
        call_ensures(push_hexadecimal_digits, (start, (number / 16) as u64), ()),
        number % 16 < 10 ==> last as int == '0' as int + number % 16,
        number % 16 >= 10 ==> last as int == 'a' as int + number % 16 - 10,
    ensures
        number >= 16 ==> final(out)@ == final(start)@.push(last),
        number < 16 ==> final(out)@ == old(out)@.push(last),
{
    assert(hexadecimal_digit((number % 16) as nat) == last);
    if number >= 16 {
        assert(final(out)@ =~= final(start)@.push(last));
    } else {
        assert(final(out)@ =~= old(out)@.push(last));
    }
}

} // verus!
