//! Decimal numbers in text, and lists of them.

use vstd::prelude::*;
use vstd::string::StrSliceExecFns;

verus! {

/// What is wrong with a text that should be a number.
#[derive(Clone, Copy, Debug, PartialEq, Eq, Structural)]
pub enum NumberError {
    Empty,
    InvalidDigit,
    TooLarge,
    TooSmall,
}

pub open spec fn is_digit(c: char) -> bool {
    '0' <= c <= '9'
}

/// The value of a digit.
pub open spec fn digit_value(c: char) -> int {
    c as int - '0' as int
}

/// The value of digits.
pub open spec fn decimal(digits: Seq<char>) -> int
    decreases digits.len(),
{
    if digits.len() == 0 {
        0
    } else {
        10 * decimal(digits.drop_last()) + digit_value(digits.last())
    }
}

/// The value of the digits from `i` on behind `high`, or the first fault met:
/// something that is no digit, or a value above `limit`, which is `excess`.
pub open spec fn scan(text: Seq<char>, i: int, high: int, limit: int, excess: NumberError) -> Result<int, NumberError>
    decreases text.len() - i,
{
    if i >= text.len() {
        Ok(high)
    } else if !is_digit(text[i]) {
        Err(NumberError::InvalidDigit)
    } else if 10 * high + digit_value(text[i]) > limit {
        Err(excess)
    } else {
        scan(text, i + 1, 10 * high + digit_value(text[i]), limit, excess)
    }
}

/// The number that a text without a minus sign stands for: digits, perhaps
/// behind a plus sign, of a value up to `max`.
pub open spec fn unsigned_number(text: Seq<char>, max: int) -> Result<int, NumberError> {
    if text.len() == 0 {
        Err(NumberError::Empty)
    } else if text[0] == '+' {
        if text.len() == 1 {
            Err(NumberError::InvalidDigit)
        } else {
            scan(text, 1, 0, max, NumberError::TooLarge)
        }
    } else {
        scan(text, 0, 0, max, NumberError::TooLarge)
    }
}

/// The number of 32 bits that a text stands for: digits, perhaps behind a
/// sign.
pub open spec fn signed_number(text: Seq<char>) -> Result<int, NumberError> {
    if text.len() > 0 && text[0] == '-' {
        if text.len() == 1 {
            Err(NumberError::InvalidDigit)
        } else {
            match scan(text, 1, 0, i32::MAX + 1, NumberError::TooSmall) {
                Ok(value) => Ok(-value),
                Err(e) => Err(e),
            }
        }
    } else {
        unsigned_number(text, i32::MAX as int)
    }
}

/// Texts of digits alone stand for their decimal value where it fits, and
/// for nothing where it does not.
pub proof fn law_decimal(text: Seq<char>, max: int)
    requires
        text.len() > 0,
        forall|i: int| 0 <= i < text.len() ==> is_digit(#[trigger] text[i]),
    ensures
        unsigned_number(text, max) == (if decimal(text) <= max {
            Ok::<int, NumberError>(decimal(text))
        } else {
            Err(NumberError::TooLarge)
        }),
{
    assert(is_digit(text[0]));
    assert(text.take(0) =~= Seq::<char>::empty());
    if max < 0 {
        lemma_decimal_grows(text, 0);
    }
    lemma_scan(text, 0, max);
}

proof fn lemma_decimal_grows(text: Seq<char>, i: int)
    requires
        0 <= i <= text.len(),
        forall|k: int| 0 <= k < text.len() ==> is_digit(#[trigger] text[k]),
    ensures
        0 <= decimal(text.take(i)) <= decimal(text),
    decreases text.len(),
{
    if i == text.len() {
        assert(text.take(i) =~= text);
        if text.len() > 0 {
            lemma_decimal_grows(text.drop_last(), 0);
            assert(text.drop_last().take(0) =~= text.take(0));
            assert(decimal(text.drop_last().take(0)) == 0);
            assert(is_digit(text[text.len() - 1]));
        }
    } else {
        assert(text.drop_last().take(i) =~= text.take(i));
        lemma_decimal_grows(text.drop_last(), i);
        assert(is_digit(text[text.len() - 1]));
    }
}

proof fn lemma_scan(text: Seq<char>, i: int, max: int)
    requires
        0 <= i <= text.len(),
        text.len() > 0,
        forall|k: int| 0 <= k < text.len() ==> is_digit(#[trigger] text[k]),
        i > 0 ==> decimal(text.take(i)) <= max,
    ensures
        scan(text, i, decimal(text.take(i)), max, NumberError::TooLarge) == (if decimal(text) <= max {
            Ok::<int, NumberError>(decimal(text))
        } else {
            Err(NumberError::TooLarge)
        }),
    decreases text.len() - i,
{
    if i == text.len() {
        assert(text.take(i) =~= text);
    } else {
        assert(text.take(i + 1).drop_last() =~= text.take(i));
        assert(text.take(i + 1).last() == text[i]);
        assert(decimal(text.take(i + 1)) == 10 * decimal(text.take(i)) + digit_value(text[i]));
        lemma_decimal_grows(text, i + 1);
        if decimal(text.take(i + 1)) <= max {
            lemma_scan(text, i + 1, max);
        }
    }
}

fn digit_at(text: &str, i: usize) -> (digit: Option<u64>)
    requires
        i < text@.len(),
    ensures
        match digit {
            Some(d) => is_digit(text@[i as int]) && d == digit_value(text@[i as int]) && d < 10,
            None => !is_digit(text@[i as int]),
        },
{
    let c: char = text.get_char(i);
    if '0' <= c && c <= '9' {
        Some((c as u32 - '0' as u32) as u64)
    } else {
        None
    }
}

/// Reads the digits from `from` on.
fn read_digits(text: &str, from: usize, limit: u64, excess: NumberError) -> (number: Result<u64, NumberError>)
    requires
        from <= text@.len(),
    ensures
        match number {
            Ok(v) => scan(text@, from as int, 0, limit as int, excess) == Ok::<int, NumberError>(v as int) && v <= limit,
            Err(e) => scan(text@, from as int, 0, limit as int, excess) == Err::<int, NumberError>(e),
        },
{
    let len: usize = text.unicode_len();
    let mut i: usize = from;
    let mut value: u64 = 0;
    while i < len
        invariant
            len == text@.len(),
            from <= i <= len,
            value <= limit,
            scan(text@, i as int, value as int, limit as int, excess) == scan(
                text@,
                from as int,
                0,
                limit as int,
                excess,
            ),
        decreases len - i,
    {
        match digit_at(text, i) {
            None => {
                return Err(NumberError::InvalidDigit);
            },
            Some(d) => {
                if d > limit || value > limit / 10 || value * 10 > limit - d {
                    return Err(excess);
                }
                value = value * 10 + d;
            },
        }
        i = i + 1;
    }
    Ok(value)
}

/// The number without a sign that a text stands for.
pub fn parse_unsigned(text: &str, max: u64) -> (number: Result<u64, NumberError>)
    ensures
        match number {
            Ok(v) => unsigned_number(text@, max as int) == Ok::<int, NumberError>(v as int) && v <= max,
            Err(e) => unsigned_number(text@, max as int) == Err::<int, NumberError>(e),
        },
{
    let len: usize = text.unicode_len();
    if len == 0 {
        return Err(NumberError::Empty);
    }
    if text.get_char(0) == '+' {
        if len == 1 {
            return Err(NumberError::InvalidDigit);
        }
        return read_digits(text, 1, max, NumberError::TooLarge);
    }
    read_digits(text, 0, max, NumberError::TooLarge)
}

/// The number of 32 bits that a text stands for.
pub fn parse_i32(text: &str) -> (number: Result<i32, NumberError>)
    ensures
        match number {
            Ok(v) => signed_number(text@) == Ok::<int, NumberError>(v as int),
            Err(e) => signed_number(text@) == Err::<int, NumberError>(e),
        },
{
    let len: usize = text.unicode_len();
    if len > 0 && text.get_char(0) == '-' {
        if len == 1 {
            return Err(NumberError::InvalidDigit);
        }
        return match read_digits(text, 1, 0x8000_0000, NumberError::TooSmall) {
            Ok(v) => Ok((-(v as i64)) as i32),
            Err(e) => Err(e),
        };
    }
    match parse_unsigned(text, 0x7fff_ffff) {
        Ok(v) => Ok(v as i32),
        Err(e) => Err(e),
    }
}

/// The number that a `usize` can hold.
pub fn parse_usize(text: &str) -> (number: Result<usize, NumberError>)
    ensures
        match number {
            Ok(v) => unsigned_number(text@, usize::MAX as int) == Ok::<int, NumberError>(v as int),
            Err(e) => unsigned_number(text@, usize::MAX as int) == Err::<int, NumberError>(e),
        },
{
    match parse_unsigned(text, usize::MAX as u64) {
        Ok(v) => Ok(v as usize),
        Err(e) => Err(e),
    }
}

/// The sizes in the fields of `text` from `i` on, where a field began at
/// `start`: fields end at commas, and empty ones are passed over. The first
/// field that is no number is the fault.
pub open spec fn size_list(text: Seq<char>, start: int, i: int, sizes: Seq<usize>) -> Result<Seq<usize>, NumberError>
    decreases text.len() - i,
{
    if 0 <= start <= i && i <= text.len() {
        if i < text.len() && text[i] != ',' {
            size_list(text, start, i + 1, sizes)
        } else {
            let after = if start < i {
                match unsigned_number(text.subrange(start, i), usize::MAX as int) {
                    Ok(size) => Ok::<Seq<usize>, NumberError>(sizes.push(size as usize)),
                    Err(e) => Err(e),
                }
            } else {
                Ok(sizes)
            };
            match after {
                Ok(read) => if i < text.len() {
                    size_list(text, i + 1, i + 1, read)
                } else {
                    Ok(read)
                },
                Err(e) => Err(e),
            }
        }
    } else {
        Ok(sizes)
    }
}

/// Adds the size that a field holds, if the field is not empty.
fn read_field(text: &str, start: usize, end: usize, sizes: &mut Vec<usize>) -> (fault: Option<NumberError>)
    requires
        start <= end <= text@.len(),
    ensures
        match fault {
            Some(e) => start < end && unsigned_number(text@.subrange(start as int, end as int), usize::MAX as int)
                == Err::<int, NumberError>(e) && final(sizes)@ == old(sizes)@,
            None => if start < end {
                exists|size: usize| #[trigger]
                    old(sizes)@.push(size) == final(sizes)@ && unsigned_number(
                        text@.subrange(start as int, end as int),
                        usize::MAX as int,
                    ) == Ok::<int, NumberError>(size as int)
            } else {
                final(sizes)@ == old(sizes)@
            },
        },
{
    if start < end {
        match parse_usize(text.substring_char(start, end)) {
            Ok(size) => {
                sizes.push(size);
                assert(old(sizes)@.push(size) == sizes@);
            },
            Err(e) => {
                return Some(e);
            },
        }
    }
    None
}

/// The sizes that a list with commas holds.
pub fn parse_sizes(text: &str) -> (list: Result<Vec<usize>, NumberError>)
    ensures
        match list {
            Ok(sizes) => size_list(text@, 0, 0, Seq::empty()) == Ok::<Seq<usize>, NumberError>(sizes@),
            Err(e) => size_list(text@, 0, 0, Seq::empty()) == Err::<Seq<usize>, NumberError>(e),
        },
{
    let len: usize = text.unicode_len();
    let mut sizes: Vec<usize> = Vec::new();
    let mut start: usize = 0;
    let ghost whole = size_list(text@, 0, 0, Seq::empty());
    assert(sizes@ =~= Seq::<usize>::empty());
    for i in 0..len
        invariant
            len == text@.len(),
            start <= i,
            whole == size_list(text@, 0, 0, Seq::empty()),
            size_list(text@, start as int, i as int, sizes@) == whole,
    {
        if text.get_char(i) == ',' {
            if let Some(e) = read_field(text, start, i, &mut sizes) {
                return Err(e);
            }
            start = i + 1;
        }
    }
    if let Some(e) = read_field(text, start, len, &mut sizes) {
        return Err(e);
    }
    Ok(sizes)
}

/// Whether two texts are the same.
pub fn same_text(a: &str, b: &str) -> (same: bool)
    ensures
        same == (a@ == b@),
{
    let len: usize = a.unicode_len();
    if len != b.unicode_len() {
        return false;
    }
    for i in 0..len
        invariant
            len == a@.len(),
            len == b@.len(),
            forall|k: int| 0 <= k < i ==> a@[k] == #[trigger] b@[k],
    {
        if a.get_char(i) != b.get_char(i) {
            return false;
        }
    }
    assert(a@ =~= b@);
    true
}

} // verus!
