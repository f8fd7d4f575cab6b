//! What texts with signs and commas stand for.

use crate::number::{
    decimal, digit_value, is_digit, law_decimal, scan, signed_number, size_list, unsigned_number, NumberError,
};
use vstd::prelude::*;

verus! {

/// Whether a text is made of digits, one or more.
pub open spec fn all_digits(text: Seq<char>) -> bool {
    &&& text.len() > 0
    &&& forall|i: int| 0 <= i < text.len() ==> is_digit(#[trigger] text[i])
}

/// A character before a text does not change how the rest is read.
proof fn lemma_scan_behind(c: char, text: Seq<char>, i: int, high: int, limit: int, excess: NumberError)
    requires
        0 <= i <= text.len(),
    ensures
        scan(seq![c] + text, i + 1, high, limit, excess) == scan(text, i, high, limit, excess),
    decreases text.len() - i,
{
    let whole = seq![c] + text;
    if i < text.len() {
        assert(whole[i + 1] == text[i]);
        lemma_scan_behind(c, text, i + 1, 10 * high + digit_value(text[i]), limit, excess);
    }
}

/// Digits are read alike whatever an excess is called.
proof fn lemma_scan_excess(text: Seq<char>, i: int, high: int, limit: int, excess: NumberError)
    requires
        0 <= i <= text.len(),
        all_digits(text),
    ensures
        match scan(text, i, high, limit, NumberError::TooLarge) {
            Ok(value) => scan(text, i, high, limit, excess) == Ok::<int, NumberError>(value),
            Err(_) => scan(text, i, high, limit, excess) == Err::<int, NumberError>(excess),
        },
    decreases text.len() - i,
{
    if i < text.len() {
        assert(is_digit(text[i]));
        lemma_scan_excess(text, i + 1, 10 * high + digit_value(text[i]), limit, excess);
    }
}

/// A plus sign before digits changes nothing.
pub proof fn law_plus(text: Seq<char>, max: int)
    requires
        all_digits(text),
    ensures
        unsigned_number(seq!['+'] + text, max) == unsigned_number(text, max),
{
    assert(is_digit(text[0]));
    assert((seq!['+'] + text)[0] == '+');
    lemma_scan_behind('+', text, 0, 0, max, NumberError::TooLarge);
}

/// Digits with a sign stand for the decimal value with that sign, where it
/// can be held.
pub proof fn law_signed(text: Seq<char>)
    requires
        all_digits(text),
    ensures
        signed_number(text) == (if decimal(text) <= 0x7fff_ffff {
            Ok::<int, NumberError>(decimal(text))
        } else {
            Err(NumberError::TooLarge)
        }),
        signed_number(seq!['+'] + text) == signed_number(text),
        signed_number(seq!['-'] + text) == (if decimal(text) <= 0x8000_0000 {
            Ok::<int, NumberError>(-decimal(text))
        } else {
            Err(NumberError::TooSmall)
        }),
{
    assert(is_digit(text[0]));
    law_decimal(text, 0x7fff_ffff);
    law_plus(text, 0x7fff_ffff);
    assert((seq!['+'] + text)[0] == '+');
    assert((seq!['-'] + text)[0] == '-');
    law_decimal(text, 0x8000_0000);
    lemma_scan_behind('-', text, 0, 0, 0x8000_0000, NumberError::TooSmall);
    lemma_scan_excess(text, 0, 0, 0x8000_0000, NumberError::TooSmall);
}

/// A sign alone, and nothing at all, are no numbers.
pub proof fn law_no_digits(max: int)
    ensures
        unsigned_number(seq!['+'], max) == Err::<int, NumberError>(NumberError::InvalidDigit),
        signed_number(seq!['-']) == Err::<int, NumberError>(NumberError::InvalidDigit),
        signed_number(seq!['+']) == Err::<int, NumberError>(NumberError::InvalidDigit),
        unsigned_number(Seq::empty(), max) == Err::<int, NumberError>(NumberError::Empty),
        signed_number(Seq::empty()) == Err::<int, NumberError>(NumberError::Empty),
{
}

/// Whether a text has no comma.
pub open spec fn no_comma(text: Seq<char>) -> bool {
    forall|i: int| 0 <= i < text.len() ==> #[trigger] text[i] != ','
}

/// The end of the first field is found.
proof fn lemma_first_field(text: Seq<char>, n: int, i: int, sizes: Seq<usize>)
    requires
        0 <= i <= n <= text.len(),
        forall|k: int| 0 <= k < n ==> #[trigger] text[k] != ',',
    ensures
        size_list(text, 0, i, sizes) == size_list(text, 0, n, sizes),
    decreases n - i,
{
    if i < n {
        assert(text[i] != ',');
        lemma_first_field(text, n, i + 1, sizes);
    }
}

/// What stands before the field in hand does not matter.
proof fn lemma_fields_behind(front: Seq<char>, text: Seq<char>, start: int, i: int, sizes: Seq<usize>)
    requires
        0 <= start <= i <= text.len(),
    ensures
        size_list(front + text, front.len() + start, front.len() + i, sizes) == size_list(text, start, i, sizes),
    decreases text.len() - i,
{
    let whole = front + text;
    let n = front.len() as int;
    if i < text.len() {
        assert(whole[n + i] == text[i]);
    }
    if i < text.len() && text[i] != ',' {
        lemma_fields_behind(front, text, start, i + 1, sizes);
    } else {
        assert(whole.subrange(n + start, n + i) =~= text.subrange(start, i));
        if i < text.len() {
            if start < i {
                match unsigned_number(text.subrange(start, i), usize::MAX as int) {
                    Ok(size) => {
                        lemma_fields_behind(front, text, i + 1, i + 1, sizes.push(size as usize));
                    },
                    Err(_) => {},
                }
            } else {
                lemma_fields_behind(front, text, i + 1, i + 1, sizes);
            }
        }
    }
}

/// A list is its first field, if there is anything in it, and then the list
/// behind the comma. A field that is no number makes no list.
pub proof fn law_list_of_sizes(field: Seq<char>, rest: Seq<char>, sizes: Seq<usize>)
    requires
        no_comma(field),
    ensures
        field.len() == 0 ==> size_list(field + seq![','] + rest, 0, 0, sizes) == size_list(rest, 0, 0, sizes),
        field.len() > 0 ==> size_list(field + seq![','] + rest, 0, 0, sizes) == (match unsigned_number(
            field,
            usize::MAX as int,
        ) {
            Ok(size) => size_list(rest, 0, 0, sizes.push(size as usize)),
            Err(e) => Err(e),
        }),
        field.len() > 0 ==> size_list(field, 0, 0, sizes) == (match unsigned_number(field, usize::MAX as int) {
            Ok(size) => Ok::<Seq<usize>, NumberError>(sizes.push(size as usize)),
            Err(e) => Err(e),
        }),
        size_list(Seq::empty(), 0, 0, sizes) == Ok::<Seq<usize>, NumberError>(sizes),
{
    let front = field + seq![','];
    let text = front + rest;
    let n = field.len() as int;
    assert forall|k: int| 0 <= k < n implies #[trigger] text[k] != ',' by {
        assert(text[k] == field[k]);
    }
    assert(text[n] == ',');
    lemma_first_field(text, n, 0, sizes);
    lemma_first_field(field, n, 0, sizes);
    assert(text.subrange(0, n) =~= field);
    assert(field.subrange(0, n) =~= field);
    if n == 0 {
        lemma_fields_behind(front, rest, 0, 0, sizes);
    } else {
        match unsigned_number(field, usize::MAX as int) {
            Ok(size) => {
                lemma_fields_behind(front, rest, 0, 0, sizes.push(size as usize));
            },
            Err(_) => {},
        }
    }
}

} // verus!
