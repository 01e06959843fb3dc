//! Reading an order from a line of text.
//!
//! A line has the form `<id>: Buy <quantity> BTC @ <price> USD` or the same
//! with `Sell`, and ends with a newline. The three numbers are runs of
//! decimal digits. Everything between them is fixed, byte for byte: where the
//! form shows a space, one space stands, and nothing else. [`parse_line`]
//! says this over the bytes of the line.

use crate::order::{Order, OrderType};
use vstd::prelude::*;
use vstd::string::StringSliceAdditionalSpecFns;
use vstd::utf8::{
    decode_utf8, encode_utf8, encode_utf8_decode_utf8, encode_utf8_valid_utf8, is_char_boundary,
    length_of_first_scalar, pop_first_scalar, valid_utf8,
};

verus! {

/// Why a line gives no order.
#[derive(Debug, PartialEq, Eq, Copy, Clone, Structural)]
pub enum ParseError {
    /// The line does not have the layout of an order.
    Syntax,
    /// The layout is right so far, but a number is too large for its field.
    Overflow,
}

/// A decimal digit.
pub open spec fn is_digit(byte: u8) -> bool {
    '0' as u8 <= byte <= '9' as u8
}

/// Where the longest run of digits that starts at `from` ends.
pub open spec fn digits_end(line: Seq<u8>, from: int) -> int
    decreases line.len() - from,
{
    if 0 <= from < line.len() && is_digit(line[from]) {
        digits_end(line, from + 1)
    } else {
        from
    }
}

/// The number that a run of decimal digits writes.
pub open spec fn decimal_value(digits: Seq<u8>) -> nat
    decreases digits.len(),
{
    if digits.len() == 0 {
        0
    } else {
        decimal_value(digits.drop_last()) * 10 + (digits.last() - '0' as u8) as nat
    }
}

/// The bytes of `word` stand in the line at `at`.
pub open spec fn has_word(line: Seq<u8>, at: int, word: Seq<u8>) -> bool {
    0 <= at && at + word.len() <= line.len() && line.subrange(at, at + word.len()) == word
}

/// `:`
pub open spec fn colon_word() -> Seq<u8> {
    seq![':' as u8]
}

/// One space.
pub open spec fn space_word() -> Seq<u8> {
    seq![' ' as u8]
}

/// `Buy`
pub open spec fn buy_word() -> Seq<u8> {
    seq!['B' as u8, 'u' as u8, 'y' as u8]
}

/// `Sell`
pub open spec fn sell_word() -> Seq<u8> {
    seq!['S' as u8, 'e' as u8, 'l' as u8, 'l' as u8]
}

/// ` BTC @ `, with its three spaces.
pub open spec fn unit_word() -> Seq<u8> {
    seq![' ' as u8, 'B' as u8, 'T' as u8, 'C' as u8, ' ' as u8, '@' as u8, ' ' as u8]
}

/// ` USD`, with its space.
pub open spec fn currency_word() -> Seq<u8> {
    seq![' ' as u8, 'U' as u8, 'S' as u8, 'D' as u8]
}

/// The newline that ends a line.
pub open spec fn line_end() -> Seq<u8> {
    seq!['\n' as u8]
}

/// The order that the start of `line` writes and the number of bytes it
/// takes, or why it writes none. The parts are read from left to right, and
/// the first part that is wrong decides the error.
pub open spec fn parse_line(line: Seq<u8>) -> Result<(int, Order), ParseError> {
    let id_end = digits_end(line, 0);
    let id = decimal_value(line.subrange(0, id_end));
    let side_at = id_end + 2;
    let bought = has_word(line, side_at, buy_word());
    let side_end = side_at + if bought {
        3int
    } else {
        4int
    };
    let quantity_at = side_end + 1;
    let quantity_end = digits_end(line, quantity_at);
    let quantity = decimal_value(line.subrange(quantity_at, quantity_end));
    let price_at = quantity_end + 7;
    let price_end = digits_end(line, price_at);
    let price = decimal_value(line.subrange(price_at, price_end));
    let end = price_end + 5;
    if id_end == 0 {
        Err(ParseError::Syntax)
    } else if id > usize::MAX {
        Err(ParseError::Overflow)
    } else if !has_word(line, id_end, colon_word()) {
        Err(ParseError::Syntax)
    } else if !has_word(line, id_end + 1, space_word()) {
        Err(ParseError::Syntax)
    } else if !bought && !has_word(line, side_at, sell_word()) {
        Err(ParseError::Syntax)
    } else if !has_word(line, side_end, space_word()) {
        Err(ParseError::Syntax)
    } else if quantity_end == quantity_at {
        Err(ParseError::Syntax)
    } else if quantity > u32::MAX {
        Err(ParseError::Overflow)
    } else if !has_word(line, quantity_end, unit_word()) {
        Err(ParseError::Syntax)
    } else if price_end == price_at {
        Err(ParseError::Syntax)
    } else if price > u32::MAX {
        Err(ParseError::Overflow)
    } else if !has_word(line, price_end, currency_word()) {
        Err(ParseError::Syntax)
    } else if !has_word(line, price_end + 4, line_end()) {
        Err(ParseError::Syntax)
    } else {
        Ok(
            (
                end,
                Order {
                    id: id as usize,
                    order_type: if bought {
                        OrderType::Buy
                    } else {
                        OrderType::Sell
                    },
                    price: price as u32,
                    quantity: quantity as u32,
                },
            ),
        )
    }
}

/// [`parse_line`] on the UTF-8 bytes of a text.
pub open spec fn parse_text(text: Seq<char>) -> Result<(int, Order), ParseError> {
    parse_line(encode_utf8(text))
}

/// Every byte from `from` up to `to` is below 128.
pub open spec fn ascii_between(line: Seq<u8>, from: int, to: int) -> bool {
    forall|i: int| from <= i < to ==> #[trigger] line[i] < 128
}

proof fn digits_end_from(line: Seq<u8>, from: int, at: int)
    requires
        0 <= from <= at <= line.len(),
        forall|i: int| from <= i < at ==> is_digit(#[trigger] line[i]),
    ensures
        digits_end(line, from) == digits_end(line, at),
    decreases at - from,
{
    if from < at {
        digits_end_from(line, from + 1, at);
    }
}

/// A longer run of digits writes no smaller number than its beginning.
proof fn decimal_value_grows(line: Seq<u8>, from: int, mid: int, end: int)
    requires
        0 <= from <= mid <= end <= line.len(),
    ensures
        decimal_value(line.subrange(from, mid)) <= decimal_value(line.subrange(from, end)),
    decreases end - mid,
{
    if mid < end {
        decimal_value_grows(line, from, mid, end - 1);
        assert(line.subrange(from, end).drop_last() == line.subrange(from, end - 1));
    }
}

/// The decimal digits that write `n`, with no leading zero.
pub open spec fn decimal_digits(n: nat) -> Seq<u8>
    decreases n,
{
    if n < 10 {
        seq![('0' as u8 + n) as u8]
    } else {
        decimal_digits(n / 10).push(('0' as u8 + n % 10) as u8)
    }
}

/// The word that writes a side.
pub open spec fn side_word(side: OrderType) -> Seq<u8> {
    match side {
        OrderType::Buy => buy_word(),
        OrderType::Sell => sell_word(),
    }
}

/// The line that writes an order, newline included.
pub open spec fn order_line(order: Order) -> Seq<u8> {
    decimal_digits(order.id as nat) + colon_word() + space_word() + side_word(order.order_type)
        + space_word() + decimal_digits(order.quantity as nat) + unit_word() + decimal_digits(
        order.price as nat,
    ) + currency_word() + line_end()
}

/// The decimal digits of a number are digits, at least one of them, and
/// write that number.
pub proof fn decimal_digits_write(n: nat)
    ensures
        decimal_digits(n).len() >= 1,
        forall|i: int| 0 <= i < decimal_digits(n).len() ==> is_digit(#[trigger] decimal_digits(n)[i]),
        decimal_value(decimal_digits(n)) == n,
    decreases n,
{
    let digits = decimal_digits(n);
    if n < 10 {
        assert(digits.drop_last() =~= Seq::<u8>::empty());
        assert(decimal_value(digits.drop_last()) == 0);
        assert(digits.last() == '0' as u8 + n);
    } else {
        decimal_digits_write(n / 10);
        assert(digits.drop_last() =~= decimal_digits(n / 10));
        assert(digits.last() == '0' as u8 + n % 10);
        assert(decimal_value(digits) == (n / 10) * 10 + n % 10);
    }
}

/// A run of digits that something other than a digit follows ends there.
proof fn digits_end_at(line: Seq<u8>, from: int, end: int)
    requires
        0 <= from <= end < line.len(),
        forall|i: int| from <= i < end ==> is_digit(#[trigger] line[i]),
        !is_digit(line[end]),
    ensures
        digits_end(line, from) == end,
{
    digits_end_from(line, from, end);
}

/// A line written from an order reads back as that order and takes the
/// whole line, whatever follows it.
pub proof fn line_reads_back(order: Order, rest: Seq<u8>)
    ensures
        parse_line(order_line(order) + rest) == Ok::<(int, Order), ParseError>(
            (order_line(order).len() as int, order),
        ),
{
    let id = decimal_digits(order.id as nat);
    let side = side_word(order.order_type);
    let quantity = decimal_digits(order.quantity as nat);
    let price = decimal_digits(order.price as nat);
    decimal_digits_write(order.id as nat);
    decimal_digits_write(order.quantity as nat);
    decimal_digits_write(order.price as nat);
    let line = order_line(order) + rest;
    let id_end = id.len() as int;
    let side_at = id_end + 2;
    let side_end = side_at + side.len();
    let quantity_at = side_end + 1;
    let quantity_end = quantity_at + quantity.len();
    let price_at = quantity_end + 7;
    let price_end = price_at + price.len();
    assert(line.subrange(0, id_end) =~= id);
    assert(line.subrange(id_end, id_end + 1) =~= colon_word());
    assert(line.subrange(id_end + 1, id_end + 2) =~= space_word());
    assert(line.subrange(side_at, side_end) =~= side);
    assert(line.subrange(side_end, side_end + 1) =~= space_word());
    assert(line.subrange(quantity_at, quantity_end) =~= quantity);
    assert(line.subrange(quantity_end, quantity_end + 7) =~= unit_word());
    assert(line.subrange(price_at, price_end) =~= price);
    assert(line.subrange(price_end, price_end + 4) =~= currency_word());
    assert(line.subrange(price_end + 4, price_end + 5) =~= line_end());
    assert(order_line(order).len() == price_end + 5);
    assert forall|i: int| 0 <= i < id_end implies is_digit(#[trigger] line[i]) by {
        assert(line[i] == id[i]);
    }
    assert forall|i: int| quantity_at <= i < quantity_end implies is_digit(#[trigger] line[i]) by {
        assert(line[i] == quantity[i - quantity_at]);
    }
    assert forall|i: int| price_at <= i < price_end implies is_digit(#[trigger] line[i]) by {
        assert(line[i] == price[i - price_at]);
    }
    assert(line[id_end] == colon_word()[0]);
    assert(line[quantity_end] == unit_word()[0]);
    assert(line[price_end] == currency_word()[0]);
    digits_end_at(line, 0, id_end);
    digits_end_at(line, quantity_at, quantity_end);
    digits_end_at(line, price_at, price_end);
    if order.order_type == OrderType::Sell {
        assert(line[side_at] == sell_word()[0]);
        assert(!has_word(line, side_at, buy_word())) by {
            if has_word(line, side_at, buy_word()) {
                assert(line.subrange(side_at, side_at + 3)[0] == buy_word()[0]);
            }
        }
    }
}

/// Where the run of digits that starts at `from` ends.
fn digits_to(line: &[u8], from: usize) -> (end: usize)
    requires
        from <= line@.len(),
    ensures
        end == digits_end(line@, from as int),
        from <= end <= line@.len(),
        forall|i: int| from <= i < end ==> is_digit(#[trigger] line@[i]),
{
    let mut end: usize = from;
    while end < line.len() && line[end] >= '0' as u8 && line[end] <= '9' as u8
        invariant
            from <= end <= line@.len(),
            forall|i: int| from <= i < end ==> is_digit(#[trigger] line@[i]),
        decreases line@.len() - end,
    {
        end += 1;
    }
    proof {
        digits_end_from(line@, from as int, end as int);
    }
    end
}

/// The number that the digits from `from` up to `end` write, unless it is
/// above `max`.
fn number_in(line: &[u8], from: usize, end: usize, max: u64) -> (value: Option<u64>)
    requires
        from <= end <= line@.len(),
        forall|i: int| from <= i < end ==> is_digit(#[trigger] line@[i]),
    ensures
        match value {
            Some(v) => v == decimal_value(line@.subrange(from as int, end as int)) && v <= max,
            None => decimal_value(line@.subrange(from as int, end as int)) > max,
        },
{
    let mut value: u64 = 0;
    let mut i: usize = from;
    while i < end
        invariant
            from <= i <= end <= line@.len(),
            forall|k: int| from <= k < end ==> is_digit(#[trigger] line@[k]),
            value == decimal_value(line@.subrange(from as int, i as int)),
            value <= max,
        decreases end - i,
    {
        let digit: u8 = line[i] - '0' as u8;
        let next: u128 = value as u128 * 10 + digit as u128;
        proof {
            assert(line@.subrange(from as int, i + 1).drop_last() == line@.subrange(
                from as int,
                i as int,
            ));
            assert(next == decimal_value(line@.subrange(from as int, i + 1)));
        }
        if next > max as u128 {
            proof {
                decimal_value_grows(line@, from as int, i + 1, end as int);
            }
            return None;
        }
        value = next as u64;
        i += 1;
    }
    Some(value)
}

/// Whether the bytes of `word` stand in the line at `at`.
fn word_at(line: &[u8], at: usize, word: &[u8]) -> (found: bool)
    requires
        at <= line@.len(),
    ensures
        found == has_word(line@, at as int, word@),
        found ==> at + word@.len() <= usize::MAX,
{
    if word.len() > line.len() - at {
        return false;
    }
    let mut k: usize = 0;
    while k < word.len()
        invariant
            0 <= k <= word@.len(),
            at + word@.len() <= line@.len() <= usize::MAX,
            forall|j: int| 0 <= j < k ==> line@[at + j] == word@[j],
        decreases word@.len() - k,
    {
        if line[at + k] != word[k] {
            proof {
                let part = line@.subrange(at as int, at + word@.len());
                assert(part[k as int] != word@[k as int]);
            }
            return false;
        }
        k += 1;
    }
    proof {
        assert(line@.subrange(at as int, at + word@.len()) =~= word@);
    }
    true
}

/// A word of bytes below 128 that stands in the line makes that stretch of
/// the line bytes below 128.
proof fn word_is_ascii(line: Seq<u8>, at: int, word: Seq<u8>)
    requires
        has_word(line, at, word),
        forall|j: int| 0 <= j < word.len() ==> #[trigger] word[j] < 128,
    ensures
        ascii_between(line, at, at + word.len()),
{
    assert forall|i: int| at <= i < at + word.len() implies #[trigger] line[i] < 128 by {
        assert(line.subrange(at, at + word.len())[i - at] == word[i - at]);
    }
}

/// Reads an order from the start of `line`.
///
/// Returns the order and the number of bytes that it took, the newline
/// included, or the reason why the line holds no order. The bytes taken are
/// all below 128.
pub fn parse_order_bytes(line: &[u8]) -> (parsed: Result<(usize, Order), ParseError>)
    ensures
        match parsed {
            Ok((taken, order)) => parse_line(line@) == Ok::<(int, Order), ParseError>(
                (taken as int, order),
            ) && 0 < taken <= line@.len() && ascii_between(line@, 0, taken as int),
            Err(error) => parse_line(line@) == Err::<(int, Order), ParseError>(error),
        },
{
    let id_end = digits_to(line, 0);
    if id_end == 0 {
        return Err(ParseError::Syntax);
    }
    let id = match number_in(line, 0, id_end, usize::MAX as u64) {
        Some(id) => id as usize,
        None => {
            return Err(ParseError::Overflow);
        },
    };
    let colon: [u8; 1] = [':' as u8];
    assert(colon@ == colon_word());
    if !word_at(line, id_end, colon.as_slice()) {
        return Err(ParseError::Syntax);
    }
    let space: [u8; 1] = [' ' as u8];
    assert(space@ == space_word());
    if !word_at(line, id_end + 1, space.as_slice()) {
        return Err(ParseError::Syntax);
    }
    let side_at: usize = id_end + 2;
    let buy: [u8; 3] = ['B' as u8, 'u' as u8, 'y' as u8];
    let sell: [u8; 4] = ['S' as u8, 'e' as u8, 'l' as u8, 'l' as u8];
    assert(buy@ == buy_word());
    assert(sell@ == sell_word());
    let bought = word_at(line, side_at, buy.as_slice());
    if !bought && !word_at(line, side_at, sell.as_slice()) {
        return Err(ParseError::Syntax);
    }
    let side_end: usize = if bought {
        side_at + 3
    } else {
        side_at + 4
    };
    if !word_at(line, side_end, space.as_slice()) {
        return Err(ParseError::Syntax);
    }
    let quantity_at: usize = side_end + 1;
    let quantity_end = digits_to(line, quantity_at);
    if quantity_end == quantity_at {
        return Err(ParseError::Syntax);
    }
    let quantity = match number_in(line, quantity_at, quantity_end, u32::MAX as u64) {
        Some(quantity) => quantity as u32,
        None => {
            return Err(ParseError::Overflow);
        },
    };
    let unit: [u8; 7] = [
        ' ' as u8,
        'B' as u8,
        'T' as u8,
        'C' as u8,
        ' ' as u8,
        '@' as u8,
        ' ' as u8,
    ];
    assert(unit@ == unit_word());
    if !word_at(line, quantity_end, unit.as_slice()) {
        return Err(ParseError::Syntax);
    }
    let price_at: usize = quantity_end + 7;
    let price_end = digits_to(line, price_at);
    if price_end == price_at {
        return Err(ParseError::Syntax);
    }
    let price = match number_in(line, price_at, price_end, u32::MAX as u64) {
        Some(price) => price as u32,
        None => {
            return Err(ParseError::Overflow);
        },
    };
    let currency: [u8; 4] = [' ' as u8, 'U' as u8, 'S' as u8, 'D' as u8];
    assert(currency@ == currency_word());
    if !word_at(line, price_end, currency.as_slice()) {
        return Err(ParseError::Syntax);
    }
    let newline: [u8; 1] = ['\n' as u8];
    assert(newline@ == line_end());
    if !word_at(line, price_end + 4, newline.as_slice()) {
        return Err(ParseError::Syntax);
    }
    proof {
        word_is_ascii(line@, id_end as int, colon_word());
        word_is_ascii(line@, id_end + 1, space_word());
        word_is_ascii(line@, side_end as int, space_word());
        if bought {
            word_is_ascii(line@, side_at as int, buy_word());
        } else {
            word_is_ascii(line@, side_at as int, sell_word());
        }
        word_is_ascii(line@, quantity_end as int, unit_word());
        word_is_ascii(line@, price_end as int, currency_word());
        word_is_ascii(line@, price_end + 4, line_end());
    }
    Ok(
        (
            price_end + 5,
            Order {
                id,
                order_type: if bought {
                    OrderType::Buy
                } else {
                    OrderType::Sell
                },
                price,
                quantity,
            },
        ),
    )
}

/// In well-formed UTF-8, a stretch of bytes below 128 at the start ends
/// where a character starts.
proof fn ascii_prefix_ends_on_boundary(bytes: Seq<u8>, end: int)
    requires
        valid_utf8(bytes),
        0 <= end <= bytes.len(),
        ascii_between(bytes, 0, end),
    ensures
        is_char_boundary(bytes, end),
    decreases end,
{
    if end > 0 {
        assert(bytes[0] < 128);
        assert(length_of_first_scalar(bytes) == 1);
        let tail = pop_first_scalar(bytes);
        assert(tail == bytes.subrange(1, bytes.len() as int));
        assert forall|i: int| 0 <= i < end - 1 implies #[trigger] tail[i] < 128 by {
            assert(bytes[i + 1] < 128);
        }
        ascii_prefix_ends_on_boundary(tail, end - 1);
    }
}

/// In well-formed UTF-8, each byte below 128 at the start writes one
/// character: without the first `end` bytes, the text is without its first
/// `end` characters.
proof fn ascii_prefix_decodes(bytes: Seq<u8>, end: int)
    requires
        valid_utf8(bytes),
        0 <= end <= bytes.len(),
        ascii_between(bytes, 0, end),
    ensures
        decode_utf8(bytes).len() >= end,
        decode_utf8(bytes.skip(end)) == decode_utf8(bytes).skip(end),
    decreases end,
{
    if end == 0 {
        assert(bytes.skip(0) =~= bytes);
        assert(decode_utf8(bytes).skip(0) =~= decode_utf8(bytes));
    } else {
        assert(bytes[0] < 128);
        assert(length_of_first_scalar(bytes) == 1);
        let tail = pop_first_scalar(bytes);
        assert(tail == bytes.subrange(1, bytes.len() as int));
        assert forall|i: int| 0 <= i < end - 1 implies #[trigger] tail[i] < 128 by {
            assert(bytes[i + 1] < 128);
        }
        ascii_prefix_decodes(tail, end - 1);
        assert(tail.skip(end - 1) =~= bytes.skip(end));
        assert(decode_utf8(bytes).skip(end) =~= decode_utf8(tail).skip(end - 1));
    }
}

/// Reads an order from the start of `input`.
///
/// Returns what follows the order's line in `input`, and the order; or the
/// reason why `input` does not start with an order.
pub fn parse_order(input: &str) -> (parsed: Result<(&str, Order), ParseError>)
    ensures
        match parse_text(input@) {
            Ok((taken, order)) => parsed matches Ok(found) && found.1 == order && found.0@
                == input@.skip(taken),
            Err(error) => parsed == Err::<(&str, Order), ParseError>(error),
        },
{
    let bytes = input.as_bytes();
    match parse_order_bytes(bytes) {
        Err(error) => Err(error),
        Ok((taken, order)) => {
            proof {
                encode_utf8_valid_utf8(input@);
                ascii_prefix_ends_on_boundary(bytes@, taken as int);
            }
            let (_, rest) = input.split_at(taken);
            proof {
                ascii_prefix_decodes(bytes@, taken as int);
                encode_utf8_decode_utf8(input@);
                encode_utf8_decode_utf8(rest@);
                assert(rest.spec_bytes() == bytes@.skip(taken as int));
            }
            Ok((rest, order))
        },
    }
}

/// Reads the order that a line of input writes, if it writes one. What
/// follows the first line is not looked at.
pub fn parse_order_input(input: &String) -> (parsed: Option<Order>)
    ensures
        parsed == match parse_text(input@) {
            Ok((_, order)) => Some(order),
            Err(_) => None,
        },
{
    match parse_order_bytes(input.as_str().as_bytes()) {
        Ok((_, order)) => Some(order),
        Err(_) => None,
    }
}

} // verus!
