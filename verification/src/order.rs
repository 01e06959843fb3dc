//! The records that the book holds and the matcher hands out.

use vstd::prelude::*;
use vstd::string::StringExecFns;

verus! {

/// The side of the book an order rests on.
#[derive(Debug, PartialEq, Eq, Copy, Clone, Structural)]
pub enum OrderType {
    Buy,
    Sell,
}

/// One resting order. A partly filled order keeps its `id`, side and price;
/// only `quantity` goes down.
#[derive(Debug, Copy, Clone, Eq, PartialEq, Structural)]
pub struct Order {
    pub id: usize,
    pub order_type: OrderType,
    pub price: u32,
    pub quantity: u32,
}

/// One fill between a buy and a sell, at the sell's price.
#[derive(Debug, Copy, Clone, Eq, PartialEq, Structural)]
pub struct Trade {
    pub buy_id: usize,
    pub sell_id: usize,
    pub price: u32,
    pub quantity_traded: u32,
}

/// The character that writes the digit `d`.
pub open spec fn digit_char(d: nat) -> char {
    seq!['0', '1', '2', '3', '4', '5', '6', '7', '8', '9'][d as int]
}

/// `n` written in decimal digits, with no leading zero.
pub open spec fn decimal_text(n: nat) -> Seq<char>
    decreases n,
{
    if n < 10 {
        seq![digit_char(n)]
    } else {
        decimal_text(n / 10).push(digit_char(n % 10))
    }
}

/// The text of one digit.
fn digit_text(d: u8) -> (text: &'static str)
    requires
        d < 10,
    ensures
        text@ == seq![digit_char(d as nat)],
{
    proof {
        reveal_strlit("0");
        reveal_strlit("1");
        reveal_strlit("2");
        reveal_strlit("3");
        reveal_strlit("4");
        reveal_strlit("5");
        reveal_strlit("6");
        reveal_strlit("7");
        reveal_strlit("8");
        reveal_strlit("9");
    }
    let text = match d {
        0 => "0",
        1 => "1",
        2 => "2",
        3 => "3",
        4 => "4",
        5 => "5",
        6 => "6",
        7 => "7",
        8 => "8",
        _ => "9",
    };
    assert(text@ =~= seq![digit_char(d as nat)]);
    text
}

/// Writes `n` in decimal at the end of `text`.
fn append_decimal(text: &mut String, n: u64)
    ensures
        final(text)@ == old(text)@ + decimal_text(n as nat),
    decreases n,
{
    if n >= 10 {
        append_decimal(text, n / 10);
    }
    text.append(digit_text((n % 10) as u8));
}

impl Trade {
    /// The line that reports the trade:
    /// `Trade: <quantity> BTC @ <price> USD between <buy id> and <sell id>`.
    pub open spec fn line(self) -> Seq<char> {
        "Trade: "@ + decimal_text(self.quantity_traded as nat) + " BTC @ "@ + decimal_text(
            self.price as nat,
        ) + " USD between "@ + decimal_text(self.buy_id as nat) + " and "@ + decimal_text(
            self.sell_id as nat,
        )
    }

    /// Writes the line that reports the trade.
    pub fn to_line(&self) -> (text: String)
        ensures
            text@ == self.line(),
    {
        let mut text = String::from_str("Trade: ");
        append_decimal(&mut text, self.quantity_traded as u64);
        text.append(" BTC @ ");
        append_decimal(&mut text, self.price as u64);
        text.append(" USD between ");
        append_decimal(&mut text, self.buy_id as u64);
        text.append(" and ");
        append_decimal(&mut text, self.sell_id as u64);
        text
    }
}

impl Order {
    /// What is left of the order once `quantity` units of it have traded:
    /// nothing when that uses it up, else the same order with the rest.
    pub open spec fn after_fill(self, quantity: u32) -> Option<Order> {
        if self.quantity > quantity {
            Some(Order { quantity: (self.quantity - quantity) as u32, ..self })
        } else {
            None
        }
    }

    /// Takes `quantity` units off the order.
    pub fn fill(self, quantity: u32) -> (left: Option<Order>)
        ensures
            left == self.after_fill(quantity),
    {
        if self.quantity > quantity {
            Some(Order { quantity: self.quantity - quantity, ..self })
        } else {
            None
        }
    }
}

} // verus!
