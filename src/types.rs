//! Core value types: fixed-point prices and quantities, sides, levels,
//! update events and the notifications the engine publishes.

use vstd::prelude::*;
use crate::decimal::{
    digits_value, frac_part, has_exponent, is_decimal, nonzero_significand, parse_decimal, pow10,
    scaled_decimal, significand_nonzero, whole_part,
};

verus! {

/// Number of price ticks per unit of quoted price (two fractional digits).
pub const PRICE_SCALE: u64 = 100;

/// Number of fractional decimal digits a price carries.
pub const PRICE_DIGITS: u32 = 2;

/// Number of quantity units per unit of quoted quantity (eight fractional digits).
pub const QTY_SCALE: u64 = 100_000_000;

/// Number of fractional decimal digits a quantity carries.
pub const QTY_DIGITS: u32 = 8;

/// A price as an integer number of ticks (hundredths of the quoted unit).
#[derive(Debug, Clone, Copy, PartialEq, Eq, Structural, PartialOrd, Ord, Hash)]
pub struct Price(pub u64);

/// The quantity units the decimal `s` gives: its value rounded half up to
/// eight fractional digits, or the smallest unit when that rounds a text with
/// a non-zero digit to zero.
pub open spec fn qty_units(s: Seq<u8>) -> u64 {
    if scaled_decimal(s, 8) == 0 && nonzero_significand(s) {
        1
    } else {
        scaled_decimal(s, 8) as u64
    }
}

/// The whole units and the hundredths of a price.
pub open spec fn price_parts(p: Price) -> (u64, u64) {
    ((p.0 / 100) as u64, (p.0 % 100) as u64)
}

impl Price {
    /// The price of the decimal `text`, rounded half up to two fractional
    /// digits; none when `text` is not a decimal or the price does not fit.
    pub fn from_decimal(text: &[u8]) -> (r: Option<Price>)
        ensures
            r is Some <==> is_decimal(text@) && scaled_decimal(text@, 2) <= u64::MAX,
            r is Some ==> r == Some(Price(scaled_decimal(text@, 2) as u64)),
    {
        match parse_decimal(text, PRICE_DIGITS) {
            Some(v) => Some(Price(v)),
            None => None,
        }
    }

    /// The price as whole units and hundredths, for display.
    pub fn to_decimal(self) -> (r: (u64, u64))
        ensures
            r == price_parts(self),
    {
        (self.0 / PRICE_SCALE, self.0 % PRICE_SCALE)
    }
}

/// Round trip of price scaling: a decimal with at most two fractional digits
/// and no exponent comes back from its price exactly, as its whole part and
/// its hundredths.
pub proof fn lemma_price_round_trip(s: Seq<u8>)
    requires
        is_decimal(s),
        !has_exponent(s),
        frac_part(s).len() <= 2,
        scaled_decimal(s, 2) <= u64::MAX,
    ensures
        price_parts(Price(scaled_decimal(s, 2) as u64)) == (
            digits_value(whole_part(s)) as u64,
            (digits_value(frac_part(s)) * pow10((2 - frac_part(s).len()) as nat)) as u64,
        ),
{
    let f = frac_part(s);
    let m = f.len();
    assert(crate::decimal::all_digits(f)) by {
        assert forall|i: int| 0 <= i < f.len() implies crate::decimal::is_digit(#[trigger] f[i]) by {
            crate::decimal::lemma_digits_end_bounds(s, crate::decimal::whole_end(s) + 1);
            assert(f[i] == s[crate::decimal::frac_start(s) + i]);
        }
    }
    crate::decimal::lemma_digits_below(f);
    crate::decimal::lemma_digits_concat(whole_part(s), f);
    let w = digits_value(whole_part(s));
    let fv = digits_value(f);
    let pad = pow10((2 - m) as nat);
    let pm = pow10(m);
    crate::decimal::lemma_pow10_add(m, (2 - m) as nat);
    crate::decimal::lemma_pow10_pos((2 - m) as nat);
    assert(m + (2 - m) as nat == 2);
    assert(pow10(2) == 100) by {
        assert(pow10(0) == 1);
        assert(pow10(1) == 10);
    }
    assert(fv * pad < 100) by (nonlinear_arith)
        requires
            fv < pm,
            pm * pad == 100,
            pad >= 1,
    {
    }
    assert((w * pm + fv) * pad == w * 100 + fv * pad) by (nonlinear_arith)
        requires
            pm * pad == 100,
    {
    }
    let v = scaled_decimal(s, 2);
    assert(v == w * 100 + fv * pad);
    vstd::arithmetic::div_mod::lemma_fundamental_div_mod_converse(
        v as int,
        100,
        w as int,
        (fv * pad) as int,
    );
}

/// A quantity as an integer number of units of 1e-8 of the quoted unit.
/// Zero marks a level that is to be removed.
#[derive(Debug, Clone, Copy, PartialEq, Eq, Structural, Hash)]
pub struct Qty(pub u64);

impl Qty {
    /// The quantity of the decimal `text`, rounded half up to eight
    /// fractional digits; none when `text` is not a decimal or the quantity
    /// does not fit. A quantity is zero only when every digit of the text
    /// before any exponent is zero: a positive text that rounds to zero gives
    /// the smallest unit instead.
    pub fn from_decimal(text: &[u8]) -> (r: Option<Qty>)
        ensures
            r is Some <==> is_decimal(text@) && scaled_decimal(text@, 8) <= u64::MAX,
            r is Some ==> r == Some(Qty(qty_units(text@))),
            r == Some(Qty(0)) ==> !nonzero_significand(text@),
    {
        match parse_decimal(text, QTY_DIGITS) {
            Some(v) => {
                if v == 0 && significand_nonzero(text) {
                    Some(Qty(1))
                } else {
                    Some(Qty(v))
                }
            },
            None => None,
        }
    }

    /// Whether this quantity is the removal sentinel.
    pub fn is_zero(self) -> (r: bool)
        ensures
            r == (self.0 == 0),
    {
        self.0 == 0
    }
}

/// Side of the order book.
#[derive(Debug, Clone, Copy, PartialEq, Eq, Structural, Hash)]
pub enum Side {
    Bid,
    Ask,
}

/// One price level: the quantity resting at a price.
#[derive(Debug, Clone, Copy, PartialEq, Eq, Structural, Hash)]
pub struct Level {
    pub price: Price,
    pub qty: Qty,
}

/// Timestamp in nanoseconds, as carried by the feed.
pub type Timestamp = u64;

/// An order book update event: a full snapshot or a single-level delta.
#[derive(Debug, Clone, PartialEq, Eq)]
pub enum Update {
    Snapshot { timestamp: Timestamp, bids: Vec<Level>, asks: Vec<Level> },
    Incremental { timestamp: Timestamp, side: Side, level: Level },
}

/// The abstract value of an update: the level lists as sequences.
pub enum UpdateModel {
    Snapshot { timestamp: Timestamp, bids: Seq<Level>, asks: Seq<Level> },
    Incremental { timestamp: Timestamp, side: Side, level: Level },
}

impl View for Update {
    type V = UpdateModel;

    open spec fn view(&self) -> UpdateModel {
        match self {
            Update::Snapshot { timestamp, bids, asks } => UpdateModel::Snapshot {
                timestamp: *timestamp,
                bids: bids@,
                asks: asks@,
            },
            Update::Incremental { timestamp, side, level } => UpdateModel::Incremental {
                timestamp: *timestamp,
                side: *side,
                level: *level,
            },
        }
    }
}

/// The abstract value of an optional update.
pub open spec fn opt_update_view(u: Option<Update>) -> Option<UpdateModel> {
    match u {
        Some(x) => Some(x@),
        None => None,
    }
}

/// What the engine publishes after each applied update.
#[derive(Debug, Clone, Copy, PartialEq, Eq, Structural)]
pub struct BookNotification {
    /// Timestamp of the update that produced this notification.
    pub update_timestamp: Timestamp,
    /// Monotonic clock reading taken by the producer when sending.
    pub engine_send_ns: u64,
    /// Best bid after the update, if the bid side is not empty.
    pub best_bid: Option<Level>,
    /// Best ask after the update, if the ask side is not empty.
    pub best_ask: Option<Level>,
    /// Sequence number of the update, counting from one.
    pub seq: u64,
}

} // verus!
