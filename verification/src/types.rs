//! The values that traders, the order book and the game exchange.

use vstd::prelude::*;

verus! {

/// The sign bit of a 64-bit IEEE 754 number.
pub const SIGN_BIT: u64 = 0x8000_0000_0000_0000;

/// The largest magnitude of a 64-bit IEEE 754 number that is not NaN: the
/// bits of infinity.
pub const INFINITY_BITS: u64 = 0x7ff0_0000_0000_0000;

/// The magnitude of the IEEE 754 number with bits `bits`: all but the sign.
pub open spec fn magnitude(bits: u64) -> int {
    if bits >= SIGN_BIT {
        bits - SIGN_BIT
    } else {
        bits as int
    }
}

/// The IEEE 754 number with bits `bits` is NaN.
pub open spec fn is_nan_bits(bits: u64) -> bool {
    magnitude(bits) > INFINITY_BITS
}

/// The price key of the IEEE 754 number with bits `bits`: its magnitude,
/// negated when the sign bit is set. On numbers that are not NaN, `x < y`
/// holds exactly when the key of `x` is below that of `y`, and `x == y`
/// exactly when the keys are equal (both zeros have key 0).
pub open spec fn price_key(bits: u64) -> int {
    if bits >= SIGN_BIT {
        -magnitude(bits)
    } else {
        magnitude(bits)
    }
}

/// Two numbers that are not NaN and have the same price key are the same
/// number, bit for bit, or are both zeros: so `price_to_bits` gives back the
/// bits that `price_from_bits` was given, but for `-0.0`.
pub proof fn law_price_key_one_to_one(a: u64, b: u64)
    requires
        !is_nan_bits(a),
        !is_nan_bits(b),
        price_key(a) == price_key(b),
    ensures
        a == b || (magnitude(a) == 0 && magnitude(b) == 0),
{
}

/// The price that the `f64` with bits `bits` stands for, or `None` if it is
/// NaN.
pub fn price_from_bits(bits: u64) -> (r: Option<i64>)
    ensures
        r == (if is_nan_bits(bits) {
            None::<i64>
        } else {
            Some(price_key(bits) as i64)
        }),
        r matches Some(p) ==> -(INFINITY_BITS as int) <= p <= INFINITY_BITS,
{
    let mag: u64 = if bits >= SIGN_BIT {
        bits - SIGN_BIT
    } else {
        bits
    };
    if mag > INFINITY_BITS {
        None
    } else if bits >= SIGN_BIT {
        Some(-(mag as i64))
    } else {
        Some(mag as i64)
    }
}

/// The bits of the `f64` that the price `p` stands for; 0 stands for `+0.0`.
pub fn price_to_bits(p: i64) -> (bits: u64)
    requires
        -(INFINITY_BITS as int) <= p <= INFINITY_BITS,
    ensures
        !is_nan_bits(bits),
        price_key(bits) == p,
        p >= 0 ==> bits == p,
{
    if p < 0 {
        let mag: u64 = (-p) as u64;
        mag + SIGN_BIT
    } else {
        p as u64
    }
}

/// The two sides of the market: a bid buys, an ask sells.
#[derive(Debug, PartialEq, Eq, Structural, Clone, Copy)]
pub enum OrderType {
    Bid,
    Ask,
}

/// An order resting in (or entering) a book.
#[derive(Debug, PartialEq, Eq, Structural, Clone, Copy)]
pub struct Order {
    pub otype: OrderType,
    /// Limit price, as a price key (see `price_key`).
    pub price: i64,
    pub trader: i64,
    pub qty: u64,
    /// Arrival time in nanoseconds; earlier orders have priority.
    pub time: u128,
    pub id: i64,
    /// Hidden orders are not shown in the public book and yield priority
    /// to visible orders at the same price.
    pub hidden: bool,
}

/// What a trader asks to place.
#[derive(Debug, PartialEq, Eq, Structural, Clone, Copy)]
pub struct OrderReq {
    pub kind: OrderType,
    pub qty: u64,
    /// Limit price, as a price key (see `price_key`).
    pub price: i64,
    pub hidden: bool,
}

/// An order or a trade as a given trader is allowed to see it.
#[derive(Debug, PartialEq, Eq, Structural, Clone, Copy)]
pub struct VisibleOrder {
    pub qty: u64,
    /// Price, as a price key.
    pub price: i64,
    /// Whether the viewing trader is a party to it.
    pub mine: bool,
}

/// A trade between a buyer and a seller.
#[derive(Debug, PartialEq, Eq, Structural, Clone, Copy)]
pub struct Match {
    pub buyer: i64,
    pub seller: i64,
    pub qty: u64,
    /// Trade price, as a price key.
    pub price: i64,
}

/// A trader's request to the exchange.
#[derive(Debug, PartialEq, Eq, Structural, Clone, Copy)]
pub enum Request {
    /// Withdraw the resting exchange order with this id.
    Cancel(i64),
    ExchangeOrder(OrderReq),
    DarkpoolOrder(OrderReq),
    Get,
}

/// A trader's goal in the game and how far the trader has come.
#[derive(Debug, PartialEq, Eq, Structural, Clone, Copy)]
pub struct TraderStatus {
    /// The side the trader has to trade on.
    pub goal: OrderType,
    /// Shares to trade on the goal side.
    pub amount: u64,
    /// Shares the trader may trade on the other side.
    pub tolerance: u64,
    /// Number of trades the trader took part in.
    pub orders: u64,
    /// Shares traded on the goal side.
    pub done: u64,
    /// Shares traded on the other side.
    pub opp: u64,
}

/// Everything one trader is shown after a change of the books.
#[derive(Debug)]
pub struct Response {
    /// The visible bids and asks of the exchange.
    pub book: (Vec<VisibleOrder>, Vec<VisibleOrder>),
    /// The exchange's trades, most recent first.
    pub matches: Vec<VisibleOrder>,
    /// The trader's resting exchange orders.
    pub orders: Vec<Order>,
    /// The dark pool's trades, most recent first.
    pub dark_matches: Vec<VisibleOrder>,
    /// The trader's resting dark pool orders.
    pub dark_orders: Vec<Order>,
    pub status: TraderStatus,
}

/// The side opposite to `t`.
pub open spec fn opposite(t: OrderType) -> OrderType {
    match t {
        OrderType::Bid => OrderType::Ask,
        OrderType::Ask => OrderType::Bid,
    }
}

/// `o` with its quantity replaced by `qty`.
pub open spec fn with_qty(o: Order, qty: u64) -> Order {
    Order { qty: qty, ..o }
}

} // verus!
