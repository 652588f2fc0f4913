//! What the trader's screen shows: short share counts, the rows of the book
//! and trade tables, the words of the status panel and the lists of the
//! trader's own orders.

use vstd::prelude::*;
use crate::types::{Order, OrderType, TraderStatus, VisibleOrder};

verus! {

/// The decimal digit `d` (0 to 9) as a character.
pub open spec fn digit_char(d: int) -> char {
    if d == 0 {
        '0'
    } else if d == 1 {
        '1'
    } else if d == 2 {
        '2'
    } else if d == 3 {
        '3'
    } else if d == 4 {
        '4'
    } else if d == 5 {
        '5'
    } else if d == 6 {
        '6'
    } else if d == 7 {
        '7'
    } else if d == 8 {
        '8'
    } else {
        '9'
    }
}

/// The decimal notation of `n`, without leading zeros.
pub open spec fn decimal(n: nat) -> Seq<char>
    decreases n,
{
    if n < 10 {
        seq![digit_char(n as int)]
    } else {
        decimal(n / 10).push(digit_char((n % 10) as int))
    }
}

/// A share count as shown to traders: whole thousands with `k` from a
/// thousand on, whole millions with `M` from a million on.
pub open spec fn pretty(x: u64) -> Seq<char> {
    if x < 1000 {
        decimal(x as nat)
    } else if x < 1_000_000 {
        decimal((x / 1000) as nat) + seq!['k']
    } else {
        decimal((x / 1_000_000) as nat) + seq!['M']
    }
}

/// The decimal digit `d` as a string.
fn digit_str(d: u64) -> (r: &'static str)
    requires
        d < 10,
    ensures
        r@ == seq![digit_char(d as int)],
{
    if d == 0 {
        proof {
            reveal_strlit("0");
        }
        "0"
    } else if d == 1 {
        proof {
            reveal_strlit("1");
        }
        "1"
    } else if d == 2 {
        proof {
            reveal_strlit("2");
        }
        "2"
    } else if d == 3 {
        proof {
            reveal_strlit("3");
        }
        "3"
    } else if d == 4 {
        proof {
            reveal_strlit("4");
        }
        "4"
    } else if d == 5 {
        proof {
            reveal_strlit("5");
        }
        "5"
    } else if d == 6 {
        proof {
            reveal_strlit("6");
        }
        "6"
    } else if d == 7 {
        proof {
            reveal_strlit("7");
        }
        "7"
    } else if d == 8 {
        proof {
            reveal_strlit("8");
        }
        "8"
    } else {
        proof {
            reveal_strlit("9");
        }
        "9"
    }
}

/// Appends the decimal notation of `n` to `s`.
fn push_decimal(s: &mut String, n: u64)
    ensures
        final(s)@ == old(s)@ + decimal(n as nat),
    decreases n,
{
    if n >= 10 {
        push_decimal(s, n / 10);
    }
    s.append(digit_str(n % 10));
    proof {
        if n >= 10 {
            assert(decimal(n as nat) == decimal((n / 10) as nat).push(digit_char((n % 10) as int)));
        }
    }
    assert(s@ =~= old(s)@ + decimal(n as nat));
}

/// A share count as shown to traders, e.g. `999`, `1k`, `25M`.
pub fn pretty_u64(x: u64) -> (r: String)
    ensures
        r@ == pretty(x),
{
    let mut s = String::new();
    if x < 1000 {
        push_decimal(&mut s, x);
    } else if x < 1_000_000 {
        push_decimal(&mut s, x / 1000);
        proof {
            reveal_strlit("k");
        }
        s.append("k");
    } else {
        push_decimal(&mut s, x / 1_000_000);
        proof {
            reveal_strlit("M");
        }
        s.append("M");
    }
    assert(s@ =~= pretty(x));
    s
}

/// Fewest rows of the book tables and of the dark pool's trade table.
pub const MIN_ROWS: usize = 11;

/// The rows of the tables on the trader's screen; `None` is an empty row.
pub struct TableLayout {
    pub bids: Vec<Option<VisibleOrder>>,
    pub asks: Vec<Option<VisibleOrder>>,
    pub matches: Vec<Option<VisibleOrder>>,
    pub dark_matches: Vec<Option<VisibleOrder>>,
}

/// `n` rows showing the entries of `v` in order, then empty rows. Unless
/// `keep_mine`, no row is marked as the trader's own.
pub open spec fn rows_of(v: Seq<VisibleOrder>, n: int, keep_mine: bool) -> Seq<Option<VisibleOrder>> {
    Seq::new(
        n as nat,
        |i: int|
            if i < v.len() {
                Some(if keep_mine { v[i] } else { VisibleOrder { mine: false, ..v[i] } })
            } else {
                None
            },
    )
}

/// The larger of `a` and `b`.
pub open spec fn larger(a: int, b: int) -> int {
    if a >= b {
        a
    } else {
        b
    }
}

/// `n` rows of the entries of `v`, then empty rows.
fn rows(v: &Vec<VisibleOrder>, n: usize, keep_mine: bool) -> (r: Vec<Option<VisibleOrder>>)
    ensures
        r@ == rows_of(v@, n as int, keep_mine),
{
    let mut r: Vec<Option<VisibleOrder>> = Vec::new();
    let mut i: usize = 0;
    while i < n
        invariant
            0 <= i <= n,
            r.len() == i,
            forall|k: int| 0 <= k < i ==> #[trigger] r@[k] == rows_of(v@, n as int, keep_mine)[k],
        decreases n - i,
    {
        if i < v.len() {
            let o = v[i];
            if keep_mine {
                r.push(Some(o));
            } else {
                r.push(Some(VisibleOrder { mine: false, ..o }));
            }
        } else {
            r.push(None);
        }
        i = i + 1;
    }
    assert(r@ =~= rows_of(v@, n as int, keep_mine));
    r
}

/// The rows of the four tables: the book tables are as long as the longer
/// book side and at least `MIN_ROWS`; the exchange's trade table is at
/// least as long as the book tables; the dark pool's trade table is at
/// least `MIN_ROWS` long and marks no trade as the trader's own.
pub fn table_layout(
    bids: &Vec<VisibleOrder>,
    asks: &Vec<VisibleOrder>,
    matches: &Vec<VisibleOrder>,
    dark_matches: &Vec<VisibleOrder>,
) -> (t: TableLayout)
    ensures
        ({
            let book_rows = larger(larger(bids.len() as int, asks.len() as int), MIN_ROWS as int);
            &&& t.bids@ == rows_of(bids@, book_rows, true)
            &&& t.asks@ == rows_of(asks@, book_rows, true)
            &&& t.matches@ == rows_of(matches@, larger(book_rows, matches.len() as int), true)
            &&& t.dark_matches@ == rows_of(
                dark_matches@,
                larger(MIN_ROWS as int, dark_matches.len() as int),
                false,
            )
        }),
{
    let longer = if bids.len() >= asks.len() { bids.len() } else { asks.len() };
    let book_rows = if longer >= MIN_ROWS { longer } else { MIN_ROWS };
    let match_rows = if book_rows >= matches.len() { book_rows } else { matches.len() };
    let dark_rows = if MIN_ROWS >= dark_matches.len() { MIN_ROWS } else { dark_matches.len() };
    TableLayout {
        bids: rows(bids, book_rows, true),
        asks: rows(asks, book_rows, true),
        matches: rows(matches, match_rows, true),
        dark_matches: rows(dark_matches, dark_rows, false),
    }
}


/// The mark shown when the trader has reached its goal.
pub const DONE_BADGE: &'static str = "<code style='color: green; font-size: 12pt'>DONE</code>";

/// The words of the status panel that depend on the trader's status.
pub struct StatusWords {
    /// `DONE_BADGE` once the goal is reached, else empty.
    pub done_badge: &'static str,
    /// The verb of the goal side.
    pub goal_verb: &'static str,
    /// The verb of the other side.
    pub other_verb: &'static str,
    /// The colour of the progress towards the goal.
    pub progress_colour: &'static str,
    /// The colour of the shares traded against the goal.
    pub opp_colour: &'static str,
}

/// The verb of trading on side `side`.
pub open spec fn verb(side: OrderType) -> Seq<char> {
    if side == OrderType::Bid {
        "buy"@
    } else {
        "sell"@
    }
}

/// The verb of trading on side `side`.
fn verb_of(side: OrderType) -> (r: &'static str)
    ensures
        r@ == verb(side),
{
    if side == OrderType::Bid {
        "buy"
    } else {
        "sell"
    }
}

/// The status words of `st`: the goal is marked done, and its progress
/// green, once `done` reaches `amount`; the shares against the goal are red
/// once `opp` reaches `tolerance`.
pub fn status_words(st: &TraderStatus) -> (w: StatusWords)
    ensures
        w.done_badge@ == (if st.done >= st.amount {
            DONE_BADGE@
        } else {
            ""@
        }),
        w.goal_verb@ == verb(st.goal),
        w.other_verb@ == verb(crate::types::opposite(st.goal)),
        w.progress_colour@ == (if st.done >= st.amount {
            "green"@
        } else {
            "inherit"@
        }),
        w.opp_colour@ == (if st.opp >= st.tolerance {
            "red"@
        } else {
            "inherit"@
        }),
{
    let reached = st.done >= st.amount;
    let other = if st.goal == OrderType::Bid {
        OrderType::Ask
    } else {
        OrderType::Bid
    };
    StatusWords {
        done_badge: if reached {
            DONE_BADGE
        } else {
            ""
        },
        goal_verb: verb_of(st.goal),
        other_verb: verb_of(other),
        progress_colour: if reached {
            "green"
        } else {
            "inherit"
        },
        opp_colour: if st.opp >= st.tolerance {
            "red"
        } else {
            "inherit"
        },
    }
}

/// The start of a line of the order lists: a close button, then a space.
pub const LINE_HEAD: &'static str =
    "<div><button class='close-button' type='button' data-close><span aria-hidden='true'>&times;</span></button>&nbsp; ";

/// The first line of the order lists.
pub const LIST_HEAD: &'static str = "<b>My orders:</b><br>";

/// The word of an order's side.
pub open spec fn side_word(side: OrderType) -> Seq<char> {
    if side == OrderType::Ask {
        "SELL"@
    } else {
        "BUY"@
    }
}

/// The line of order `o` in a list, with `price` as the text of its price.
/// With `show_hidden` (the exchange's list), the price is followed by a
/// space and, for a hidden order, `(hidden)`.
pub open spec fn order_line(o: Order, price: Seq<char>, show_hidden: bool) -> Seq<char> {
    LINE_HEAD@ + side_word(o.otype) + " "@ + decimal(o.qty as nat) + " AT "@ + price + (if show_hidden {
        " "@ + (if o.hidden {
            "(hidden)"@
        } else {
            ""@
        })
    } else {
        ""@
    }) + "</div>"@
}

/// The list of the orders `os`, the price text of each at the same index of
/// `prices`: `LIST_HEAD`, then each order's line followed by a line break.
pub open spec fn order_list(os: Seq<Order>, prices: Seq<String>, show_hidden: bool) -> Seq<char>
    decreases os.len(),
{
    if os.len() == 0 {
        LIST_HEAD@
    } else {
        let n = os.len() - 1;
        order_list(os.take(n), prices, show_hidden) + order_line(os[n], prices[n]@, show_hidden) + "\n"@
    }
}

/// The list of the trader's orders `orders`, each with the price text at
/// the same index of `prices`.
pub fn order_list_text(orders: &Vec<Order>, prices: &Vec<String>, show_hidden: bool) -> (r: String)
    requires
        prices.len() == orders.len(),
    ensures
        r@ == order_list(orders@, prices@, show_hidden),
{
    let mut r = String::from_str(LIST_HEAD);
    let mut i: usize = 0;
    while i < orders.len()
        invariant
            0 <= i <= orders.len(),
            prices.len() == orders.len(),
            r@ == order_list(orders@.take(i as int), prices@, show_hidden),
        decreases orders.len() - i,
    {
        let o = orders[i];
        let mut line = String::from_str(LINE_HEAD);
        line.append(if o.otype == OrderType::Ask {
            "SELL"
        } else {
            "BUY"
        });
        line.append(" ");
        push_decimal(&mut line, o.qty);
        line.append(" AT ");
        line.append(prices[i].as_str());
        if show_hidden {
            line.append(" ");
            line.append(if o.hidden {
                "(hidden)"
            } else {
                ""
            });
        }
        let ghost body = line@;
        line.append("</div>");
        proof {
            reveal_strlit("");
            let tail = if show_hidden {
                " "@ + (if o.hidden {
                    "(hidden)"@
                } else {
                    ""@
                })
            } else {
                ""@
            };
            let start = LINE_HEAD@ + side_word(o.otype) + " "@ + decimal(o.qty as nat) + " AT "@
                + prices@[i as int]@;
            assert(body =~= start + tail);
            assert(line@ =~= order_line(o, prices@[i as int]@, show_hidden));
        }
        let ghost before = r@;
        r.append(line.as_str());
        r.append("\n");
        proof {
            let next = orders@.take(i + 1);
            assert(next.take(i as int) =~= orders@.take(i as int));
            assert(next[i as int] == o);
            assert(r@ == before + line@ + "\n"@);
        }
        i = i + 1;
    }
    assert(orders@.take(orders.len() as int) =~= orders@);
    r
}

} // verus!
