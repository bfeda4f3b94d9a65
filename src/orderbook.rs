//! The L2 order book: one ordered price-to-quantity map per side, the cached
//! best bid and best ask, and the update applicator that keeps them in step.

use std::collections::BTreeMap;
use vstd::prelude::*;
use crate::types::{BookNotification, Level, Price, Qty, Side, Timestamp, Update};

verus! {

/// Abstract state of a book: the two sides as maps from price ticks to
/// quantity units, and the number of updates applied so far.
pub struct BookView {
    pub bids: Map<u64, u64>,
    pub asks: Map<u64, u64>,
    pub seq: nat,
}

/// The level of `m` at price `p`.
pub open spec fn level_at(m: Map<u64, u64>, p: u64) -> Level {
    Level { price: Price(p), qty: Qty(m[p]) }
}

/// `best` is the highest-priced entry of `m`, or none when `m` is empty.
pub open spec fn is_top_bid(m: Map<u64, u64>, best: Option<Level>) -> bool {
    match best {
        None => forall|p: u64| !m.contains_key(p),
        Some(l) => m.contains_key(l.price.0) && l == level_at(m, l.price.0) && forall|p: u64|
            #[trigger] m.contains_key(p) ==> p <= l.price.0,
    }
}

/// `best` is the lowest-priced entry of `m`, or none when `m` is empty.
pub open spec fn is_top_ask(m: Map<u64, u64>, best: Option<Level>) -> bool {
    match best {
        None => forall|p: u64| !m.contains_key(p),
        Some(l) => m.contains_key(l.price.0) && l == level_at(m, l.price.0) && forall|p: u64|
            #[trigger] m.contains_key(p) ==> l.price.0 <= p,
    }
}

/// Every key of `m` maps to a non-zero quantity.
pub open spec fn no_zero_levels(m: Map<u64, u64>) -> bool {
    forall|p: u64| #[trigger] m.contains_key(p) ==> m[p] != 0
}

/// One level applied to a side: a zero quantity removes the price, any other
/// quantity inserts or replaces it.
pub open spec fn upsert_level(m: Map<u64, u64>, l: Level) -> Map<u64, u64> {
    if l.qty.0 == 0 {
        m.remove(l.price.0)
    } else {
        m.insert(l.price.0, l.qty.0)
    }
}

/// The side built from a snapshot's level list: every level with a non-zero
/// quantity, a later level at the same price replacing an earlier one.
pub open spec fn levels_map(s: Seq<Level>) -> Map<u64, u64>
    decreases s.len(),
{
    if s.len() == 0 {
        Map::empty()
    } else {
        let m = levels_map(s.drop_last());
        let l = s.last();
        if l.qty.0 == 0 {
            m
        } else {
            m.insert(l.price.0, l.qty.0)
        }
    }
}

/// The state of the book after one more update.
pub open spec fn step(v: BookView, u: Update) -> BookView {
    match u {
        Update::Snapshot { bids, asks, .. } => BookView {
            bids: levels_map(bids@),
            asks: levels_map(asks@),
            seq: v.seq + 1,
        },
        Update::Incremental { side, level, .. } => match side {
            Side::Bid => BookView { bids: upsert_level(v.bids, level), asks: v.asks, seq: v.seq + 1 },
            Side::Ask => BookView { bids: v.bids, asks: upsert_level(v.asks, level), seq: v.seq + 1 },
        },
    }
}

/// The empty book, before any update.
pub open spec fn empty_view() -> BookView {
    BookView { bids: Map::empty(), asks: Map::empty(), seq: 0 }
}

/// The state reached from the empty book by applying `us` in order.
pub open spec fn run(us: Seq<Update>) -> BookView
    decreases us.len(),
{
    if us.len() == 0 {
        empty_view()
    } else {
        step(run(us.drop_last()), us.last())
    }
}

/// The timestamp an update carries.
pub open spec fn update_timestamp(u: Update) -> Timestamp {
    match u {
        Update::Snapshot { timestamp, .. } => timestamp,
        Update::Incremental { timestamp, .. } => timestamp,
    }
}

/// Relies on BTreeMap::last_key_value: the entry with the greatest key, none
/// when the map is empty.
#[verifier::external_body]
fn last_entry(m: &BTreeMap<u64, u64>) -> (r: Option<(u64, u64)>)
    ensures
        match r {
            None => forall|p: u64| !m@.contains_key(p),
            Some(e) => m@.contains_key(e.0) && m@[e.0] == e.1 && forall|p: u64|
                #[trigger] m@.contains_key(p) ==> p <= e.0,
        },
{
    m.last_key_value().map(|(k, v)| (*k, *v))
}

/// Relies on BTreeMap::first_key_value: the entry with the least key, none
/// when the map is empty.
#[verifier::external_body]
fn first_entry(m: &BTreeMap<u64, u64>) -> (r: Option<(u64, u64)>)
    ensures
        match r {
            None => forall|p: u64| !m@.contains_key(p),
            Some(e) => m@.contains_key(e.0) && m@[e.0] == e.1 && forall|p: u64|
                #[trigger] m@.contains_key(p) ==> e.0 <= p,
        },
{
    m.first_key_value().map(|(k, v)| (*k, *v))
}

/// The order book. Each side maps price ticks to quantity units; the cached
/// extremes are kept equal to the best entry of each side after every update.
pub struct Orderbook {
    bids: BTreeMap<u64, u64>,
    asks: BTreeMap<u64, u64>,
    cached_best_bid: Option<Level>,
    cached_best_ask: Option<Level>,
    seq: u64,
}

impl Orderbook {
    /// The abstract state of the book.
    pub closed spec fn view(&self) -> BookView {
        BookView { bids: self.bids@, asks: self.asks@, seq: self.seq as nat }
    }

    /// The cached best bid.
    pub closed spec fn cached_bid(&self) -> Option<Level> {
        self.cached_best_bid
    }

    /// The cached best ask.
    pub closed spec fn cached_ask(&self) -> Option<Level> {
        self.cached_best_ask
    }

    /// The book's invariant: no side holds a zero quantity, and each cache
    /// holds the best entry of its side.
    pub closed spec fn wf(&self) -> bool {
        &&& no_zero_levels(self.bids@)
        &&& no_zero_levels(self.asks@)
        &&& is_top_bid(self.bids@, self.cached_best_bid)
        &&& is_top_ask(self.asks@, self.cached_best_ask)
    }

    /// An empty book.
    pub fn new() -> (r: Self)
        ensures
            r.wf(),
            r.view() == empty_view(),
    {
        Orderbook {
            bids: BTreeMap::new(),
            asks: BTreeMap::new(),
            cached_best_bid: None,
            cached_best_ask: None,
            seq: 0,
        }
    }
}

impl Orderbook {
    /// Recompute the cached best bid from the bid side.
    fn refresh_best_bid(&mut self)
        ensures
            final(self).bids@ == old(self).bids@,
            final(self).asks@ == old(self).asks@,
            final(self).seq == old(self).seq,
            final(self).cached_best_ask == old(self).cached_best_ask,
            is_top_bid(final(self).bids@, final(self).cached_best_bid),
    {
        self.cached_best_bid = match last_entry(&self.bids) {
            Some((p, q)) => Some(Level { price: Price(p), qty: Qty(q) }),
            None => None,
        };
    }

    /// Recompute the cached best ask from the ask side.
    fn refresh_best_ask(&mut self)
        ensures
            final(self).bids@ == old(self).bids@,
            final(self).asks@ == old(self).asks@,
            final(self).seq == old(self).seq,
            final(self).cached_best_bid == old(self).cached_best_bid,
            is_top_ask(final(self).asks@, final(self).cached_best_ask),
    {
        self.cached_best_ask = match first_entry(&self.asks) {
            Some((p, q)) => Some(Level { price: Price(p), qty: Qty(q) }),
            None => None,
        };
    }

    /// Replace both sides with the non-zero levels of a snapshot and
    /// recompute both caches.
    fn apply_snapshot(&mut self, bids: &Vec<Level>, asks: &Vec<Level>)
        ensures
            final(self).bids@ == levels_map(bids@),
            final(self).asks@ == levels_map(asks@),
            final(self).seq == old(self).seq,
            final(self).wf(),
    {
        self.bids.clear();
        self.asks.clear();
        let mut i: usize = 0;
        while i < bids.len()
            invariant
                i <= bids.len(),
                self.bids@ == levels_map(bids@.subrange(0, i as int)),
                no_zero_levels(self.bids@),
                self.asks@ == Map::<u64, u64>::empty(),
                self.seq == old(self).seq,
            decreases bids.len() - i,
        {
            let level = bids[i];
            proof {
                assert(bids@.subrange(0, i + 1).drop_last() =~= bids@.subrange(0, i as int));
            }
            if !level.qty.is_zero() {
                self.bids.insert(level.price.0, level.qty.0);
            }
            i += 1;
        }
        proof {
            assert(bids@.subrange(0, bids.len() as int) =~= bids@);
        }
        let mut j: usize = 0;
        while j < asks.len()
            invariant
                j <= asks.len(),
                self.asks@ == levels_map(asks@.subrange(0, j as int)),
                self.bids@ == levels_map(bids@),
                no_zero_levels(self.asks@),
                no_zero_levels(self.bids@),
                self.seq == old(self).seq,
            decreases asks.len() - j,
        {
            let level = asks[j];
            proof {
                assert(asks@.subrange(0, j + 1).drop_last() =~= asks@.subrange(0, j as int));
            }
            if !level.qty.is_zero() {
                self.asks.insert(level.price.0, level.qty.0);
            }
            j += 1;
        }
        proof {
            assert(asks@.subrange(0, asks.len() as int) =~= asks@);
        }
        self.refresh_best_bid();
        self.refresh_best_ask();
    }
}

impl Orderbook {
    /// Apply one level to the bid side and keep the cached best bid, by the
    /// rule: insert at a better or equal price takes the cache, insert at a
    /// worse price leaves it; a delete recomputes it only when it removes the
    /// cached price.
    fn apply_bid(&mut self, level: Level)
        requires
            old(self).wf(),
        ensures
            final(self).bids@ == upsert_level(old(self).bids@, level),
            level.qty.0 == 0 && !old(self).bids@.contains_key(level.price.0) ==> final(self).cached_best_bid
                == old(self).cached_best_bid,
            final(self).asks@ == old(self).asks@,
            final(self).cached_best_ask == old(self).cached_best_ask,
            final(self).seq == old(self).seq,
            final(self).wf(),
    {
        if level.qty.is_zero() {
            self.bids.remove(&level.price.0);
            match self.cached_best_bid {
                Some(best) => {
                    if best.price.0 == level.price.0 {
                        self.refresh_best_bid();
                    }
                },
                None => {},
            }
        } else {
            self.bids.insert(level.price.0, level.qty.0);
            match self.cached_best_bid {
                None => {
                    self.cached_best_bid = Some(level);
                },
                Some(best) => {
                    if level.price.0 >= best.price.0 {
                        self.cached_best_bid = Some(level);
                    }
                },
            }
        }
        proof {
            assert(no_zero_levels(self.bids@));
        }
    }

    /// Apply one level to the ask side and keep the cached best ask, by the
    /// mirror of the bid rule (a lower price is better).
    fn apply_ask(&mut self, level: Level)
        requires
            old(self).wf(),
        ensures
            final(self).asks@ == upsert_level(old(self).asks@, level),
            level.qty.0 == 0 && !old(self).asks@.contains_key(level.price.0) ==> final(self).cached_best_ask
                == old(self).cached_best_ask,
            final(self).bids@ == old(self).bids@,
            final(self).cached_best_bid == old(self).cached_best_bid,
            final(self).seq == old(self).seq,
            final(self).wf(),
    {
        if level.qty.is_zero() {
            self.asks.remove(&level.price.0);
            match self.cached_best_ask {
                Some(best) => {
                    if best.price.0 == level.price.0 {
                        self.refresh_best_ask();
                    }
                },
                None => {},
            }
        } else {
            self.asks.insert(level.price.0, level.qty.0);
            match self.cached_best_ask {
                None => {
                    self.cached_best_ask = Some(level);
                },
                Some(best) => {
                    if level.price.0 <= best.price.0 {
                        self.cached_best_ask = Some(level);
                    }
                },
            }
        }
        proof {
            assert(no_zero_levels(self.asks@));
        }
    }

    /// Apply a single-level delta to the named side.
    fn apply_incremental(&mut self, side: Side, level: Level)
        requires
            old(self).wf(),
        ensures
            final(self).bids@ == step(
                old(self).view(),
                Update::Incremental { timestamp: 0, side, level },
            ).bids,
            final(self).asks@ == step(
                old(self).view(),
                Update::Incremental { timestamp: 0, side, level },
            ).asks,
            final(self).seq == old(self).seq,
            final(self).wf(),
            level.qty.0 == 0 && !(match side {
                Side::Bid => old(self).bids@,
                Side::Ask => old(self).asks@,
            }).contains_key(level.price.0) ==> final(self).cached_best_bid == old(self).cached_best_bid
                && final(self).cached_best_ask == old(self).cached_best_ask,
    {
        match side {
            Side::Bid => self.apply_bid(level),
            Side::Ask => self.apply_ask(level),
        }
    }
}

impl Orderbook {
    /// Apply an update and return the notification for it: the update's
    /// timestamp, the given send timestamp, the best bid and ask after the
    /// update, and the update's sequence number.
    pub fn apply(&mut self, update: &Update, send_ns: u64) -> (r: BookNotification)
        requires
            old(self).wf(),
            old(self).view().seq < u64::MAX,
        ensures
            final(self).wf(),
            final(self).view() == step(old(self).view(), *update),
            r.update_timestamp == update_timestamp(*update),
            r.engine_send_ns == send_ns,
            r.best_bid == final(self).cached_bid(),
            r.best_ask == final(self).cached_ask(),
            r.seq == final(self).view().seq,
            is_top_bid(final(self).view().bids, r.best_bid),
            is_top_ask(final(self).view().asks, r.best_ask),
            match *update {
                Update::Incremental { side, level, .. } => level.qty.0 == 0 && !(match side {
                    Side::Bid => old(self).view().bids,
                    Side::Ask => old(self).view().asks,
                }).contains_key(level.price.0) ==> {
                    &&& final(self).view().bids == old(self).view().bids
                    &&& final(self).view().asks == old(self).view().asks
                    &&& final(self).cached_bid() == old(self).cached_bid()
                    &&& final(self).cached_ask() == old(self).cached_ask()
                },
                Update::Snapshot { bids, asks, .. } => {
                    &&& forall|p: u64| #[trigger] final(self).view().bids.contains_key(p) <==> exists|i: int|
                        0 <= i < bids@.len() && bids@[i].price.0 == p && bids@[i].qty.0 != 0
                    &&& forall|p: u64| #[trigger] final(self).view().asks.contains_key(p) <==> exists|i: int|
                        0 <= i < asks@.len() && asks@[i].price.0 == p && asks@[i].qty.0 != 0
                    &&& distinct_prices(bids@) ==> final(self).view().bids.len() == nonzero_count(bids@)
                    &&& distinct_prices(asks@) ==> final(self).view().asks.len() == nonzero_count(asks@)
                },
            },
    {
        let timestamp = match update {
            Update::Snapshot { timestamp, bids, asks } => {
                self.apply_snapshot(bids, asks);
                proof {
                    lemma_snapshot_replaces(old(self).view(), *timestamp, *bids, *asks);
                }
                *timestamp
            },
            Update::Incremental { timestamp, side, level } => {
                self.apply_incremental(*side, *level);
                proof {
                    if level.qty.0 == 0 && !(match *side {
                        Side::Bid => old(self).view().bids,
                        Side::Ask => old(self).view().asks,
                    }).contains_key(level.price.0) {
                        lemma_redundant_delete(old(self).view(), *timestamp, *side, level.price);
                    }
                }
                *timestamp
            },
        };
        self.seq = self.seq + 1;
        BookNotification {
            update_timestamp: timestamp,
            engine_send_ns: send_ns,
            best_bid: self.cached_best_bid,
            best_ask: self.cached_best_ask,
            seq: self.seq,
        }
    }

    /// The best bid: the highest-priced bid level, none when there is no bid.
    pub fn best_bid(&self) -> (r: Option<Level>)
        requires
            self.wf(),
        ensures
            r == self.cached_bid(),
            is_top_bid(self.view().bids, r),
            r is Some ==> r->0.qty.0 != 0,
    {
        self.cached_best_bid
    }

    /// The best ask: the lowest-priced ask level, none when there is no ask.
    pub fn best_ask(&self) -> (r: Option<Level>)
        requires
            self.wf(),
        ensures
            r == self.cached_ask(),
            is_top_ask(self.view().asks, r),
            r is Some ==> r->0.qty.0 != 0,
    {
        self.cached_best_ask
    }

    /// Number of distinct price levels on the bid side.
    pub fn bid_depth(&self) -> (r: usize)
        ensures
            r == self.view().bids.len(),
    {
        self.bids.len()
    }

    /// Number of distinct price levels on the ask side.
    pub fn ask_depth(&self) -> (r: usize)
        ensures
            r == self.view().asks.len(),
    {
        self.asks.len()
    }

    /// Number of updates applied so far.
    pub fn seq(&self) -> (r: u64)
        ensures
            r == self.view().seq,
    {
        self.seq
    }
}

/// Number of levels in `s` with a non-zero quantity.
pub open spec fn nonzero_count(s: Seq<Level>) -> nat
    decreases s.len(),
{
    if s.len() == 0 {
        0
    } else {
        nonzero_count(s.drop_last()) + if s.last().qty.0 == 0 {
            0nat
        } else {
            1nat
        }
    }
}

/// No two levels of `s` with a non-zero quantity share a price.
pub open spec fn distinct_prices(s: Seq<Level>) -> bool {
    forall|i: int, j: int|
        0 <= i < j < s.len() && s[i].qty.0 != 0 && s[j].qty.0 != 0 ==> #[trigger] s[i].price
            != #[trigger] s[j].price
}

/// A side built from a snapshot's list holds exactly the prices that the list
/// gives with a non-zero quantity, and finitely many of them.
pub proof fn lemma_levels_map_keys(s: Seq<Level>)
    ensures
        levels_map(s).dom().finite(),
        forall|p: u64|
            #[trigger] levels_map(s).contains_key(p) <==> exists|i: int|
                0 <= i < s.len() && s[i].price.0 == p && s[i].qty.0 != 0,
        no_zero_levels(levels_map(s)),
    decreases s.len(),
{
    if s.len() > 0 {
        let t = s.drop_last();
        lemma_levels_map_keys(t);
        assert forall|p: u64| #[trigger] levels_map(s).contains_key(p) <==> exists|i: int|
            0 <= i < s.len() && s[i].price.0 == p && s[i].qty.0 != 0 by {
            if levels_map(t).contains_key(p) {
                let i = choose|i: int| 0 <= i < t.len() && t[i].price.0 == p && t[i].qty.0 != 0;
                assert(s[i] == t[i]);
            }
            if exists|i: int| 0 <= i < s.len() && s[i].price.0 == p && s[i].qty.0 != 0 {
                let i = choose|i: int| 0 <= i < s.len() && s[i].price.0 == p && s[i].qty.0 != 0;
                if i < s.len() - 1 {
                    assert(t[i] == s[i]);
                }
            }
        }
    }
}

/// Snapshot replaces fully: after a snapshot each side holds exactly the
/// prices the snapshot lists with a non-zero quantity, whatever the book held
/// before; where those prices are distinct, the depth of each side is the
/// number of such levels.
pub proof fn lemma_snapshot_replaces(v: BookView, timestamp: Timestamp, bids: Vec<Level>, asks: Vec<Level>)
    ensures
        ({
            let w = step(v, Update::Snapshot { timestamp, bids, asks });
            &&& forall|p: u64| #[trigger] w.bids.contains_key(p) <==> exists|i: int|
                0 <= i < bids@.len() && bids@[i].price.0 == p && bids@[i].qty.0 != 0
            &&& forall|p: u64| #[trigger] w.asks.contains_key(p) <==> exists|i: int|
                0 <= i < asks@.len() && asks@[i].price.0 == p && asks@[i].qty.0 != 0
            &&& distinct_prices(bids@) ==> w.bids.len() == nonzero_count(bids@)
            &&& distinct_prices(asks@) ==> w.asks.len() == nonzero_count(asks@)
        }),
{
    lemma_levels_map_keys(bids@);
    lemma_levels_map_keys(asks@);
    lemma_levels_map_len(bids@);
    lemma_levels_map_len(asks@);
}

/// With distinct prices, the side built from a list has one entry per
/// non-zero level.
proof fn lemma_levels_map_len(s: Seq<Level>)
    ensures
        distinct_prices(s) ==> levels_map(s).len() == nonzero_count(s),
    decreases s.len(),
{
    if s.len() > 0 && distinct_prices(s) {
        let t = s.drop_last();
        assert(distinct_prices(t)) by {
            assert forall|i: int, j: int|
                0 <= i < j < t.len() && t[i].qty.0 != 0 && t[j].qty.0 != 0 implies #[trigger] t[i].price
                != #[trigger] t[j].price by {
                assert(s[i] == t[i] && s[j] == t[j]);
            }
        }
        lemma_levels_map_len(t);
        lemma_levels_map_keys(t);
        let l = s.last();
        if l.qty.0 != 0 {
            if levels_map(t).contains_key(l.price.0) {
                let i = choose|i: int| 0 <= i < t.len() && t[i].price.0 == l.price.0 && t[i].qty.0 != 0;
                assert(s[i] == t[i]);
                assert(s[i].price != s[s.len() - 1].price);
            }
            assert(levels_map(s).dom() == levels_map(t).dom().insert(l.price.0));
        }
    }
}

/// The sequence number after `us` is the number of updates in `us`: the
/// notification of the n-th update carries n.
pub proof fn lemma_seq_counts_updates(us: Seq<Update>)
    ensures
        run(us).seq == us.len(),
    decreases us.len(),
{
    if us.len() > 0 {
        lemma_seq_counts_updates(us.drop_last());
    }
}

/// A side has at most one best bid and at most one best ask.
pub proof fn lemma_best_unique(m: Map<u64, u64>, a: Option<Level>, b: Option<Level>)
    ensures
        is_top_bid(m, a) && is_top_bid(m, b) ==> a == b,
        is_top_ask(m, a) && is_top_ask(m, b) ==> a == b,
{
    if is_top_bid(m, a) && is_top_bid(m, b) {
        if a is Some && b is None {
            assert(!m.contains_key(a->0.price.0));
        }
        if a is None && b is Some {
            assert(!m.contains_key(b->0.price.0));
        }
        if a is Some && b is Some {
            assert(a->0.price.0 <= b->0.price.0 && b->0.price.0 <= a->0.price.0);
        }
    }
    if is_top_ask(m, a) && is_top_ask(m, b) {
        if a is Some && b is None {
            assert(!m.contains_key(a->0.price.0));
        }
        if a is None && b is Some {
            assert(!m.contains_key(b->0.price.0));
        }
        if a is Some && b is Some {
            assert(a->0.price.0 <= b->0.price.0 && b->0.price.0 <= a->0.price.0);
        }
    }
}

/// Removing a price that a side does not hold leaves both sides as they were,
/// and so also their best levels; only the sequence number moves.
pub proof fn lemma_redundant_delete(v: BookView, timestamp: Timestamp, side: Side, price: Price)
    requires
        !(match side {
            Side::Bid => v.bids,
            Side::Ask => v.asks,
        }).contains_key(price.0),
    ensures
        ({
            let w = step(v, Update::Incremental { timestamp, side, level: Level { price, qty: Qty(0) } });
            &&& w.bids == v.bids
            &&& w.asks == v.asks
            &&& w.seq == v.seq + 1
            &&& forall|a: Option<Level>, b: Option<Level>|
                #[trigger] is_top_bid(v.bids, a) && #[trigger] is_top_bid(w.bids, b) ==> a == b
            &&& forall|a: Option<Level>, b: Option<Level>|
                #[trigger] is_top_ask(v.asks, a) && #[trigger] is_top_ask(w.asks, b) ==> a == b
        }),
{
    let w = step(v, Update::Incremental { timestamp, side, level: Level { price, qty: Qty(0) } });
    match side {
        Side::Bid => assert(v.bids.remove(price.0) =~= v.bids),
        Side::Ask => assert(v.asks.remove(price.0) =~= v.asks),
    }
    assert forall|a: Option<Level>, b: Option<Level>|
        #[trigger] is_top_bid(v.bids, a) && #[trigger] is_top_bid(w.bids, b) implies a == b by {
        lemma_best_unique(v.bids, a, b);
    }
    assert forall|a: Option<Level>, b: Option<Level>|
        #[trigger] is_top_ask(v.asks, a) && #[trigger] is_top_ask(w.asks, b) implies a == b by {
        lemma_best_unique(v.asks, a, b);
    }
}

} // verus!
