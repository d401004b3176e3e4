//! Simulation of market orders against a snapshot of resting price levels.

use vstd::prelude::*;

verus! {

/// One resting price level of the book.
#[derive(Clone, Copy, Debug, PartialEq, Eq, Structural)]
pub struct LadderOrder {
    pub price_in_ticks: u64,
    pub size_in_base_lots: u64,
}

/// The resting levels of both sides, best price first.
#[derive(Clone, Debug)]
pub struct Ladder {
    pub bids: Vec<LadderOrder>,
    pub asks: Vec<LadderOrder>,
}

/// The side of the book that an order rests on.
#[derive(Clone, Copy, Debug, PartialEq, Eq, Structural)]
pub enum Side {
    Bid,
    Ask,
}

/// What a simulated market order would fill, in lots.
#[derive(Clone, Copy, Debug, PartialEq, Eq, Structural)]
pub struct SimulationSummaryInLots {
    pub base_lots_filled: u64,
    pub quote_lots_filled: u64,
}

/// A ladder together with the two constants that convert ticks and lots
/// into raw lot counts.
#[derive(Clone, Debug)]
pub struct LadderWithAdjustment {
    pub ladder: Ladder,
    pub tick_size_in_quote_lots_per_base_unit: u64,
    pub base_lots_per_base_unit: u64,
}

/// Quote lots (scaled by base lots per base unit) that one base lot of a
/// level costs.
pub open spec fn unit_cost(o: LadderOrder, tick: nat) -> nat {
    (o.price_in_ticks as nat) * tick
}

/// Sum of the sizes of the levels.
pub open spec fn total_size(levels: Seq<LadderOrder>) -> nat
    decreases levels.len(),
{
    if levels.len() == 0 {
        0
    } else {
        levels[0].size_in_base_lots as nat + total_size(levels.drop_first())
    }
}

/// Sum of the scaled quote value of every level taken whole.
pub open spec fn total_cost(levels: Seq<LadderOrder>, tick: nat) -> nat
    decreases levels.len(),
{
    if levels.len() == 0 {
        0
    } else {
        (levels[0].size_in_base_lots as nat) * unit_cost(levels[0], tick) + total_cost(
            levels.drop_first(),
            tick,
        )
    }
}

/// Spending a scaled quote budget on the levels in order: at each level buy
/// as many whole base lots as the budget affords, at most the level's size.
/// Returns the base lots bought and the budget left over.
pub open spec fn buy_walk(levels: Seq<LadderOrder>, budget: nat, tick: nat) -> (nat, nat)
    decreases levels.len(),
{
    if levels.len() == 0 {
        (0, budget)
    } else {
        let cost = unit_cost(levels[0], tick);
        let take = vstd::math::min(
            (budget / cost) as int,
            levels[0].size_in_base_lots as int,
        ) as nat;
        let rest = buy_walk(levels.drop_first(), (budget - take * cost) as nat, tick);
        (take + rest.0, rest.1)
    }
}

/// Selling base lots into the levels in order: at each level sell as much as
/// is left, at most the level's size. Returns the base lots sold and the
/// scaled quote proceeds.
pub open spec fn sell_walk(levels: Seq<LadderOrder>, amount: nat, tick: nat) -> (nat, nat)
    decreases levels.len(),
{
    if levels.len() == 0 {
        (0, 0)
    } else {
        let take = vstd::math::min(amount as int, levels[0].size_in_base_lots as int) as nat;
        let rest = sell_walk(levels.drop_first(), (amount - take) as nat, tick);
        (take + rest.0, take * unit_cost(levels[0], tick) + rest.1)
    }
}

/// Prices never decrease along the sequence.
pub open spec fn ascending(levels: Seq<LadderOrder>) -> bool {
    forall|i: int, j: int|
        0 <= i < j < levels.len() ==> levels[i].price_in_ticks <= levels[j].price_in_ticks
}

/// Prices never increase along the sequence.
pub open spec fn descending(levels: Seq<LadderOrder>) -> bool {
    forall|i: int, j: int|
        0 <= i < j < levels.len() ==> levels[i].price_in_ticks >= levels[j].price_in_ticks
}

impl SimulationSummaryInLots {
    pub open spec fn view(&self) -> (nat, nat) {
        (self.base_lots_filled as nat, self.quote_lots_filled as nat)
    }
}

impl LadderWithAdjustment {
    pub open spec fn tick(&self) -> nat {
        self.tick_size_in_quote_lots_per_base_unit as nat
    }

    pub open spec fn lots(&self) -> nat {
        self.base_lots_per_base_unit as nat
    }

    /// Both constants are positive, bids are best (highest) first and asks
    /// best (lowest) first at positive prices, and the sums that a
    /// simulation accumulates fit in 64 bits.
    pub open spec fn wf(&self) -> bool {
        let asks = self.ladder.asks@;
        let bids = self.ladder.bids@;
        &&& self.tick() > 0
        &&& self.lots() > 0
        &&& ascending(asks)
        &&& descending(bids)
        &&& forall|i: int|
            0 <= i < asks.len() ==> #[trigger] asks[i].price_in_ticks > 0 && unit_cost(
                asks[i],
                self.tick(),
            ) <= u64::MAX
        &&& total_size(asks) <= u64::MAX
        &&& total_cost(bids, self.tick()) <= u64::MAX
    }

    /// The outcome of spending `quote_lots` on the asks:
    /// (base lots bought, quote lots spent).
    pub open spec fn quote_sale(&self, quote_lots: nat) -> (nat, nat) {
        let budget = quote_lots * self.lots();
        let w = buy_walk(self.ladder.asks@, budget, self.tick());
        (w.0, ((budget - w.1) as nat) / self.lots())
    }

    /// The outcome of selling `base_lots` into the bids:
    /// (base lots sold, quote lots received).
    pub open spec fn base_sale(&self, base_lots: nat) -> (nat, nat) {
        let w = sell_walk(self.ladder.bids@, base_lots, self.tick());
        (w.0, w.1 / self.lots())
    }

    /// The outcome of a market order of `size` lots on `side`: a bid spends
    /// quote lots on the asks, an ask sells base lots into the bids.
    pub open spec fn market_sell(&self, side: Side, size: nat) -> (nat, nat) {
        match side {
            Side::Bid => self.quote_sale(size),
            Side::Ask => self.base_sale(size),
        }
    }
}

/// Every level has a positive cost per base lot.
pub open spec fn priced(levels: Seq<LadderOrder>, tick: nat) -> bool {
    forall|i: int| 0 <= i < levels.len() ==> #[trigger] unit_cost(levels[i], tick) > 0
}

proof fn lemma_priced_tail(levels: Seq<LadderOrder>, tick: nat)
    requires
        levels.len() > 0,
        priced(levels, tick),
    ensures
        priced(levels.drop_first(), tick),
        unit_cost(levels[0], tick) > 0,
{
    assert forall|i: int| 0 <= i < levels.drop_first().len() implies #[trigger] unit_cost(
        levels.drop_first()[i],
        tick,
    ) > 0 by {
        assert(levels.drop_first()[i] == levels[i + 1]);
    }
}

/// Buying with no budget buys nothing.
proof fn lemma_buy_walk_empty_budget(levels: Seq<LadderOrder>, tick: nat)
    requires
        priced(levels, tick),
    ensures
        buy_walk(levels, 0, tick) == (0nat, 0nat),
    decreases levels.len(),
{
    if levels.len() > 0 {
        lemma_priced_tail(levels, tick);
        let cost = unit_cost(levels[0], tick);
        assert(0nat / cost == 0 && 0 * cost == 0) by (nonlinear_arith)
            requires
                cost > 0,
        ;
        lemma_buy_walk_empty_budget(levels.drop_first(), tick);
    }
}

/// Selling nothing fills nothing.
proof fn lemma_sell_walk_empty_amount(levels: Seq<LadderOrder>, tick: nat)
    ensures
        sell_walk(levels, 0, tick) == (0nat, 0nat),
    decreases levels.len(),
{
    if levels.len() > 0 {
        let cost = unit_cost(levels[0], tick);
        assert(0 * cost == 0);
        lemma_sell_walk_empty_amount(levels.drop_first(), tick);
    }
}

/// A buy fills at most the depth of the levels and never spends more than
/// its budget.
proof fn lemma_buy_walk_bounds(levels: Seq<LadderOrder>, budget: nat, tick: nat)
    requires
        priced(levels, tick),
    ensures
        buy_walk(levels, budget, tick).0 <= total_size(levels),
        buy_walk(levels, budget, tick).1 <= budget,
    decreases levels.len(),
{
    if levels.len() > 0 {
        lemma_priced_tail(levels, tick);
        let cost = unit_cost(levels[0], tick);
        let take = vstd::math::min((budget / cost) as int, levels[0].size_in_base_lots as int);
        assert(take * cost <= budget) by (nonlinear_arith)
            requires
                cost > 0,
                take <= budget / cost,
                take >= 0,
        ;
        lemma_buy_walk_bounds(levels.drop_first(), (budget - take * cost) as nat, tick);
    }
}

/// A sale fills at most the amount asked and the depth of the levels, and
/// receives at most the value of all levels taken whole.
proof fn lemma_sell_walk_bounds(levels: Seq<LadderOrder>, amount: nat, tick: nat)
    ensures
        sell_walk(levels, amount, tick).0 <= total_size(levels),
        sell_walk(levels, amount, tick).0 <= amount,
        sell_walk(levels, amount, tick).1 <= total_cost(levels, tick),
    decreases levels.len(),
{
    if levels.len() > 0 {
        let take = vstd::math::min(amount as int, levels[0].size_in_base_lots as int) as nat;
        let cost = unit_cost(levels[0], tick);
        let size = levels[0].size_in_base_lots as nat;
        assert(take * cost <= size * cost) by (nonlinear_arith)
            requires
                take <= size,
        ;
        lemma_sell_walk_bounds(levels.drop_first(), (amount - take) as nat, tick);
    }
}

/// Every level costs at least as much per base lot as the ones before it.
pub open spec fn cheapest_first(levels: Seq<LadderOrder>, tick: nat) -> bool {
    forall|i: int, j: int|
        0 <= i < j < levels.len() ==> #[trigger] unit_cost(levels[i], tick) <= #[trigger] unit_cost(
            levels[j],
            tick,
        )
}

proof fn lemma_cheapest_first_tail(levels: Seq<LadderOrder>, tick: nat)
    requires
        levels.len() > 0,
        cheapest_first(levels, tick),
    ensures
        cheapest_first(levels.drop_first(), tick),
        forall|k: int|
            0 <= k < levels.drop_first().len() ==> unit_cost(levels[0], tick) <= #[trigger] unit_cost(
                levels.drop_first()[k],
                tick,
            ),
{
    let t = levels.drop_first();
    assert forall|i: int, j: int| 0 <= i < j < t.len() implies #[trigger] unit_cost(t[i], tick)
        <= #[trigger] unit_cost(t[j], tick) by {
        assert(t[i] == levels[i + 1] && t[j] == levels[j + 1]);
    }
    assert forall|k: int| 0 <= k < t.len() implies unit_cost(levels[0], tick) <= #[trigger] unit_cost(
        t[k],
        tick,
    ) by {
        assert(t[k] == levels[k + 1]);
    }
}

/// A budget below the cost of every level buys nothing.
proof fn lemma_buy_walk_unaffordable(levels: Seq<LadderOrder>, budget: nat, tick: nat)
    requires
        forall|k: int| 0 <= k < levels.len() ==> budget < #[trigger] unit_cost(levels[k], tick),
    ensures
        buy_walk(levels, budget, tick) == (0nat, budget),
    decreases levels.len(),
{
    if levels.len() > 0 {
        let cost = unit_cost(levels[0], tick);
        assert(budget / cost == 0 && 0 * cost == 0) by (nonlinear_arith)
            requires
                budget < cost,
        ;
        let t = levels.drop_first();
        assert forall|k: int| 0 <= k < t.len() implies budget < #[trigger] unit_cost(t[k], tick) by {
            assert(t[k] == levels[k + 1]);
        }
        lemma_buy_walk_unaffordable(t, budget, tick);
    }
}

/// On levels sorted cheapest first, a larger budget buys at least as many
/// base lots and spends at least as much.
proof fn lemma_buy_walk_monotone(levels: Seq<LadderOrder>, b1: nat, b2: nat, tick: nat)
    requires
        priced(levels, tick),
        cheapest_first(levels, tick),
        b1 <= b2,
    ensures
        buy_walk(levels, b1, tick).0 <= buy_walk(levels, b2, tick).0,
        b1 - buy_walk(levels, b1, tick).1 <= b2 - buy_walk(levels, b2, tick).1,
    decreases levels.len(),
{
    if levels.len() > 0 {
        lemma_priced_tail(levels, tick);
        lemma_cheapest_first_tail(levels, tick);
        let rest = levels.drop_first();
        let c = unit_cost(levels[0], tick);
        let size = levels[0].size_in_base_lots as int;
        let q1 = (b1 / c) as int;
        let q2 = (b2 / c) as int;
        vstd::arithmetic::div_mod::lemma_div_is_ordered(b1 as int, b2 as int, c as int);
        vstd::arithmetic::div_mod::lemma_fundamental_div_mod(b1 as int, c as int);
        vstd::arithmetic::div_mod::lemma_mod_bound(b1 as int, c as int);
        vstd::arithmetic::div_mod::lemma_fundamental_div_mod(b2 as int, c as int);
        vstd::arithmetic::div_mod::lemma_mod_bound(b2 as int, c as int);
        assert(q1 * c == c * q1 && q2 * c == c * q2) by (nonlinear_arith);
        let t1 = vstd::math::min(q1, size);
        let t2 = vstd::math::min(q2, size);
        assert(t1 * c <= t2 * c) by (nonlinear_arith)
            requires
                t1 <= t2,
        ;
        assert(t1 * c <= b1 && t2 * c <= b2) by (nonlinear_arith)
            requires
                c > 0,
                t1 <= q1,
                t2 <= q2,
                q1 * c <= b1,
                q2 * c <= b2,
        ;
        let r1 = (b1 - t1 * c) as nat;
        let r2 = (b2 - t2 * c) as nat;
        lemma_buy_walk_bounds(rest, r2, tick);
        if t1 == size {
            lemma_buy_walk_monotone(rest, r1, r2, tick);
        } else {
            assert(r1 < c);
            lemma_buy_walk_unaffordable(rest, r1, tick);
        }
    }
}

/// Selling more base lots fills at least as much and receives at least as
/// much.
proof fn lemma_sell_walk_monotone(levels: Seq<LadderOrder>, a1: nat, a2: nat, tick: nat)
    requires
        a1 <= a2,
    ensures
        sell_walk(levels, a1, tick).0 <= sell_walk(levels, a2, tick).0,
        sell_walk(levels, a1, tick).1 <= sell_walk(levels, a2, tick).1,
    decreases levels.len(),
{
    if levels.len() > 0 {
        let c = unit_cost(levels[0], tick);
        let size = levels[0].size_in_base_lots as int;
        let t1 = vstd::math::min(a1 as int, size);
        let t2 = vstd::math::min(a2 as int, size);
        assert(t1 * c <= t2 * c) by (nonlinear_arith)
            requires
                t1 <= t2,
        ;
        lemma_sell_walk_monotone(levels.drop_first(), (a1 - t1) as nat, (a2 - t2) as nat, tick);
    }
}

/// Selling at least the whole depth takes every level whole.
proof fn lemma_sell_walk_saturates(levels: Seq<LadderOrder>, amount: nat, tick: nat)
    requires
        amount >= total_size(levels),
    ensures
        sell_walk(levels, amount, tick) == (total_size(levels), total_cost(levels, tick)),
    decreases levels.len(),
{
    if levels.len() > 0 {
        let size = levels[0].size_in_base_lots as nat;
        lemma_sell_walk_saturates(levels.drop_first(), (amount - size) as nat, tick);
    }
}

/// A budget of at least the value of the whole depth buys every level whole.
proof fn lemma_buy_walk_saturates(levels: Seq<LadderOrder>, budget: nat, tick: nat)
    requires
        priced(levels, tick),
        budget >= total_cost(levels, tick),
    ensures
        buy_walk(levels, budget, tick) == (total_size(levels), (budget - total_cost(
            levels,
            tick,
        )) as nat),
    decreases levels.len(),
{
    if levels.len() > 0 {
        lemma_priced_tail(levels, tick);
        let c = unit_cost(levels[0], tick);
        let size = levels[0].size_in_base_lots as int;
        vstd::arithmetic::div_mod::lemma_div_is_ordered(size * c, budget as int, c as int);
        vstd::arithmetic::div_mod::lemma_div_multiples_vanish(size, c as int);
        assert(size * c == c * size) by (nonlinear_arith);
        lemma_buy_walk_saturates(levels.drop_first(), (budget - size * c) as nat, tick);
    }
}

impl LadderWithAdjustment {
    proof fn lemma_wf_priced(&self)
        requires
            self.wf(),
        ensures
            priced(self.ladder.asks@, self.tick()),
    {
        assert forall|i: int| 0 <= i < self.ladder.asks@.len() implies #[trigger] unit_cost(
            self.ladder.asks@[i],
            self.tick(),
        ) > 0 by {
            assert(self.ladder.asks@[i].price_in_ticks > 0);
            let p = self.ladder.asks@[i].price_in_ticks as nat;
            let t = self.tick();
            assert(p * t > 0) by (nonlinear_arith)
                requires
                    p > 0,
                    t > 0,
            ;
        }
    }
}

/// Previews of market orders against a book.
pub trait MarketSimulator {
    /// The book is well formed and an order of `size` lots on `side` keeps
    /// every intermediate sum within 64 bits.
    spec fn simulable(&self, side: Side, size: nat) -> bool;

    /// What an order of `size` lots on `side` fills: (base lots, quote lots).
    spec fn outcome(&self, side: Side, size: nat) -> (nat, nat);

    /// Spends up to `num_lots_quote` quote lots on the asks, best price first.
    fn sell_quote(&self, num_lots_quote: u64) -> (r: SimulationSummaryInLots)
        requires
            self.simulable(Side::Bid, num_lots_quote as nat),
        ensures
            r@ == self.outcome(Side::Bid, num_lots_quote as nat),
    ;

    /// Sells up to `num_lots_base` base lots into the bids, best price first.
    fn sell_base(&self, num_lots_base: u64) -> (r: SimulationSummaryInLots)
        requires
            self.simulable(Side::Ask, num_lots_base as nat),
        ensures
            r@ == self.outcome(Side::Ask, num_lots_base as nat),
    ;

    /// A market order of `size_in_lots` on `side`: a bid spends quote lots
    /// on the asks, an ask sells base lots into the bids.
    fn simulate_market_sell(&self, side: Side, size_in_lots: u64) -> (r: SimulationSummaryInLots)
        requires
            self.simulable(side, size_in_lots as nat),
        ensures
            r@ == self.outcome(side, size_in_lots as nat),
    ;
}

impl MarketSimulator for LadderWithAdjustment {
    open spec fn simulable(&self, side: Side, size: nat) -> bool {
        self.wf() && (side == Side::Bid ==> size * self.lots() <= u64::MAX)
    }

    open spec fn outcome(&self, side: Side, size: nat) -> (nat, nat) {
        self.market_sell(side, size)
    }

    /// Spends up to `num_lots_quote` quote lots on the asks, best price first.
    fn sell_quote(&self, num_lots_quote: u64) -> (r: SimulationSummaryInLots) {
        let tick = self.tick_size_in_quote_lots_per_base_unit;
        let adjusted_quote_lots = num_lots_quote * self.base_lots_per_base_unit;
        let mut remaining_adjusted_quote_lots: u64 = adjusted_quote_lots;
        let mut base_lots: u64 = 0;
        let asks = &self.ladder.asks;
        let ghost total = buy_walk(asks@, adjusted_quote_lots as nat, tick as nat);
        proof {
            self.lemma_wf_priced();
            lemma_buy_walk_bounds(asks@, adjusted_quote_lots as nat, tick as nat);
            assert(asks@.subrange(0, asks@.len() as int) =~= asks@);
        }
        let mut i: usize = 0;
        while i < asks.len() && remaining_adjusted_quote_lots > 0
            invariant
                self.wf(),
                asks == &self.ladder.asks,
                tick == self.tick_size_in_quote_lots_per_base_unit,
                priced(asks@, tick as nat),
                i <= asks.len(),
                total == buy_walk(asks@, adjusted_quote_lots as nat, tick as nat),
                total.0 <= total_size(asks@),
                base_lots + buy_walk(
                    asks@.subrange(i as int, asks@.len() as int),
                    remaining_adjusted_quote_lots as nat,
                    tick as nat,
                ).0 == total.0,
                buy_walk(
                    asks@.subrange(i as int, asks@.len() as int),
                    remaining_adjusted_quote_lots as nat,
                    tick as nat,
                ).1 == total.1,
            decreases asks.len() - i,
        {
            let ghost rest = asks@.subrange(i as int, asks@.len() as int);
            let ask = asks[i];
            let cost = ask.price_in_ticks * tick;
            let max_base_lots_you_can_buy = remaining_adjusted_quote_lots / cost;
            let amount_lots_to_buy = if max_base_lots_you_can_buy < ask.size_in_base_lots {
                max_base_lots_you_can_buy
            } else {
                ask.size_in_base_lots
            };
            proof {
                assert(rest[0] == ask);
                assert(rest.drop_first() =~= asks@.subrange(i + 1, asks@.len() as int));
                assert(amount_lots_to_buy * cost <= remaining_adjusted_quote_lots) by (nonlinear_arith)
                    requires
                        cost > 0,
                        amount_lots_to_buy <= remaining_adjusted_quote_lots / cost,
                ;
                lemma_buy_walk_bounds(rest.drop_first(), (remaining_adjusted_quote_lots - amount_lots_to_buy * cost) as nat, tick as nat);
            }
            base_lots = base_lots + amount_lots_to_buy;
            remaining_adjusted_quote_lots = remaining_adjusted_quote_lots - amount_lots_to_buy * cost;
            i = i + 1;
        }
        proof {
            let rest = asks@.subrange(i as int, asks@.len() as int);
            if i < asks.len() {
                assert(priced(rest, tick as nat)) by {
                    assert forall|k: int| 0 <= k < rest.len() implies #[trigger] unit_cost(rest[k], tick as nat) > 0 by {
                        assert(rest[k] == asks@[i + k]);
                    }
                }
                lemma_buy_walk_empty_budget(rest, tick as nat);
            } else {
                assert(rest.len() == 0);
            }
            lemma_buy_walk_bounds(asks@, adjusted_quote_lots as nat, tick as nat);
        }
        let quote_lots_used = (adjusted_quote_lots - remaining_adjusted_quote_lots)
            / self.base_lots_per_base_unit;
        SimulationSummaryInLots { base_lots_filled: base_lots, quote_lots_filled: quote_lots_used }
    }

    /// Sells up to `num_lots_base` base lots into the bids, best price first.
    fn sell_base(&self, num_lots_base: u64) -> (r: SimulationSummaryInLots) {
        let tick = self.tick_size_in_quote_lots_per_base_unit;
        let mut remaining_base_lots: u64 = num_lots_base;
        let mut adjusted_quote_lots: u64 = 0;
        let bids = &self.ladder.bids;
        let ghost total = sell_walk(bids@, num_lots_base as nat, tick as nat);
        proof {
            lemma_sell_walk_bounds(bids@, num_lots_base as nat, tick as nat);
            assert(bids@.subrange(0, bids@.len() as int) =~= bids@);
        }
        let mut i: usize = 0;
        while i < bids.len() && remaining_base_lots > 0
            invariant
                self.wf(),
                bids == &self.ladder.bids,
                tick == self.tick_size_in_quote_lots_per_base_unit,
                i <= bids.len(),
                remaining_base_lots <= num_lots_base,
                total == sell_walk(bids@, num_lots_base as nat, tick as nat),
                total.1 <= u64::MAX,
                (num_lots_base - remaining_base_lots) + sell_walk(
                    bids@.subrange(i as int, bids@.len() as int),
                    remaining_base_lots as nat,
                    tick as nat,
                ).0 == total.0,
                adjusted_quote_lots + sell_walk(
                    bids@.subrange(i as int, bids@.len() as int),
                    remaining_base_lots as nat,
                    tick as nat,
                ).1 == total.1,
            decreases bids.len() - i,
        {
            let ghost rest = bids@.subrange(i as int, bids@.len() as int);
            let bid = bids[i];
            let lots_to_fill = if remaining_base_lots < bid.size_in_base_lots {
                remaining_base_lots
            } else {
                bid.size_in_base_lots
            };
            proof {
                assert(rest[0] == bid);
                assert(rest.drop_first() =~= bids@.subrange(i + 1, bids@.len() as int));
                let l = lots_to_fill as nat;
                let p = bid.price_in_ticks as nat;
                let t = tick as nat;
                assert(l * p <= l * p * t && l * p * t == l * (p * t)) by (nonlinear_arith)
                    requires
                        t > 0,
                ;
            }
            adjusted_quote_lots = adjusted_quote_lots + lots_to_fill * bid.price_in_ticks * tick;
            remaining_base_lots = remaining_base_lots - lots_to_fill;
            i = i + 1;
        }
        proof {
            let rest = bids@.subrange(i as int, bids@.len() as int);
            if i < bids.len() {
                lemma_sell_walk_empty_amount(rest, tick as nat);
            } else {
                assert(rest.len() == 0);
            }
        }
        let base_lots_used = num_lots_base - remaining_base_lots;
        SimulationSummaryInLots {
            base_lots_filled: base_lots_used,
            quote_lots_filled: adjusted_quote_lots / self.base_lots_per_base_unit,
        }
    }

    /// A market order of `size_in_lots` on `side`: a bid spends quote lots on
    /// the asks, an ask sells base lots into the bids.
    fn simulate_market_sell(&self, side: Side, size_in_lots: u64) -> (r: SimulationSummaryInLots) {
        match side {
            Side::Bid => self.sell_quote(size_in_lots),
            Side::Ask => self.sell_base(size_in_lots),
        }
    }
}

/// A market order of size zero fills nothing, on either side.
pub proof fn lemma_zero_size_fills_nothing(l: LadderWithAdjustment, side: Side)
    requires
        l.wf(),
    ensures
        l.market_sell(side, 0) == (0nat, 0nat),
{
    l.lemma_wf_priced();
    assert(0 * l.lots() == 0);
    lemma_buy_walk_empty_budget(l.ladder.asks@, l.tick());
    lemma_sell_walk_empty_amount(l.ladder.bids@, l.tick());
}

/// On a ladder with no levels, a market order of any size fills nothing.
pub proof fn lemma_empty_ladder_fills_nothing(l: LadderWithAdjustment, side: Side, size: nat)
    requires
        l.wf(),
        l.ladder.bids.len() == 0,
        l.ladder.asks.len() == 0,
    ensures
        l.market_sell(side, size) == (0nat, 0nat),
{
}

/// For a fixed ladder, both filled amounts never decrease as the requested
/// size grows.
pub proof fn lemma_market_sell_monotone(l: LadderWithAdjustment, side: Side, s1: nat, s2: nat)
    requires
        l.wf(),
        s1 <= s2,
    ensures
        l.market_sell(side, s1).0 <= l.market_sell(side, s2).0,
        l.market_sell(side, s1).1 <= l.market_sell(side, s2).1,
{
    let k = l.lots();
    let t = l.tick();
    match side {
        Side::Bid => {
            let asks = l.ladder.asks@;
            l.lemma_wf_priced();
            assert(cheapest_first(asks, t)) by {
                assert forall|i: int, j: int| 0 <= i < j < asks.len() implies #[trigger] unit_cost(
                    asks[i],
                    t,
                ) <= #[trigger] unit_cost(asks[j], t) by {
                    let pi = asks[i].price_in_ticks as nat;
                    let pj = asks[j].price_in_ticks as nat;
                    assert(pi * t <= pj * t) by (nonlinear_arith)
                        requires
                            pi <= pj,
                    ;
                }
            }
            assert(s1 * k <= s2 * k) by (nonlinear_arith)
                requires
                    s1 <= s2,
            ;
            let b1 = s1 * k;
            let b2 = s2 * k;
            lemma_buy_walk_monotone(asks, b1, b2, t);
            lemma_buy_walk_bounds(asks, b1, t);
            lemma_buy_walk_bounds(asks, b2, t);
            vstd::arithmetic::div_mod::lemma_div_is_ordered(
                b1 - buy_walk(asks, b1, t).1,
                b2 - buy_walk(asks, b2, t).1,
                k as int,
            );
        },
        Side::Ask => {
            lemma_sell_walk_monotone(l.ladder.bids@, s1, s2, t);
            vstd::arithmetic::div_mod::lemma_div_is_ordered(
                sell_walk(l.ladder.bids@, s1, t).1 as int,
                sell_walk(l.ladder.bids@, s2, t).1 as int,
                k as int,
            );
        },
    }
}

/// A market order never fills more base lots than the consumed side holds;
/// once the request covers the whole depth of that side, the result is every
/// level taken whole.
pub proof fn lemma_market_sell_depth(l: LadderWithAdjustment, side: Side, size: nat)
    requires
        l.wf(),
    ensures
        side == Side::Bid ==> l.market_sell(side, size).0 <= total_size(l.ladder.asks@),
        side == Side::Ask ==> l.market_sell(side, size).0 <= total_size(l.ladder.bids@),
        side == Side::Ask && size >= total_size(l.ladder.bids@) ==> l.market_sell(side, size) == (
        total_size(l.ladder.bids@), total_cost(l.ladder.bids@, l.tick()) / l.lots()),
        side == Side::Bid && size * l.lots() >= total_cost(l.ladder.asks@, l.tick()) ==> l.market_sell(
            side,
            size,
        ) == (total_size(l.ladder.asks@), total_cost(l.ladder.asks@, l.tick()) / l.lots()),
{
    l.lemma_wf_priced();
    lemma_buy_walk_bounds(l.ladder.asks@, size * l.lots(), l.tick());
    lemma_sell_walk_bounds(l.ladder.bids@, size, l.tick());
    if size >= total_size(l.ladder.bids@) {
        lemma_sell_walk_saturates(l.ladder.bids@, size, l.tick());
    }
    if size * l.lots() >= total_cost(l.ladder.asks@, l.tick()) {
        lemma_buy_walk_saturates(l.ladder.asks@, size * l.lots(), l.tick());
    }
}

} // verus!
