use phoenix_sim::ladder::{
    Ladder, LadderOrder, LadderWithAdjustment, MarketSimulator, Side, SimulationSummaryInLots,
};

struct Fixture {
    pub ladder: LadderWithAdjustment,
    pub atoms_in_base_lot: f64,
    pub atoms_in_quote_lot: f64,
    pub atoms_in_base_unit: f64,
    pub atoms_in_quote_unit: f64,
}

fn level(price_in_ticks: u64, size_in_base_lots: u64) -> LadderOrder {
    LadderOrder {
        price_in_ticks,
        size_in_base_lots,
    }
}

// A very simplified ladder for SOL/USDC
fn get_sol_usdc_ladder() -> Fixture {
    let ladder = Ladder {
        bids: vec![level(0x58bf, 0x043f), level(0x58b9, 0x043f), level(0x58a7, 0x043f)],
        asks: vec![level(0x58c0, 0x3036), level(0x58c0, 0x01e1ff), level(0x58c0, 0x02a261)],
    };
    Fixture {
        ladder: LadderWithAdjustment {
            ladder,
            tick_size_in_quote_lots_per_base_unit: 1000,
            base_lots_per_base_unit: 1000,
        },
        atoms_in_base_lot: 1e6,
        atoms_in_quote_lot: 1.,
        atoms_in_base_unit: 1e9,
        atoms_in_quote_unit: 1e6,
    }
}

fn lots_to_unit_amount(lots: u64, lots_to_atoms: f64, atoms_to_unit: f64) -> f64 {
    let atoms = lots_to_atoms * lots as f64;
    atoms / atoms_to_unit
}

#[test]
fn test_empty_ladder_sell() {
    let ladder = LadderWithAdjustment {
        ladder: Ladder {
            bids: vec![],
            asks: vec![],
        },
        tick_size_in_quote_lots_per_base_unit: 1000,
        base_lots_per_base_unit: 1000,
    };
    let result = ladder.simulate_market_sell(Side::Ask, 1000);
    assert_eq!(result.base_lots_filled, 0);
    assert_eq!(result.quote_lots_filled, 0);
}

#[test]
fn test_sell_more_than_available() {
    let Fixture { ladder, .. } = get_sol_usdc_ladder();

    // Compute the max lots you can sell
    let max_lots_purchaseable: u64 = ladder
        .ladder
        .bids
        .iter()
        .map(|bid| bid.size_in_base_lots)
        .sum();

    // Sell twice as much, and assert that only the max is filled
    let to_purchase = max_lots_purchaseable * 2;
    let result = ladder.simulate_market_sell(Side::Ask, to_purchase);
    assert_eq!(result.base_lots_filled, max_lots_purchaseable);
    assert!(result.quote_lots_filled > 0);
}

#[test]
fn test_buy_more_than_available() {
    let Fixture { ladder, .. } = get_sol_usdc_ladder();

    // Compute the max lots you can buy (from available asks)
    let max_lots_sellable = ladder
        .ladder
        .asks
        .iter()
        .map(|ask| {
            ask.size_in_base_lots * ask.price_in_ticks * ladder.tick_size_in_quote_lots_per_base_unit
        })
        .sum::<u64>()
        / ladder.base_lots_per_base_unit;

    // Try to buy twice as much, which means you are selling twice as much base
    let to_sell = max_lots_sellable * 2;
    let result: SimulationSummaryInLots = ladder.simulate_market_sell(Side::Bid, to_sell);

    assert_eq!(result.quote_lots_filled, max_lots_sellable);
    assert!(result.quote_lots_filled > 0);
}

#[test]
fn test_simulate_market() {
    let test_cases = vec![
        (Side::Ask, 3000, 3000, 68130654, "22.710"),
        (Side::Ask, 6000, 3261, 74054049, "22.709"),
        (Side::Bid, 68000000, 2992, 67978240, "22.720"),
        (Side::Ask, 0, 0, 0, "0.000"),
        (Side::Bid, 0, 0, 0, "0.000"),
    ];

    for (side, input, expected_base, expected_quote, expected_price) in test_cases.into_iter() {
        let fixture = get_sol_usdc_ladder();
        let ladder = fixture.ladder;
        let result = ladder.simulate_market_sell(side, input);
        assert_eq!(
            result.base_lots_filled, expected_base,
            "Failed for side {:?} with input {}",
            side, input
        );
        assert_eq!(
            result.quote_lots_filled, expected_quote,
            "Failed for side {:?} with input {}",
            side, input
        );
        let price = match result.base_lots_filled {
            0 => 0.0,
            _ => {
                let base_units = lots_to_unit_amount(
                    result.base_lots_filled,
                    fixture.atoms_in_base_lot,
                    fixture.atoms_in_base_unit,
                );
                let quote_units = lots_to_unit_amount(
                    result.quote_lots_filled,
                    fixture.atoms_in_quote_lot,
                    fixture.atoms_in_quote_unit,
                );
                quote_units / base_units
            }
        };
        let price_formatted = format!("{:.3}", price);
        assert_eq!(
            price_formatted, expected_price,
            "Price mismatch for side {:?} with input {}",
            side, input
        );
    }
}

#[test]
fn zero_size_fills_nothing_on_fixture() {
    let ladder = get_sol_usdc_ladder().ladder;
    for side in [Side::Bid, Side::Ask] {
        let r = ladder.simulate_market_sell(side, 0);
        assert_eq!((r.base_lots_filled, r.quote_lots_filled), (0, 0));
    }
}

#[test]
fn empty_ladder_fills_nothing_for_bids() {
    let ladder = LadderWithAdjustment {
        ladder: Ladder {
            bids: vec![],
            asks: vec![],
        },
        tick_size_in_quote_lots_per_base_unit: 7,
        base_lots_per_base_unit: 3,
    };
    let r = ladder.simulate_market_sell(Side::Bid, 123_456);
    assert_eq!((r.base_lots_filled, r.quote_lots_filled), (0, 0));
}

#[test]
fn fills_grow_with_size() {
    let ladder = get_sol_usdc_ladder().ladder;
    for side in [Side::Bid, Side::Ask] {
        let mut last = (0u64, 0u64);
        for size in [0u64, 1, 10, 999, 1000, 3000, 3261, 5000, 68_000_000, 100_000_000] {
            let r = ladder.simulate_market_sell(side, size);
            assert!(r.base_lots_filled >= last.0 && r.quote_lots_filled >= last.1);
            last = (r.base_lots_filled, r.quote_lots_filled);
        }
    }
}

#[test]
fn sell_quote_rounds_each_level_down() {
    // cost per base lot: 3 * 2 = 6 at the first level, 5 * 2 = 10 at the second
    let ladder = LadderWithAdjustment {
        ladder: Ladder {
            bids: vec![],
            asks: vec![level(3, 2), level(5, 10)],
        },
        tick_size_in_quote_lots_per_base_unit: 2,
        base_lots_per_base_unit: 4,
    };
    // budget 9 * 4 = 36: two lots at 6 (12), then 24 / 10 = 2 lots (20), 4 left
    let r = ladder.sell_quote(9);
    assert_eq!(r.base_lots_filled, 4);
    assert_eq!(r.quote_lots_filled, 8);
}

#[test]
fn sell_base_walks_bids_in_order() {
    let ladder = LadderWithAdjustment {
        ladder: Ladder {
            bids: vec![level(10, 3), level(8, 5)],
            asks: vec![],
        },
        tick_size_in_quote_lots_per_base_unit: 3,
        base_lots_per_base_unit: 7,
    };
    // 3 lots at 30 (90) and 2 lots at 24 (48): 138 / 7 = 19
    let r = ladder.sell_base(5);
    assert_eq!((r.base_lots_filled, r.quote_lots_filled), (5, 19));
    // more than the depth: 8 lots, (90 + 120) / 7 = 30
    let r = ladder.sell_base(100);
    assert_eq!((r.base_lots_filled, r.quote_lots_filled), (8, 30));
}
