use pbcurve::{Curve, CurveConfig, CurveError};

fn config() -> CurveConfig {
    CurveConfig {
        total_supply: 1_000_000_000,
        sell_amount: 800_000_000,
        vt: 30_000_000,
        mc_target_sats: 3_000_000_000,
    }
}

fn curve() -> Curve {
    Curve::new(config()).unwrap()
}

#[test]
fn scenario_config_constructs() {
    let c = curve();
    assert_eq!(c.y0, 830_000_000);
    assert!(c.x0 > 0);
    assert_eq!(c.x0, 3_253_012);
    assert_eq!(c.k, c.x0 * c.y0);
    assert_eq!(c.k, 2_699_999_960_000_000);
    assert_eq!(c.total_supply, 1_000_000_000);
    assert_eq!(c.sell_amount, 800_000_000);
    assert_eq!(c.vt, 30_000_000);
}

#[test]
fn construction_keeps_invariant_on_other_configs() {
    let cfg = CurveConfig { total_supply: 1_000, sell_amount: 700, vt: 300, mc_target_sats: 50_000 };
    let c = Curve::new(cfg).unwrap();
    assert_eq!(c.y0, 1_000);
    assert_eq!(c.x0, 4_500);
    assert_eq!(c.k, 4_500_000);
}

#[test]
fn zero_parameters_are_invalid() {
    let base = config();
    for i in 0..4 {
        let mut cfg = base;
        match i {
            0 => cfg.total_supply = 0,
            1 => cfg.sell_amount = 0,
            2 => cfg.vt = 0,
            _ => cfg.mc_target_sats = 0,
        }
        assert!(matches!(Curve::new(cfg), Err(CurveError::InvalidConfig)));
    }
}

#[test]
fn overflowing_config_is_invalid() {
    let mut cfg = config();
    cfg.vt = u128::MAX;
    assert!(matches!(Curve::new(cfg), Err(CurveError::InvalidConfig)));
    let mut cfg = config();
    cfg.vt = 1u128 << 64;
    assert!(matches!(Curve::new(cfg), Err(CurveError::InvalidConfig)));
    let mut cfg = config();
    cfg.mc_target_sats = u128::MAX / 2;
    assert!(matches!(Curve::new(cfg), Err(CurveError::InvalidConfig)));
}

#[test]
fn zero_initial_reserve_is_invalid() {
    let cfg = CurveConfig { total_supply: 1_000_000, sell_amount: 1_000, vt: 1, mc_target_sats: 1 };
    assert!(matches!(Curve::new(cfg), Err(CurveError::InvalidConfig)));
}

#[test]
fn scenario_first_mint_moves_step() {
    let c = curve();
    let (new_step, tokens_out) = c.mint(0, 1_000_000).unwrap();
    assert!(new_step > 0);
    assert!(tokens_out > 0);
    assert_eq!((new_step, tokens_out), (195_155_810, 195_155_810));
    let snap = c.snapshot(new_step).unwrap();
    assert!(snap.y < c.y_at(0).unwrap());
    assert_eq!(snap.y, 634_844_190);
    assert_eq!(snap.x, 4_253_012);
}

#[test]
fn scenario_simulate_matches_sequential_mints() {
    let c = curve();
    let amounts = [1_000_000u128, 2_000_000, 500_000];
    let sim = c.simulate_mints(&amounts).unwrap();
    let mut step = 0u128;
    for (i, a) in amounts.iter().enumerate() {
        let (next, out) = c.mint(step, *a).unwrap();
        assert_eq!(sim[i], (step, out));
        step = next;
    }
    assert_eq!(step, 430_178_416);
    let (last_start, last_out) = sim[2];
    assert_eq!((last_start + last_out).min(c.sell_amount), step);
    assert_eq!(
        sim,
        vec![(0, 195_155_810), (195_155_810, 203_052_286), (398_208_096, 31_970_320)]
    );
}

#[test]
fn simulate_empty_batch() {
    let c = curve();
    assert_eq!(c.simulate_mints(&[]).unwrap(), Vec::<(u128, u128)>::new());
}

#[test]
fn simulate_fails_whole_batch() {
    let c = curve();
    assert!(matches!(c.simulate_mints(&[1_000_000, 0, 5]), Err(CurveError::ZeroInput)));
    assert!(matches!(c.simulate_mints(&[7, u128::MAX]), Err(CurveError::InvalidConfig)));
}

#[test]
fn reserves_stay_within_invariant() {
    let c = curve();
    for step in [0u128, 1, 12_345, 400_000_000, 799_999_999, 800_000_000] {
        let s = c.snapshot(step).unwrap();
        assert_eq!(s.step, step);
        assert_eq!(s.y, c.vt + (c.sell_amount - step));
        assert_eq!(s.x, c.k / s.y);
        assert!(s.x * s.y <= c.k);
    }
    assert_eq!(c.snapshot(0).unwrap().x, 3_253_012);
    assert_eq!(c.snapshot(800_000_000).unwrap().x, 89_999_998);
}

#[test]
fn tokens_out_is_monotone_in_payment() {
    let c = curve();
    let mut prev = 0u128;
    for sats in [1u128, 2, 10, 1_000, 999_999, 1_000_000, 10_000_000, 1_000_000_000] {
        let (_, out) = c.mint(250_000_000, sats).unwrap();
        assert!(prev <= out);
        prev = out;
    }
}

#[test]
fn mint_never_passes_sell_amount() {
    let c = curve();
    let (next, out) = c.mint(799_999_000, 1_000_000_000_000).unwrap();
    assert_eq!((next, out), (800_000_000, 1_000));
    let (next, out) = c.mint(800_000_000, 1).unwrap();
    assert_eq!((next, out), (800_000_000, 0));
}

#[test]
fn mint_zero_is_zero_input() {
    let c = curve();
    for step in [0u128, 1, 400_000_000, 800_000_000, 800_000_001] {
        assert!(matches!(c.mint(step, 0), Err(CurveError::ZeroInput)));
    }
}

#[test]
fn mint_out_of_range_and_overflow() {
    let c = curve();
    assert!(matches!(c.mint(800_000_001, 5), Err(CurveError::OutOfRange)));
    assert!(matches!(c.mint(0, u128::MAX), Err(CurveError::InvalidConfig)));
}

#[test]
fn snapshot_past_end_is_out_of_range() {
    let c = curve();
    assert!(matches!(c.snapshot(800_000_001), Err(CurveError::OutOfRange)));
    assert!(matches!(c.snapshot(u128::MAX), Err(CurveError::OutOfRange)));
    assert!(matches!(c.y_at(800_000_001), Err(CurveError::OutOfRange)));
}

#[test]
fn total_raise_is_final_reserve_minus_initial() {
    let c = curve();
    assert_eq!(c.total_raise_sats(), c.x_from_y(c.vt) - c.x0);
    assert_eq!(c.total_raise_sats(), 86_746_986);
}

#[test]
fn final_market_cap() {
    let c = curve();
    assert_eq!(c.final_mc_sats().unwrap(), 2_000_000_000);
}

#[test]
fn final_market_cap_overflow_cases() {
    let big = Curve { total_supply: 1, sell_amount: 1, vt: 1u128 << 64, y0: (1u128 << 64) + 1, x0: 1, k: (1u128 << 64) + 1 };
    assert!(matches!(big.final_mc_sats(), Err(CurveError::InvalidConfig)));
    let sat = Curve { total_supply: u128::MAX, sell_amount: 1, vt: 1, y0: 2, x0: 5, k: 10 };
    assert_eq!(sat.final_mc_sats().unwrap(), u128::MAX);
}

#[test]
fn progress_uses_total_supply() {
    let c = curve();
    assert_eq!(c.progress_at_step(0), 0);
    assert_eq!(c.progress_at_step(400_000_000), 40);
    assert_eq!(c.progress_at_step(800_000_000), 80);
    assert_eq!(c.progress_at_step(u128::MAX), u128::MAX / 1_000_000_000);
}

#[test]
fn avg_progess_is_product_over_sum() {
    let c = curve();
    assert_eq!(c.avg_progess(&[2, 3, 4]), 2);
    assert_eq!(c.avg_progess(&[10]), 1);
    assert_eq!(c.avg_progess(&[0, 7]), 0);
    assert_eq!(c.avg_progess(&[1u128 << 100, 1u128 << 100, 0]), 0);
}

#[test]
fn asset_out_matches_mint() {
    let c = curve();
    assert_eq!(c.asset_out_given_quote_in(0, 1_000_000).unwrap(), 195_155_810);
    assert!(matches!(c.asset_out_given_quote_in(0, 0), Err(CurveError::ZeroInput)));
    assert!(matches!(c.asset_out_given_quote_in(900_000_000, 1), Err(CurveError::OutOfRange)));
}

#[test]
fn quote_is_least_payment_for_amount() {
    let c = curve();
    assert_eq!(c.quote_in_given_asset_out(0, 1).unwrap(), 1);
    assert_eq!(c.quote_in_given_asset_out(0, 1_000).unwrap(), 4);
    assert_eq!(c.quote_in_given_asset_out(0, 1_000_000).unwrap(), 3_925);
    let q = c.quote_in_given_asset_out(0, 500_000_000).unwrap();
    assert_eq!(q, 4_928_807);
    assert!(c.asset_out_given_quote_in(0, q).unwrap() >= 500_000_000);
    assert!(c.asset_out_given_quote_in(0, q - 1).unwrap() < 500_000_000);
}

#[test]
fn quote_errors() {
    let c = curve();
    assert!(matches!(c.quote_in_given_asset_out(800_000_001, 1), Err(CurveError::OutOfRange)));
    assert!(matches!(c.quote_in_given_asset_out(0, 800_000_001), Err(CurveError::ExceedsPool)));
    assert!(matches!(c.quote_in_given_asset_out(800_000_000, 1), Err(CurveError::ExceedsPool)));
}

#[test]
fn cumulative_quote() {
    let c = curve();
    assert_eq!(c.cumulative_quote_to_step(0).unwrap(), 0);
    assert_eq!(c.cumulative_quote_to_step(400_000_000).unwrap(), 3_026_057);
    assert_eq!(c.cumulative_quote_to_step(800_000_000).unwrap(), c.total_raise_sats());
    assert!(matches!(c.cumulative_quote_to_step(800_000_001), Err(CurveError::OutOfRange)));
}

#[test]
fn snapshot_price_parts_and_max_step() {
    let c = curve();
    let s = c.snapshot(195_155_810).unwrap();
    assert_eq!(s.price_num(), 4_253_012);
    assert_eq!(s.price_den(), 634_844_190);
    assert_eq!(c.max_step(), 800_000_000);
    assert_eq!(c.x_from_y(830_000_000), 3_253_012);
}

#[test]
fn quote_for_zero_tokens_is_one_sat() {
    let c = curve();
    assert_eq!(c.quote_in_given_asset_out(0, 0).unwrap(), 1);
    assert_eq!(c.quote_in_given_asset_out(800_000_000, 0).unwrap(), 1);
    assert_eq!(c.asset_out_given_quote_in(800_000_000, 1).unwrap(), 0);
    assert!(matches!(c.quote_in_given_asset_out(800_000_001, 0), Err(CurveError::OutOfRange)));
}

#[test]
fn quote_for_zero_tokens_overflow() {
    let c = Curve { total_supply: 1, sell_amount: 2, vt: 1, y0: 3, x0: u128::MAX / 3, k: u128::MAX };
    assert_eq!(c.x_from_y(1), u128::MAX);
    assert!(matches!(c.quote_in_given_asset_out(2, 0), Err(CurveError::InvalidConfig)));
    assert_eq!(c.quote_in_given_asset_out(0, 0).unwrap(), 1);
}
