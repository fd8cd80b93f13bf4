//! Conversions between atoms or ticks and display units.

use clob::scale::{
    atoms_to_ui_amount, tick_to_ui_price, ui_amount_to_atoms, ui_price_to_tick, Rounding,
    ScaleError,
};

/// Every one of these is above the 53-bit mantissa of an `f64`.
#[test]
fn round_trips_atom_counts_f64_cannot_represent() {
    for atoms in [
        9_007_199_254_740_993u64,
        123_456_789_123_456_789,
        1_000_000_000_000_000_001,
        u64::MAX,
    ] {
        let ui = atoms_to_ui_amount(atoms, 9).expect("render");
        assert_eq!(ui_amount_to_atoms(&ui, 9), Ok(atoms), "lost precision on {atoms}");
    }
}

#[test]
fn renders_exact_decimal_places() {
    assert_eq!(atoms_to_ui_amount(1_500_000_000, 9).unwrap(), "1.500000000");
    assert_eq!(atoms_to_ui_amount(1, 9).unwrap(), "0.000000001");
    assert_eq!(atoms_to_ui_amount(42, 0).unwrap(), "42");
}

#[test]
fn rejects_input_f64_silently_accepted() {
    for bad in ["", ".", "-5", "1e30", "NaN", "inf", "1.2.3", "abc"] {
        assert_eq!(
            ui_amount_to_atoms(bad, 9),
            Err(ScaleError::Malformed),
            "accepted {bad:?}"
        );
    }
    assert_eq!(
        ui_amount_to_atoms("1.0000000001", 9),
        Err(ScaleError::TooPrecise)
    );
    assert_eq!(
        ui_amount_to_atoms("18446744073709551616", 0),
        Err(ScaleError::Overflow)
    );
}

#[test]
fn price_round_trips_both_decimal_orientations() {
    for (tick_size, base_lot, base_dec, quote_dec, out_dec, tick) in [
        (100u64, 1_000u64, 9u8, 6u8, 6u8, 12_345u32),
        (50, 100, 6, 9, 9, 7_777),
    ] {
        let price =
            tick_to_ui_price(tick, tick_size, base_lot, base_dec, quote_dec, out_dec).unwrap();
        let back =
            ui_price_to_tick(&price, tick_size, base_lot, base_dec, quote_dec, Rounding::Nearest);
        assert_eq!(back, Ok(tick), "price {price} did not round-trip");
    }
}

/// A price landing exactly between two ticks resolves the way the caller asked.
#[test]
fn rounding_direction_is_the_callers_choice() {
    let half = |r| ui_price_to_tick("3", 2, 1, 0, 0, r);
    assert_eq!(half(Rounding::Down), Ok(1));
    assert_eq!(half(Rounding::Up), Ok(2));
    assert_eq!(half(Rounding::Nearest), Ok(2));
}

#[test]
fn zero_market_parameter_is_an_error_not_a_panic() {
    assert_eq!(
        tick_to_ui_price(1, 1, 0, 0, 0, 0),
        Err(ScaleError::DivideByZero)
    );
    assert_eq!(
        ui_price_to_tick("1", 0, 1, 0, 0, Rounding::Nearest),
        Err(ScaleError::DivideByZero)
    );
}

#[test]
fn space_around_an_amount_is_ignored() {
    assert_eq!(ui_amount_to_atoms("  1.5\t\n", 2), Ok(150));
    assert_eq!(ui_amount_to_atoms("\u{2003}7 ", 0), Ok(7));
    assert_eq!(ui_amount_to_atoms("1 5", 2), Err(ScaleError::Malformed));
}

#[test]
fn one_side_of_the_point_may_be_empty() {
    assert_eq!(ui_amount_to_atoms(".5", 1), Ok(5));
    assert_eq!(ui_amount_to_atoms("5.", 1), Ok(50));
    assert_eq!(ui_amount_to_atoms("007", 0), Ok(7));
}

#[test]
fn a_price_is_exact_when_it_can_be() {
    // 100 quote atoms a tick, 1000 base atoms a lot, 9 and 6 decimals: a tick
    // is worth 100 * 10^9 / (1000 * 10^6) = 100 quote a base unit.
    assert_eq!(tick_to_ui_price(3, 100, 1_000, 9, 6, 0).unwrap(), "300");
    assert_eq!(tick_to_ui_price(3, 100, 1_000, 9, 6, 2).unwrap(), "300.00");
    assert_eq!(ui_price_to_tick("300", 100, 1_000, 9, 6, Rounding::Down), Ok(3));
    assert_eq!(ui_price_to_tick("399.99", 100, 1_000, 9, 6, Rounding::Down), Ok(3));
    assert_eq!(ui_price_to_tick("300.01", 100, 1_000, 9, 6, Rounding::Up), Ok(4));
    assert_eq!(ui_price_to_tick("349.99", 100, 1_000, 9, 6, Rounding::Nearest), Ok(3));
    assert_eq!(ui_price_to_tick("350", 100, 1_000, 9, 6, Rounding::Nearest), Ok(4));
}

#[test]
fn what_does_not_fit_is_refused() {
    assert_eq!(ui_price_to_tick("4294967296", 1, 1, 0, 0, Rounding::Down), Err(ScaleError::Overflow));
    assert_eq!(ui_price_to_tick("4294967295", 1, 1, 0, 0, Rounding::Down), Ok(u32::MAX));
    assert_eq!(atoms_to_ui_amount(1, 255), Err(ScaleError::Overflow));
    assert_eq!(ScaleError::Overflow.message(), "result does not fit the target type");
}

/// A price that its text gives in full comes back whichever way it is rounded.
#[test]
fn an_exact_price_survives_every_rounding() {
    for (tick, tick_size, base_lot, base_dec, quote_dec, out) in [
        (1u32, 100u64, 1_000u64, 9u8, 6u8, 0u8),
        (66_010, 100, 1_000, 9, 6, 0),
        (12_345, 1, 1_000_000, 6, 6, 6),
        (u32::MAX, 1, 1, 0, 0, 0),
        (7, 5, 40, 2, 3, 4),
    ] {
        let price = tick_to_ui_price(tick, tick_size, base_lot, base_dec, quote_dec, out).unwrap();
        for rounding in [Rounding::Down, Rounding::Up, Rounding::Nearest] {
            assert_eq!(
                ui_price_to_tick(&price, tick_size, base_lot, base_dec, quote_dec, rounding),
                Ok(tick)
            );
        }
    }
}
