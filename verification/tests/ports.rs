use typoena::ports::state_of_charge;

#[test]
fn the_charge_curve_runs_from_empty_to_full_without_stepping_back() {
    let mut last = 0;
    for mv in (3200..=4200).step_by(10) {
        let pct = state_of_charge(mv, 0, false);
        assert!(pct >= last, "{mv} mV read {pct}% after {last}%");
        last = pct;
    }
    assert_eq!(state_of_charge(3200, 0, false), 0);
    assert_eq!(state_of_charge(4200, 0, false), 100);
}

#[test]
fn charging_backs_out_the_ir_drop() {
    // 4.0 V at 1.8 A is a cell resting near 3.82 V, not one near full.
    assert!(state_of_charge(4000, 1800, true) < state_of_charge(4000, 0, false));
}

#[test]
fn charge_clamps_below_empty_and_above_full() {
    assert_eq!(state_of_charge(0, 0, false), 0);
    assert_eq!(state_of_charge(3000, 0, false), 0);
    assert_eq!(state_of_charge(4500, 0, false), 100);
    assert_eq!(state_of_charge(u16::MAX, 0, false), 100);
}

#[test]
fn charge_reading_is_monotone_in_the_voltage() {
    let mut last = 0;
    for mv in (0..=5000).step_by(7) {
        let pct = state_of_charge(mv, 500, true);
        assert!(pct >= last);
        last = pct;
    }
}

#[test]
fn charge_current_is_ignored_when_not_charging() {
    assert_eq!(state_of_charge(3800, 1800, false), state_of_charge(3800, 0, false));
}
