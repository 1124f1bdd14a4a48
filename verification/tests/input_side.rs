use totem_of_ket::input::{get_bool, poll_timeout_ms, tick_due, TICK_RATE_MS};

#[test]
fn yes_and_no_are_recognised() {
    assert_eq!(get_bool("y"), Ok(true));
    assert_eq!(get_bool("n"), Ok(false));
}

#[test]
fn anything_else_is_not_a_bool() {
    for answer in ["", "yes", "no", "Y", "N", "x", "y ", " n", "yn"] {
        assert!(get_bool(answer).is_err(), "{:?} must be rejected", answer);
    }
}

#[test]
fn poll_timeout_is_the_rest_of_the_interval() {
    assert_eq!(poll_timeout_ms(TICK_RATE_MS, 0), TICK_RATE_MS);
    assert_eq!(poll_timeout_ms(200, 50), 150);
    assert_eq!(poll_timeout_ms(200, 200), 0);
    assert_eq!(poll_timeout_ms(200, 999), 0);
}

#[test]
fn a_tick_is_due_only_after_a_full_interval() {
    assert!(!tick_due(200, 0));
    assert!(!tick_due(200, 199));
    assert!(tick_due(200, 200));
    assert!(tick_due(200, 201));
}
