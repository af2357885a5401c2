use h2proxy_core::conn::ErrorCode;
use h2proxy_core::flow::{
    connection_window_bootstrap, RecvWindow, Window, CONNECTION_WINDOW,
    CONNECTION_WINDOW_BOOTSTRAP, DEFAULT_INITIAL_WINDOW_SIZE, MAX_WINDOW_SIZE,
};

// ---- the send window ---------------------------------------------------

#[test]
fn consuming_spends_available_credit() {
    let mut w = Window::new(100);
    w.consume(40).expect("inside the window");
    assert_eq!(w.available(), 60);
    w.consume(60).expect("exactly the window");
    assert_eq!(w.available(), 0);
    assert_eq!(w.sendable(), 0);
}

#[test]
fn consuming_past_the_window_is_a_flow_control_error() {
    let mut w = Window::new(10);
    assert_eq!(w.consume(11), Err(ErrorCode::FlowControlError));
    // The failed debit must not have moved the window.
    assert_eq!(w.available(), 10);
}

#[test]
fn a_negative_window_blocks_every_send() {
    let mut w = Window::new(100);
    w.apply_delta(-150).expect("a decrease is always legal");
    assert_eq!(w.available(), -50);
    assert_eq!(w.sendable(), 0);
    assert_eq!(w.consume(1), Err(ErrorCode::FlowControlError));

    // ...until a WINDOW_UPDATE lifts it back above zero.
    w.increase(60).expect("credit");
    assert_eq!(w.available(), 10);
    w.consume(10).expect("sendable again");
}

#[test]
fn crediting_past_two_to_the_thirty_first_is_a_flow_control_error() {
    let mut w = Window::new(MAX_WINDOW_SIZE - 1);
    w.increase(1).expect("exactly the ceiling is legal");
    assert_eq!(w.available(), MAX_WINDOW_SIZE);
    assert_eq!(w.increase(1), Err(ErrorCode::FlowControlError));
    assert_eq!(w.available(), MAX_WINDOW_SIZE);
}

#[test]
fn a_settings_increase_past_the_ceiling_is_rejected() {
    let mut w = Window::new(MAX_WINDOW_SIZE);
    assert_eq!(w.apply_delta(1), Err(ErrorCode::FlowControlError));
}

#[test]
fn window_arithmetic_never_wraps() {
    // The u32 increment space is wider than the i32 window, so the naive
    // `self.0 += increment as i32` would wrap here rather than error.
    let mut w = Window::new(0);
    assert_eq!(w.increase(u32::MAX), Err(ErrorCode::FlowControlError));
    assert_eq!(w.available(), 0);
}

// ---- the receive window ------------------------------------------------

#[test]
fn recording_spends_the_credit_we_issued() {
    let mut r = RecvWindow::new(1000);
    r.record(400).expect("inside the window");
    assert_eq!(r.available(), 600);
}

#[test]
fn a_peer_overspending_its_credit_is_a_flow_control_error() {
    let mut r = RecvWindow::new(100);
    assert_eq!(r.record(101), Err(ErrorCode::FlowControlError));
}

#[test]
fn no_window_update_is_due_below_half_the_window() {
    let mut r = RecvWindow::new(1000);
    r.record(499).expect("credit");
    assert_eq!(r.release(499), None);
    assert_eq!(r.unreleased(), 499);
}

#[test]
fn exactly_one_window_update_is_due_at_half_the_window() {
    let mut r = RecvWindow::new(1000);
    r.record(500).expect("credit");
    assert_eq!(r.release(200), None);
    assert_eq!(r.release(300), Some(500));
    // Announcing it restores the credit and resets the accumulator.
    assert_eq!(r.available(), 1000);
    assert_eq!(r.unreleased(), 0);
    assert_eq!(r.release(1), None);
}

#[test]
fn withholding_release_withholds_the_credit() {
    // Backpressure, as an assertion: data that arrived but
    // was never released leaves the peer's credit spent.
    let mut r = RecvWindow::new(1000);
    r.record(1000).expect("the peer spends its whole window");
    assert_eq!(r.available(), 0);
    // No `release` call, so no increment and no restored credit.
    assert_eq!(r.unreleased(), 0);
    assert_eq!(r.available(), 0);
}

#[test]
fn the_bootstrap_increment_lifts_the_default_to_the_connection_window() {
    let mut w = Window::new(DEFAULT_INITIAL_WINDOW_SIZE);
    w.increase(CONNECTION_WINDOW_BOOTSTRAP).expect("legal");
    assert_eq!(w.available(), CONNECTION_WINDOW);
}

#[test]
fn a_bootstrap_lifts_any_window_that_is_above_the_default() {
    assert_eq!(
        connection_window_bootstrap(CONNECTION_WINDOW),
        CONNECTION_WINDOW_BOOTSTRAP
    );
    assert_eq!(connection_window_bootstrap(65_536), 1);
    assert_eq!(connection_window_bootstrap(DEFAULT_INITIAL_WINDOW_SIZE), 0);
    assert_eq!(connection_window_bootstrap(-5), 0);
}

#[test]
fn a_decrease_never_wraps_either() {
    let mut w = Window::new(-2);
    w.apply_delta(i32::MIN).expect("a decrease is always legal");
    assert_eq!(w.available(), i32::MIN);
}
