use litex_hal::timer::{delay_fits, reload_value, Delay, TimerAction, TimerReply};

#[test]
fn reload_value_rounds_up_to_whole_periods() {
    assert_eq!(reload_value(1_000_000, 1000), 2);
    assert_eq!(reload_value(1_000_000, 999), 1);
    assert_eq!(reload_value(1_000_000, 0), 1);
    assert_eq!(reload_value(1_000_000_000, 5), 6);
    assert_eq!(reload_value(3, 10), 1);
    assert_eq!(reload_value(1_000_000, 1_000_000_000), 1_000_001);
}

#[test]
fn reload_value_covers_the_delay() {
    for &(clk, ns) in &[(1_000_000u32, 1234u32), (48_000_000, 20_833), (3, 999_999_999), (7, 1)] {
        let v = reload_value(clk, ns) as u64;
        assert!(v * 1_000_000_000 > ns as u64 * clk as u64);
    }
}

#[test]
fn delay_fits_rejects_what_cannot_be_computed() {
    assert!(!delay_fits(0, 1));
    assert!(!delay_fits(2_000_000_000, 1));
    assert!(!delay_fits(1_000_000_000, u32::MAX));
    assert!(!delay_fits(500_000_001, u32::MAX));
    assert!(delay_fits(500_000_000, u32::MAX));
    assert!(delay_fits(1_000_000, u32::MAX));
}

#[test]
fn delay_programs_timer_then_polls_until_zero() {
    let mut d = Delay::new(1_000_000, 2000);
    let mut values = vec![2u32, 1, 0].into_iter();
    let mut actions = Vec::new();
    loop {
        let a = d.action();
        actions.push(a);
        let reply = match a {
            TimerAction::Done => break,
            TimerAction::ReadValue => TimerReply::Value(values.next().unwrap()),
            _ => TimerReply::Written,
        };
        d.advance(reply);
    }
    assert_eq!(
        actions,
        vec![
            TimerAction::WriteEnable(false),
            TimerAction::WriteReload(0),
            TimerAction::WriteLoad(3),
            TimerAction::WriteEnable(true),
            TimerAction::RequestUpdate,
            TimerAction::ReadValue,
            TimerAction::RequestUpdate,
            TimerAction::ReadValue,
            TimerAction::RequestUpdate,
            TimerAction::ReadValue,
            TimerAction::Done,
        ]
    );
}
