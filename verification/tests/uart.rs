use litex_hal::uart::{UartAction, UartExchange, UartReply};

fn run(ex: &mut UartExchange, replies: &mut dyn FnMut(UartAction) -> UartReply) -> (Vec<UartAction>, usize) {
    let mut actions = Vec::new();
    for _ in 0..1000 {
        let action = ex.action();
        actions.push(action);
        if let UartAction::Done(n) = action {
            return (actions, n);
        }
        let reply = replies(action);
        ex.advance(reply);
    }
    panic!("exchange did not end");
}

#[test]
fn write_waits_for_room_before_each_byte() {
    let mut ex = UartExchange::write(vec![b'h', b'i']);
    let mut full_once = true;
    let (actions, n) = run(&mut ex, &mut |a| match a {
        UartAction::ReadTxFull => {
            let v = if full_once { 1 } else { 0 };
            full_once = false;
            UartReply::Value(v)
        }
        _ => UartReply::Written,
    });
    assert_eq!(n, 2);
    assert_eq!(
        actions,
        vec![
            UartAction::ReadTxFull,
            UartAction::ReadTxFull,
            UartAction::WriteData(b'h'),
            UartAction::ReadTxFull,
            UartAction::WriteData(b'i'),
            UartAction::Done(2),
        ]
    );
}

#[test]
fn empty_write_returns_zero() {
    let ex = UartExchange::write(vec![]);
    assert_eq!(ex.action(), UartAction::Done(0));
}

#[test]
fn read_takes_low_byte_and_acknowledges() {
    let mut ex = UartExchange::read(vec![0; 2]);
    let mut values = vec![0x0000_0141u32, 0x0000_0042].into_iter();
    let mut empty_once = true;
    let (actions, n) = run(&mut ex, &mut |a| match a {
        UartAction::ReadRxEmpty => {
            let v = if empty_once { 1 } else { 0 };
            empty_once = false;
            UartReply::Value(v)
        }
        UartAction::ReadData => UartReply::Value(values.next().unwrap()),
        _ => UartReply::Written,
    });
    assert_eq!(n, 2);
    assert_eq!(
        actions,
        vec![
            UartAction::ReadRxEmpty,
            UartAction::ReadRxEmpty,
            UartAction::ReadData,
            UartAction::AcknowledgeRx,
            UartAction::ReadRxEmpty,
            UartAction::ReadData,
            UartAction::AcknowledgeRx,
            UartAction::Done(2),
        ]
    );
    assert_eq!(ex.into_data(), vec![0x41, 0x42]);
}

#[test]
fn flush_waits_until_queue_has_room() {
    let mut ex = UartExchange::flush();
    let mut polls = 0;
    let (actions, n) = run(&mut ex, &mut |_| {
        polls += 1;
        UartReply::Value(if polls < 3 { 1 } else { 0 })
    });
    assert_eq!(n, 0);
    assert_eq!(
        actions,
        vec![UartAction::ReadTxFull, UartAction::ReadTxFull, UartAction::ReadTxFull, UartAction::Done(0)]
    );
}

#[test]
fn uart_error_variant() {
    let e = litex_hal::uart::UartError::InvalidState;
    assert_eq!(e, litex_hal::uart::UartError::InvalidState);
}
