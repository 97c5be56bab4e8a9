use litex_hal::spi::{SpiAction, SpiError, SpiExchange, SpiReply};

/// Runs an exchange against a controller whose `done` bit reads `ready` before anything is
/// sent and true afterwards, answering the reads of `miso` with `received` in turn.
fn run(ex: &mut SpiExchange, ready: bool, received: &[u32]) -> (Vec<SpiAction>, Result<(), SpiError>) {
    let mut actions = Vec::new();
    let mut next = 0usize;
    let mut started = false;
    for _ in 0..1000 {
        let action = ex.action();
        actions.push(action);
        let reply = match action {
            SpiAction::Done(r) => return (actions, r),
            SpiAction::ReadStatus => SpiReply::Status(ready || started),
            SpiAction::ReadMiso => {
                let w = received[next];
                next += 1;
                SpiReply::Data(w)
            }
            SpiAction::Start(_) => {
                started = true;
                SpiReply::Written
            }
            _ => SpiReply::Written,
        };
        ex.advance(reply);
    }
    panic!("exchange did not end");
}

#[test]
fn read_clocks_in_words() {
    let mut ex = SpiExchange::read(vec![0, 0], 1);
    let (actions, result) = run(&mut ex, true, &[0x11, 0x22]);
    assert_eq!(result, Ok(()));
    assert_eq!(
        actions,
        vec![
            SpiAction::ReadStatus,
            SpiAction::Start(1),
            SpiAction::ReadStatus,
            SpiAction::ReadMiso,
            SpiAction::Start(1),
            SpiAction::ReadStatus,
            SpiAction::ReadMiso,
            SpiAction::Done(Ok(())),
        ]
    );
    assert_eq!(ex.into_incoming(), vec![0x11, 0x22]);
}

#[test]
fn read_on_busy_controller_is_invalid_state() {
    let mut ex = SpiExchange::read(vec![5, 6], 1);
    let (actions, result) = run(&mut ex, false, &[]);
    assert_eq!(result, Err(SpiError::InvalidState));
    assert_eq!(actions, vec![SpiAction::ReadStatus, SpiAction::Done(Err(SpiError::InvalidState))]);
    assert_eq!(ex.into_incoming(), vec![5, 6]);
}

#[test]
fn write_sends_words_in_order() {
    let mut ex = SpiExchange::write(vec![0xA1, 0xB2], 2);
    let (actions, result) = run(&mut ex, true, &[]);
    assert_eq!(result, Ok(()));
    assert_eq!(
        actions,
        vec![
            SpiAction::ReadStatus,
            SpiAction::ReadStatus,
            SpiAction::WriteMosi(0xA1),
            SpiAction::Start(2),
            SpiAction::ReadStatus,
            SpiAction::ReadStatus,
            SpiAction::WriteMosi(0xB2),
            SpiAction::Start(2),
            SpiAction::ReadStatus,
            SpiAction::Done(Ok(())),
        ]
    );
}

#[test]
fn transfer_pads_the_shorter_write_with_zeros() {
    let mut ex = SpiExchange::transfer(vec![0; 3], vec![7], 1);
    let (actions, result) = run(&mut ex, true, &[1, 2, 3]);
    assert_eq!(result, Ok(()));
    let sent: Vec<SpiAction> =
        actions.iter().copied().filter(|a| matches!(a, SpiAction::WriteMosi(_))).collect();
    assert_eq!(sent, vec![SpiAction::WriteMosi(7), SpiAction::WriteMosi(0), SpiAction::WriteMosi(0)]);
    assert_eq!(ex.into_incoming(), vec![1, 2, 3]);
}

#[test]
fn transfer_drops_words_past_the_read_buffer() {
    let mut ex = SpiExchange::transfer(vec![0], vec![4, 5, 6], 1);
    let (actions, result) = run(&mut ex, true, &[9, 8, 7]);
    assert_eq!(result, Ok(()));
    assert_eq!(actions.iter().filter(|a| matches!(a, SpiAction::ReadMiso)).count(), 3);
    assert_eq!(ex.into_incoming(), vec![9]);
}

#[test]
fn empty_transfer_is_done_at_once() {
    let ex = SpiExchange::transfer(vec![], vec![], 1);
    assert_eq!(ex.action(), SpiAction::Done(Ok(())));
}

#[test]
fn transfer_fails_when_controller_busy() {
    let mut ex = SpiExchange::transfer(vec![0], vec![1], 1);
    let (actions, result) = run(&mut ex, false, &[]);
    assert_eq!(result, Err(SpiError::InvalidState));
    assert_eq!(actions, vec![SpiAction::ReadStatus, SpiAction::Done(Err(SpiError::InvalidState))]);
}

#[test]
fn transfer_in_place_replaces_each_word() {
    let mut ex = SpiExchange::transfer_in_place(vec![0x10, 0x20], 4);
    let (actions, result) = run(&mut ex, true, &[0x30, 0x40]);
    assert_eq!(result, Ok(()));
    let sent: Vec<SpiAction> =
        actions.iter().copied().filter(|a| matches!(a, SpiAction::WriteMosi(_))).collect();
    assert_eq!(sent, vec![SpiAction::WriteMosi(0x10), SpiAction::WriteMosi(0x20)]);
    assert!(actions.contains(&SpiAction::Start(4)));
    assert_eq!(ex.into_incoming(), vec![0x30, 0x40]);
}

#[test]
fn wait_for_done_polls_until_set() {
    let mut ex = SpiExchange::read(vec![0], 1);
    ex.advance(SpiReply::Status(true));
    assert_eq!(ex.action(), SpiAction::Start(1));
    ex.advance(SpiReply::Written);
    ex.advance(SpiReply::Status(false));
    ex.advance(SpiReply::Status(false));
    assert_eq!(ex.action(), SpiAction::ReadStatus);
    ex.advance(SpiReply::Data(3));
    assert_eq!(ex.action(), SpiAction::ReadStatus);
    ex.advance(SpiReply::Status(true));
    assert_eq!(ex.action(), SpiAction::ReadMiso);
}

#[test]
fn spi_error_variants_are_distinct() {
    assert_ne!(SpiError::TransactionFailed, SpiError::InvalidState);
}
