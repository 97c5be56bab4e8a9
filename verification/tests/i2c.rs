use litex_hal::litei2cmaster::{
    I2cErrorKind,
    pack_word, plan_transfers, unpack_word, I2cAction, I2cOperation,
    I2cReply, I2cTransaction, I2cTransfer, LiteI2CError, LiteI2CSpeedMode,
};

fn transfer(op: usize, len_tx: u8, len_rx: u8, word: u32, rx_offset: usize, rx_count: usize) -> I2cTransfer {
    I2cTransfer { op, len_tx, len_rx, word, rx_offset, rx_count }
}

/// Runs a transaction against a target that is always ready and answers each transfer with
/// the next of `words`; `nack_at` makes the target refuse that transfer.
fn run(
    tr: &mut I2cTransaction,
    words: &[u32],
    nack_at: Option<usize>,
) -> (Vec<I2cAction>, Result<(), LiteI2CError>) {
    let mut actions = Vec::new();
    let mut transfer = 0usize;
    let mut phase_after_send = false;
    for _ in 0..1000 {
        let action = tr.action();
        actions.push(action);
        let reply = match action {
            I2cAction::Done(r) => return (actions, r),
            I2cAction::Abort => panic!("transaction aborted"),
            I2cAction::ReadStatus => {
                let nack = phase_after_send && nack_at == Some(transfer);
                I2cReply::Status { rx_ready: phase_after_send, tx_ready: true, nack }
            }
            I2cAction::ReadData => {
                let w = words.get(transfer).copied().unwrap_or(0);
                transfer += 1;
                phase_after_send = false;
                I2cReply::Data(w)
            }
            I2cAction::WriteData(_) => {
                phase_after_send = true;
                I2cReply::Written
            }
            _ => I2cReply::Written,
        };
        tr.advance(reply);
    }
    panic!("transaction did not end");
}

#[test]
fn pack_word_is_big_endian() {
    let buf = [0x12u8, 0x34, 0x56, 0x78, 0x9a];
    assert_eq!(pack_word(&buf, 0, 4), 0x1234_5678);
    assert_eq!(pack_word(&buf, 1, 4), 0x3456_789a);
    assert_eq!(pack_word(&buf, 1, 3), 0x0034_5678);
    assert_eq!(pack_word(&buf, 3, 2), 0x0000_789a);
    assert_eq!(pack_word(&buf, 4, 1), 0x9a);
    assert_eq!(pack_word(&buf, 2, 0), 0);
}

#[test]
fn unpack_word_stores_low_bytes_most_significant_first() {
    let mut buf = vec![0u8; 6];
    unpack_word(&mut buf, 1, 3, 0xAABB_CCDD);
    assert_eq!(buf, vec![0, 0xBB, 0xCC, 0xDD, 0, 0]);
    let mut buf = vec![7u8; 4];
    unpack_word(&mut buf, 0, 4, 0x0102_0304);
    assert_eq!(buf, vec![1, 2, 3, 4]);
    let mut buf = vec![7u8; 2];
    unpack_word(&mut buf, 1, 0, 0xffff_ffff);
    assert_eq!(buf, vec![7, 7]);
}

#[test]
fn pack_then_unpack_gives_the_bytes_back() {
    for n in 0..=4usize {
        let bytes: Vec<u8> = (0..n).map(|i| (0xf0 - 0x11 * i) as u8).collect();
        let word = pack_word(&bytes, 0, n);
        let mut out = vec![0u8; n];
        unpack_word(&mut out, 0, n, word);
        assert_eq!(out, bytes);
    }
}

#[test]
fn short_write_is_one_transfer() {
    let ops = vec![I2cOperation::Write(vec![1, 2, 3])];
    assert_eq!(plan_transfers(&ops).0, vec![transfer(0, 3, 0, 0x0001_0203, 0, 0)]);
}

#[test]
fn long_write_without_earlier_read_sends_first_word_only() {
    let ops = vec![I2cOperation::Write(vec![1, 2, 3, 4, 5, 6])];
    assert_eq!(plan_transfers(&ops).0, vec![transfer(0, 5, 0, 0x0102_0304, 0, 0)]);
}

#[test]
fn long_write_after_read_sends_every_byte() {
    let ops = vec![I2cOperation::Read(vec![0; 2]), I2cOperation::Write(vec![1, 2, 3, 4, 5, 6])];
    assert_eq!(
        plan_transfers(&ops).0,
        vec![
            transfer(0, 0, 2, 0, 0, 2),
            transfer(1, 5, 0, 0x0102_0304, 0, 0),
            transfer(1, 2, 2, 0x0000_0506, 0, 0),
        ]
    );
}

#[test]
fn long_read_after_write_reads_every_byte() {
    let ops = vec![I2cOperation::Write(vec![0xA0]), I2cOperation::Read(vec![0; 6])];
    assert_eq!(
        plan_transfers(&ops).0,
        vec![
            transfer(0, 1, 0, 0xA0, 0, 0),
            transfer(1, 1, 5, 0, 0, 4),
            transfer(1, 1, 2, 0, 4, 2),
        ]
    );
}

#[test]
fn long_read_without_earlier_write_reads_first_word_only() {
    let ops = vec![I2cOperation::Read(vec![0; 9])];
    assert_eq!(plan_transfers(&ops).0, vec![transfer(0, 0, 5, 0, 0, 4)]);
}

#[test]
fn empty_read_is_one_empty_transfer() {
    let ops = vec![I2cOperation::Write(vec![1, 2, 3, 4, 5]), I2cOperation::Read(vec![])];
    let plan = plan_transfers(&ops).0;
    assert_eq!(plan.len(), 2);
    assert_eq!(plan[1], transfer(1, 5, 0, 0, 0, 0));
}

#[test]
fn oversized_read_ends_the_plan() {
    let ops = vec![I2cOperation::Read(vec![0; 300])];
    assert_eq!(plan_transfers(&ops).0, vec![]);
    let ops = vec![
        I2cOperation::Write(vec![9]),
        I2cOperation::Read(vec![0; 256]),
        I2cOperation::Write(vec![8]),
    ];
    assert_eq!(plan_transfers(&ops).0, vec![transfer(0, 1, 0, 9, 0, 0)]);
}

#[test]
fn unsupported_operations_abort() {
    let aborts = |ops: Vec<I2cOperation>| plan_transfers(&ops).1;
    assert!(!aborts(vec![]));
    assert!(aborts(vec![I2cOperation::Write(vec![])]));
    assert!(aborts(vec![I2cOperation::Write(vec![1, 2, 3, 4, 5]), I2cOperation::Read(vec![0])]));
    assert!(!aborts(vec![I2cOperation::Write(vec![1, 2, 3, 4]), I2cOperation::Read(vec![0; 8])]));
    assert!(!aborts(vec![I2cOperation::Write(vec![1, 2, 3, 4, 5]), I2cOperation::Read(vec![])]));
    assert!(!aborts(vec![I2cOperation::Read(vec![0; 300]), I2cOperation::Write(vec![])]));
}

#[test]
fn plan_stops_at_unsupported_operation() {
    let ops = vec![I2cOperation::Write(vec![7]), I2cOperation::Write(vec![]), I2cOperation::Write(vec![8])];
    assert_eq!(plan_transfers(&ops), (vec![transfer(0, 1, 0, 7, 0, 0)], true));
    let ops = vec![I2cOperation::Write(vec![1, 2, 3, 4, 5]), I2cOperation::Read(vec![0; 3])];
    assert_eq!(
        plan_transfers(&ops),
        (vec![transfer(0, 5, 0, 0x0102_0304, 0, 0), transfer(1, 5, 0, 0, 0, 0)], true)
    );
}

#[test]
fn empty_write_aborts_after_setup() {
    let mut tr = I2cTransaction::new(0x40, vec![I2cOperation::Write(vec![])]);
    let mut actions = Vec::new();
    for _ in 0..10 {
        let a = tr.action();
        actions.push(a);
        if a == I2cAction::Abort {
            break;
        }
        let reply = match a {
            I2cAction::ReadStatus => I2cReply::Status { rx_ready: false, tx_ready: true, nack: false },
            _ => I2cReply::Written,
        };
        tr.advance(reply);
    }
    assert_eq!(
        actions,
        vec![
            I2cAction::SetActive(true),
            I2cAction::ReadStatus,
            I2cAction::ReadStatus,
            I2cAction::WriteAddress(0x40),
            I2cAction::Abort,
        ]
    );
}

#[test]
fn read_after_long_write_probes_then_aborts() {
    let ops = vec![I2cOperation::Write(vec![1, 2, 3, 4, 5]), I2cOperation::Read(vec![0; 2])];
    let mut tr = I2cTransaction::new(0x40, ops);
    let mut actions = Vec::new();
    let mut sent = false;
    for _ in 0..100 {
        let a = tr.action();
        actions.push(a);
        if a == I2cAction::Abort {
            break;
        }
        let reply = match a {
            I2cAction::ReadStatus => I2cReply::Status { rx_ready: sent, tx_ready: true, nack: false },
            I2cAction::ReadData => {
                sent = false;
                I2cReply::Data(0x1234)
            }
            I2cAction::WriteData(_) => {
                sent = true;
                I2cReply::Written
            }
            _ => I2cReply::Written,
        };
        tr.advance(reply);
    }
    let n = actions.len();
    assert_eq!(actions[n - 1], I2cAction::Abort);
    assert_eq!(actions[n - 6], I2cAction::WriteSettings { len_tx: 5, len_rx: 0 });
    assert_eq!(actions[n - 5], I2cAction::WriteData(0));
    assert_eq!(actions[n - 2], I2cAction::ReadData);
}

#[test]
fn nack_before_unsupported_operation_reports_nack() {
    let ops = vec![I2cOperation::Write(vec![1]), I2cOperation::Write(vec![])];
    let mut tr = I2cTransaction::new(0x40, ops);
    let (actions, result) = run(&mut tr, &[0], Some(0));
    assert_eq!(result, Err(LiteI2CError::NACK));
    assert!(!actions.contains(&I2cAction::Abort));
}

#[test]
fn empty_transaction_touches_no_register() {
    let tr = I2cTransaction::new(0x50, vec![]);
    assert_eq!(tr.action(), I2cAction::Done(Ok(())));
}

#[test]
fn write_then_read_transaction() {
    let ops = vec![I2cOperation::Write(vec![0x10]), I2cOperation::Read(vec![0; 2])];
    let mut tr = I2cTransaction::new(0x50, ops);
    let (actions, result) = run(&mut tr, &[0xdead_beef, 0x0000_abcd], None);
    assert_eq!(result, Ok(()));
    assert_eq!(
        actions,
        vec![
            I2cAction::SetActive(true),
            I2cAction::ReadStatus,
            I2cAction::ReadStatus,
            I2cAction::WriteAddress(0x50),
            I2cAction::WriteSettings { len_tx: 1, len_rx: 0 },
            I2cAction::WriteData(0x10),
            I2cAction::ReadStatus,
            I2cAction::ReadStatus,
            I2cAction::ReadData,
            I2cAction::WriteSettings { len_tx: 1, len_rx: 2 },
            I2cAction::WriteData(0),
            I2cAction::ReadStatus,
            I2cAction::ReadStatus,
            I2cAction::ReadData,
            I2cAction::SetActive(false),
            I2cAction::Done(Ok(())),
        ]
    );
    let ops = tr.into_operations();
    match &ops[1] {
        I2cOperation::Read(buf) => assert_eq!(buf, &vec![0xab, 0xcd]),
        I2cOperation::Write(_) => panic!("read turned into a write"),
    }
    match &ops[0] {
        I2cOperation::Write(buf) => assert_eq!(buf, &vec![0x10]),
        I2cOperation::Read(_) => panic!("write turned into a read"),
    }
}

#[test]
fn nack_releases_master_and_fails() {
    let ops = vec![I2cOperation::Write(vec![1, 2]), I2cOperation::Read(vec![0; 1])];
    let mut tr = I2cTransaction::new(0x21, ops);
    let (actions, result) = run(&mut tr, &[0, 0], Some(0));
    assert_eq!(result, Err(LiteI2CError::NACK));
    let n = actions.len();
    assert_eq!(actions[n - 2], I2cAction::SetActive(false));
    assert_eq!(actions[n - 3], I2cAction::ReadStatus);
    assert!(!actions.contains(&I2cAction::ReadData));
}

#[test]
fn oversized_read_transaction_sets_up_and_releases() {
    let mut tr = I2cTransaction::new(0x10, vec![I2cOperation::Read(vec![0; 400])]);
    let (actions, result) = run(&mut tr, &[], None);
    assert_eq!(result, Ok(()));
    assert_eq!(
        actions,
        vec![
            I2cAction::SetActive(true),
            I2cAction::ReadStatus,
            I2cAction::ReadStatus,
            I2cAction::WriteAddress(0x10),
            I2cAction::SetActive(false),
            I2cAction::Done(Ok(())),
        ]
    );
}

#[test]
fn flush_drops_waiting_words_and_waits_for_tx_ready() {
    let mut tr = I2cTransaction::new(0x10, vec![I2cOperation::Write(vec![1])]);
    tr.advance(I2cReply::Written);
    assert_eq!(tr.action(), I2cAction::ReadStatus);
    tr.advance(I2cReply::Status { rx_ready: true, tx_ready: false, nack: false });
    assert_eq!(tr.action(), I2cAction::ReadData);
    tr.advance(I2cReply::Data(0x55));
    assert_eq!(tr.action(), I2cAction::ReadStatus);
    tr.advance(I2cReply::Status { rx_ready: false, tx_ready: false, nack: false });
    assert_eq!(tr.action(), I2cAction::ReadStatus);
    tr.advance(I2cReply::Status { rx_ready: false, tx_ready: false, nack: false });
    assert_eq!(tr.action(), I2cAction::ReadStatus);
    tr.advance(I2cReply::Written);
    assert_eq!(tr.action(), I2cAction::ReadStatus);
    tr.advance(I2cReply::Status { rx_ready: false, tx_ready: true, nack: false });
    assert_eq!(tr.action(), I2cAction::WriteAddress(0x10));
}

#[test]
fn speed_mode_settings_and_names() {
    assert_eq!(LiteI2CSpeedMode::Standard.phy_speed_setting(), 0);
    assert_eq!(LiteI2CSpeedMode::Fast.phy_speed_setting(), 1);
    assert_eq!(LiteI2CSpeedMode::FastPlus.phy_speed_setting(), 2);
    assert_eq!(LiteI2CSpeedMode::Standard.to_string(), "LiteI2CSpeedMode::Standard");
    assert_eq!(LiteI2CSpeedMode::Fast.to_string(), "LiteI2CSpeedMode::Fast");
    assert_eq!(LiteI2CSpeedMode::FastPlus.to_string(), "LiteI2CSpeedMode::FastPlus");
}

#[test]
fn error_descriptions() {
    assert_eq!(LiteI2CError::NACK.to_string(), "LiteI2CError: NACK receied!");
    assert_eq!(LiteI2CError::Other.to_string(), "LiteI2CError: Unknown error!");
}

#[test]
fn long_read_after_write_fills_buffer_in_order() {
    let ops = vec![I2cOperation::Write(vec![0x42]), I2cOperation::Read(vec![0; 6])];
    let mut tr = I2cTransaction::new(0x68, ops);
    let (_, result) = run(&mut tr, &[0, 0x1122_3344, 0x0000_5566], None);
    assert_eq!(result, Ok(()));
    match &tr.into_operations()[1] {
        I2cOperation::Read(buf) => assert_eq!(buf, &vec![0x11, 0x22, 0x33, 0x44, 0x55, 0x66]),
        I2cOperation::Write(_) => panic!("read turned into a write"),
    }
}

#[test]
fn long_read_without_write_fills_first_word_only() {
    let ops = vec![I2cOperation::Read(vec![0xEE; 7])];
    let mut tr = I2cTransaction::new(0x68, ops);
    let (actions, result) = run(&mut tr, &[0xA1B2_C3D4], None);
    assert_eq!(result, Ok(()));
    assert!(actions.contains(&I2cAction::WriteSettings { len_tx: 0, len_rx: 5 }));
    match &tr.into_operations()[0] {
        I2cOperation::Read(buf) => {
            assert_eq!(buf, &vec![0xA1, 0xB2, 0xC3, 0xD4, 0xEE, 0xEE, 0xEE])
        }
        I2cOperation::Write(_) => panic!("read turned into a write"),
    }
}

#[test]
fn long_write_after_read_puts_every_byte_on_the_bus() {
    let ops = vec![
        I2cOperation::Read(vec![0; 1]),
        I2cOperation::Write(vec![1, 2, 3, 4, 5, 6, 7, 8, 9]),
    ];
    let mut tr = I2cTransaction::new(0x33, ops);
    let (actions, result) = run(&mut tr, &[0, 0, 0, 0], None);
    assert_eq!(result, Ok(()));
    let sent: Vec<I2cAction> =
        actions.iter().copied().filter(|a| matches!(a, I2cAction::WriteData(_))).collect();
    assert_eq!(
        sent,
        vec![
            I2cAction::WriteData(0),
            I2cAction::WriteData(0x0102_0304),
            I2cAction::WriteData(0x0506_0708),
            I2cAction::WriteData(0x09),
        ]
    );
}

#[test]
fn error_kinds() {
    assert_eq!(LiteI2CError::NACK.kind(), I2cErrorKind::NoAcknowledgeUnknown);
    assert_eq!(LiteI2CError::Other.kind(), I2cErrorKind::Other);
}
