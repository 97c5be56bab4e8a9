//! Driver logic for the LiteX UART core.
use vstd::prelude::*;

verus! {

/// Errors reported by the UART.
#[derive(Debug, Copy, Clone, PartialEq, Eq, Structural)]
pub enum UartError {
    InvalidState,
}

/// What an exchange with the UART does.
#[derive(Debug, Copy, Clone, PartialEq, Eq, Structural)]
pub enum UartMode {
    /// Send bytes.
    Write,
    /// Receive bytes.
    Read,
    /// Wait until the transmit queue has room.
    Flush,
}

/// A register access the exchange asks for.
#[derive(Debug, Copy, Clone, PartialEq, Eq)]
pub enum UartAction {
    /// Read `txfull` and answer with [`UartReply::Value`].
    ReadTxFull,
    /// Write `rxtx`.
    WriteData(u8),
    /// Read `rxempty` and answer with [`UartReply::Value`].
    ReadRxEmpty,
    /// Read `rxtx` and answer with [`UartReply::Value`].
    ReadData,
    /// Write the `rx` bit of `ev_pending`, acknowledging the byte read.
    AcknowledgeRx,
    /// The exchange is over, having moved this many bytes.
    Done(usize),
}

/// What the register access asked for gave.
#[derive(Debug, Copy, Clone, PartialEq, Eq)]
pub enum UartReply {
    /// A write was carried out.
    Written,
    /// The value of the register read.
    Value(u32),
}

/// Where an exchange stands.
#[derive(Debug, Copy, Clone, PartialEq, Eq)]
pub enum UartPhase {
    /// Waiting for room in the transmit queue.
    WaitTx,
    /// The current byte is to be written.
    Send,
    /// Waiting for a received byte.
    WaitRx,
    /// The received byte is to be read.
    Receive,
    /// The byte read is to be acknowledged.
    Acknowledge,
    /// The exchange is over.
    Finished,
}

/// The transmit queue has room when `txfull` reads zero.
pub open spec fn tx_ready(txfull: u32) -> bool {
    txfull == 0
}

/// A byte has arrived when `rxempty` reads zero.
pub open spec fn rx_ready(rxempty: u32) -> bool {
    rxempty == 0
}

/// The byte held by a value read from `rxtx`: its low-order byte.
pub open spec fn received_byte(value: u32) -> u8 {
    (value % 256) as u8
}

/// What an exchange is: its mode, the bytes to send or the buffer receiving bytes, how many
/// bytes are moved, and where it stands.
pub struct UartExchangeView {
    pub mode: UartMode,
    pub data: Seq<u8>,
    pub position: nat,
    pub phase: UartPhase,
}

impl UartExchangeView {
    /// Internal consistency of an exchange.
    pub open spec fn wf(self) -> bool {
        &&& self.position <= self.data.len()
        &&& (self.phase is Send || self.phase is WaitRx || self.phase is Receive
            || self.phase is Acknowledge) ==> self.position < self.data.len()
        &&& (self.phase is Send || self.phase is WaitTx) ==> self.mode != UartMode::Read
        &&& (self.phase is WaitRx || self.phase is Receive || self.phase is Acknowledge)
            ==> self.mode == UartMode::Read
        &&& self.mode == UartMode::Flush ==> self.data.len() == 0
        &&& self.mode == UartMode::Write && self.phase is WaitTx ==> self.position
            < self.data.len()
    }

    /// The register access the exchange asks for next.
    pub open spec fn pending(self) -> UartAction {
        match self.phase {
            UartPhase::WaitTx => UartAction::ReadTxFull,
            UartPhase::Send => UartAction::WriteData(self.data[self.position as int]),
            UartPhase::WaitRx => UartAction::ReadRxEmpty,
            UartPhase::Receive => UartAction::ReadData,
            UartPhase::Acknowledge => UartAction::AcknowledgeRx,
            UartPhase::Finished => UartAction::Done(self.position as usize),
        }
    }

    /// Phase in which byte number `i` begins (or the exchange ends).
    pub open spec fn phase_for_byte(self, i: nat) -> UartPhase {
        if i >= self.data.len() {
            UartPhase::Finished
        } else if self.mode == UartMode::Read {
            UartPhase::WaitRx
        } else {
            UartPhase::WaitTx
        }
    }

    /// The exchange moved to `phase`, with nothing else changed.
    pub open spec fn moved(self, phase: UartPhase) -> Self {
        UartExchangeView { phase, ..self }
    }

    /// The exchange moved on to byte number `position + 1`.
    pub open spec fn next_byte(self) -> Self {
        UartExchangeView {
            position: self.position + 1,
            phase: self.phase_for_byte(self.position + 1),
            ..self
        }
    }

    /// How the exchange moves on when its pending register access gave `reply`. A reply of the
    /// wrong kind leaves it where it is.
    pub open spec fn next(self, reply: UartReply) -> Self {
        match (self.phase, reply) {
            (UartPhase::WaitTx, UartReply::Value(txfull)) => if !tx_ready(txfull) {
                self
            } else if self.mode == UartMode::Flush {
                self.moved(UartPhase::Finished)
            } else {
                self.moved(UartPhase::Send)
            },
            (UartPhase::Send, UartReply::Written) => self.next_byte(),
            (UartPhase::WaitRx, UartReply::Value(rxempty)) => if rx_ready(rxempty) {
                self.moved(UartPhase::Receive)
            } else {
                self
            },
            (UartPhase::Receive, UartReply::Value(value)) => UartExchangeView {
                data: self.data.update(self.position as int, received_byte(value)),
                phase: UartPhase::Acknowledge,
                ..self
            },
            (UartPhase::Acknowledge, UartReply::Written) => self.next_byte(),
            _ => self,
        }
    }
}

/// Reply of a UART that always has room to send and a byte waiting, the byte read as number
/// `i` of the exchange being the low-order byte of `values[i]`.
pub open spec fn ready_reply(v: UartExchangeView, values: Seq<u32>) -> UartReply {
    match v.pending() {
        UartAction::ReadTxFull => UartReply::Value(0),
        UartAction::ReadRxEmpty => UartReply::Value(0),
        UartAction::ReadData => UartReply::Value(values[v.position as int]),
        _ => UartReply::Written,
    }
}

/// The exchange after `steps` register accesses answered by a ready UART.
pub open spec fn run_ready(v: UartExchangeView, values: Seq<u32>, steps: nat) -> UartExchangeView
    decreases steps,
{
    if steps == 0 {
        v
    } else {
        run_ready(v.next(ready_reply(v, values)), values, (steps - 1) as nat)
    }
}

/// The first `steps` register accesses of the exchange, answered by a ready UART.
pub open spec fn accesses_ready(v: UartExchangeView, values: Seq<u32>, steps: nat) -> Seq<
    UartAction,
>
    decreases steps,
{
    if steps == 0 {
        Seq::empty()
    } else {
        seq![v.pending()] + accesses_ready(v.next(ready_reply(v, values)), values, (steps - 1) as nat)
    }
}

proof fn lemma_run_ready_split(v: UartExchangeView, values: Seq<u32>, a: nat, b: nat)
    ensures
        run_ready(v, values, a + b) == run_ready(run_ready(v, values, a), values, b),
        accesses_ready(v, values, a + b) == accesses_ready(v, values, a) + accesses_ready(
            run_ready(v, values, a),
            values,
            b,
        ),
    decreases a,
{
    if a == 0 {
        assert(accesses_ready(v, values, 0) + accesses_ready(v, values, b) =~= accesses_ready(
            v,
            values,
            b,
        ));
    } else {
        let w = v.next(ready_reply(v, values));
        lemma_run_ready_split(w, values, (a - 1) as nat, b);
        assert((a + b - 1) as nat == (a - 1) as nat + b);
        assert(seq![v.pending()] + (accesses_ready(w, values, (a - 1) as nat) + accesses_ready(
            run_ready(w, values, (a - 1) as nat),
            values,
            b,
        )) =~= (seq![v.pending()] + accesses_ready(w, values, (a - 1) as nat)) + accesses_ready(
            run_ready(w, values, (a - 1) as nat),
            values,
            b,
        ));
    }
}

/// Register accesses that send `bytes` to a UART that always has room: for each byte, the
/// transmit queue is checked, then the byte is written.
pub open spec fn send_accesses(bytes: Seq<u8>) -> Seq<UartAction> {
    Seq::new(
        2 * bytes.len(),
        |k: int|
            if k % 2 == 0 {
                UartAction::ReadTxFull
            } else {
                UartAction::WriteData(bytes[k / 2])
            },
    )
}

/// Register accesses that receive `n` bytes from a UART that always has a byte waiting: for
/// each byte, the receive queue is checked, the byte is read, and it is acknowledged.
pub open spec fn receive_accesses(n: nat) -> Seq<UartAction> {
    Seq::new(
        3 * n,
        |k: int|
            if k % 3 == 0 {
                UartAction::ReadRxEmpty
            } else if k % 3 == 1 {
                UartAction::ReadData
            } else {
                UartAction::AcknowledgeRx
            },
    )
}

/// Writing to a UART that always has room sends every byte, in order, each after a check of
/// the transmit queue, and reports all of them written.
pub proof fn lemma_write_sends_bytes_in_order(bytes: Seq<u8>, values: Seq<u32>)
    requires
        bytes.len() < usize::MAX,
    ensures
        ({
            let v = UartExchangeView {
                mode: UartMode::Write,
                data: bytes,
                position: 0,
                phase: if bytes.len() == 0 {
                    UartPhase::Finished
                } else {
                    UartPhase::WaitTx
                },
            };
            &&& accesses_ready(v, values, 2 * bytes.len()) == send_accesses(bytes)
            &&& run_ready(v, values, 2 * bytes.len()).pending() == UartAction::Done(
                bytes.len() as usize,
            )
        }),
{
    let v = UartExchangeView {
        mode: UartMode::Write,
        data: bytes,
        position: 0,
        phase: if bytes.len() == 0 {
            UartPhase::Finished
        } else {
            UartPhase::WaitTx
        },
    };
    lemma_write_prefix(v, values, bytes.len());
    assert(send_accesses(bytes).take((2 * bytes.len()) as int) == send_accesses(bytes));
}

proof fn lemma_write_prefix(v: UartExchangeView, values: Seq<u32>, i: nat)
    requires
        v.mode == UartMode::Write,
        v.position == 0,
        v.phase == v.phase_for_byte(0),
        i <= v.data.len(),
    ensures
        accesses_ready(v, values, 2 * i) == send_accesses(v.data).take((2 * i) as int),
        run_ready(v, values, 2 * i) == (UartExchangeView {
            position: i,
            phase: v.phase_for_byte(i),
            ..v
        }),
    decreases i,
{
    if i == 0 {
        assert(send_accesses(v.data).take(0) =~= Seq::<UartAction>::empty());
    } else {
        let j = (i - 1) as nat;
        lemma_write_prefix(v, values, j);
        lemma_run_ready_split(v, values, 2 * j, 2);
        assert(2 * i == 2 * j + 2);
        let u = run_ready(v, values, 2 * j);
        let u1 = u.next(ready_reply(u, values));
        let u2 = u1.next(ready_reply(u1, values));
        assert(u1 == UartExchangeView { phase: UartPhase::Send, ..u });
        assert(u2 == UartExchangeView { position: i, phase: v.phase_for_byte(i), ..v });
        reveal_with_fuel(run_ready, 3);
        reveal_with_fuel(accesses_ready, 3);
        assert(run_ready(u, values, 2) == u2);
        assert(accesses_ready(u, values, 2) =~= seq![
            UartAction::ReadTxFull,
            UartAction::WriteData(v.data[j as int]),
        ]);
        assert(send_accesses(v.data).take((2 * i) as int) =~= send_accesses(v.data).take((2 * j) as int) + seq![
            UartAction::ReadTxFull,
            UartAction::WriteData(v.data[j as int]),
        ]);
    }
}

/// The bytes a UART delivers for the values it holds in `rxtx`, in order: the low-order eight
/// bits of each.
pub open spec fn received_bytes(values: Seq<u32>, n: nat) -> Seq<u8> {
    Seq::new(n, |i: int| (values[i] % 256) as u8)
}

/// Reading from a UART that always has a byte waiting fills the buffer, in order, with the
/// low-order bytes of what `rxtx` held, acknowledging each, and reports all of them read.
pub proof fn lemma_read_fills_buffer_in_order(buf: Seq<u8>, values: Seq<u32>)
    requires
        buf.len() < usize::MAX,
        values.len() >= buf.len(),
    ensures
        ({
            let v = UartExchangeView {
                mode: UartMode::Read,
                data: buf,
                position: 0,
                phase: if buf.len() == 0 {
                    UartPhase::Finished
                } else {
                    UartPhase::WaitRx
                },
            };
            let end = run_ready(v, values, 3 * buf.len());
            &&& accesses_ready(v, values, 3 * buf.len()) == receive_accesses(buf.len())
            &&& end.pending() == UartAction::Done(buf.len() as usize)
            &&& end.data == received_bytes(values, buf.len())
        }),
{
    let v = UartExchangeView {
        mode: UartMode::Read,
        data: buf,
        position: 0,
        phase: if buf.len() == 0 {
            UartPhase::Finished
        } else {
            UartPhase::WaitRx
        },
    };
    lemma_read_prefix(v, values, buf.len());
    assert(receive_accesses(buf.len()).take((3 * buf.len()) as int) == receive_accesses(buf.len()));
    let end = run_ready(v, values, 3 * buf.len());
    assert(end.data =~= received_bytes(values, buf.len()));
}

proof fn lemma_read_prefix(v: UartExchangeView, values: Seq<u32>, i: nat)
    requires
        v.mode == UartMode::Read,
        v.position == 0,
        v.phase == v.phase_for_byte(0),
        i <= v.data.len(),
        values.len() >= v.data.len(),
    ensures
        accesses_ready(v, values, 3 * i) == receive_accesses(v.data.len()).take((3 * i) as int),
        run_ready(v, values, 3 * i) == (UartExchangeView {
            data: received_bytes(values, i) + v.data.skip(i as int),
            position: i,
            phase: v.phase_for_byte(i),
            ..v
        }),
    decreases i,
{
    if i == 0 {
        assert(receive_accesses(v.data.len()).take(0) =~= Seq::<UartAction>::empty());
        assert(received_bytes(values, 0) + v.data.skip(0) =~= v.data);
    } else {
        let j = (i - 1) as nat;
        lemma_read_prefix(v, values, j);
        lemma_run_ready_split(v, values, 3 * j, 3);
        assert(3 * i == 3 * j + 3);
        let u = run_ready(v, values, 3 * j);
        let u1 = u.next(ready_reply(u, values));
        let u2 = u1.next(ready_reply(u1, values));
        let u3 = u2.next(ready_reply(u2, values));
        assert(u1 == UartExchangeView { phase: UartPhase::Receive, ..u });
        assert(u2.data == u.data.update(j as int, received_byte(values[j as int])));
        reveal_with_fuel(run_ready, 4);
        reveal_with_fuel(accesses_ready, 4);
        assert(run_ready(u, values, 3) == u3);
        assert(u3.data =~= received_bytes(values, i) + v.data.skip(i as int));
        assert(accesses_ready(u, values, 3) =~= seq![
            UartAction::ReadRxEmpty,
            UartAction::ReadData,
            UartAction::AcknowledgeRx,
        ]);
        assert(receive_accesses(v.data.len()).take((3 * i) as int) =~= receive_accesses(v.data.len()).take(
            (3 * j) as int,
        ) + seq![UartAction::ReadRxEmpty, UartAction::ReadData, UartAction::AcknowledgeRx]);
    }
}

/// Reply of a UART to the pending access of `v`: a read gives `value`, a write is carried out.
pub open spec fn device_reply(v: UartExchangeView, value: u32) -> UartReply {
    match v.pending() {
        UartAction::ReadTxFull => UartReply::Value(value),
        UartAction::ReadRxEmpty => UartReply::Value(value),
        UartAction::ReadData => UartReply::Value(value),
        _ => UartReply::Written,
    }
}

/// The exchange after `steps` register accesses against a UART whose register read at step `k`
/// gives `values[k]`, whatever the register: the queues may be full or empty for any time.
pub open spec fn run_device(v: UartExchangeView, values: Seq<u32>, steps: nat) -> UartExchangeView
    decreases steps,
{
    if steps == 0 {
        v
    } else {
        let u = run_device(v, values, (steps - 1) as nat);
        u.next(device_reply(u, values[steps - 1]))
    }
}

/// The first `steps` register accesses of the exchange against such a UART.
pub open spec fn accesses_device(v: UartExchangeView, values: Seq<u32>, steps: nat) -> Seq<
    UartAction,
>
    decreases steps,
{
    if steps == 0 {
        Seq::empty()
    } else {
        accesses_device(v, values, (steps - 1) as nat).push(
            run_device(v, values, (steps - 1) as nat).pending(),
        )
    }
}

/// The bytes written to `rxtx` by a sequence of accesses, in order.
pub open spec fn data_writes(acts: Seq<UartAction>) -> Seq<u8>
    decreases acts.len(),
{
    if acts.len() == 0 {
        Seq::empty()
    } else {
        data_writes(acts.drop_last()) + match acts.last() {
            UartAction::WriteData(b) => seq![b],
            _ => Seq::empty(),
        }
    }
}

/// The bytes taken from `rxtx` by a sequence of accesses, the access at step `k` having read
/// `values[k]`, in order: the low-order eight bits of each value read.
pub open spec fn data_reads(acts: Seq<UartAction>, values: Seq<u32>) -> Seq<u8>
    decreases acts.len(),
{
    if acts.len() == 0 {
        Seq::empty()
    } else {
        data_reads(acts.drop_last(), values) + if acts.last() == UartAction::ReadData {
            seq![(values[acts.len() - 1] % 256) as u8]
        } else {
            Seq::empty()
        }
    }
}

/// Writing to a UART, however long it keeps its transmit queue full, puts on the line exactly
/// the bytes written so far, in order, one per completed byte; when the exchange is over, it
/// has sent every byte and reports them all.
pub proof fn lemma_write_sends_bytes_while_waiting(bytes: Seq<u8>, values: Seq<u32>, steps: nat)
    requires
        bytes.len() < usize::MAX,
        steps <= values.len(),
    ensures
        ({
            let v = UartExchangeView {
                mode: UartMode::Write,
                data: bytes,
                position: 0,
                phase: if bytes.len() == 0 {
                    UartPhase::Finished
                } else {
                    UartPhase::WaitTx
                },
            };
            let end = run_device(v, values, steps);
            &&& data_writes(accesses_device(v, values, steps)) == bytes.take(end.position as int)
            &&& end.pending() is Done ==> end.position == bytes.len() && end.pending()
                == UartAction::Done(bytes.len() as usize)
        }),
    decreases steps,
{
    let v = UartExchangeView {
        mode: UartMode::Write,
        data: bytes,
        position: 0,
        phase: if bytes.len() == 0 {
            UartPhase::Finished
        } else {
            UartPhase::WaitTx
        },
    };
    lemma_device_keeps(v, values, steps);
    if steps == 0 {
        assert(bytes.take(0) =~= Seq::<u8>::empty());
    } else {
        let j = (steps - 1) as nat;
        lemma_write_sends_bytes_while_waiting(bytes, values, j);
        lemma_device_keeps(v, values, j);
        let u = run_device(v, values, j);
        let end = run_device(v, values, steps);
        let acts = accesses_device(v, values, steps);
        assert(acts.drop_last() == accesses_device(v, values, j));
        assert(acts.last() == u.pending());
        assert(acts.len() > 0);
        let before = data_writes(accesses_device(v, values, j));
        if u.phase is Send {
            assert(data_writes(acts) == before + seq![bytes[u.position as int]]);
            assert(end.position == u.position + 1);
            assert(bytes.take(u.position as int) + seq![bytes[u.position as int]] =~= bytes.take(
                u.position + 1 as int,
            ));
        } else {
            assert(data_writes(acts) == before + Seq::<u8>::empty());
            assert(end.position == u.position);
            assert(before + Seq::<u8>::empty() =~= before);
        }
    }
}

proof fn lemma_device_keeps(v: UartExchangeView, values: Seq<u32>, steps: nat)
    requires
        v.wf(),
        v.position == 0,
        v.phase is Finished ==> v.data.len() == 0,
        steps <= values.len(),
    ensures
        accesses_device(v, values, steps).len() == steps,
        run_device(v, values, steps).wf(),
        run_device(v, values, steps).mode == v.mode,
        run_device(v, values, steps).data.len() == v.data.len(),
        v.mode != UartMode::Read ==> run_device(v, values, steps).data == v.data,
        run_device(v, values, steps).phase is Finished ==> run_device(v, values, steps).position
            == v.data.len(),
    decreases steps,
{
    if steps > 0 {
        lemma_device_keeps(v, values, (steps - 1) as nat);
    }
}

/// A byte goes on the line only once the transmit queue was seen to have room: against any
/// UART, every write of `rxtx` in an exchange comes directly after a read of `txfull` that
/// read zero, for every byte of a write.
pub proof fn lemma_every_byte_waits_for_room(v: UartExchangeView, values: Seq<u32>, steps: nat)
    requires
        v.wf(),
        v.position == 0,
        v.phase is Finished ==> v.data.len() == 0,
        !(v.phase is Send),
        steps <= values.len(),
    ensures
        ({
            let acts = accesses_device(v, values, steps);
            forall|k: int|
                0 <= k < acts.len() && #[trigger] acts[k] is WriteData ==> k >= 1 && acts[k - 1]
                    == UartAction::ReadTxFull && values[k - 1] == 0
        }),
    decreases steps,
{
    lemma_device_keeps(v, values, steps);
    if steps > 0 {
        let j = (steps - 1) as nat;
        lemma_every_byte_waits_for_room(v, values, j);
        lemma_send_follows_room(v, values, j);
        let acts = accesses_device(v, values, steps);
        let prev = accesses_device(v, values, j);
        assert forall|k: int| 0 <= k < acts.len() && #[trigger] acts[k] is WriteData implies k
            >= 1 && acts[k - 1] == UartAction::ReadTxFull && values[k - 1] == 0 by {
            if k < j {
                assert(acts[k] == prev[k]);
                assert(acts[k - 1] == prev[k - 1]);
            } else {
                assert(acts[k - 1] == prev[k - 1]);
            }
        }
    }
}

proof fn lemma_send_follows_room(v: UartExchangeView, values: Seq<u32>, steps: nat)
    requires
        v.wf(),
        v.position == 0,
        v.phase is Finished ==> v.data.len() == 0,
        !(v.phase is Send),
        steps <= values.len(),
    ensures
        run_device(v, values, steps).phase is Send ==> steps >= 1 && accesses_device(
            v,
            values,
            steps,
        )[steps - 1] == UartAction::ReadTxFull && values[steps - 1] == 0,
        run_device(v, values, steps).pending() is WriteData ==> run_device(v, values, steps).phase is Send,
    decreases steps,
{
    lemma_device_keeps(v, values, steps);
    if steps > 0 {
        lemma_send_follows_room(v, values, (steps - 1) as nat);
        lemma_device_keeps(v, values, (steps - 1) as nat);
    }
}

/// Number of bytes an exchange has taken from `rxtx`: those done, and the one read but not yet
/// acknowledged.
pub open spec fn bytes_taken(v: UartExchangeView) -> nat {
    if v.phase is Acknowledge {
        v.position + 1
    } else {
        v.position
    }
}

/// Reading from a UART, however long it keeps its receive queue empty, fills the buffer from
/// the start, in order, with the low-order bytes of what `rxtx` held at each of its reads, the
/// rest of the buffer untouched; when the exchange is over, it has filled the whole buffer and
/// reports it.
pub proof fn lemma_read_fills_buffer_while_waiting(buf: Seq<u8>, values: Seq<u32>, steps: nat)
    requires
        buf.len() < usize::MAX,
        steps <= values.len(),
    ensures
        ({
            let v = UartExchangeView {
                mode: UartMode::Read,
                data: buf,
                position: 0,
                phase: if buf.len() == 0 {
                    UartPhase::Finished
                } else {
                    UartPhase::WaitRx
                },
            };
            let end = run_device(v, values, steps);
            &&& bytes_taken(end) <= buf.len()
            &&& end.data == data_reads(accesses_device(v, values, steps), values) + buf.skip(
                bytes_taken(end) as int,
            )
            &&& end.pending() is Done ==> end.position == buf.len() && end.pending()
                == UartAction::Done(buf.len() as usize)
        }),
    decreases steps,
{
    let v = UartExchangeView {
        mode: UartMode::Read,
        data: buf,
        position: 0,
        phase: if buf.len() == 0 {
            UartPhase::Finished
        } else {
            UartPhase::WaitRx
        },
    };
    lemma_device_keeps(v, values, steps);
    let acts = accesses_device(v, values, steps);
    let end = run_device(v, values, steps);
    if steps == 0 {
        assert(buf.skip(0) =~= buf);
    } else {
        let j = (steps - 1) as nat;
        lemma_read_fills_buffer_while_waiting(buf, values, j);
        lemma_device_keeps(v, values, j);
        let u = run_device(v, values, j);
        assert(acts.drop_last() == accesses_device(v, values, j));
        assert(acts.last() == u.pending());
        assert(acts.len() == steps);
        let prev = data_reads(accesses_device(v, values, j), values);
        assert(prev.len() == bytes_taken(u)) by {
            assert(u.data.len() == buf.len());
        }
        if u.phase is Receive {
            assert(end.data =~= prev.push(received_byte(values[j as int])) + buf.skip(
                bytes_taken(end) as int,
            ));
        } else {
            assert(end.data =~= data_reads(acts, values) + buf.skip(bytes_taken(end) as int));
        }
    }
}

/// One exchange with a LiteX UART.
pub struct UartExchange {
    mode: UartMode,
    data: Vec<u8>,
    index: usize,
    phase: UartPhase,
}

impl View for UartExchange {
    type V = UartExchangeView;

    closed spec fn view(&self) -> UartExchangeView {
        UartExchangeView {
            mode: self.mode,
            data: self.data@,
            position: self.index as nat,
            phase: self.phase,
        }
    }
}

impl UartExchange {
    /// Every exchange is internally consistent.
    #[verifier::type_invariant]
    spec fn consistent(self) -> bool {
        self@.wf()
    }

    /// Sends `bytes`, each once the transmit queue has room.
    pub fn write(bytes: Vec<u8>) -> (ex: Self)
        ensures
            ex@.wf(),
            ex@ == (UartExchangeView {
                mode: UartMode::Write,
                data: bytes@,
                position: 0,
                phase: if bytes@.len() == 0 {
                    UartPhase::Finished
                } else {
                    UartPhase::WaitTx
                },
            }),
    {
        let phase = if bytes.len() == 0 {
            UartPhase::Finished
        } else {
            UartPhase::WaitTx
        };
        UartExchange { mode: UartMode::Write, data: bytes, index: 0, phase }
    }

    /// Fills `buf` with received bytes, each once it has arrived.
    pub fn read(buf: Vec<u8>) -> (ex: Self)
        ensures
            ex@.wf(),
            ex@ == (UartExchangeView {
                mode: UartMode::Read,
                data: buf@,
                position: 0,
                phase: if buf@.len() == 0 {
                    UartPhase::Finished
                } else {
                    UartPhase::WaitRx
                },
            }),
    {
        let phase = if buf.len() == 0 {
            UartPhase::Finished
        } else {
            UartPhase::WaitRx
        };
        UartExchange { mode: UartMode::Read, data: buf, index: 0, phase }
    }

    /// Waits until the transmit queue has room.
    pub fn flush() -> (ex: Self)
        ensures
            ex@.wf(),
            ex@ == (UartExchangeView {
                mode: UartMode::Flush,
                data: Seq::empty(),
                position: 0,
                phase: UartPhase::WaitTx,
            }),
    {
        let ex = UartExchange {
            mode: UartMode::Flush,
            data: Vec::new(),
            index: 0,
            phase: UartPhase::WaitTx,
        };
        assert(ex@.data =~= Seq::<u8>::empty());
        ex
    }

    fn byte_phase(&self, i: usize) -> (p: UartPhase)
        ensures
            p == self@.phase_for_byte(i as nat),
    {
        if i >= self.data.len() {
            UartPhase::Finished
        } else if matches!(self.mode, UartMode::Read) {
            UartPhase::WaitRx
        } else {
            UartPhase::WaitTx
        }
    }

    /// The register access the exchange asks for next.
    pub fn action(&self) -> (a: UartAction)
        ensures
            self@.wf(),
            a == self@.pending(),
    {
        proof {
            use_type_invariant(self);
        }
        match self.phase {
            UartPhase::WaitTx => UartAction::ReadTxFull,
            UartPhase::Send => UartAction::WriteData(self.data[self.index]),
            UartPhase::WaitRx => UartAction::ReadRxEmpty,
            UartPhase::Receive => UartAction::ReadData,
            UartPhase::Acknowledge => UartAction::AcknowledgeRx,
            UartPhase::Finished => UartAction::Done(self.index),
        }
    }

    /// Moves the exchange on with what the pending register access gave.
    pub fn advance(&mut self, reply: UartReply)
        ensures
            old(self)@.wf(),
            final(self)@.wf(),
            final(self)@ == old(self)@.next(reply),
    {
        proof {
            use_type_invariant(&*self);
        }
        let len: usize = self.data.len();
        match (self.phase, reply) {
            (UartPhase::WaitTx, UartReply::Value(txfull)) => {
                if txfull == 0 {
                    self.phase = if matches!(self.mode, UartMode::Flush) {
                        UartPhase::Finished
                    } else {
                        UartPhase::Send
                    };
                }
            },
            (UartPhase::Send, UartReply::Written) => {
                self.phase = self.byte_phase(self.index + 1);
                self.index = self.index + 1;
            },
            (UartPhase::WaitRx, UartReply::Value(rxempty)) => {
                if rxempty == 0 {
                    self.phase = UartPhase::Receive;
                }
            },
            (UartPhase::Receive, UartReply::Value(value)) => {
                let byte: u8 = (value & 0xff) as u8;
                assert(byte == received_byte(value)) by (bit_vector)
                    requires
                        byte == (value & 0xff) as u8,
                ;
                let mut whole = UartExchange::flush();
                std::mem::swap(self, &mut whole);
                let UartExchange { mode, mut data, index, phase: _ } = whole;
                data.set(index, byte);
                *self = UartExchange { mode, data, index, phase: UartPhase::Acknowledge };
            },
            (UartPhase::Acknowledge, UartReply::Written) => {
                self.phase = self.byte_phase(self.index + 1);
                self.index = self.index + 1;
            },
            _ => {},
        }
    }

    /// The bytes (for a read, the buffer filled).
    pub fn into_data(self) -> (bytes: Vec<u8>)
        ensures
            bytes@ == self@.data,
    {
        proof {
            use_type_invariant(&self);
        }
        self.data
    }
}

} // verus!
