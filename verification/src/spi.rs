//! Driver logic for the LiteX SPI master core.
use vstd::prelude::*;

verus! {

/// Errors reported by an SPI exchange.
#[derive(Debug, Copy, Clone, PartialEq, Eq, Structural)]
pub enum SpiError {
    TransactionFailed,
    InvalidState,
}

/// What an exchange does with the words it moves.
#[derive(Debug, Copy, Clone, PartialEq, Eq, Structural)]
pub enum SpiMode {
    /// Clock in words, sending nothing.
    Read,
    /// Send words, dropping what comes back.
    Write,
    /// Send one buffer while receiving into another; the shorter one is padded or cut.
    Transfer,
    /// Send the words of a buffer, replacing each with the word received for it.
    TransferInPlace,
}

/// A register access the exchange asks for.
#[derive(Debug, Copy, Clone, PartialEq, Eq)]
pub enum SpiAction {
    /// Read the `done` bit of `status` and answer with [`SpiReply::Status`].
    ReadStatus,
    /// Write `mosi`.
    WriteMosi(u32),
    /// Write `control` with this `length` and `start` set.
    Start(u32),
    /// Read `miso` and answer with [`SpiReply::Data`].
    ReadMiso,
    /// The exchange is over, with this outcome.
    Done(Result<(), SpiError>),
}

/// What the register access asked for gave.
#[derive(Debug, Copy, Clone, PartialEq, Eq)]
pub enum SpiReply {
    /// A write was carried out.
    Written,
    /// The `done` bit of `status`.
    Status(bool),
    /// The value of `miso`.
    Data(u32),
}

/// Where an exchange stands.
#[derive(Debug, Copy, Clone, PartialEq, Eq)]
pub enum SpiPhase {
    /// The controller is checked to be idle before anything is sent.
    Initial,
    /// The controller is checked to be idle before the current word is sent.
    CheckReady,
    /// The current word is to be written to `mosi`.
    Send,
    /// The transfer of the current word is to be started.
    Start,
    /// Waiting for the transfer of the current word to complete.
    WaitDone,
    /// The word received for the current word is to be read.
    Receive,
    /// The exchange is over.
    Finished(Result<(), SpiError>),
}

/// The controller is checked once before a read, a write or an in-place transfer.
pub open spec fn checks_first(mode: SpiMode) -> bool {
    mode != SpiMode::Transfer
}

/// Words are written to `mosi` in every mode but a read.
pub open spec fn sends(mode: SpiMode) -> bool {
    mode != SpiMode::Read
}

/// Received words are read in every mode but a write.
pub open spec fn receives(mode: SpiMode) -> bool {
    mode != SpiMode::Write
}

/// What an exchange is: its mode, the length written to `control` for every word (the size of
/// a word in bytes), the words to send, the buffer receiving words, how many words are done,
/// and where it stands.
pub struct SpiExchangeView {
    pub mode: SpiMode,
    pub word_len: u32,
    pub outgoing: Seq<u32>,
    pub incoming: Seq<u32>,
    pub position: nat,
    pub phase: SpiPhase,
}

impl SpiExchangeView {
    /// Number of words the exchange moves.
    pub open spec fn count(self) -> nat {
        match self.mode {
            SpiMode::Read => self.incoming.len(),
            SpiMode::Write => self.outgoing.len(),
            SpiMode::Transfer => if self.incoming.len() >= self.outgoing.len() {
                self.incoming.len()
            } else {
                self.outgoing.len()
            },
            SpiMode::TransferInPlace => self.incoming.len(),
        }
    }

    /// Word sent as number `i`: a transfer pads its write buffer with zeros.
    pub open spec fn word_to_send(self, i: nat) -> u32 {
        if i < self.outgoing.len() {
            self.outgoing[i as int]
        } else {
            0
        }
    }

    /// Internal consistency of an exchange.
    pub open spec fn wf(self) -> bool {
        &&& self.position <= self.count()
        &&& self.mode == SpiMode::Read ==> self.outgoing.len() == 0
        &&& self.mode == SpiMode::Write ==> self.incoming.len() == 0
        &&& self.mode == SpiMode::TransferInPlace ==> self.outgoing.len() == self.incoming.len()
        &&& (self.phase is CheckReady || self.phase is Send || self.phase is Start
            || self.phase is WaitDone || self.phase is Receive) ==> self.position < self.count()
        &&& self.phase is Initial ==> self.position == 0 && checks_first(self.mode)
        &&& self.phase is Receive ==> receives(self.mode)
    }

    /// The register access the exchange asks for next.
    pub open spec fn pending(self) -> SpiAction {
        match self.phase {
            SpiPhase::Initial => SpiAction::ReadStatus,
            SpiPhase::CheckReady => SpiAction::ReadStatus,
            SpiPhase::Send => SpiAction::WriteMosi(self.word_to_send(self.position)),
            SpiPhase::Start => SpiAction::Start(self.word_len),
            SpiPhase::WaitDone => SpiAction::ReadStatus,
            SpiPhase::Receive => SpiAction::ReadMiso,
            SpiPhase::Finished(r) => SpiAction::Done(r),
        }
    }

    /// Phase in which word number `i` begins (or the exchange ends).
    pub open spec fn phase_for_word(self, i: nat) -> SpiPhase {
        if i >= self.count() {
            SpiPhase::Finished(Ok(()))
        } else if sends(self.mode) {
            SpiPhase::CheckReady
        } else {
            SpiPhase::Start
        }
    }

    /// Phase in which an exchange begins.
    pub open spec fn first_phase(self) -> SpiPhase {
        if checks_first(self.mode) {
            SpiPhase::Initial
        } else {
            self.phase_for_word(0)
        }
    }

    /// The exchange moved to `phase`, with nothing else changed.
    pub open spec fn moved(self, phase: SpiPhase) -> Self {
        SpiExchangeView { phase, ..self }
    }

    /// The exchange moved on to word number `position + 1`.
    pub open spec fn next_word(self, incoming: Seq<u32>) -> Self {
        SpiExchangeView {
            incoming,
            position: self.position + 1,
            phase: self.phase_for_word(self.position + 1),
            ..self
        }
    }

    /// How the exchange moves on when its pending register access gave `reply`. A reply of the
    /// wrong kind leaves it where it is.
    pub open spec fn next(self, reply: SpiReply) -> Self {
        match (self.phase, reply) {
            (SpiPhase::Initial, SpiReply::Status(done)) => self.moved(
                if done {
                    self.phase_for_word(0)
                } else {
                    SpiPhase::Finished(Err(SpiError::InvalidState))
                },
            ),
            (SpiPhase::CheckReady, SpiReply::Status(done)) => self.moved(
                if done {
                    SpiPhase::Send
                } else {
                    SpiPhase::Finished(Err(SpiError::InvalidState))
                },
            ),
            (SpiPhase::Send, SpiReply::Written) => self.moved(SpiPhase::Start),
            (SpiPhase::Start, SpiReply::Written) => self.moved(SpiPhase::WaitDone),
            (SpiPhase::WaitDone, SpiReply::Status(done)) => if !done {
                self
            } else if receives(self.mode) {
                self.moved(SpiPhase::Receive)
            } else {
                self.next_word(self.incoming)
            },
            (SpiPhase::Receive, SpiReply::Data(word)) => self.next_word(
                if self.position < self.incoming.len() {
                    self.incoming.update(self.position as int, word)
                } else {
                    self.incoming
                },
            ),
            _ => self,
        }
    }
}

/// Reply of a controller that is always done, the word read from `miso` for word number `i`
/// of the exchange being `received[i]`.
pub open spec fn done_reply(v: SpiExchangeView, received: Seq<u32>) -> SpiReply {
    match v.pending() {
        SpiAction::ReadStatus => SpiReply::Status(true),
        SpiAction::ReadMiso => SpiReply::Data(received[v.position as int]),
        _ => SpiReply::Written,
    }
}

/// The exchange after `steps` register accesses answered by an always-done controller.
pub open spec fn run_done(v: SpiExchangeView, received: Seq<u32>, steps: nat) -> SpiExchangeView
    decreases steps,
{
    if steps == 0 {
        v
    } else {
        run_done(v.next(done_reply(v, received)), received, (steps - 1) as nat)
    }
}

/// The first `steps` register accesses of the exchange, answered by an always-done controller.
pub open spec fn accesses_done(v: SpiExchangeView, received: Seq<u32>, steps: nat) -> Seq<
    SpiAction,
>
    decreases steps,
{
    if steps == 0 {
        Seq::empty()
    } else {
        seq![v.pending()] + accesses_done(v.next(done_reply(v, received)), received, (steps - 1) as nat)
    }
}

proof fn lemma_run_done_split(v: SpiExchangeView, received: Seq<u32>, a: nat, b: nat)
    ensures
        run_done(v, received, a + b) == run_done(run_done(v, received, a), received, b),
        accesses_done(v, received, a + b) == accesses_done(v, received, a) + accesses_done(
            run_done(v, received, a),
            received,
            b,
        ),
    decreases a,
{
    if a == 0 {
        assert(accesses_done(v, received, 0) + accesses_done(v, received, b) =~= accesses_done(
            v,
            received,
            b,
        ));
    } else {
        let w = v.next(done_reply(v, received));
        lemma_run_done_split(w, received, (a - 1) as nat, b);
        assert((a + b - 1) as nat == (a - 1) as nat + b);
        assert(seq![v.pending()] + (accesses_done(w, received, (a - 1) as nat) + accesses_done(
            run_done(w, received, (a - 1) as nat),
            received,
            b,
        )) =~= (seq![v.pending()] + accesses_done(w, received, (a - 1) as nat)) + accesses_done(
            run_done(w, received, (a - 1) as nat),
            received,
            b,
        ));
    }
}

/// Register accesses for word number `i` with an always-done controller: the idle check
/// before sending, the word written to `mosi`, the transfer started, the wait, and the read of
/// `miso`, each as far as the mode does it.
pub open spec fn word_accesses(v: SpiExchangeView, i: nat) -> Seq<SpiAction> {
    match v.mode {
        SpiMode::Read => seq![SpiAction::Start(v.word_len), SpiAction::ReadStatus, SpiAction::ReadMiso],
        SpiMode::Write => seq![
            SpiAction::ReadStatus,
            SpiAction::WriteMosi(v.word_to_send(i)),
            SpiAction::Start(v.word_len),
            SpiAction::ReadStatus,
        ],
        _ => seq![
            SpiAction::ReadStatus,
            SpiAction::WriteMosi(v.word_to_send(i)),
            SpiAction::Start(v.word_len),
            SpiAction::ReadStatus,
            SpiAction::ReadMiso,
        ],
    }
}

/// Register accesses for the first `k` words of an exchange with an always-done controller,
/// after the initial idle check of the modes that make one.
pub open spec fn exchange_accesses(v: SpiExchangeView, k: nat) -> Seq<SpiAction>
    decreases k,
{
    if k == 0 {
        if checks_first(v.mode) {
            seq![SpiAction::ReadStatus]
        } else {
            Seq::empty()
        }
    } else {
        exchange_accesses(v, (k - 1) as nat) + word_accesses(v, (k - 1) as nat)
    }
}

/// The receiving buffer once the first `k` words have been received into it.
pub open spec fn filled(v: SpiExchangeView, received: Seq<u32>, k: nat) -> Seq<u32> {
    Seq::new(
        v.incoming.len(),
        |j: int|
            if j < k && receives(v.mode) {
                received[j]
            } else {
                v.incoming[j]
            },
    )
}

proof fn lemma_exchange_prefix(v: SpiExchangeView, received: Seq<u32>, k: nat)
    requires
        v.wf(),
        v.position == 0,
        v.phase == v.first_phase(),
        k <= v.count(),
        received.len() >= v.count(),
    ensures
        ({
            let first: nat = if checks_first(v.mode) {
                1
            } else {
                0
            };
            let steps = first + k * word_accesses(v, 0).len();
            &&& accesses_done(v, received, steps) == exchange_accesses(v, k)
            &&& run_done(v, received, steps) == (SpiExchangeView {
                incoming: filled(v, received, k),
                position: k,
                phase: v.phase_for_word(k),
                ..v
            })
        }),
    decreases k,
{
    let first: nat = if checks_first(v.mode) {
        1
    } else {
        0
    };
    let per = word_accesses(v, 0).len();
    if k == 0 {
        assert(first + k * per == first) by (nonlinear_arith)
            requires
                k == 0,
        ;
        reveal_with_fuel(run_done, 2);
        reveal_with_fuel(accesses_done, 2);
        assert(filled(v, received, 0) =~= v.incoming);
        if checks_first(v.mode) {
            assert(accesses_done(v, received, 1) =~= seq![SpiAction::ReadStatus]);
        }
    } else {
        let j = (k - 1) as nat;
        lemma_exchange_prefix(v, received, j);
        assert(first + k * per == (first + j * per) + per) by (nonlinear_arith)
            requires
                k == j + 1,
        ;
        lemma_run_done_split(v, received, first + j * per, per);
        let u = run_done(v, received, first + j * per);
        assert(word_accesses(v, j).len() == per);
        lemma_word_step(v, u, received, j);
    }
}

proof fn lemma_word_step(v: SpiExchangeView, u: SpiExchangeView, received: Seq<u32>, j: nat)
    requires
        v.wf(),
        j < v.count(),
        received.len() >= v.count(),
        u == (SpiExchangeView {
            incoming: filled(v, received, j),
            position: j,
            phase: v.phase_for_word(j),
            ..v
        }),
    ensures
        accesses_done(u, received, word_accesses(v, j).len()) == word_accesses(v, j),
        run_done(u, received, word_accesses(v, j).len()) == (SpiExchangeView {
            incoming: filled(v, received, j + 1),
            position: j + 1,
            phase: v.phase_for_word(j + 1),
            ..v
        }),
{
    reveal_with_fuel(run_done, 6);
    reveal_with_fuel(accesses_done, 6);
    let target = SpiExchangeView {
        incoming: filled(v, received, j + 1),
        position: j + 1,
        phase: v.phase_for_word(j + 1),
        ..v
    };
    assert(u.count() == v.count());
    assert(u.phase_for_word(j + 1) == v.phase_for_word(j + 1));
    let u1 = u.next(done_reply(u, received));
    let u2 = u1.next(done_reply(u1, received));
    let u3 = u2.next(done_reply(u2, received));
    let u4 = u3.next(done_reply(u3, received));
    let u5 = u4.next(done_reply(u4, received));
    match v.mode {
        SpiMode::Read => {
            assert(u3.incoming =~= target.incoming);
            assert(u3 == target);
            assert(accesses_done(u, received, 3) =~= word_accesses(v, j));
        },
        SpiMode::Write => {
            assert(u4.incoming =~= target.incoming);
            assert(u4 == target);
            assert(accesses_done(u, received, 4) =~= word_accesses(v, j));
        },
        _ => {
            assert(u5.incoming =~= target.incoming);
            assert(u5 == target);
            assert(accesses_done(u, received, 5) =~= word_accesses(v, j));
        },
    }
}

/// With a controller that is always done, an exchange moves every word in order: it makes the
/// register accesses of [`exchange_accesses`] (sending each word of the write buffer, padded
/// with zeros, in turn), ends without error, and leaves in the receiving buffer the words read
/// from `miso`, in order.
pub proof fn lemma_exchange_moves_every_word(v: SpiExchangeView, received: Seq<u32>)
    requires
        v.wf(),
        v.position == 0,
        v.phase == v.first_phase(),
        received.len() >= v.count(),
    ensures
        ({
            let first: nat = if checks_first(v.mode) {
                1
            } else {
                0
            };
            let steps = first + v.count() * word_accesses(v, 0).len();
            let end = run_done(v, received, steps);
            &&& accesses_done(v, received, steps) == exchange_accesses(v, v.count())
            &&& end.pending() == SpiAction::Done(Ok(()))
            &&& end.incoming == if receives(v.mode) {
                received.take(v.incoming.len() as int)
            } else {
                v.incoming
            }
        }),
{
    lemma_exchange_prefix(v, received, v.count());
    let first: nat = if checks_first(v.mode) {
        1
    } else {
        0
    };
    let end = run_done(v, received, first + v.count() * word_accesses(v, 0).len());
    assert(v.incoming.len() <= v.count());
    if receives(v.mode) {
        assert(end.incoming =~= received.take(v.incoming.len() as int));
    } else {
        assert(end.incoming =~= v.incoming);
    }
}

/// Reply of a controller to the pending access of `v`: a read of `status` finds `done` set
/// when `value` is not zero, a read of `miso` gives `value`, a write is carried out.
pub open spec fn device_reply(v: SpiExchangeView, value: u32) -> SpiReply {
    match v.pending() {
        SpiAction::ReadStatus => SpiReply::Status(value != 0),
        SpiAction::ReadMiso => SpiReply::Data(value),
        _ => SpiReply::Written,
    }
}

/// The exchange after `steps` register accesses against a controller whose register read at
/// step `k` gives `values[k]`: it may be busy for any time, or when it must be idle.
pub open spec fn run_device(v: SpiExchangeView, values: Seq<u32>, steps: nat) -> SpiExchangeView
    decreases steps,
{
    if steps == 0 {
        v
    } else {
        let u = run_device(v, values, (steps - 1) as nat);
        u.next(device_reply(u, values[steps - 1]))
    }
}

/// The first `steps` register accesses of the exchange against such a controller.
pub open spec fn accesses_device(v: SpiExchangeView, values: Seq<u32>, steps: nat) -> Seq<
    SpiAction,
>
    decreases steps,
{
    if steps == 0 {
        Seq::empty()
    } else {
        accesses_device(v, values, (steps - 1) as nat).push(
            run_device(v, values, (steps - 1) as nat).pending(),
        )
    }
}

/// The words written to `mosi` by a sequence of accesses, in order.
pub open spec fn mosi_writes(acts: Seq<SpiAction>) -> Seq<u32>
    decreases acts.len(),
{
    if acts.len() == 0 {
        Seq::empty()
    } else {
        mosi_writes(acts.drop_last()) + match acts.last() {
            SpiAction::WriteMosi(w) => seq![w],
            _ => Seq::empty(),
        }
    }
}

/// The words read from `miso` by a sequence of accesses, the access at step `k` having read
/// `values[k]`, in order.
pub open spec fn miso_reads(acts: Seq<SpiAction>, values: Seq<u32>) -> Seq<u32>
    decreases acts.len(),
{
    if acts.len() == 0 {
        Seq::empty()
    } else {
        miso_reads(acts.drop_last(), values) + if acts.last() == SpiAction::ReadMiso {
            seq![values[acts.len() - 1]]
        } else {
            Seq::empty()
        }
    }
}

/// Number of words an exchange has written to `mosi`.
pub open spec fn words_sent(v: SpiExchangeView) -> nat {
    if !sends(v.mode) {
        0
    } else if v.phase is Start || v.phase is WaitDone || v.phase is Receive {
        v.position + 1
    } else {
        v.position
    }
}

/// The receiving buffer `incoming` once the words `reads` have been received into it in turn.
pub open spec fn received_into(incoming: Seq<u32>, reads: Seq<u32>) -> Seq<u32> {
    Seq::new(
        incoming.len(),
        |j: int|
            if j < reads.len() {
                reads[j]
            } else {
                incoming[j]
            },
    )
}

/// Whatever the controller answers, an exchange writes to `mosi` the words to send, in order
/// (a transfer padding its write buffer with zeros), and fills its receiving buffer from the
/// start, in order, with the words read from `miso`, the rest untouched. It ends without
/// error only once every word has been moved.
pub proof fn lemma_exchange_moves_words_in_order(v: SpiExchangeView, values: Seq<u32>, steps: nat)
    requires
        v.wf(),
        v.position == 0,
        v.phase == v.first_phase(),
        steps <= values.len(),
    ensures
        ({
            let acts = accesses_device(v, values, steps);
            let end = run_device(v, values, steps);
            &&& mosi_writes(acts) == Seq::new(words_sent(end), |i: int| v.word_to_send(i as nat))
            &&& miso_reads(acts, values).len() == if receives(v.mode) {
                end.position
            } else {
                0
            }
            &&& end.incoming == received_into(v.incoming, miso_reads(acts, values))
            &&& end.pending() == SpiAction::Done(Ok(())) ==> end.position == v.count()
        }),
    decreases steps,
{
    lemma_device_keeps(v, values, steps);
    let acts = accesses_device(v, values, steps);
    let end = run_device(v, values, steps);
    if steps == 0 {
        assert(mosi_writes(acts) =~= Seq::new(words_sent(end), |i: int| v.word_to_send(i as nat)));
        assert(end.incoming =~= received_into(v.incoming, miso_reads(acts, values)));
    } else {
        let j = (steps - 1) as nat;
        lemma_exchange_moves_words_in_order(v, values, j);
        lemma_device_keeps(v, values, j);
        let u = run_device(v, values, j);
        let prev = accesses_device(v, values, j);
        assert(acts.drop_last() == prev);
        assert(acts.last() == u.pending());
        assert(acts.len() > 0);
        let w_before = mosi_writes(prev);
        let r_before = miso_reads(prev, values);
        assert(u.word_to_send(u.position) == v.word_to_send(u.position));
        if u.phase is Send {
            assert(mosi_writes(acts) == w_before + seq![u.word_to_send(u.position)]);
        } else {
            assert(mosi_writes(acts) == w_before + Seq::<u32>::empty());
        }
        assert(mosi_writes(acts) =~= Seq::new(words_sent(end), |i: int| v.word_to_send(i as nat)));
        if u.phase is Receive {
            assert(acts.len() - 1 == j);
            assert(miso_reads(acts, values) == r_before + seq![values[j as int]]);
        } else {
            assert(miso_reads(acts, values) == r_before + Seq::<u32>::empty());
            assert(r_before + Seq::<u32>::empty() =~= r_before);
        }
        assert(end.incoming =~= received_into(v.incoming, miso_reads(acts, values)));
    }
}

/// Between a Start at step `k` and step `m`, a read of `status` found `done` set.
pub open spec fn done_seen_between(acts: Seq<SpiAction>, values: Seq<u32>, k: int, m: int) -> bool {
    exists|p: int| k < p < m && acts[p] == SpiAction::ReadStatus && #[trigger] values[p] != 0
}

/// Each word's transfer is waited for: against any controller, after every start of a transfer
/// the exchange only reads `status` until a read finds `done` set; only then does it read the
/// received word, check readiness for the next word, or end.
pub proof fn lemma_each_word_waits_for_done(v: SpiExchangeView, values: Seq<u32>, steps: nat)
    requires
        v.wf(),
        v.position == 0,
        v.phase == v.first_phase(),
        steps <= values.len(),
    ensures
        ({
            let acts = accesses_device(v, values, steps);
            forall|k: int, m: int|
                0 <= k < m < acts.len() && #[trigger] acts[k] is Start && !(#[trigger] acts[m]
                    == SpiAction::ReadStatus) ==> done_seen_between(acts, values, k, m)
        }),
{
    lemma_waits_invariant(v, values, steps);
}

proof fn lemma_waits_invariant(v: SpiExchangeView, values: Seq<u32>, steps: nat)
    requires
        v.wf(),
        v.position == 0,
        v.phase == v.first_phase(),
        steps <= values.len(),
    ensures
        ({
            let acts = accesses_device(v, values, steps);
            let end = run_device(v, values, steps);
            &&& forall|k: int, m: int|
                0 <= k < m < acts.len() && #[trigger] acts[k] is Start && !(#[trigger] acts[m]
                    == SpiAction::ReadStatus) ==> done_seen_between(acts, values, k, m)
            &&& end.phase is WaitDone ==> exists|k: int|
                0 <= k < acts.len() && acts[k] is Start && forall|p: int|
                    k < p < acts.len() ==> acts[p] == SpiAction::ReadStatus && #[trigger] values[p]
                        == 0
            &&& !(end.phase is WaitDone) ==> forall|k: int|
                0 <= k < acts.len() && #[trigger] acts[k] is Start ==> done_seen_between(
                    acts,
                    values,
                    k,
                    acts.len() as int,
                )
        }),
    decreases steps,
{
    lemma_device_keeps(v, values, steps);
    if steps > 0 {
        let j = (steps - 1) as nat;
        lemma_waits_invariant(v, values, j);
        lemma_device_keeps(v, values, j);
        let u = run_device(v, values, j);
        let prev = accesses_device(v, values, j);
        let acts = accesses_device(v, values, steps);
        let end = run_device(v, values, steps);
        assert(acts == prev.push(u.pending()));
        assert(forall|q: int| 0 <= q < j ==> acts[q] == prev[q]);
        assert(acts[j as int] == u.pending());
        if u.phase is WaitDone {
            let k0 = choose|k: int|
                0 <= k < prev.len() && prev[k] is Start && forall|p: int|
                    k < p < prev.len() ==> prev[p] == SpiAction::ReadStatus && #[trigger] values[p]
                        == 0;
            assert(acts[j as int] == SpiAction::ReadStatus);
            if values[j as int] != 0 {
                assert forall|k: int|
                    0 <= k < acts.len() && #[trigger] acts[k] is Start implies done_seen_between(
                    acts,
                    values,
                    k,
                    acts.len() as int,
                ) by {
                    if k == k0 {
                        assert(k < j && acts[j as int] == SpiAction::ReadStatus && values[j as int]
                            != 0);
                    } else if k < k0 {
                        assert(!(prev[k0] == SpiAction::ReadStatus));
                        assert(done_seen_between(prev, values, k, k0));
                        let p = choose|p: int|
                            k < p < k0 && prev[p] == SpiAction::ReadStatus && #[trigger] values[p]
                                != 0;
                        assert(acts[p] == SpiAction::ReadStatus && values[p] != 0);
                    } else {
                        assert(prev[k] == SpiAction::ReadStatus);
                    }
                }
            } else {
                assert(end.phase is WaitDone);
                assert forall|p: int| k0 < p < acts.len() implies acts[p] == SpiAction::ReadStatus
                    && #[trigger] values[p] == 0 by {
                    if p < j {
                        assert(prev[p] == SpiAction::ReadStatus && values[p] == 0);
                    }
                }
            }
            assert forall|k: int, m: int|
                0 <= k < m < acts.len() && #[trigger] acts[k] is Start && !(#[trigger] acts[m]
                    == SpiAction::ReadStatus) implies done_seen_between(acts, values, k, m) by {
                assert(m < j);
                assert(prev[k] is Start && !(prev[m] == SpiAction::ReadStatus));
                let p = choose|p: int|
                    k < p < m && prev[p] == SpiAction::ReadStatus && #[trigger] values[p] != 0;
                assert(acts[p] == SpiAction::ReadStatus);
            }
        } else {
            assert forall|k: int, m: int|
                0 <= k < m < acts.len() && #[trigger] acts[k] is Start && !(#[trigger] acts[m]
                    == SpiAction::ReadStatus) implies done_seen_between(acts, values, k, m) by {
                if m < j {
                    assert(prev[k] is Start && !(prev[m] == SpiAction::ReadStatus));
                    let p = choose|p: int|
                        k < p < m && prev[p] == SpiAction::ReadStatus && #[trigger] values[p] != 0;
                    assert(acts[p] == SpiAction::ReadStatus);
                } else {
                    assert(k < j);
                    assert(prev[k] is Start);
                    assert(done_seen_between(prev, values, k, j as int));
                    let p = choose|p: int|
                        k < p < j && prev[p] == SpiAction::ReadStatus && #[trigger] values[p] != 0;
                    assert(acts[p] == SpiAction::ReadStatus);
                }
            }
            if u.phase is Start {
                assert(end.phase is WaitDone);
                assert(acts[j as int] is Start);
            } else {
                assert(!(end.phase is WaitDone));
                assert(!(acts[j as int] is Start));
                assert forall|k: int|
                    0 <= k < acts.len() && #[trigger] acts[k] is Start implies done_seen_between(
                    acts,
                    values,
                    k,
                    acts.len() as int,
                ) by {
                    assert(k < j);
                    assert(prev[k] is Start);
                    let p = choose|p: int|
                        k < p < j && prev[p] == SpiAction::ReadStatus && #[trigger] values[p] != 0;
                    assert(acts[p] == SpiAction::ReadStatus);
                }
            }
        }
    }
}

proof fn lemma_device_keeps(v: SpiExchangeView, values: Seq<u32>, steps: nat)
    requires
        v.wf(),
        v.position == 0,
        v.phase == v.first_phase(),
        steps <= values.len(),
    ensures
        accesses_device(v, values, steps).len() == steps,
        run_device(v, values, steps).wf(),
        run_device(v, values, steps).mode == v.mode,
        run_device(v, values, steps).outgoing == v.outgoing,
        run_device(v, values, steps).word_len == v.word_len,
        run_device(v, values, steps).incoming.len() == v.incoming.len(),
        run_device(v, values, steps).pending() == SpiAction::Done(Ok(())) ==> run_device(
            v,
            values,
            steps,
        ).position == v.count(),
    decreases steps,
{
    if steps > 0 {
        lemma_device_keeps(v, values, (steps - 1) as nat);
    }
}

/// One SPI exchange (one operation of a transaction) on a LiteX SPI master.
pub struct SpiExchange {
    mode: SpiMode,
    word_len: u32,
    outgoing: Vec<u32>,
    incoming: Vec<u32>,
    index: usize,
    phase: SpiPhase,
}

impl View for SpiExchange {
    type V = SpiExchangeView;

    closed spec fn view(&self) -> SpiExchangeView {
        SpiExchangeView {
            mode: self.mode,
            word_len: self.word_len,
            outgoing: self.outgoing@,
            incoming: self.incoming@,
            position: self.index as nat,
            phase: self.phase,
        }
    }
}

impl SpiExchange {
    /// Every exchange is internally consistent.
    #[verifier::type_invariant]
    spec fn consistent(self) -> bool {
        self@.wf()
    }

    fn start(mode: SpiMode, word_len: u32, outgoing: Vec<u32>, incoming: Vec<u32>) -> (ex: Self)
        requires
            mode == SpiMode::Read ==> outgoing@.len() == 0,
            mode == SpiMode::Write ==> incoming@.len() == 0,
            mode == SpiMode::TransferInPlace ==> outgoing@.len() == incoming@.len(),
        ensures
            ex@.wf(),
            ex@.mode == mode,
            ex@.word_len == word_len,
            ex@.outgoing == outgoing@,
            ex@.incoming == incoming@,
            ex@.position == 0,
            ex@.phase == ex@.first_phase(),
    {
        let phase = if !matches!(mode, SpiMode::Transfer) {
            SpiPhase::Initial
        } else if incoming.len() == 0 && outgoing.len() == 0 {
            SpiPhase::Finished(Ok(()))
        } else {
            SpiPhase::CheckReady
        };
        SpiExchange { mode, word_len, outgoing, incoming, index: 0, phase }
    }

    /// Reads `buf.len()` words into `buf`; `word_len` is the size of a word in bytes.
    pub fn read(buf: Vec<u32>, word_len: u32) -> (ex: Self)
        ensures
            ex@.wf(),
            ex@ == (SpiExchangeView {
                mode: SpiMode::Read,
                word_len,
                outgoing: Seq::empty(),
                incoming: buf@,
                position: 0,
                phase: SpiPhase::Initial,
            }),
    {
        let ex = Self::start(SpiMode::Read, word_len, Vec::new(), buf);
        assert(ex@.outgoing =~= Seq::<u32>::empty());
        ex
    }

    /// Sends `words`; `word_len` is the size of a word in bytes.
    pub fn write(words: Vec<u32>, word_len: u32) -> (ex: Self)
        ensures
            ex@.wf(),
            ex@ == (SpiExchangeView {
                mode: SpiMode::Write,
                word_len,
                outgoing: words@,
                incoming: Seq::empty(),
                position: 0,
                phase: SpiPhase::Initial,
            }),
    {
        let ex = Self::start(SpiMode::Write, word_len, words, Vec::new());
        assert(ex@.incoming =~= Seq::<u32>::empty());
        ex
    }

    /// Sends `write` while receiving into `read`, for as many words as the longer of the two
    /// holds; `word_len` is the size of a word in bytes.
    pub fn transfer(read: Vec<u32>, write: Vec<u32>, word_len: u32) -> (ex: Self)
        ensures
            ex@.wf(),
            ex@ == (SpiExchangeView {
                mode: SpiMode::Transfer,
                word_len,
                outgoing: write@,
                incoming: read@,
                position: 0,
                phase: if read@.len() == 0 && write@.len() == 0 {
                    SpiPhase::Finished(Ok(()))
                } else {
                    SpiPhase::CheckReady
                },
            }),
            ex@.count() == if read@.len() >= write@.len() {
                read@.len()
            } else {
                write@.len()
            },
    {
        Self::start(SpiMode::Transfer, word_len, write, read)
    }

    /// Sends the words of `words`, replacing each with the word received for it; `word_len` is
    /// the size of a word in bytes.
    pub fn transfer_in_place(words: Vec<u32>, word_len: u32) -> (ex: Self)
        ensures
            ex@.wf(),
            ex@ == (SpiExchangeView {
                mode: SpiMode::TransferInPlace,
                word_len,
                outgoing: words@,
                incoming: words@,
                position: 0,
                phase: SpiPhase::Initial,
            }),
    {
        let sent = words.clone();
        assert(sent@ =~= words@);
        Self::start(SpiMode::TransferInPlace, word_len, sent, words)
    }

    fn word_count(&self) -> (n: usize)
        ensures
            n == self@.count(),
    {
        match self.mode {
            SpiMode::Read => self.incoming.len(),
            SpiMode::Write => self.outgoing.len(),
            SpiMode::Transfer => if self.incoming.len() >= self.outgoing.len() {
                self.incoming.len()
            } else {
                self.outgoing.len()
            },
            SpiMode::TransferInPlace => self.incoming.len(),
        }
    }

    fn word_phase(&self, i: usize) -> (p: SpiPhase)
        ensures
            p == self@.phase_for_word(i as nat),
    {
        if i >= self.word_count() {
            SpiPhase::Finished(Ok(()))
        } else if !matches!(self.mode, SpiMode::Read) {
            SpiPhase::CheckReady
        } else {
            SpiPhase::Start
        }
    }

    /// The register access the exchange asks for next.
    pub fn action(&self) -> (a: SpiAction)
        ensures
            self@.wf(),
            a == self@.pending(),
    {
        proof {
            use_type_invariant(self);
        }
        match self.phase {
            SpiPhase::Initial => SpiAction::ReadStatus,
            SpiPhase::CheckReady => SpiAction::ReadStatus,
            SpiPhase::Send => {
                let word = if self.index < self.outgoing.len() {
                    self.outgoing[self.index]
                } else {
                    0
                };
                SpiAction::WriteMosi(word)
            },
            SpiPhase::Start => SpiAction::Start(self.word_len),
            SpiPhase::WaitDone => SpiAction::ReadStatus,
            SpiPhase::Receive => SpiAction::ReadMiso,
            SpiPhase::Finished(r) => SpiAction::Done(r),
        }
    }

    /// Moves the exchange on with what the pending register access gave.
    pub fn advance(&mut self, reply: SpiReply)
        ensures
            old(self)@.wf(),
            final(self)@.wf(),
            final(self)@ == old(self)@.next(reply),
    {
        proof {
            use_type_invariant(&*self);
        }
        let count: usize = self.word_count();
        match (self.phase, reply) {
            (SpiPhase::Initial, SpiReply::Status(done)) => {
                self.phase = if done {
                    self.word_phase(0)
                } else {
                    SpiPhase::Finished(Err(SpiError::InvalidState))
                };
            },
            (SpiPhase::CheckReady, SpiReply::Status(done)) => {
                self.phase = if done {
                    SpiPhase::Send
                } else {
                    SpiPhase::Finished(Err(SpiError::InvalidState))
                };
            },
            (SpiPhase::Send, SpiReply::Written) => {
                self.phase = SpiPhase::Start;
            },
            (SpiPhase::Start, SpiReply::Written) => {
                self.phase = SpiPhase::WaitDone;
            },
            (SpiPhase::WaitDone, SpiReply::Status(done)) => {
                if done {
                    if !matches!(self.mode, SpiMode::Write) {
                        self.phase = SpiPhase::Receive;
                    } else {
                        self.phase = self.word_phase(self.index + 1);
                        self.index = self.index + 1;
                    }
                }
            },
            (SpiPhase::Receive, SpiReply::Data(word)) => {
                let phase = self.word_phase(self.index + 1);
                let mut whole = SpiExchange::read(Vec::new(), 0);
                std::mem::swap(self, &mut whole);
                let SpiExchange { mode, word_len, outgoing, mut incoming, index, phase: _ } = whole;
                if index < incoming.len() {
                    incoming.set(index, word);
                }
                *self = SpiExchange { mode, word_len, outgoing, incoming, index: index + 1, phase };
            },
            _ => {},
        }
    }

    /// The receiving buffer.
    pub fn into_incoming(self) -> (words: Vec<u32>)
        ensures
            words@ == self@.incoming,
    {
        self.incoming
    }
}

} // verus!
