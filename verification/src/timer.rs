//! Driver logic for the LiteX timer core, used as a delay source.
use vstd::prelude::*;

verus! {

/// Whole nanoseconds in one period of a `sys_clk` Hz clock.
pub open spec fn nanos_per_clock(sys_clk: u32) -> nat {
    1_000_000_000nat / sys_clk as nat
}

/// Number of clock periods the timer is loaded with to wait `ns` nanoseconds: the number of
/// whole periods in `ns`, plus one to round up.
pub open spec fn delay_cycles(sys_clk: u32, ns: u32) -> nat {
    ns as nat / nanos_per_clock(sys_clk) + 1
}

/// The clock periods fit a nanosecond count: the clock runs at most at 1 GHz and the rounded
/// count fits the load register.
pub open spec fn delay_is_representable(sys_clk: u32, ns: u32) -> bool {
    &&& 0 < sys_clk <= 1_000_000_000
    &&& delay_cycles(sys_clk, ns) <= u32::MAX
}

/// Value loaded into the timer to wait `ns` nanoseconds with a `sys_clk` Hz system clock.
pub fn reload_value(sys_clk: u32, ns: u32) -> (value: u32)
    requires
        delay_is_representable(sys_clk, ns),
    ensures
        value == delay_cycles(sys_clk, ns),
{
    let nanos_per_clk: u32 = 1_000_000_000 / sys_clk;
    assert(nanos_per_clk >= 1) by (nonlinear_arith)
        requires
            nanos_per_clk == 1_000_000_000int / (sys_clk as int),
            0 < sys_clk <= 1_000_000_000,
    ;
    (ns / nanos_per_clk) + 1
}

/// Whether a delay of `ns` nanoseconds can be set up with a `sys_clk` Hz clock: a clock of
/// zero Hz, or faster than 1 GHz, has no whole nanoseconds per period to divide by, and the
/// rounded count must fit the load register.
pub fn delay_fits(sys_clk: u32, ns: u32) -> (ok: bool)
    ensures
        ok == delay_is_representable(sys_clk, ns),
{
    if sys_clk == 0 || sys_clk > 1_000_000_000 {
        return false;
    }
    let nanos_per_clk: u32 = 1_000_000_000 / sys_clk;
    assert(nanos_per_clk >= 1) by (nonlinear_arith)
        requires
            nanos_per_clk == 1_000_000_000int / (sys_clk as int),
            0 < sys_clk <= 1_000_000_000,
    ;
    ns / nanos_per_clk < u32::MAX
}

/// The timer is loaded with enough periods: they last longer than `ns` nanoseconds, and no
/// more than one period of whole nanoseconds longer.
pub proof fn lemma_delay_is_long_enough(sys_clk: u32, ns: u32)
    requires
        0 < sys_clk <= 1_000_000_000,
    ensures
        delay_cycles(sys_clk, ns) * 1_000_000_000 > ns * sys_clk,
        delay_cycles(sys_clk, ns) * nanos_per_clock(sys_clk) > ns,
        (delay_cycles(sys_clk, ns) - 1) * nanos_per_clock(sys_clk) <= ns,
{
    let c = sys_clk as int;
    let p = nanos_per_clock(sys_clk) as int;
    let v = delay_cycles(sys_clk, ns) as int;
    let n = ns as int;
    assert(p * c <= 1_000_000_000 && p >= 1) by (nonlinear_arith)
        requires
            p == 1_000_000_000int / c,
            0 < c <= 1_000_000_000,
    ;
    assert(v * p > n && (v - 1) * p <= n) by (nonlinear_arith)
        requires
            v == n / p + 1,
            p >= 1,
            n >= 0,
    ;
    assert(v * 1_000_000_000 > n * c) by (nonlinear_arith)
        requires
            v * p > n,
            p * c <= 1_000_000_000,
            c > 0,
            v >= 1,
            p >= 1,
    ;
}

/// A register access a delay asks for.
#[derive(Debug, Copy, Clone, PartialEq, Eq)]
pub enum TimerAction {
    /// Write `en`.
    WriteEnable(bool),
    /// Write `reload`.
    WriteReload(u32),
    /// Write `load`.
    WriteLoad(u32),
    /// Write `1` to `update_value`, latching the counter into `value`.
    RequestUpdate,
    /// Read `value` and answer with [`TimerReply::Value`].
    ReadValue,
    /// The delay is over.
    Done,
}

/// What the register access asked for gave.
#[derive(Debug, Copy, Clone, PartialEq, Eq)]
pub enum TimerReply {
    /// A write was carried out.
    Written,
    /// The value of `value`.
    Value(u32),
}

/// Where a delay stands.
#[derive(Debug, Copy, Clone, PartialEq, Eq)]
pub enum TimerPhase {
    Disable,
    ClearReload,
    Load,
    Enable,
    Update,
    Poll,
    Finished,
}

/// What a delay is: the value the countdown starts from, and where it stands.
pub struct DelayView {
    pub load: u32,
    pub phase: TimerPhase,
}

impl DelayView {
    /// The register access the delay asks for next.
    pub open spec fn pending(self) -> TimerAction {
        match self.phase {
            TimerPhase::Disable => TimerAction::WriteEnable(false),
            TimerPhase::ClearReload => TimerAction::WriteReload(0),
            TimerPhase::Load => TimerAction::WriteLoad(self.load),
            TimerPhase::Enable => TimerAction::WriteEnable(true),
            TimerPhase::Update => TimerAction::RequestUpdate,
            TimerPhase::Poll => TimerAction::ReadValue,
            TimerPhase::Finished => TimerAction::Done,
        }
    }

    /// How the delay moves on when its pending register access gave `reply`. A reply of the
    /// wrong kind leaves it where it is.
    pub open spec fn next(self, reply: TimerReply) -> Self {
        DelayView {
            phase: match (self.phase, reply) {
                (TimerPhase::Disable, TimerReply::Written) => TimerPhase::ClearReload,
                (TimerPhase::ClearReload, TimerReply::Written) => TimerPhase::Load,
                (TimerPhase::Load, TimerReply::Written) => TimerPhase::Enable,
                (TimerPhase::Enable, TimerReply::Written) => TimerPhase::Update,
                (TimerPhase::Update, TimerReply::Written) => TimerPhase::Poll,
                (TimerPhase::Poll, TimerReply::Value(v)) => if v > 0 {
                    TimerPhase::Update
                } else {
                    TimerPhase::Finished
                },
                _ => self.phase,
            },
            ..self
        }
    }
}

/// Reply of a timer whose `value` register reads `counts[reads]` at the read numbered `reads`
/// (counting from zero); writes are carried out.
pub open spec fn counter_reply(v: DelayView, counts: Seq<u32>, reads: nat) -> TimerReply {
    match v.pending() {
        TimerAction::ReadValue => TimerReply::Value(counts[reads as int]),
        _ => TimerReply::Written,
    }
}

/// Number of reads of `value` done once the pending access of `v` is done, `reads` before it.
pub open spec fn reads_after(v: DelayView, reads: nat) -> nat {
    if v.pending() == TimerAction::ReadValue {
        reads + 1
    } else {
        reads
    }
}

/// The delay after `steps` register accesses against a timer whose `value` reads `counts` in
/// turn, `reads` of them already done.
pub open spec fn run_counter(v: DelayView, counts: Seq<u32>, reads: nat, steps: nat) -> DelayView
    decreases steps,
{
    if steps == 0 {
        v
    } else {
        run_counter(
            v.next(counter_reply(v, counts, reads)),
            counts,
            reads_after(v, reads),
            (steps - 1) as nat,
        )
    }
}

/// The first `steps` register accesses of the delay against a timer whose `value` reads
/// `counts` in turn, `reads` of them already done.
pub open spec fn accesses_counter(v: DelayView, counts: Seq<u32>, reads: nat, steps: nat) -> Seq<
    TimerAction,
>
    decreases steps,
{
    if steps == 0 {
        Seq::empty()
    } else {
        seq![v.pending()] + accesses_counter(
            v.next(counter_reply(v, counts, reads)),
            counts,
            reads_after(v, reads),
            (steps - 1) as nat,
        )
    }
}

/// `n` polls of the counter: each latches the counter, then reads it.
pub open spec fn poll_accesses(n: nat) -> Seq<TimerAction>
    decreases n,
{
    if n == 0 {
        Seq::empty()
    } else {
        seq![TimerAction::RequestUpdate, TimerAction::ReadValue] + poll_accesses((n - 1) as nat)
    }
}

proof fn lemma_polls(v: DelayView, counts: Seq<u32>, m: nat, z: nat)
    requires
        v.phase == TimerPhase::Update,
        m <= z < counts.len(),
        forall|q: int| m <= q < z ==> counts[q] > 0,
        counts[z as int] == 0,
    ensures
        accesses_counter(v, counts, m, (2 * (z - m + 1)) as nat) == poll_accesses(
            (z - m + 1) as nat,
        ),
        run_counter(v, counts, m, (2 * (z - m + 1)) as nat).phase == TimerPhase::Finished,
    decreases z - m,
{
    reveal_with_fuel(accesses_counter, 3);
    reveal_with_fuel(run_counter, 3);
    reveal_with_fuel(poll_accesses, 2);
    let v1 = v.next(counter_reply(v, counts, m));
    let v2 = v1.next(counter_reply(v1, counts, m));
    assert(v1.phase == TimerPhase::Poll);
    if m == z {
        assert(v2.phase == TimerPhase::Finished);
        assert(accesses_counter(v, counts, m, 2) =~= poll_accesses(1));
    } else {
        assert(counts[m as int] > 0);
        assert(v2 == v);
        lemma_polls(v, counts, m + 1, z);
        let rest = (2 * (z - (m + 1) + 1)) as nat;
        assert((2 * (z - m + 1)) as nat == rest + 2);
        assert(accesses_counter(v, counts, m, rest + 2) =~= seq![
            TimerAction::RequestUpdate,
            TimerAction::ReadValue,
        ] + accesses_counter(v, counts, m + 1, rest));
        assert(run_counter(v, counts, m, rest + 2) == run_counter(v, counts, m + 1, rest));
    }
}

/// A delay stops the timer, clears the reload value, loads the countdown, starts the timer,
/// and then latches and reads the counter until it reads zero: against a timer whose counter
/// reads `counts` in turn, first zero at read number `z`, these are exactly its register
/// accesses, after which it is over.
pub proof fn lemma_delay_polls_until_zero(load: u32, counts: Seq<u32>, z: nat)
    requires
        z < counts.len(),
        forall|q: int| 0 <= q < z ==> counts[q] > 0,
        counts[z as int] == 0,
    ensures
        ({
            let v = DelayView { load, phase: TimerPhase::Disable };
            let steps = 4 + 2 * (z + 1);
            &&& accesses_counter(v, counts, 0, steps as nat) == seq![
                TimerAction::WriteEnable(false),
                TimerAction::WriteReload(0),
                TimerAction::WriteLoad(load),
                TimerAction::WriteEnable(true),
            ] + poll_accesses(z + 1)
            &&& run_counter(v, counts, 0, steps as nat).pending() == TimerAction::Done
        }),
{
    let v = DelayView { load, phase: TimerPhase::Disable };
    let u = DelayView { load, phase: TimerPhase::Update };
    lemma_polls(u, counts, 0, z);
    let polls = (2 * (z + 1)) as nat;
    assert((2 * (z - 0 + 1)) as nat == polls);
    reveal_with_fuel(accesses_counter, 5);
    reveal_with_fuel(run_counter, 5);
    assert(accesses_counter(v, counts, 0, 4 + polls) =~= seq![
        TimerAction::WriteEnable(false),
        TimerAction::WriteReload(0),
        TimerAction::WriteLoad(load),
        TimerAction::WriteEnable(true),
    ] + accesses_counter(u, counts, 0, polls));
    assert(run_counter(v, counts, 0, 4 + polls) == run_counter(u, counts, 0, polls));
}

/// One delay on a LiteX timer: a one-shot countdown from the computed value, polled until it
/// reaches zero.
pub struct Delay {
    load: u32,
    phase: TimerPhase,
}

impl View for Delay {
    type V = DelayView;

    closed spec fn view(&self) -> DelayView {
        DelayView { load: self.load, phase: self.phase }
    }
}

impl Delay {
    /// Starts a delay of at least `ns` nanoseconds with a `sys_clk` Hz system clock.
    pub fn new(sys_clk: u32, ns: u32) -> (d: Self)
        requires
            delay_is_representable(sys_clk, ns),
        ensures
            d@ == (DelayView { load: delay_cycles(sys_clk, ns) as u32, phase: TimerPhase::Disable }),
    {
        Delay { load: reload_value(sys_clk, ns), phase: TimerPhase::Disable }
    }

    /// The register access the delay asks for next.
    pub fn action(&self) -> (a: TimerAction)
        ensures
            a == self@.pending(),
    {
        match self.phase {
            TimerPhase::Disable => TimerAction::WriteEnable(false),
            TimerPhase::ClearReload => TimerAction::WriteReload(0),
            TimerPhase::Load => TimerAction::WriteLoad(self.load),
            TimerPhase::Enable => TimerAction::WriteEnable(true),
            TimerPhase::Update => TimerAction::RequestUpdate,
            TimerPhase::Poll => TimerAction::ReadValue,
            TimerPhase::Finished => TimerAction::Done,
        }
    }

    /// Moves the delay on with what the pending register access gave.
    pub fn advance(&mut self, reply: TimerReply)
        ensures
            final(self)@ == old(self)@.next(reply),
    {
        self.phase = match (self.phase, reply) {
            (TimerPhase::Disable, TimerReply::Written) => TimerPhase::ClearReload,
            (TimerPhase::ClearReload, TimerReply::Written) => TimerPhase::Load,
            (TimerPhase::Load, TimerReply::Written) => TimerPhase::Enable,
            (TimerPhase::Enable, TimerReply::Written) => TimerPhase::Update,
            (TimerPhase::Update, TimerReply::Written) => TimerPhase::Poll,
            (TimerPhase::Poll, TimerReply::Value(v)) => if v > 0 {
                TimerPhase::Update
            } else {
                TimerPhase::Finished
            },
            (p, _) => p,
        };
    }
}

} // verus!
