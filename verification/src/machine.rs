//! The statechart machine: a chart, its control state, its event queue and
//! its journal, driven one step at a time.

use vstd::prelude::*;
use core::time::Duration;
use crate::chart::Chart;
use crate::duration::{duration_nanos, duration_new};
use crate::error::HsmcError;
use crate::journal::{JournalSink, TraceEvent};
use crate::plan::{ctl_ok, plan_step, Control};
use crate::queue::{spec_bounded_push, EventQueue};
use crate::semantics::{chart_wf, spec_step, Cfg, ChartModel, Op};
use crate::timers::{spec_min_remaining, spec_split_nanos, TimerTable, NANOS_LIMIT};

verus! {

/// The journal entry that stands for one planned atom.
pub open spec fn op_atom(op: Op) -> TraceEvent {
    match op {
        Op::Note(e) => e,
        Op::Act { state, action, kind, .. } => TraceEvent::ActionInvoked { state, action, kind },
    }
}

/// A journal entry written by `emit()`.
pub open spec fn is_emit_record(e: TraceEvent) -> bool {
    e is EmitQueued || e is EmitFailed
}

/// Every entry is an `emit()` record.
pub open spec fn emit_records(r: Seq<TraceEvent>) -> bool {
    forall|i: int| 0 <= i < r.len() ==> is_emit_record(#[trigger] r[i])
}

/// The event indices of the `EmitQueued` entries of `r`, in order.
pub open spec fn queued_ids(r: Seq<TraceEvent>) -> Seq<u16>
    decreases r.len(),
{
    if r.len() == 0 {
        Seq::empty()
    } else {
        queued_ids(r.drop_last()) + match r.last() {
            TraceEvent::EmitQueued { event } => seq![event],
            _ => Seq::empty(),
        }
    }
}

/// Some entry of `r` is an `EmitFailed`.
pub open spec fn any_failed(r: Seq<TraceEvent>) -> bool {
    exists|i: int| 0 <= i < r.len() && (#[trigger] r[i]) is EmitFailed
}

/// The lists of `recs`, one after the other.
pub open spec fn flat(recs: Seq<Seq<TraceEvent>>) -> Seq<TraceEvent>
    decreases recs.len(),
{
    if recs.len() == 0 {
        Seq::empty()
    } else {
        flat(recs.drop_last()) + recs.last()
    }
}

/// The event indices of queued `(index, event)` pairs.
pub open spec fn ids_of<E>(q: Seq<(u16, E)>) -> Seq<u16> {
    q.map_values(|p: (u16, E)| p.0)
}

proof fn lemma_queued_ids_add(a: Seq<TraceEvent>, b: Seq<TraceEvent>)
    ensures
        queued_ids(a + b) == queued_ids(a) + queued_ids(b),
    decreases b.len(),
{
    if b.len() == 0 {
        assert(a + b =~= a);
        assert(queued_ids(a) + queued_ids(b) =~= queued_ids(a));
    } else {
        assert((a + b).drop_last() =~= a + b.drop_last());
        lemma_queued_ids_add(a, b.drop_last());
        assert((a + b).last() == b.last());
        assert(queued_ids(a + b) =~= queued_ids(a) + queued_ids(b));
    }
}

proof fn lemma_any_failed_add(a: Seq<TraceEvent>, b: Seq<TraceEvent>)
    ensures
        any_failed(a + b) == (any_failed(a) || any_failed(b)),
{
    if any_failed(a + b) {
        let i = choose|i: int| 0 <= i < (a + b).len() && ((#[trigger] (a + b)[i]) is EmitFailed);
        if i < a.len() {
            assert(a[i] == (a + b)[i]);
        } else {
            assert(b[i - a.len()] == (a + b)[i]);
        }
    }
    if any_failed(a) {
        let i = choose|i: int| 0 <= i < a.len() && ((#[trigger] a[i]) is EmitFailed);
        assert((a + b)[i] == a[i]);
    }
    if any_failed(b) {
        let i = choose|i: int| 0 <= i < b.len() && ((#[trigger] b[i]) is EmitFailed);
        assert((a + b)[a.len() + i] == b[i]);
    }
}

proof fn lemma_flat_push(recs: Seq<Seq<TraceEvent>>, x: Seq<TraceEvent>)
    ensures
        flat(recs.push(x)) == flat(recs) + x,
{
    assert(recs.push(x).drop_last() =~= recs);
}

proof fn lemma_emitted_by_add<E>(a: Seq<ActionCall<E>>, b: Seq<ActionCall<E>>)
    ensures
        emitted_by(a + b) == emitted_by(a) + emitted_by(b),
    decreases b.len(),
{
    if b.len() == 0 {
        assert(a + b =~= a);
        assert(emitted_by(a) + emitted_by(b) =~= emitted_by(a));
    } else {
        assert((a + b).drop_last() =~= a + b.drop_last());
        lemma_emitted_by_add(a, b.drop_last());
        assert((a + b).last() == b.last());
        assert(emitted_by(a + b) =~= emitted_by(a) + emitted_by(b));
    }
}

/// The journal that running `ops` writes when the action at position `i`
/// records `recs[i]` through `emit()`.
pub open spec fn render(ops: Seq<Op>, recs: Seq<Seq<TraceEvent>>) -> Seq<TraceEvent>
    decreases ops.len(),
{
    if ops.len() == 0 {
        Seq::empty()
    } else {
        render(ops.drop_last(), recs.drop_last()) + seq![op_atom(ops.last())] + recs.last()
    }
}

/// `recs` are possible `emit()` records of `ops`: one list per atom, empty
/// for journal notes, made only of `EmitQueued` / `EmitFailed` for actions.
pub open spec fn valid_records(ops: Seq<Op>, recs: Seq<Seq<TraceEvent>>) -> bool {
    &&& recs.len() == ops.len()
    &&& forall|i: int| 0 <= i < ops.len() ==> emit_records(#[trigger] recs[i])
    &&& forall|i: int| 0 <= i < ops.len() ==> ((#[trigger] ops[i]) is Note ==> recs[i].len() == 0)
}

/// `b` is a prefix of `a`.
pub open spec fn is_prefix<T>(b: Seq<T>, a: Seq<T>) -> bool {
    b.len() <= a.len() && a.take(b.len() as int) == b
}

/// The index of the front event of a queue of `(index, event)` pairs.
pub open spec fn front_of<E>(q: Seq<(u16, E)>) -> Option<u16> {
    if q.len() > 0 {
        Some(q[0].0)
    } else {
        None
    }
}

/// `r` is the duration `TimerTable::min_remaining` reports for `m`.
pub open spec fn duration_matches(r: Option<Duration>, m: Option<u128>) -> bool {
    match m {
        None => r is None,
        Some(x) => r is Some && duration_nanos(r->0) == spec_split_nanos(x) && (x < NANOS_LIMIT ==> duration_nanos(r->0) == x),
    }
}

/// Collects what an action emits while it runs. The queue has `cap` free
/// slots at the start of the action; once one emit is refused every later
/// emit is refused too (the overflow flag stays set). Each accepted emit is
/// recorded as `EmitQueued`, each refused one as `EmitFailed`. While the
/// machine shuts down (`closing`), every emit is refused with
/// `AlreadyTerminated` and nothing is recorded.
pub struct EmitSink<E> {
    cap: usize,
    start_overflow: bool,
    closing: bool,
    free: usize,
    overflow: bool,
    events: Vec<(u16, E)>,
    records: Vec<TraceEvent>,
}

impl<E> EmitSink<E> {
    #[verifier::type_invariant]
    closed spec fn inv(self) -> bool {
        &&& emit_records(self.records@)
        &&& ids_of(self.events@) == queued_ids(self.records@)
        &&& self.events@.len() + self.free == self.cap
        &&& self.overflow == (self.start_overflow || any_failed(self.records@))
        &&& self.closing ==> self.events@.len() == 0 && self.records@.len() == 0
    }

    pub closed spec fn cap_spec(&self) -> nat {
        self.cap as nat
    }

    pub closed spec fn start_overflow_spec(&self) -> bool {
        self.start_overflow
    }

    pub closed spec fn closing_spec(&self) -> bool {
        self.closing
    }

    pub closed spec fn free_spec(&self) -> nat {
        self.free as nat
    }

    pub closed spec fn overflow_spec(&self) -> bool {
        self.overflow
    }

    pub closed spec fn events_spec(&self) -> Seq<(u16, E)> {
        self.events@
    }

    pub closed spec fn records_spec(&self) -> Seq<TraceEvent> {
        self.records@
    }

    fn new(free: usize, overflow: bool, closing: bool) -> (r: Self)
        ensures
            r.cap_spec() == free,
            r.start_overflow_spec() == overflow,
            r.closing_spec() == closing,
            r.free_spec() == free,
            r.overflow_spec() == overflow,
            r.events_spec().len() == 0,
            r.records_spec().len() == 0,
    {
        let events: Vec<(u16, E)> = Vec::new();
        let records: Vec<TraceEvent> = Vec::new();
        proof {
            assert(ids_of(events@) =~= queued_ids(records@));
        }
        EmitSink { cap: free, start_overflow: overflow, closing, free, overflow, events, records }
    }

    /// Push `event` (whose chart event index is `event_id`) into the queue
    /// after the current step's handling. Refused with `AlreadyTerminated`
    /// while the machine shuts down, with nothing journaled; otherwise
    /// refused with `QueueFull` once the queue is full. Every other emit is
    /// journaled as `EmitQueued` or `EmitFailed`.
    pub fn emit(&mut self, event_id: u16, event: E) -> (r: Result<(), HsmcError>)
        ensures
            final(self).cap_spec() == old(self).cap_spec(),
            final(self).start_overflow_spec() == old(self).start_overflow_spec(),
            final(self).closing_spec() == old(self).closing_spec(),
            old(self).closing_spec() ==> {
                &&& r == Err::<(), HsmcError>(HsmcError::AlreadyTerminated)
                &&& final(self).overflow_spec() == old(self).overflow_spec()
                &&& final(self).free_spec() == old(self).free_spec()
                &&& final(self).events_spec() == old(self).events_spec()
                &&& final(self).records_spec() == old(self).records_spec()
            },
            !old(self).closing_spec() && (old(self).overflow_spec() || old(self).free_spec() == 0) ==> {
                &&& r == Err::<(), HsmcError>(HsmcError::QueueFull)
                &&& final(self).overflow_spec()
                &&& final(self).free_spec() == old(self).free_spec()
                &&& final(self).events_spec() == old(self).events_spec()
                &&& final(self).records_spec() == old(self).records_spec().push(TraceEvent::EmitFailed { event: event_id })
            },
            !old(self).closing_spec() && !(old(self).overflow_spec() || old(self).free_spec() == 0) ==> {
                &&& r == Ok::<(), HsmcError>(())
                &&& final(self).overflow_spec() == old(self).overflow_spec()
                &&& final(self).free_spec() + 1 == old(self).free_spec()
                &&& final(self).events_spec() == old(self).events_spec().push((event_id, event))
                &&& final(self).records_spec() == old(self).records_spec().push(TraceEvent::EmitQueued { event: event_id })
            },
    {
        if self.closing {
            return Err(HsmcError::AlreadyTerminated);
        }
        let mut cur: EmitSink<E> = EmitSink::new(0, false, false);
        std::mem::swap(&mut cur, self);
        proof {
            use_type_invariant(&cur);
        }
        let EmitSink { cap, start_overflow, closing, free, overflow, mut events, mut records } = cur;
        let ghost r0 = records@;
        let ghost e0 = events@;
        if overflow || free == 0 {
            let x = TraceEvent::EmitFailed { event: event_id };
            records.push(x);
            proof {
                assert(records@.drop_last() =~= r0);
                assert(records@[r0.len() as int] is EmitFailed);
                assert forall|i: int| 0 <= i < records@.len() implies is_emit_record(#[trigger] records@[i]) by {
                    if i < r0.len() {
                        assert(records@[i] == r0[i]);
                    }
                }
            }
            *self = EmitSink { cap, start_overflow, closing, free, overflow: true, events, records };
            return Err(HsmcError::QueueFull);
        }
        events.push((event_id, event));
        records.push(TraceEvent::EmitQueued { event: event_id });
        proof {
            assert(records@.drop_last() =~= r0);
            assert(ids_of(events@) =~= ids_of(e0).push(event_id));
            assert(records@.last() == TraceEvent::EmitQueued { event: event_id });
            assert(queued_ids(records@) =~= queued_ids(r0) + seq![event_id]);
            assert(ids_of(e0).push(event_id) =~= queued_ids(r0) + seq![event_id]);
            assert(records@[r0.len() as int] == TraceEvent::EmitQueued { event: event_id });
            assert forall|i: int| 0 <= i < records@.len() implies is_emit_record(#[trigger] records@[i]) by {
                if i < r0.len() {
                    assert(records@[i] == r0[i]);
                }
            }
            if any_failed(records@) {
                let i = choose|i: int| 0 <= i < records@.len() && ((#[trigger] records@[i]) is EmitFailed);
                assert(i < r0.len());
                assert(records@[i] == r0[i]);
            }
            if any_failed(r0) {
                let i = choose|i: int| 0 <= i < r0.len() && ((#[trigger] r0[i]) is EmitFailed);
                assert(records@[i] == r0[i]);
            }
        }
        *self = EmitSink { cap, start_overflow, closing, free: free - 1, overflow, events, records };
        Ok(())
    }

    fn into_parts(self) -> (r: (usize, bool, usize, bool, Vec<(u16, E)>, Vec<TraceEvent>))
        ensures
            self.closing_spec() ==> r.4@.len() == 0 && r.5@.len() == 0,
            r.0 == self.cap_spec(),
            r.1 == self.start_overflow_spec(),
            r.2 == self.free_spec(),
            r.3 == self.overflow_spec(),
            r.4@ == self.events_spec(),
            r.5@ == self.records_spec(),
            emit_records(r.5@),
            ids_of(r.4@) == queued_ids(r.5@),
            r.4@.len() + r.2 == r.0,
            r.3 == (r.1 || any_failed(r.5@)),
    {
        proof {
            use_type_invariant(&self);
        }
        let EmitSink { cap, start_overflow, closing, free, overflow, events, records } = self;
        (cap, start_overflow, free, overflow, events, records)
    }
}

/// A step in progress: its planned atoms, how many of them have run, the
/// event the step took from the queue (if any), and whether the step shuts
/// the machine down.
pub struct StepRun<E> {
    ops: Vec<Op>,
    pos: usize,
    event: Option<E>,
    closing: bool,
}

impl<E> StepRun<E> {
    pub closed spec fn ops_spec(&self) -> Seq<Op> {
        self.ops@
    }

    pub closed spec fn pos_spec(&self) -> nat {
        self.pos as nat
    }

    pub closed spec fn event_spec(&self) -> Option<E> {
        self.event
    }

    pub closed spec fn closing_spec(&self) -> bool {
        self.closing
    }

    /// The number of planned atoms.
    pub fn len(&self) -> (r: usize)
        ensures
            r == self.ops_spec().len(),
    {
        self.ops.len()
    }

    /// The event the step took from the queue, if any.
    pub fn event(&self) -> (r: Option<&E>)
        ensures
            given(r) == self.event_spec(),
    {
        match &self.event {
            Some(e) => Some(e),
            None => None,
        }
    }

    /// True when the step shuts the machine down.
    pub fn is_closing(&self) -> (r: bool)
        ensures
            r == self.closing_spec(),
    {
        self.closing
    }
}

/// What running the next planned atom of a step asks of the driver.
pub enum Next {
    /// Every atom has run.
    Done,
    /// A journal note was written.
    Noted,
    /// Run this action (with the step's event when `with_event`), then hand
    /// its sink back with `close_action`.
    Act { action: u16, with_event: bool },
}

/// The event an action is handed, as a value.
pub open spec fn given<E>(event: Option<&E>) -> Option<E> {
    match event {
        Some(e) => Some(*e),
        None => None,
    }
}

/// One action call as the `Actions` record keeps it: the action index, the
/// event it was handed, the `(index, event)` pairs it emitted, in order, and
/// whether it ran while the machine shut down (when every emit is refused
/// with `AlreadyTerminated`).
pub struct ActionCall<E> {
    pub action: u16,
    pub event: Option<E>,
    pub emitted: Seq<(u16, E)>,
    pub closing: bool,
}

/// The action bodies of a chart, provided by its user. `action` is the
/// chart's action index; `event` is the event being dispatched when the
/// action is an event handler.
pub trait Actions<E> {
    /// Whether this impl keeps the record of its calls (`calls`). Only an
    /// impl that Verus checks can claim it; by default it is not claimed,
    /// and nothing is promised of the record.
    open spec fn keeps_calls() -> bool {
        false
    }

    /// The calls made so far, oldest first, for an impl that keeps them.
    open spec fn calls(&self) -> Seq<ActionCall<E>> {
        Seq::empty()
    }

    /// Run action `action`. For an impl that keeps its record, the call is
    /// added to it with the event it was handed and what it emitted through
    /// `sink`. For every impl, the sink's limits stay as they were: its
    /// fields are private and `emit` is the only method that changes it.
    fn run_action(&mut self, action: u16, event: Option<&E>, sink: &mut EmitSink<E>)
        ensures
            Self::keeps_calls() ==> final(self).calls() == old(self).calls().push(
                ActionCall {
                    action,
                    event: given(event),
                    emitted: final(sink).events_spec().skip(old(sink).events_spec().len() as int),
                    closing: old(sink).closing_spec(),
                },
            ),
            final(sink).cap_spec() == old(sink).cap_spec(),
            final(sink).start_overflow_spec() == old(sink).start_overflow_spec(),
            final(sink).closing_spec() == old(sink).closing_spec(),
    ;
}

/// The action calls that running `ops` makes when the step handles `event`:
/// each `Act` in order, handed the event exactly when it is an event handler.
pub open spec fn acts_of<E>(ops: Seq<Op>, event: Option<E>) -> Seq<(u16, Option<E>)>
    decreases ops.len(),
{
    if ops.len() == 0 {
        Seq::empty()
    } else {
        acts_of(ops.drop_last(), event) + match ops.last() {
            Op::Act { action, with_event, .. } => seq![(action, if with_event { event } else { None })],
            Op::Note(_) => Seq::empty(),
        }
    }
}

/// The action index and event of each recorded call.
pub open spec fn call_heads<E>(c: Seq<ActionCall<E>>) -> Seq<(u16, Option<E>)> {
    c.map_values(|x: ActionCall<E>| (x.action, x.event))
}

/// What the recorded calls emitted, one call after the other.
pub open spec fn emitted_by<E>(c: Seq<ActionCall<E>>) -> Seq<(u16, E)>
    decreases c.len(),
{
    if c.len() == 0 {
        Seq::empty()
    } else {
        emitted_by(c.drop_last()) + c.last().emitted
    }
}

/// A running statechart with an event queue of capacity `QN` and a timer
/// table of capacity `TN`.
pub struct Machine<E, const QN: usize, const TN: usize> {
    chart: Chart,
    ctl: Control<TN>,
    queue: EventQueue<(u16, E), QN>,
    terminated: bool,
    overflow: bool,
    journal: JournalSink,
}

/// What one step does: `m1` and `a1` are the machine and the actions after
/// `m0` took a step of `ns` nanoseconds with the actions `a0`, returning `r`
/// (see `Machine::step`).
pub open spec fn stepped<E, A: Actions<E>, const QN: usize, const TN: usize>(
    m0: Machine<E, QN, TN>,
    m1: Machine<E, QN, TN>,
    a0: A,
    a1: A,
    ns: u128,
    r: Option<Duration>,
) -> bool {
    &&& m1.chart_spec() == m0.chart_spec()
    &&& (m0.terminated_spec() ==> {
                &&& r is None
                &&& a1.calls() == a0.calls()
                &&& m1.cfg_spec() == m0.cfg_spec()
                &&& m1.queue_spec() == m0.queue_spec()
                &&& m1.journal_spec() == m0.journal_spec()
                &&& m1.terminated_spec()
                &&& m1.overflow_spec() == m0.overflow_spec()
            })
    &&& (!m0.terminated_spec() ==> ({
                let sm = spec_step(
                    m0.chart_spec(),
                    TN as nat,
                    m0.cfg_spec(),
                    front_of(m0.queue_spec()),
                    ns,
                );
                let rest = if sm.consumed { m0.queue_spec().drop_first() } else { m0.queue_spec() };
                let handled = if sm.consumed { Some(m0.queue_spec()[0].1) } else { None };
                let made = a1.calls().skip(a0.calls().len() as int);
                &&& A::keeps_calls() ==> {
                    &&& is_prefix(a0.calls(), a1.calls())
                    &&& call_heads(made) == acts_of(sm.ops, handled)
                    &&& forall|k: int| 0 <= k < made.len() ==> (#[trigger] made[k]).closing == sm.terminates
                    &&& !sm.terminates ==> m1.queue_spec() == rest + emitted_by(made)
                }
                &&& m1.cfg_spec().current == sm.cfg.current
                &&& m1.cfg_spec().timers == sm.cfg.timers
                &&& m1.terminated_spec() == sm.terminates
                &&& exists|recs: Seq<Seq<TraceEvent>>| {
                    &&& valid_records(sm.ops, recs)
                    &&& m1.journal_spec() == m0.journal_spec() + render(sm.ops, recs)
                    &&& m1.overflow_spec() == (m0.overflow_spec() || any_failed(flat(recs)))
                    &&& !sm.terminates ==> ids_of(m1.queue_spec().skip(rest.len() as int))
                        == queued_ids(flat(recs))
                    &&& sm.terminates ==> flat(recs).len() == 0
                }
                &&& sm.terminates ==> m1.queue_spec().len() == 0 && r is None
                &&& !sm.terminates ==> is_prefix(rest, m1.queue_spec())
                    && duration_matches(r, spec_min_remaining(sm.cfg.timers))
            }))
}

/// `m1` is `m0` with at most its overflow flag changed.
pub open spec fn same_but_overflow<E, const QN: usize, const TN: usize>(m0: Machine<E, QN, TN>, m1: Machine<E, QN, TN>) -> bool {
    &&& m1.chart_spec() == m0.chart_spec()
    &&& m1.cfg_spec() == m0.cfg_spec()
    &&& m1.queue_spec() == m0.queue_spec()
    &&& m1.journal_spec() == m0.journal_spec()
    &&& m1.terminated_spec() == m0.terminated_spec()
}

/// What a driver that drains the queue does after a step that left `m`:
/// report `QueueFull` if an emit was refused, else go on while the machine
/// runs and events are queued.
pub open spec fn drain_outcome<E, const QN: usize, const TN: usize>(m: Machine<E, QN, TN>) -> Result<bool, HsmcError> {
    if m.overflow_spec() {
        Err(HsmcError::QueueFull)
    } else {
        Ok(!m.terminated_spec() && m.queue_spec().len() > 0)
    }
}

/// `m1` is `m0` with at most its queue changed.
pub open spec fn same_but_queue<E, const QN: usize, const TN: usize>(m0: Machine<E, QN, TN>, m1: Machine<E, QN, TN>) -> bool {
    &&& m1.chart_spec() == m0.chart_spec()
    &&& m1.cfg_spec() == m0.cfg_spec()
    &&& m1.journal_spec() == m0.journal_spec()
    &&& m1.terminated_spec() == m0.terminated_spec()
    &&& m1.overflow_spec() == m0.overflow_spec()
}

impl<E, const QN: usize, const TN: usize> Machine<E, QN, TN> {
    /// The machine's invariant: a well-formed chart, a control state that
    /// refers only to the chart's states and timers, a queue within its
    /// capacity, and nothing active once terminated.
    pub closed spec fn wf(&self) -> bool {
        &&& chart_wf(self.chart@)
        &&& ctl_ok(self.chart@, self.ctl.cfg())
        &&& self.queue@.len() <= QN
        &&& self.terminated ==> self.ctl.current is None
    }

    pub closed spec fn chart_spec(&self) -> ChartModel {
        self.chart@
    }

    pub closed spec fn cfg_spec(&self) -> Cfg {
        self.ctl.cfg()
    }

    pub closed spec fn queue_spec(&self) -> Seq<(u16, E)> {
        self.queue@
    }

    pub closed spec fn journal_spec(&self) -> Seq<TraceEvent> {
        self.journal@
    }

    pub closed spec fn terminated_spec(&self) -> bool {
        self.terminated
    }

    pub closed spec fn overflow_spec(&self) -> bool {
        self.overflow
    }

    /// A machine that has not started: nothing active, no timer, nothing
    /// queued or journaled.
    pub fn new(chart: Chart) -> (r: Self)
        ensures
            r.wf(),
            r.chart_spec() == chart@,
            r.cfg_spec().current is None,
            r.cfg_spec().timers.len() == 0,
            r.queue_spec().len() == 0,
            r.journal_spec().len() == 0,
            !r.terminated_spec(),
            !r.overflow_spec(),
    {
        chart.valid();
        Machine {
            chart,
            ctl: Control { current: None, timers: TimerTable::new() },
            queue: EventQueue::new(),
            terminated: false,
            overflow: false,
            journal: JournalSink::new(),
        }
    }

    /// Queue an event (with its chart event index) for a later step.
    pub fn send(&mut self, event_id: u16, event: E) -> (r: Result<(), HsmcError>)
        requires
            old(self).wf(),
        ensures
            final(self).wf(),
            old(self).terminated_spec() ==> r == Err::<(), HsmcError>(HsmcError::AlreadyTerminated)
                && final(self).queue_spec() == old(self).queue_spec(),
            !old(self).terminated_spec() ==> (final(self).queue_spec(), r) == spec_bounded_push(old(self).queue_spec(), QN as nat, (event_id, event)),
            final(self).cfg_spec() == old(self).cfg_spec(),
            final(self).chart_spec() == old(self).chart_spec(),
            final(self).journal_spec() == old(self).journal_spec(),
            final(self).terminated_spec() == old(self).terminated_spec(),
            final(self).overflow_spec() == old(self).overflow_spec(),
    {
        if self.terminated {
            return Err(HsmcError::AlreadyTerminated);
        }
        self.queue.push((event_id, event))
    }

    /// One round of draining the queue: a step with no time elapsed, then
    /// `Err(QueueFull)` if an emit was refused (the flag is taken, so it is
    /// reported once), else whether to step again: the machine still runs
    /// and events are queued.
    pub fn drain_step<A: Actions<E>>(&mut self, actions: &mut A) -> (r: Result<bool, HsmcError>)
        requires
            old(self).wf(),
        ensures
            final(self).wf(),
            !final(self).overflow_spec(),
            exists|m: Self, d: Option<Duration>| {
                &&& stepped(*old(self), m, *old(actions), *final(actions), 0, d)
                &&& same_but_overflow(m, *final(self))
                &&& r == drain_outcome(m)
            },
    {
        let zero = duration_new(0, 0);
        let d = self.step(actions, zero);
        let ghost m = *self;
        let r = self.drain_decision();
        proof {
            assert(stepped(*old(self), m, *old(actions), *actions, 0, d));
        }
        r
    }

    /// True while a driver steps again without waiting: the machine runs
    /// and events are queued.
    pub fn more_to_do(&self) -> (r: bool)
        ensures
            r == (!self.terminated_spec() && self.queue_spec().len() > 0),
    {
        !self.terminated && !self.queue.is_empty()
    }

    /// What a driver that drains the queue does after a step: report
    /// `QueueFull` if an emit was refused (the flag is taken, so it is
    /// reported once), else go on while the machine runs and events are
    /// queued.
    pub fn drain_decision(&mut self) -> (r: Result<bool, HsmcError>)
        requires
            old(self).wf(),
        ensures
            final(self).wf(),
            same_but_overflow(*old(self), *final(self)),
            !final(self).overflow_spec(),
            r == drain_outcome(*old(self)),
    {
        let overflowed = self.take_overflow();
        if overflowed {
            return Err(HsmcError::QueueFull);
        }
        Ok(!self.terminated && !self.queue.is_empty())
    }

    /// One round of settling after time passed: a step by `elapsed`, with
    /// the time until the next timer and whether to step again (with no
    /// time elapsed): the machine still runs and events are queued. A
    /// refused emit stays flagged for `take_overflow`.
    pub fn settle_step<A: Actions<E>>(&mut self, actions: &mut A, elapsed: Duration) -> (r: (Option<Duration>, bool))
        requires
            old(self).wf(),
        ensures
            final(self).wf(),
            stepped(*old(self), *final(self), *old(actions), *final(actions), duration_nanos(elapsed), r.0),
            r.1 == (!final(self).terminated_spec() && final(self).queue_spec().len() > 0),
    {
        let next = self.step(actions, elapsed);
        let more = !self.terminated && !self.queue.is_empty();
        (next, more)
    }

    /// Begin dispatching an event: queue it (refused as `send` refuses it),
    /// start the machine with a first drain round if it has not started,
    /// and report whether to go on with `drain_step`.
    pub fn dispatch_begin<A: Actions<E>>(&mut self, actions: &mut A, event_id: u16, event: E) -> (r: Result<bool, HsmcError>)
        requires
            old(self).wf(),
        ensures
            final(self).wf(),
            ({
                let (q, sent) = spec_bounded_push(old(self).queue_spec(), QN as nat, (event_id, event));
                if old(self).terminated_spec() {
                    &&& r == Err::<bool, HsmcError>(HsmcError::AlreadyTerminated)
                    &&& same_but_queue(*old(self), *final(self))
                    &&& final(self).queue_spec() == old(self).queue_spec()
                } else if sent is Err {
                    &&& r == Err::<bool, HsmcError>(HsmcError::QueueFull)
                    &&& same_but_queue(*old(self), *final(self))
                    &&& final(self).queue_spec() == old(self).queue_spec()
                } else if old(self).cfg_spec().current is Some {
                    &&& r == Ok::<bool, HsmcError>(true)
                    &&& final(self).queue_spec() == q
                    &&& final(self).cfg_spec() == old(self).cfg_spec()
                    &&& final(self).chart_spec() == old(self).chart_spec()
                    &&& final(self).journal_spec() == old(self).journal_spec()
                    &&& final(self).terminated_spec() == old(self).terminated_spec()
                    &&& final(self).overflow_spec() == old(self).overflow_spec()
                } else {
                    &&& !final(self).overflow_spec()
                    &&& exists|m0: Self, m: Self, d: Option<Duration>| {
                        &&& m0.queue_spec() == q
                        &&& same_but_queue(*old(self), m0)
                        &&& stepped(m0, m, *old(actions), *final(actions), 0, d)
                        &&& same_but_overflow(m, *final(self))
                        &&& r == drain_outcome(m)
                    }
                }
            }),
    {
        if self.terminated {
            return Err(HsmcError::AlreadyTerminated);
        }
        let ghost before = *self;
        match self.queue.push((event_id, event)) {
            Err(e) => {
                return Err(e);
            },
            Ok(()) => {},
        }
        if self.ctl.current.is_some() {
            return Ok(true);
        }
        let ghost m0 = *self;
        let r = self.drain_step(actions);
        proof {
            assert(same_but_queue(before, m0));
        }
        r
    }

    /// Return and clear the flag that records a refused `emit()`.
    pub fn take_overflow(&mut self) -> (r: bool)
        requires
            old(self).wf(),
        ensures
            final(self).wf(),
            r == old(self).overflow_spec(),
            !final(self).overflow_spec(),
            final(self).cfg_spec() == old(self).cfg_spec(),
            final(self).chart_spec() == old(self).chart_spec(),
            final(self).queue_spec() == old(self).queue_spec(),
            final(self).journal_spec() == old(self).journal_spec(),
            final(self).terminated_spec() == old(self).terminated_spec(),
    {
        let v = self.overflow;
        self.overflow = false;
        v
    }

    /// True once the machine has processed its termination event.
    pub fn is_terminated(&self) -> (r: bool)
        ensures
            r == self.terminated_spec(),
    {
        self.terminated
    }

    /// Index of the innermost active state; `None` before the first step and
    /// after termination.
    pub fn current_state(&self) -> (r: Option<u16>)
        ensures
            r == self.cfg_spec().current,
    {
        self.ctl.current
    }

    /// True when events are queued.
    pub fn has_pending_events(&self) -> (r: bool)
        ensures
            r == (self.queue_spec().len() > 0),
    {
        !self.queue.is_empty()
    }

    /// The journal so far.
    pub fn journal(&self) -> (r: &[TraceEvent])
        ensures
            r@ == self.journal_spec(),
    {
        self.journal.events()
    }

    /// Hand out the journal and leave it empty.
    pub fn take_journal(&mut self) -> (r: Vec<TraceEvent>)
        requires
            old(self).wf(),
        ensures
            final(self).wf(),
            r@ == old(self).journal_spec(),
            final(self).journal_spec().len() == 0,
            final(self).cfg_spec() == old(self).cfg_spec(),
            final(self).chart_spec() == old(self).chart_spec(),
            final(self).queue_spec() == old(self).queue_spec(),
            final(self).terminated_spec() == old(self).terminated_spec(),
            final(self).overflow_spec() == old(self).overflow_spec(),
    {
        self.journal.take()
    }

    /// Drop the journal's entries.
    pub fn clear_journal(&mut self)
        requires
            old(self).wf(),
        ensures
            final(self).wf(),
            final(self).journal_spec().len() == 0,
            final(self).cfg_spec() == old(self).cfg_spec(),
            final(self).chart_spec() == old(self).chart_spec(),
            final(self).queue_spec() == old(self).queue_spec(),
            final(self).terminated_spec() == old(self).terminated_spec(),
            final(self).overflow_spec() == old(self).overflow_spec(),
    {
        self.journal.clear();
    }

    /// The chart's structural fingerprint.
    pub fn chart_hash(&self) -> (r: u64)
        ensures
            r == self.chart_spec().chart_hash,
    {
        self.chart.chart_hash()
    }

    /// Begin a step: advance the timers by `elapsed` and plan the step (see
    /// `semantics::spec_step`), taking the front event when the plan consumes
    /// it. Nothing is journaled yet. `None` once the machine has terminated.
    pub fn begin_step(&mut self, elapsed: Duration) -> (r: Option<StepRun<E>>)
        requires
            old(self).wf(),
        ensures
            final(self).wf(),
            final(self).chart_spec() == old(self).chart_spec(),
            final(self).journal_spec() == old(self).journal_spec(),
            final(self).overflow_spec() == old(self).overflow_spec(),
            final(self).terminated_spec() == old(self).terminated_spec(),
            old(self).terminated_spec() ==> r is None && final(self).cfg_spec() == old(self).cfg_spec()
                && final(self).queue_spec() == old(self).queue_spec(),
            !old(self).terminated_spec() ==> ({
                let sm = spec_step(
                    old(self).chart_spec(),
                    TN as nat,
                    old(self).cfg_spec(),
                    front_of(old(self).queue_spec()),
                    duration_nanos(elapsed),
                );
                &&& r is Some
                &&& r->0.ops_spec() == sm.ops
                &&& r->0.pos_spec() == 0
                &&& r->0.closing_spec() == sm.terminates
                &&& r->0.event_spec() == if sm.consumed { Some(old(self).queue_spec()[0].1) } else { None }
                &&& final(self).cfg_spec().current == sm.cfg.current
                &&& final(self).cfg_spec().timers == sm.cfg.timers
                &&& final(self).queue_spec() == if sm.consumed { old(self).queue_spec().drop_first() } else { old(self).queue_spec() }
            }),
    {
        if self.terminated {
            return None;
        }
        let front = match self.queue.front() {
            Some(p) => Some(p.0),
            None => None,
        };
        let mut ops: Vec<Op> = Vec::new();
        let d = plan_step(&self.chart, &mut self.ctl, &mut ops, front, elapsed);
        proof {
            assert(ops@ =~= Seq::<Op>::empty() + ops@);
        }
        let event = if d.consumed {
            match self.queue.pop() {
                Some(p) => Some(p.1),
                None => None,
            }
        } else {
            None
        };
        Some(StepRun { ops, pos: 0, event, closing: d.terminates })
    }

    /// Run the next planned atom of a step: journal a note, or journal an
    /// action call and ask the driver to make it.
    pub fn advance(&mut self, run: &mut StepRun<E>) -> (r: Next)
        requires
            old(self).wf(),
        ensures
            final(self).wf(),
            final(run).ops_spec() == old(run).ops_spec(),
            final(run).event_spec() == old(run).event_spec(),
            final(run).closing_spec() == old(run).closing_spec(),
            final(self).cfg_spec() == old(self).cfg_spec(),
            final(self).chart_spec() == old(self).chart_spec(),
            final(self).queue_spec() == old(self).queue_spec(),
            final(self).terminated_spec() == old(self).terminated_spec(),
            final(self).overflow_spec() == old(self).overflow_spec(),
            old(run).pos_spec() >= old(run).ops_spec().len() ==> r is Done && final(run).pos_spec() == old(run).pos_spec()
                && final(self).journal_spec() == old(self).journal_spec(),
            old(run).pos_spec() < old(run).ops_spec().len() ==> ({
                let op = old(run).ops_spec()[old(run).pos_spec() as int];
                &&& final(run).pos_spec() == old(run).pos_spec() + 1
                &&& final(self).journal_spec() == old(self).journal_spec().push(op_atom(op))
                &&& match op {
                    Op::Note(_) => r is Noted,
                    Op::Act { action, with_event, .. } => r == (Next::Act { action, with_event }),
                }
            }),
    {
        if run.pos >= run.ops.len() {
            return Next::Done;
        }
        let i = run.pos;
        run.pos = i + 1;
        match run.ops[i] {
            Op::Note(e) => {
                self.journal.push(e);
                Next::Noted
            },
            Op::Act { state, action, kind, with_event } => {
                self.journal.push(TraceEvent::ActionInvoked { state, action, kind });
                Next::Act { action, with_event }
            },
        }
    }

    /// End a step whose atoms have all run: a step that shuts the machine
    /// down empties the queue and marks the machine terminated; otherwise
    /// nothing changes. Returns the time until the next timer expires, or
    /// `None` when no timer is armed or the machine has terminated.
    pub fn end_step(&mut self, run: StepRun<E>) -> (r: Option<Duration>)
        requires
            old(self).wf(),
            run.closing_spec() ==> old(self).cfg_spec().current is None,
        ensures
            final(self).wf(),
            final(self).chart_spec() == old(self).chart_spec(),
            final(self).cfg_spec() == old(self).cfg_spec(),
            final(self).journal_spec() == old(self).journal_spec(),
            final(self).overflow_spec() == old(self).overflow_spec(),
            run.closing_spec() ==> r is None && final(self).queue_spec().len() == 0 && final(self).terminated_spec(),
            !run.closing_spec() ==> final(self).queue_spec() == old(self).queue_spec()
                && final(self).terminated_spec() == old(self).terminated_spec()
                && duration_matches(r, spec_min_remaining(old(self).cfg_spec().timers)),
    {
        if run.closing {
            self.queue.clear();
            self.terminated = true;
            return None;
        }
        self.ctl.timers.min_remaining()
    }

    /// A fresh sink for an action of the current step: it holds the queue's
    /// free slots and the overflow flag, and refuses every emit while the
    /// step shuts the machine down (`closing`).
    pub fn open_sink(&self, closing: bool) -> (r: EmitSink<E>)
        requires
            self.wf(),
        ensures
            r.cap_spec() == QN - self.queue_spec().len(),
            r.start_overflow_spec() == self.overflow_spec(),
            r.closing_spec() == closing,
            r.free_spec() == r.cap_spec(),
            r.overflow_spec() == self.overflow_spec(),
            r.events_spec().len() == 0,
            r.records_spec().len() == 0,
    {
        EmitSink::new(QN - self.queue.len(), self.overflow, closing)
    }

    /// Take back the sink of an action: journal what it recorded and queue
    /// the events it accepted, and keep its overflow flag. A sink that was
    /// not opened on this machine as it stands (other free slots or another
    /// overflow flag) is dropped with nothing kept.
    pub fn close_action(&mut self, sink: EmitSink<E>) -> (r: (Ghost<Seq<TraceEvent>>, Ghost<Seq<(u16, E)>>))
        requires
            old(self).wf(),
        ensures
            final(self).wf(),
            r.0@ == sink.records_spec(),
            r.1@ == sink.events_spec(),
            emit_records(r.0@),
            ids_of(r.1@) == queued_ids(r.0@),
            sink.overflow_spec() == (sink.start_overflow_spec() || any_failed(r.0@)),
            sink.closing_spec() ==> r.0@.len() == 0 && r.1@.len() == 0,
            sink.cap_spec() == QN - old(self).queue_spec().len() && sink.start_overflow_spec() == old(self).overflow_spec() ==> {
                &&& final(self).journal_spec() == old(self).journal_spec() + r.0@
                &&& final(self).queue_spec() == old(self).queue_spec() + r.1@
                &&& final(self).overflow_spec() == sink.overflow_spec()
            },
            !(sink.cap_spec() == QN - old(self).queue_spec().len() && sink.start_overflow_spec() == old(self).overflow_spec()) ==> {
                &&& final(self).journal_spec() == old(self).journal_spec()
                &&& final(self).queue_spec() == old(self).queue_spec()
                &&& final(self).overflow_spec() == old(self).overflow_spec()
            },
            final(self).cfg_spec() == old(self).cfg_spec(),
            final(self).chart_spec() == old(self).chart_spec(),
            final(self).terminated_spec() == old(self).terminated_spec(),
    {
        let ghost qs = self.queue@;
        let ghost ov = self.overflow;
        let (cap, start_overflow, _left, sink_overflow, mut events, records) = sink.into_parts();
        let ghost all = events@;
        let ghost recs = records@;
        if cap != QN - self.queue.len() || start_overflow != self.overflow {
            return (Ghost(recs), Ghost(all));
        }
        let ghost mid = self.journal@;
        let ghost cm = self.ctl.cfg();
        let rlen = records.len();
        let mut k: usize = 0;
        while k < rlen
            invariant
                k <= rlen,
                rlen == records@.len(),
                self.journal@ == mid + records@.take(k as int),
                self.queue@ == qs,
                self.overflow == ov,
                self.ctl.cfg() == cm,
                self.chart@ == old(self).chart@,
                self.terminated == old(self).terminated,
            decreases rlen - k,
        {
            self.journal.push(records[k]);
            proof {
                assert(records@.take(k + 1) =~= records@.take(k as int).push(records@[k as int]));
            }
            k += 1;
        }
        proof {
            assert(records@.take(rlen as int) =~= records@);
        }
        let ghost jb = self.journal@;
        let ghost mut taken: int = 0;
        proof {
            assert(self.queue@ =~= qs + all.take(0));
            assert(events@ =~= all.skip(0));
        }
        while events.len() > 0
            invariant
                0 <= taken <= all.len(),
                events@ == all.skip(taken),
                self.queue@ == qs + all.take(taken),
                qs.len() + all.len() <= QN,
                self.overflow == ov,
                self.journal@ == jb,
                self.ctl.cfg() == cm,
                self.chart@ == old(self).chart@,
                self.terminated == old(self).terminated,
            decreases events@.len(),
        {
            let (id, e) = events.remove(0);
            proof {
                assert((id, e) == all[taken]);
            }
            let _ = self.queue.push((id, e));
            proof {
                assert(all.take(taken + 1) =~= all.take(taken).push(all[taken]));
                assert(self.queue@ =~= qs + all.take(taken + 1));
                assert(events@ =~= all.skip(taken + 1));
                taken = taken + 1;
            }
        }
        proof {
            assert(all.take(taken) =~= all);
        }
        self.overflow = sink_overflow;
        (Ghost(records@), Ghost(all))
    }

    /// Run one action with a fresh sink, then journal what it emitted and
    /// queue the accepted events.
    fn run_act<A: Actions<E>>(&mut self, actions: &mut A, action: u16, ev: Option<&E>, closing: bool) -> (r: (Ghost<Seq<TraceEvent>>, Ghost<Seq<(u16, E)>>))
        requires
            old(self).wf(),
        ensures
            final(self).wf(),
            emit_records(r.0@),
            final(self).journal_spec() == old(self).journal_spec() + r.0@,
            final(self).queue_spec() == old(self).queue_spec() + r.1@,
            ids_of(r.1@) == queued_ids(r.0@),
            final(self).overflow_spec() == (old(self).overflow_spec() || any_failed(r.0@)),
            closing ==> r.0@.len() == 0 && r.1@.len() == 0,
            A::keeps_calls() ==> {
                &&& final(actions).calls().len() == old(actions).calls().len() + 1
                &&& final(actions).calls().drop_last() == old(actions).calls()
                &&& final(actions).calls().last().action == action
                &&& final(actions).calls().last().event == given(ev)
                &&& final(actions).calls().last().closing == closing
                &&& final(actions).calls().last().emitted == r.1@
            },
            final(self).cfg_spec() == old(self).cfg_spec(),
            final(self).chart_spec() == old(self).chart_spec(),
            final(self).terminated_spec() == old(self).terminated_spec(),
    {
        let ghost ca = actions.calls();
        let mut sink = self.open_sink(closing);
        actions.run_action(action, ev, &mut sink);
        proof {
            if A::keeps_calls() {
                assert(actions.calls().drop_last() =~= ca);
                assert(sink.events_spec().skip(0) =~= sink.events_spec());
            }
        }
        self.close_action(sink)
    }

    /// Run the planned atoms in order: journal each note; journal each action
    /// call, run it, then journal what it emitted and queue the accepted
    /// events. While `closing`, every emit is refused.
    fn run_ops<A: Actions<E>>(&mut self, actions: &mut A, run: &mut StepRun<E>)
        requires
            old(self).wf(),
            old(run).pos_spec() == 0,
        ensures
            final(self).wf(),
            final(run).ops_spec() == old(run).ops_spec(),
            final(run).event_spec() == old(run).event_spec(),
            final(run).closing_spec() == old(run).closing_spec(),
            ({
                let ops = old(run).ops_spec();
                let closing = old(run).closing_spec();
                let event = old(run).event_spec();
                &&& exists|recs: Seq<Seq<TraceEvent>>| {
                    &&& valid_records(ops, recs)
                    &&& final(self).journal_spec() == old(self).journal_spec() + render(ops, recs)
                    &&& ids_of(final(self).queue_spec().skip(old(self).queue_spec().len() as int)) == queued_ids(flat(recs))
                    &&& final(self).overflow_spec() == (old(self).overflow_spec() || any_failed(flat(recs)))
                    &&& closing ==> flat(recs).len() == 0
                }
                &&& A::keeps_calls() ==> {
                    let made = final(actions).calls().skip(old(actions).calls().len() as int);
                    &&& is_prefix(old(actions).calls(), final(actions).calls())
                    &&& call_heads(made) == acts_of(ops, event)
                    &&& final(self).queue_spec() == old(self).queue_spec() + emitted_by(made)
                    &&& forall|k: int| 0 <= k < made.len() ==> (#[trigger] made[k]).closing == closing
                }
                &&& closing ==> final(self).queue_spec() == old(self).queue_spec()
                &&& is_prefix(old(self).queue_spec(), final(self).queue_spec())
                &&& final(self).cfg_spec() == old(self).cfg_spec()
                &&& final(self).chart_spec() == old(self).chart_spec()
                &&& final(self).terminated_spec() == old(self).terminated_spec()
            }),
    {
        let len = run.len();
        let ghost ops = run.ops_spec();
        let ghost event = run.event_spec();
        let ghost closing = run.closing_spec();
        let ghost j0 = self.journal@;
        let ghost q0 = self.queue@;
        let ghost mut recs: Seq<Seq<TraceEvent>> = Seq::empty();
        let ghost c0 = actions.calls();
        let ghost mut qadd: Seq<(u16, E)> = Seq::empty();
        let mut i: usize = 0;
        proof {
            assert(c0.take(c0.len() as int) =~= c0);
            assert(call_heads(c0.skip(c0.len() as int)) =~= acts_of(ops.take(0), event));
            assert(c0.skip(c0.len() as int) =~= Seq::<ActionCall<E>>::empty());
            assert(q0 + qadd =~= q0);
            assert(emitted_by(c0.skip(c0.len() as int)) =~= qadd);
            assert(q0.take(q0.len() as int) =~= q0);
            assert(ops.take(0) =~= Seq::<Op>::empty());
            assert(ids_of(q0.skip(q0.len() as int)) =~= queued_ids(flat(recs)));
            if any_failed(flat(recs)) {
                let k = choose|k: int| 0 <= k < flat(recs).len() && ((#[trigger] flat(recs)[k]) is EmitFailed);
            }
        }
        while i < len
            invariant
                i <= len,
                len == ops.len(),
                run.pos_spec() == i,
                run.ops_spec() == ops,
                run.event_spec() == event,
                run.closing_spec() == closing,
                recs.len() == i,
                valid_records(ops.take(i as int), recs),
                self.journal@ == j0 + render(ops.take(i as int), recs),
                is_prefix(q0, self.queue@),
                ids_of(self.queue@.skip(q0.len() as int)) == queued_ids(flat(recs)),
                self.overflow == (old(self).overflow || any_failed(flat(recs))),
                closing ==> flat(recs).len() == 0 && self.queue@ == q0,
                c0 == old(actions).calls(),
                self.queue@ == q0 + qadd,
                A::keeps_calls() ==> is_prefix(c0, actions.calls()),
                A::keeps_calls() ==> call_heads(actions.calls().skip(c0.len() as int)) == acts_of(ops.take(i as int), event),
                A::keeps_calls() ==> emitted_by(actions.calls().skip(c0.len() as int)) == qadd,
                A::keeps_calls() ==> forall|k: int| 0 <= k < actions.calls().len() - c0.len()
                    ==> (#[trigger] actions.calls().skip(c0.len() as int)[k]).closing == closing,
                self.ctl.cfg() == old(self).ctl.cfg(),
                self.chart@ == old(self).chart@,
                self.terminated == old(self).terminated,
                q0 == old(self).queue@,
                j0 == old(self).journal@,
                chart_wf(self.chart@),
                ctl_ok(self.chart@, self.ctl.cfg()),
                self.queue@.len() <= QN,
                self.terminated ==> self.ctl.current is None,
            decreases len - i,
        {
            let ghost rec_i: Seq<TraceEvent>;
            let ghost q_i: Seq<(u16, E)>;
            let ghost nc: Seq<ActionCall<E>>;
            let ghost qs = self.queue@;
            let ghost ov = self.overflow;
            let ghost ca = actions.calls();
            let nx = self.advance(run);
            match nx {
                Next::Done => {
                    proof {
                        assert(false);
                        rec_i = Seq::empty();
                        q_i = Seq::empty();
                        nc = Seq::empty();
                    }
                },
                Next::Noted => {
                    proof {
                        rec_i = Seq::empty();
                        q_i = Seq::empty();
                        nc = Seq::empty();
                        assert(ca + nc =~= ca);
                        assert(self.queue@ =~= qs + q_i);
                        assert(emitted_by(nc) =~= q_i);
                    }
                },
                Next::Act { action, with_event } => {
                    let ev = if with_event {
                        run.event()
                    } else {
                        None
                    };
                    let r = self.run_act(actions, action, ev, run.is_closing());
                    proof {
                        rec_i = r.0@;
                        q_i = r.1@;
                        nc = seq![actions.calls().last()];
                        if A::keeps_calls() {
                            assert(actions.calls() =~= ca + nc);
                            assert(nc.drop_last() =~= Seq::<ActionCall<E>>::empty());
                            assert(emitted_by(Seq::<ActionCall<E>>::empty()) =~= Seq::<(u16, E)>::empty());
                            assert(emitted_by(nc) =~= q_i);
                        }
                    }
                },
            }
            proof {
                let tk = ops.take(i + 1);
                let nr = recs.push(rec_i);
                assert(tk.drop_last() =~= ops.take(i as int));
                assert(nr.drop_last() =~= recs);
                assert(tk.last() == ops[i as int]);
                assert(render(tk, nr) == render(ops.take(i as int), recs) + seq![op_atom(ops[i as int])] + rec_i);
                assert(self.journal@ =~= j0 + render(tk, nr));
                assert forall|j: int| 0 <= j < tk.len() implies emit_records(#[trigger] nr[j]) by {
                    if j < i {
                        assert(nr[j] == recs[j]);
                        assert(tk[j] == ops.take(i as int)[j]);
                    }
                }
                assert forall|j: int| 0 <= j < tk.len() implies ((#[trigger] tk[j]) is Note ==> nr[j].len() == 0) by {
                    if j < i {
                        assert(nr[j] == recs[j]);
                        assert(tk[j] == ops.take(i as int)[j]);
                    }
                }
                lemma_flat_push(recs, rec_i);
                lemma_queued_ids_add(flat(recs), rec_i);
                lemma_any_failed_add(flat(recs), rec_i);
                let added = self.queue@.skip(qs.len() as int);
                assert(added =~= q_i);
                assert(self.queue@ =~= qs + added);
                assert(ids_of(added) == queued_ids(rec_i));
                assert(self.queue@.skip(q0.len() as int) =~= qs.skip(q0.len() as int) + added);
                assert(ids_of(self.queue@.skip(q0.len() as int)) =~= ids_of(qs.skip(q0.len() as int)) + ids_of(added));
                assert(self.queue@.take(q0.len() as int) =~= qs.take(q0.len() as int));
                assert(self.queue@ =~= q0 + (qadd + q_i));
                if A::keeps_calls() {
                    let cs = actions.calls();
                    assert(cs.take(c0.len() as int) =~= ca.take(c0.len() as int));
                    assert(cs.skip(c0.len() as int) =~= ca.skip(c0.len() as int) + nc);
                    assert(call_heads(cs.skip(c0.len() as int)) =~= call_heads(ca.skip(c0.len() as int)) + call_heads(nc));
                    assert(acts_of(tk, event) == acts_of(ops.take(i as int), event) + call_heads(nc));
                    lemma_emitted_by_add(ca.skip(c0.len() as int), nc);
                    assert(emitted_by(cs.skip(c0.len() as int)) =~= qadd + q_i);
                    assert forall|k: int| 0 <= k < cs.len() - c0.len()
                        implies (#[trigger] cs.skip(c0.len() as int)[k]).closing == closing by {
                        if k < ca.len() - c0.len() {
                            assert(cs.skip(c0.len() as int)[k] == ca.skip(c0.len() as int)[k]);
                        } else {
                            assert(cs.skip(c0.len() as int)[k] == nc[k - (ca.len() - c0.len())]);
                        }
                    }
                }
                recs = nr;
                qadd = qadd + q_i;
            }
            i += 1;
        }
        proof {
            assert(ops.take(len as int) =~= ops);
        }
    }

    /// Advance the machine by `elapsed` wall-clock time and do one unit of
    /// work: the first step starts the machine; later steps fire the deepest
    /// expired timer, or else dispatch the front queued event (see
    /// `semantics::spec_step`). The planned action calls are made in order,
    /// each handed the taken event exactly when it is an event handler, and
    /// what they emit is queued in order after the events already waiting;
    /// while the machine shuts down every emit is refused. Returns the time
    /// until the next timer expires, or `None` when no timer is armed or the
    /// machine has terminated.
    pub fn step<A: Actions<E>>(&mut self, actions: &mut A, elapsed: Duration) -> (r: Option<Duration>)
        requires
            old(self).wf(),
        ensures
            final(self).wf(),
            stepped(*old(self), *final(self), *old(actions), *final(actions), duration_nanos(elapsed), r),
    {
        let mut run = match self.begin_step(elapsed) {
            Some(run) => run,
            None => return None,
        };
        self.run_ops(actions, &mut run);
        self.end_step(run)
    }
}

} // verus!
