use vstd::prelude::*;

verus! {

/// Distinguishes which kind of slot an action was invoked in.
#[derive(Debug, Clone, Copy, PartialEq, Eq, Hash, Structural)]
pub enum ActionKind {
    /// Entry action of a state.
    Entry,
    /// Exit action of a state.
    Exit,
    /// Handler action (action attached to a trigger).
    Handler,
}

/// Why a transition fired.
#[derive(Debug, Clone, Copy, PartialEq, Eq, Hash, Structural)]
pub enum TransitionReason {
    /// An external or queued event with the given index was dispatched into a
    /// handler that fired this transition.
    Event { event: u16 },
    /// The timer on the given (state, timer) slot expired and its handler
    /// fired this transition.
    Timer { state: u16, timer: u16 },
    /// Driven by the runtime itself: a `default(...)` firing after the
    /// declaring state was entered.
    Internal,
}

/// One observable atom of chart execution. Variants carry stable `u16`
/// indices, never strings.
#[derive(Debug, Clone, Copy, PartialEq, Eq, Hash, Structural)]
pub enum TraceEvent {
    /// First event in any journal. Identifies the chart definition.
    Started { chart_hash: u64 },
    /// A state's entry began.
    EnterBegan { state: u16 },
    /// A state's entry completed.
    Entered { state: u16 },
    /// A state's exit began.
    ExitBegan { state: u16 },
    /// A state's exit completed.
    Exited { state: u16 },
    /// An action function was called.
    ActionInvoked { state: u16, action: u16, kind: ActionKind },
    /// A `during:` activity became active for its owning state.
    DuringStarted { state: u16, during: u16 },
    /// A `during:` activity was cancelled because its owning state is exited.
    DuringCancelled { state: u16, during: u16 },
    /// A transition is about to fire.
    TransitionFired { from: Option<u16>, to: u16, reason: TransitionReason },
    /// A transition completed.
    TransitionComplete { from: Option<u16>, to: u16 },
    /// An event was popped from the internal queue and is about to be dispatched.
    EventReceived { event: u16 },
    /// An event reached a state's handler.
    EventDelivered { handler_state: u16, event: u16 },
    /// An event was dispatched but no state on the active path handled it.
    EventDropped { event: u16 },
    /// `emit()` from inside an action pushed an event onto the internal queue.
    EmitQueued { event: u16 },
    /// `emit()` from inside an action failed because the queue was full.
    EmitFailed { event: u16 },
    /// An event matched the chart's `terminate(...)` declaration.
    TerminateRequested { event: u16 },
    /// A timer was armed; `ns` is its duration in nanoseconds.
    TimerArmed { state: u16, timer: u16, ns: u64 },
    /// A timer was cancelled because its owning state is being exited.
    TimerCancelled { state: u16, timer: u16 },
    /// A timer's countdown reached zero and its handler is about to run.
    TimerFired { state: u16, timer: u16 },
    /// The chart processed its `terminate` event. Always the final event.
    Terminated,
}

/// Owned journal returned by `take()`.
pub type Journal = Vec<TraceEvent>;

/// Journal sink storing the in-order trace of observable execution atoms.
#[derive(Debug)]
pub struct JournalSink {
    events: Vec<TraceEvent>,
}

impl View for JournalSink {
    type V = Seq<TraceEvent>;

    closed spec fn view(&self) -> Seq<TraceEvent> {
        self.events@
    }
}

impl JournalSink {
    /// An empty journal.
    pub fn new() -> (r: Self)
        ensures
            r@ == Seq::<TraceEvent>::empty(),
    {
        JournalSink { events: Vec::new() }
    }

    /// Append one event at the end.
    pub fn push(&mut self, event: TraceEvent)
        ensures
            final(self)@ == old(self)@.push(event),
    {
        self.events.push(event);
    }

    /// The recorded events, in order.
    pub fn events(&self) -> (r: &[TraceEvent])
        ensures
            r@ == self@,
    {
        self.events.as_slice()
    }

    /// Hand out every recorded event and leave the journal empty.
    pub fn take(&mut self) -> (r: Journal)
        ensures
            r@ == old(self)@,
            final(self)@ == Seq::<TraceEvent>::empty(),
    {
        let mut out: Vec<TraceEvent> = Vec::new();
        std::mem::swap(&mut out, &mut self.events);
        out
    }

    /// Drop every recorded event.
    pub fn clear(&mut self)
        ensures
            final(self)@ == Seq::<TraceEvent>::empty(),
    {
        self.events.clear();
    }

    /// Number of recorded events.
    pub fn len(&self) -> (n: usize)
        ensures
            n == self@.len(),
    {
        self.events.len()
    }
}

} // verus!
