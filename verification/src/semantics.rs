//! The mathematical model of a chart and of one step of its machine.

use vstd::prelude::*;
use crate::journal::{ActionKind, TraceEvent, TransitionReason};
use crate::timers::{
    any_expired, is_chosen_expired, spec_cancel_state, spec_decrement, spec_timer_start, TimerEntry,
};

verus! {

/// One handler group of a state: every handler declared for one trigger.
pub struct GroupModel {
    /// 0 for an event trigger, 1 for a timer trigger.
    pub trigger_kind: u8,
    /// Event index or timer index.
    pub trigger: u16,
    /// Action handlers, in declaration order.
    pub actions: Seq<u16>,
    /// The transition target, if one is declared.
    pub target: Option<u16>,
}

/// One state of a chart.
pub struct StateModel {
    pub parent: Option<u16>,
    pub depth: u8,
    pub default_target: Option<u16>,
    pub entries: Seq<u16>,
    pub exits: Seq<u16>,
    pub groups: Seq<GroupModel>,
    pub timers: Seq<u16>,
    pub durings: u16,
}

/// A whole chart: its states (state 0 is the root), its timers and its
/// termination event. `rank` decreases along every `default(...)` edge.
pub struct ChartModel {
    pub states: Seq<StateModel>,
    pub timer_ns: Seq<u128>,
    pub timer_repeats: Seq<bool>,
    pub terminate_event: Option<u16>,
    pub chart_hash: u64,
    pub rank: Seq<nat>,
}

/// One observable atom that a step produces: a journal entry, or an action
/// call (journaled as `ActionInvoked` when it runs).
#[derive(Debug, Clone, Copy, PartialEq, Eq, Structural)]
pub enum Op {
    Note(TraceEvent),
    Act { state: u16, action: u16, kind: ActionKind, with_event: bool },
}

/// The part of a machine that a step decides: the innermost active state
/// and the armed timers.
pub struct Cfg {
    pub current: Option<u16>,
    pub timers: Seq<TimerEntry>,
}

/// Well-formed chart tables: state 0 is the root and every other state's
/// parent has a smaller index (so every state descends from the root);
/// every transition and default target, and every owned timer, exists; and
/// `rank` decreases along `default(...)` edges, so default chains end.
pub open spec fn chart_wf(m: ChartModel) -> bool {
    let n = m.states.len();
    &&& 1 <= n <= 0x10000
    &&& m.states[0].parent is None
    &&& forall|s: int| 0 < s < n ==> ((#[trigger] m.states[s]).parent matches Some(p) && p < s)
    &&& m.rank.len() == n
    &&& forall|s: int| 0 <= s < n ==> ((#[trigger] m.states[s]).default_target matches Some(d) ==> d < n && m.rank[d as int] < m.rank[s])
    &&& forall|s: int, g: int| 0 <= s < n && 0 <= g < m.states[s].groups.len() ==>
        ((#[trigger] m.states[s].groups[g]).target matches Some(t) ==> t < n)
    &&& forall|s: int, k: int| 0 <= s < n && 0 <= k < m.states[s].timers.len() ==>
        #[trigger] m.states[s].timers[k] < m.timer_ns.len()
    &&& m.timer_repeats.len() == m.timer_ns.len()
}

pub open spec fn parent_of(m: ChartModel, s: u16) -> Option<u16> {
    m.states[s as int].parent
}

/// Action calls of `state` for `actions`, in order.
pub open spec fn acts(state: u16, actions: Seq<u16>, kind: ActionKind, with_event: bool) -> Seq<Op> {
    actions.map_values(|a: u16| Op::Act { state, action: a, kind, with_event })
}

/// `DuringStarted` (or `DuringCancelled`) notes for the `n` durings of `state`.
pub open spec fn during_notes(state: u16, n: u16, started: bool) -> Seq<Op> {
    Seq::new(
        n as nat,
        |i: int|
            if started {
                Op::Note(TraceEvent::DuringStarted { state, during: i as u16 })
            } else {
                Op::Note(TraceEvent::DuringCancelled { state, during: i as u16 })
            },
    )
}

/// `TimerCancelled` notes for the timers owned by `state`.
pub open spec fn cancel_notes(state: u16, timers: Seq<u16>) -> Seq<Op> {
    timers.map_values(|t: u16| Op::Note(TraceEvent::TimerCancelled { state, timer: t }))
}

/// Arm the first `k` timers owned by `s`, noting each one.
pub open spec fn arm_timers(m: ChartModel, cap: nat, c: Cfg, ops: Seq<Op>, s: u16, k: nat) -> (Cfg, Seq<Op>)
    decreases k,
{
    if k == 0 {
        (c, ops)
    } else {
        let (c1, ops1) = arm_timers(m, cap, c, ops, s, (k - 1) as nat);
        let tid = m.states[s as int].timers[k - 1];
        let ns = m.timer_ns[tid as int];
        (
            Cfg { current: c1.current, timers: spec_timer_start(c1.timers, cap, s, tid, ns) },
            ops1.push(Op::Note(TraceEvent::TimerArmed { state: s, timer: tid, ns: ns as u64 })),
        )
    }
}

/// Enter one state: mark the beginning, run its entry actions, arm its
/// timers, make it the innermost active state, start its durings, mark the end.
pub open spec fn enter_state(m: ChartModel, cap: nat, c: Cfg, ops: Seq<Op>, s: u16) -> (Cfg, Seq<Op>) {
    let st = m.states[s as int];
    let ops1 = ops.push(Op::Note(TraceEvent::EnterBegan { state: s })) + acts(s, st.entries, ActionKind::Entry, false);
    let (c2, ops2) = arm_timers(m, cap, c, ops1, s, st.timers.len());
    (
        Cfg { current: Some(s), timers: c2.timers },
        (ops2 + during_notes(s, st.durings, true)).push(Op::Note(TraceEvent::Entered { state: s })),
    )
}

/// Exit one state: mark the beginning, cancel its durings and its timers,
/// run its exit actions, mark the end.
pub open spec fn exit_state(m: ChartModel, c: Cfg, ops: Seq<Op>, s: u16) -> (Cfg, Seq<Op>) {
    let st = m.states[s as int];
    let ops1 = ops.push(Op::Note(TraceEvent::ExitBegan { state: s })) + during_notes(s, st.durings, false)
        + cancel_notes(s, st.timers);
    (
        Cfg { current: c.current, timers: spec_cancel_state(c.timers, s) },
        (ops1 + acts(s, st.exits, ActionKind::Exit, false)).push(Op::Note(TraceEvent::Exited { state: s })),
    )
}

/// Exit `cur` and its ancestors, innermost first, stopping before `stop`
/// (or after the root when `stop` is never met).
pub open spec fn exit_up(m: ChartModel, c: Cfg, ops: Seq<Op>, cur: u16, stop: Option<u16>) -> (Cfg, Seq<Op>)
    decreases cur,
{
    if stop == Some(cur) {
        (c, ops)
    } else {
        let (c1, ops1) = exit_state(m, c, ops, cur);
        match parent_of(m, cur) {
            Some(p) => if p < cur {
                exit_up(m, c1, ops1, p, stop)
            } else {
                (c1, ops1)
            },
            None => (c1, ops1),
        }
    }
}

/// Enter the states from just below `stop` down to `t`, outermost first.
pub open spec fn enter_down(m: ChartModel, cap: nat, c: Cfg, ops: Seq<Op>, stop: Option<u16>, t: u16) -> (Cfg, Seq<Op>)
    decreases t,
{
    if stop == Some(t) {
        (c, ops)
    } else {
        let (c1, ops1) = match parent_of(m, t) {
            Some(p) => if p < t {
                enter_down(m, cap, c, ops, stop, p)
            } else {
                (c, ops)
            },
            None => (c, ops),
        };
        enter_state(m, cap, c1, ops1, t)
    }
}

/// `a` is `b` or one of `b`'s ancestors.
pub open spec fn anc_or_self(m: ChartModel, a: u16, b: u16) -> bool
    decreases b,
{
    a == b || match parent_of(m, b) {
        Some(p) => p < b && anc_or_self(m, a, p),
        None => false,
    }
}

/// The deepest state that is an ancestor-or-self of both `a` and `b`
/// (searched upward from `b`).
pub open spec fn lca(m: ChartModel, a: u16, b: u16) -> Option<u16>
    decreases b,
{
    if anc_or_self(m, b, a) {
        Some(b)
    } else {
        match parent_of(m, b) {
            Some(p) => if p < b {
                lca(m, a, p)
            } else {
                None
            },
            None => None,
        }
    }
}

/// A transition to `t` is an up-transition: `t` is a strict ancestor of the
/// innermost active state.
pub open spec fn is_up(m: ChartModel, cur: Option<u16>, t: u16) -> bool {
    cur matches Some(c) && c != t && anc_or_self(m, t, c)
}

/// Move the active path to `t`, following no default.
/// - Up-transition: exit the states strictly below `t`; `t` becomes the
///   innermost active state; nothing is entered.
/// - Otherwise exit up to the lowest common ancestor (for a self-transition,
///   the parent of `t`) and enter down to `t`.
pub open spec fn move_to(m: ChartModel, cap: nat, c: Cfg, ops: Seq<Op>, t: u16) -> (Cfg, Seq<Op>) {
    if is_up(m, c.current, t) {
        let (c1, ops1) = exit_up(m, c, ops, c.current->0, Some(t));
        (Cfg { current: Some(t), timers: c1.timers }, ops1)
    } else {
        let stop = if c.current == Some(t) {
            parent_of(m, t)
        } else {
            lca(m, c.current.unwrap_or(t), t)
        };
        let (c1, ops1) = match c.current {
            Some(cur) => exit_up(m, c, ops, cur, stop),
            None => (c, ops),
        };
        enter_down(m, cap, c1, ops1, stop, t)
    }
}

/// Take the transition to `t`: move there, then, unless it was an
/// up-transition, follow the chain of defaults from `t`.
pub open spec fn transition(m: ChartModel, cap: nat, c: Cfg, ops: Seq<Op>, t: u16) -> (Cfg, Seq<Op>) {
    let (c1, ops1) = move_to(m, cap, c, ops, t);
    if is_up(m, c.current, t) {
        (c1, ops1)
    } else {
        fire_default(m, cap, c1, ops1, t)
    }
}

/// After `s` was entered, its `default(...)` (if any) fires as an internal
/// transition, bracketed by `TransitionFired` and `TransitionComplete`; then
/// the default of its target fires in turn, unless the default went up.
pub open spec fn fire_default(m: ChartModel, cap: nat, c: Cfg, ops: Seq<Op>, s: u16) -> (Cfg, Seq<Op>)
    decreases m.rank[s as int],
{
    match m.states[s as int].default_target {
        None => (c, ops),
        Some(d) => if m.rank[d as int] < m.rank[s as int] {
            let from = c.current;
            let ops1 = ops.push(Op::Note(TraceEvent::TransitionFired { from, to: d, reason: TransitionReason::Internal }));
            let (c2, ops2) = move_to(m, cap, c, ops1, d);
            let ops3 = ops2.push(Op::Note(TraceEvent::TransitionComplete { from, to: d }));
            if is_up(m, c.current, d) {
                (c2, ops3)
            } else {
                fire_default(m, cap, c2, ops3, d)
            }
        } else {
            (c, ops)
        },
    }
}

/// Index of the first group of `groups` for the trigger, or -1.
pub open spec fn find_group(groups: Seq<GroupModel>, kind: u8, trigger: u16) -> int
    decreases groups.len(),
{
    if groups.len() == 0 {
        -1
    } else if groups[0].trigger_kind == kind && groups[0].trigger == trigger {
        0
    } else {
        let r = find_group(groups.drop_first(), kind, trigger);
        if r < 0 {
            -1
        } else {
            r + 1
        }
    }
}

/// The state that handles the trigger: the innermost one from `s` upward
/// with a group for it.
pub open spec fn bubble(m: ChartModel, s: u16, kind: u8, trigger: u16) -> Option<u16>
    decreases s,
{
    if find_group(m.states[s as int].groups, kind, trigger) >= 0 {
        Some(s)
    } else {
        match parent_of(m, s) {
            Some(p) => if p < s {
                bubble(m, p, kind, trigger)
            } else {
                None
            },
            None => None,
        }
    }
}

/// Run one handler group of state `s`: its actions in declaration order,
/// then its transition, if any, bracketed by `TransitionFired` and
/// `TransitionComplete`.
pub open spec fn run_handlers(
    m: ChartModel,
    cap: nat,
    c: Cfg,
    ops: Seq<Op>,
    s: u16,
    g: GroupModel,
    reason: TransitionReason,
    with_event: bool,
) -> (Cfg, Seq<Op>) {
    let ops1 = ops + acts(s, g.actions, ActionKind::Handler, with_event);
    match g.target {
        None => (c, ops1),
        Some(t) => {
            let from = c.current;
            let ops2 = ops1.push(Op::Note(TraceEvent::TransitionFired { from, to: t, reason }));
            let (c3, ops3) = transition(m, cap, c, ops2, t);
            (c3, ops3.push(Op::Note(TraceEvent::TransitionComplete { from, to: t })))
        },
    }
}

/// What one step decides.
pub struct StepModel {
    pub cfg: Cfg,
    pub ops: Seq<Op>,
    /// The front event of the queue was taken.
    pub consumed: bool,
    /// The machine terminates: the queue is emptied after the step's actions.
    pub terminates: bool,
}

/// The timer table with entry `k` removed, the others keeping their order.
pub open spec fn remove_at(s: Seq<TimerEntry>, k: int) -> Seq<TimerEntry> {
    s.remove(k)
}

/// One step of a started machine, given the front event's index (if the
/// queue is not empty) and the elapsed time: every timer counts down; the
/// deepest expired timer fires if there is one (re-armed first when it
/// repeats; its handlers on its own state run, timers do not bubble);
/// otherwise the front event is taken: the termination event exits every
/// active state innermost first and ends the machine; any other event goes
/// to the innermost state on the active path with a handler for it, or is
/// dropped.
pub open spec fn started_step(m: ChartModel, cap: nat, c: Cfg, front: Option<u16>, elapsed: u128) -> StepModel {
    let t1 = spec_decrement(c.timers, elapsed);
    if any_expired(t1) {
        let depths = m.states.map_values(|s: StateModel| s.depth);
        let k = choose|k: int| is_chosen_expired(t1, depths, k);
        let e = t1[k];
        let t2 = remove_at(t1, k);
        let ops0 = seq![Op::Note(TraceEvent::TimerFired { state: e.state, timer: e.trigger })];
        let ns = m.timer_ns[e.trigger as int];
        let (t3, ops1) = if m.timer_repeats[e.trigger as int] {
            (
                spec_timer_start(t2, cap, e.state, e.trigger, ns),
                ops0.push(Op::Note(TraceEvent::TimerArmed { state: e.state, timer: e.trigger, ns: ns as u64 })),
            )
        } else {
            (t2, ops0)
        };
        let c1 = Cfg { current: c.current, timers: t3 };
        let groups = m.states[e.state as int].groups;
        let gi = find_group(groups, 1, e.trigger);
        let (c2, ops2) = if gi >= 0 {
            run_handlers(m, cap, c1, ops1, e.state, groups[gi], TransitionReason::Timer { state: e.state, timer: e.trigger }, false)
        } else {
            (c1, ops1)
        };
        StepModel { cfg: c2, ops: ops2, consumed: false, terminates: false }
    } else {
        let c1 = Cfg { current: c.current, timers: t1 };
        match front {
            None => StepModel { cfg: c1, ops: Seq::empty(), consumed: false, terminates: false },
            Some(id) => {
                let ops0 = seq![Op::Note(TraceEvent::EventReceived { event: id })];
                if m.terminate_event == Some(id) {
                    let ops1 = ops0.push(Op::Note(TraceEvent::TerminateRequested { event: id }));
                    let (c2, ops2) = exit_up(m, c1, ops1, c.current->0, None);
                    StepModel {
                        cfg: Cfg { current: None, timers: c2.timers },
                        ops: ops2.push(Op::Note(TraceEvent::Terminated)),
                        consumed: true,
                        terminates: true,
                    }
                } else if id != 0xffff {
                    match bubble(m, c.current->0, 0, id) {
                        Some(s) => {
                            let groups = m.states[s as int].groups;
                            let g = groups[find_group(groups, 0, id)];
                            let ops1 = ops0.push(Op::Note(TraceEvent::EventDelivered { handler_state: s, event: id }));
                            let (c2, ops2) = run_handlers(m, cap, c1, ops1, s, g, TransitionReason::Event { event: id }, true);
                            StepModel { cfg: c2, ops: ops2, consumed: true, terminates: false }
                        },
                        None => StepModel {
                            cfg: c1,
                            ops: ops0.push(Op::Note(TraceEvent::EventDropped { event: id })),
                            consumed: true,
                            terminates: false,
                        },
                    }
                } else {
                    StepModel {
                        cfg: c1,
                        ops: ops0.push(Op::Note(TraceEvent::EventDropped { event: id })),
                        consumed: true,
                        terminates: false,
                    }
                }
            },
        }
    }
}

/// The first step of a machine: note the chart's hash, enter the root and
/// follow its default.
pub open spec fn start_step(m: ChartModel, cap: nat, c: Cfg) -> StepModel {
    let ops0 = seq![Op::Note(TraceEvent::Started { chart_hash: m.chart_hash })];
    let (c1, ops1) = enter_state(m, cap, c, ops0, 0);
    let (c2, ops2) = fire_default(m, cap, c1, ops1, 0);
    StepModel { cfg: c2, ops: ops2, consumed: false, terminates: false }
}

/// One step of a machine that has not terminated.
pub open spec fn spec_step(m: ChartModel, cap: nat, c: Cfg, front: Option<u16>, elapsed: u128) -> StepModel {
    if c.current is None {
        start_step(m, cap, c)
    } else {
        started_step(m, cap, c, front, elapsed)
    }
}

} // verus!
