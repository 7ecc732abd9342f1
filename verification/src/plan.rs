//! Executable counterparts of the step semantics: each function decides its
//! part of a step exactly as the model in `semantics` says.

use vstd::prelude::*;
use core::time::Duration;
use crate::chart::{depths_of, Chart, HandlerGroup, StateDef};
use crate::duration::{duration_as_nanos, duration_nanos};
use crate::journal::{ActionKind, TraceEvent, TransitionReason};
use crate::semantics::{
    acts, anc_or_self, arm_timers, bubble, cancel_notes, chart_wf, during_notes, enter_down, enter_state, exit_state, exit_up,
    find_group, fire_default, is_up, lca, move_to, run_handlers, spec_step, transition, ChartModel, Cfg, GroupModel, Op, StateModel,
};
use crate::timers::{
    lemma_first_key_index_bounds, spec_cancel_state, spec_decrement, spec_timer_start, TimerEntry, TimerTable,
    is_chosen_expired, depths_cover, any_expired,
};

verus! {

/// The decided part of a running machine: innermost active state and timers.
pub struct Control<const TN: usize> {
    pub current: Option<u16>,
    pub timers: TimerTable<TN>,
}

impl<const TN: usize> Control<TN> {
    pub open spec fn cfg(&self) -> Cfg {
        Cfg { current: self.current, timers: self.timers.entries@ }
    }
}

/// Every armed timer belongs to an existing state and names an existing timer.
pub open spec fn timers_ok(m: ChartModel, t: Seq<TimerEntry>) -> bool {
    forall|i: int| 0 <= i < t.len() ==> (#[trigger] t[i]).state < m.states.len() && t[i].trigger < m.timer_ns.len()
}

/// The control state refers only to what exists in the chart.
pub open spec fn ctl_ok(m: ChartModel, c: Cfg) -> bool {
    &&& (c.current matches Some(s) ==> s < m.states.len())
    &&& timers_ok(m, c.timers)
}

/// `r` is exactly the pair of control state `c` and planned atoms `ops`.
pub open spec fn same(c: Cfg, ops: Seq<Op>, r: (Cfg, Seq<Op>)) -> bool {
    c.current == r.0.current && c.timers == r.0.timers && ops == r.1
}

proof fn lemma_start_ok(m: ChartModel, t: Seq<TimerEntry>, cap: nat, s: u16, tr: u16, ns: u128)
    requires
        timers_ok(m, t),
        (s as int) < m.states.len(),
        (tr as int) < m.timer_ns.len(),
    ensures
        timers_ok(m, spec_timer_start(t, cap, s, tr, ns)),
{
    lemma_first_key_index_bounds(t, s, tr);
    let r = spec_timer_start(t, cap, s, tr, ns);
    assert forall|i: int| 0 <= i < r.len() implies (#[trigger] r[i]).state < m.states.len() && r[i].trigger < m.timer_ns.len() by {
        if i < t.len() && r[i] == t[i] {
        }
    }
}

proof fn lemma_cancel_ok(m: ChartModel, t: Seq<TimerEntry>, s: u16)
    requires
        timers_ok(m, t),
    ensures
        timers_ok(m, spec_cancel_state(t, s)),
        spec_cancel_state(t, s).len() <= t.len(),
    decreases t.len(),
{
    if t.len() > 0 {
        lemma_cancel_ok(m, t.drop_last(), s);
        assert(timers_ok(m, t.drop_last()));
    }
}

proof fn lemma_acts_take(s: u16, e: Seq<u16>, kind: ActionKind, w: bool, i: int)
    requires
        0 <= i < e.len(),
    ensures
        acts(s, e.take(i + 1), kind, w) =~= acts(s, e.take(i), kind, w).push(Op::Act { state: s, action: e[i], kind, with_event: w }),
{
    assert(e.take(i + 1) =~= e.take(i).push(e[i]));
}

/// Push the action calls of `state` for `actions`.
fn push_acts(ops: &mut Vec<Op>, s: u16, actions: &Vec<u16>, kind: ActionKind, w: bool)
    ensures
        final(ops)@ == old(ops)@ + acts(s, actions@, kind, w),
{
    let len = actions.len();
    let mut i: usize = 0;
    while i < len
        invariant
            i <= len,
            len == actions@.len(),
            ops@ == old(ops)@ + acts(s, actions@.take(i as int), kind, w),
        decreases len - i,
    {
        proof {
            lemma_acts_take(s, actions@, kind, w, i as int);
        }
        ops.push(Op::Act { state: s, action: actions[i], kind, with_event: w });
        i += 1;
    }
    proof {
        assert(actions@.take(len as int) =~= actions@);
    }
}

/// Push the during notes of `state`.
fn push_durings(ops: &mut Vec<Op>, s: u16, n: u16, started: bool)
    ensures
        final(ops)@ == old(ops)@ + during_notes(s, n, started),
{
    let mut i: u16 = 0;
    while i < n
        invariant
            i <= n,
            ops@ == old(ops)@ + during_notes(s, i, started),
        decreases n - i,
    {
        let e = if started {
            TraceEvent::DuringStarted { state: s, during: i }
        } else {
            TraceEvent::DuringCancelled { state: s, during: i }
        };
        ops.push(Op::Note(e));
        proof {
            assert(during_notes(s, (i + 1) as u16, started) =~= during_notes(s, i, started).push(Op::Note(e)));
        }
        i += 1;
    }
}

/// Push the timer-cancel notes of `state`.
fn push_cancel_notes(ops: &mut Vec<Op>, s: u16, timers: &Vec<u16>)
    ensures
        final(ops)@ == old(ops)@ + cancel_notes(s, timers@),
{
    let len = timers.len();
    let mut i: usize = 0;
    while i < len
        invariant
            i <= len,
            len == timers@.len(),
            ops@ == old(ops)@ + cancel_notes(s, timers@.take(i as int)),
        decreases len - i,
    {
        proof {
            assert(timers@.take(i + 1) =~= timers@.take(i as int).push(timers@[i as int]));
            assert(cancel_notes(s, timers@.take(i + 1)) =~= cancel_notes(s, timers@.take(i as int)).push(
                Op::Note(TraceEvent::TimerCancelled { state: s, timer: timers@[i as int] }),
            ));
        }
        ops.push(Op::Note(TraceEvent::TimerCancelled { state: s, timer: timers[i] }));
        i += 1;
    }
    proof {
        assert(timers@.take(len as int) =~= timers@);
    }
}

/// Enter one state.
pub fn enter_one<const TN: usize>(chart: &Chart, ctl: &mut Control<TN>, ops: &mut Vec<Op>, s: u16)
    requires
        chart_wf(chart@),
        (s as int) < chart@.states.len(),
        ctl_ok(chart@, old(ctl).cfg()),
    ensures
        same(final(ctl).cfg(), final(ops)@, enter_state(chart@, TN as nat, old(ctl).cfg(), old(ops)@, s)),
        ctl_ok(chart@, final(ctl).cfg()),
{
    let st: &StateDef = chart.state(s);
    let ghost m = chart@;
    let ghost c0 = ctl.cfg();
    ops.push(Op::Note(TraceEvent::EnterBegan { state: s }));
    push_acts(ops, s, &st.entries, ActionKind::Entry, false);
    let ghost ops1 = ops@;
    let len = st.timers.len();
    let mut k: usize = 0;
    while k < len
        invariant
            k <= len,
            len == st.timers@.len(),
            st@ == m.states[s as int],
            m == chart@,
            chart_wf(m),
            (s as int) < m.states.len(),
            ctl_ok(m, ctl.cfg()),
            same(ctl.cfg(), ops@, arm_timers(m, TN as nat, c0, ops1, s, k as nat)),
        decreases len - k,
    {
        let tid = st.timers[k];
        proof {
            assert(m.states[s as int].timers[k as int] < m.timer_ns.len());
        }
        let d: Duration = chart.timer_duration(tid);
        let ns = duration_as_nanos(&d);
        proof {
            lemma_start_ok(m, ctl.timers.entries@, TN as nat, s, tid, ns);
        }
        ctl.timers.start(s, tid, d);
        ops.push(Op::Note(TraceEvent::TimerArmed { state: s, timer: tid, ns: #[verifier::truncate] (ns as u64) }));
        k += 1;
    }
    ctl.current = Some(s);
    push_durings(ops, s, st.durings, true);
    ops.push(Op::Note(TraceEvent::Entered { state: s }));
}

/// Exit one state.
pub fn exit_one<const TN: usize>(chart: &Chart, ctl: &mut Control<TN>, ops: &mut Vec<Op>, s: u16)
    requires
        chart_wf(chart@),
        (s as int) < chart@.states.len(),
        ctl_ok(chart@, old(ctl).cfg()),
    ensures
        same(final(ctl).cfg(), final(ops)@, exit_state(chart@, old(ctl).cfg(), old(ops)@, s)),
        ctl_ok(chart@, final(ctl).cfg()),
{
    let st: &StateDef = chart.state(s);
    ops.push(Op::Note(TraceEvent::ExitBegan { state: s }));
    push_durings(ops, s, st.durings, false);
    push_cancel_notes(ops, s, &st.timers);
    proof {
        lemma_cancel_ok(chart@, ctl.timers.entries@, s);
    }
    ctl.timers.cancel_state(s);
    push_acts(ops, s, &st.exits, ActionKind::Exit, false);
    ops.push(Op::Note(TraceEvent::Exited { state: s }));
}

/// Exit `cur` and its ancestors, stopping before `stop`.
pub fn exit_upward<const TN: usize>(chart: &Chart, ctl: &mut Control<TN>, ops: &mut Vec<Op>, cur: u16, stop: Option<u16>)
    requires
        chart_wf(chart@),
        (cur as int) < chart@.states.len(),
        ctl_ok(chart@, old(ctl).cfg()),
    ensures
        same(final(ctl).cfg(), final(ops)@, exit_up(chart@, old(ctl).cfg(), old(ops)@, cur, stop)),
        ctl_ok(chart@, final(ctl).cfg()),
    decreases cur,
{
    match stop {
        Some(x) => {
            if x == cur {
                return;
            }
        },
        None => {},
    }
    exit_one(chart, ctl, ops, cur);
    match chart.state(cur).parent {
        Some(p) => {
            if p < cur {
                exit_upward(chart, ctl, ops, p, stop);
            }
        },
        None => {},
    }
}

/// Enter the states from just below `stop` down to `t`.
pub fn enter_downward<const TN: usize>(chart: &Chart, ctl: &mut Control<TN>, ops: &mut Vec<Op>, stop: Option<u16>, t: u16)
    requires
        chart_wf(chart@),
        (t as int) < chart@.states.len(),
        ctl_ok(chart@, old(ctl).cfg()),
    ensures
        same(final(ctl).cfg(), final(ops)@, enter_down(chart@, TN as nat, old(ctl).cfg(), old(ops)@, stop, t)),
        ctl_ok(chart@, final(ctl).cfg()),
    decreases t,
{
    match stop {
        Some(x) => {
            if x == t {
                return;
            }
        },
        None => {},
    }
    match chart.state(t).parent {
        Some(p) => {
            if p < t {
                enter_downward(chart, ctl, ops, stop, p);
            }
        },
        None => {},
    }
    enter_one(chart, ctl, ops, t);
}

/// Whether `a` is `b` or one of its ancestors.
pub fn is_anc_or_self(chart: &Chart, a: u16, b: u16) -> (r: bool)
    requires
        chart_wf(chart@),
        (b as int) < chart@.states.len(),
    ensures
        r == anc_or_self(chart@, a, b),
    decreases b,
{
    if a == b {
        return true;
    }
    match chart.state(b).parent {
        Some(p) => p < b && is_anc_or_self(chart, a, p),
        None => false,
    }
}

/// The lowest common ancestor of `a` and `b`.
pub fn lowest_common_ancestor(chart: &Chart, a: u16, b: u16) -> (r: Option<u16>)
    requires
        chart_wf(chart@),
        (a as int) < chart@.states.len(),
        (b as int) < chart@.states.len(),
    ensures
        r == lca(chart@, a, b),
        r matches Some(x) ==> (x as int) < chart@.states.len(),
    decreases b,
{
    if is_anc_or_self(chart, b, a) {
        return Some(b);
    }
    match chart.state(b).parent {
        Some(p) => {
            if p < b {
                lowest_common_ancestor(chart, a, p)
            } else {
                None
            }
        },
        None => None,
    }
}

/// Whether a transition from the active path to `t` is an up-transition.
fn goes_up(chart: &Chart, current: Option<u16>, t: u16) -> (r: bool)
    requires
        chart_wf(chart@),
        (t as int) < chart@.states.len(),
        current matches Some(c) ==> (c as int) < chart@.states.len(),
    ensures
        r == is_up(chart@, current, t),
{
    match current {
        Some(c) => c != t && is_anc_or_self(chart, t, c),
        None => false,
    }
}

/// Move the active path to `t` (see `semantics::move_to`).
fn move_to_state<const TN: usize>(chart: &Chart, ctl: &mut Control<TN>, ops: &mut Vec<Op>, t: u16)
    requires
        chart_wf(chart@),
        (t as int) < chart@.states.len(),
        ctl_ok(chart@, old(ctl).cfg()),
    ensures
        same(final(ctl).cfg(), final(ops)@, move_to(chart@, TN as nat, old(ctl).cfg(), old(ops)@, t)),
        ctl_ok(chart@, final(ctl).cfg()),
{
    if goes_up(chart, ctl.current, t) {
        let c = ctl.current.unwrap();
        exit_upward(chart, ctl, ops, c, Some(t));
        ctl.current = Some(t);
        return;
    }
    let is_self = match ctl.current {
        Some(c) => c == t,
        None => false,
    };
    let stop = if is_self {
        chart.state(t).parent
    } else {
        let a = match ctl.current {
            Some(c) => c,
            None => t,
        };
        lowest_common_ancestor(chart, a, t)
    };
    match ctl.current {
        Some(c) => exit_upward(chart, ctl, ops, c, stop),
        None => {},
    }
    enter_downward(chart, ctl, ops, stop, t);
}

/// Take the transition to `t` (see `semantics::transition`).
pub fn take_transition<const TN: usize>(chart: &Chart, ctl: &mut Control<TN>, ops: &mut Vec<Op>, t: u16)
    requires
        chart_wf(chart@),
        (t as int) < chart@.states.len(),
        ctl_ok(chart@, old(ctl).cfg()),
    ensures
        same(final(ctl).cfg(), final(ops)@, transition(chart@, TN as nat, old(ctl).cfg(), old(ops)@, t)),
        ctl_ok(chart@, final(ctl).cfg()),
{
    let up = goes_up(chart, ctl.current, t);
    move_to_state(chart, ctl, ops, t);
    if !up {
        follow_default(chart, ctl, ops, t);
    }
}

/// Follow the chain of `default(...)`s from `s` (see `semantics::fire_default`).
pub fn follow_default<const TN: usize>(chart: &Chart, ctl: &mut Control<TN>, ops: &mut Vec<Op>, s: u16)
    requires
        chart_wf(chart@),
        (s as int) < chart@.states.len(),
        ctl_ok(chart@, old(ctl).cfg()),
    ensures
        same(final(ctl).cfg(), final(ops)@, fire_default(chart@, TN as nat, old(ctl).cfg(), old(ops)@, s)),
        ctl_ok(chart@, final(ctl).cfg()),
    decreases chart@.rank[s as int],
{
    match chart.state(s).default_target {
        None => {},
        Some(d) => {
            let from = ctl.current;
            let up = goes_up(chart, from, d);
            ops.push(Op::Note(TraceEvent::TransitionFired { from, to: d, reason: TransitionReason::Internal }));
            move_to_state(chart, ctl, ops, d);
            ops.push(Op::Note(TraceEvent::TransitionComplete { from, to: d }));
            if !up {
                follow_default(chart, ctl, ops, d);
            }
        },
    }
}

pub proof fn lemma_find_group_bounds(g: Seq<GroupModel>, kind: u8, trig: u16)
    ensures
        -1 <= find_group(g, kind, trig) < g.len(),
        find_group(g, kind, trig) >= 0 ==> g[find_group(g, kind, trig)].trigger_kind == kind && g[find_group(g, kind, trig)].trigger == trig,
        find_group(g, kind, trig) < 0 ==> forall|j: int| 0 <= j < g.len() ==> !((#[trigger] g[j]).trigger_kind == kind && g[j].trigger == trig),
    decreases g.len(),
{
    if g.len() > 0 && !(g[0].trigger_kind == kind && g[0].trigger == trig) {
        lemma_find_group_bounds(g.drop_first(), kind, trig);
        if find_group(g, kind, trig) < 0 {
            assert forall|j: int| 0 <= j < g.len() implies !((#[trigger] g[j]).trigger_kind == kind && g[j].trigger == trig) by {
                if j > 0 {
                    assert(g[j] == g.drop_first()[j - 1]);
                }
            }
        }
    }
}

proof fn lemma_find_group_at(g: Seq<GroupModel>, kind: u8, trig: u16, i: int)
    requires
        0 <= i < g.len(),
        g[i].trigger_kind == kind && g[i].trigger == trig,
        forall|j: int| 0 <= j < i ==> !((#[trigger] g[j]).trigger_kind == kind && g[j].trigger == trig),
    ensures
        find_group(g, kind, trig) == i,
    decreases i,
{
    if i > 0 {
        assert(!(g[0].trigger_kind == kind && g[0].trigger == trig));
        assert forall|j: int| 0 <= j < i - 1 implies !((#[trigger] g.drop_first()[j]).trigger_kind == kind && g.drop_first()[j].trigger == trig) by {
            assert(g.drop_first()[j] == g[j + 1]);
        }
        lemma_find_group_at(g.drop_first(), kind, trig, i - 1);
    }
}

/// The handler group of `state` for the trigger, if it declares one.
pub fn lookup_group(chart: &Chart, s: u16, kind: u8, trig: u16) -> (r: Option<usize>)
    requires
        (s as int) < chart@.states.len(),
    ensures
        r is None <==> find_group(chart@.states[s as int].groups, kind, trig) < 0,
        r matches Some(i) ==> i == find_group(chart@.states[s as int].groups, kind, trig)
            && (i as int) < chart@.states[s as int].groups.len(),
{
    let st = chart.state(s);
    let ghost g = chart@.states[s as int].groups;
    let len = st.groups.len();
    let mut i: usize = 0;
    while i < len
        invariant
            i <= len,
            len == st.groups@.len(),
            g == st@.groups,
            g.len() == len,
            g == chart@.states[s as int].groups,
            forall|j: int| 0 <= j < i ==> !((#[trigger] g[j]).trigger_kind == kind && g[j].trigger == trig),
        decreases len - i,
    {
        proof {
            assert(g[i as int] == st.groups@[i as int]@);
        }
        if st.groups[i].trigger_kind == kind && st.groups[i].trigger == trig {
            proof {
                lemma_find_group_at(g, kind, trig, i as int);
            }
            return Some(i);
        }
        i += 1;
    }
    proof {
        lemma_find_group_bounds(g, kind, trig);
    }
    None
}

/// The innermost state from `s` upward with a handler for the trigger.
pub fn find_handler_state(chart: &Chart, s: u16, kind: u8, trig: u16) -> (r: Option<u16>)
    requires
        chart_wf(chart@),
        (s as int) < chart@.states.len(),
    ensures
        r == bubble(chart@, s, kind, trig),
        r matches Some(x) ==> (x as int) < chart@.states.len() && find_group(chart@.states[x as int].groups, kind, trig) >= 0,
    decreases s,
{
    if lookup_group(chart, s, kind, trig).is_some() {
        return Some(s);
    }
    match chart.state(s).parent {
        Some(p) => {
            if p < s {
                find_handler_state(chart, p, kind, trig)
            } else {
                None
            }
        },
        None => None,
    }
}

/// Run the handler group `gi` of state `s`.
pub fn run_group<const TN: usize>(
    chart: &Chart,
    ctl: &mut Control<TN>,
    ops: &mut Vec<Op>,
    s: u16,
    gi: usize,
    reason: TransitionReason,
    w: bool,
)
    requires
        chart_wf(chart@),
        (s as int) < chart@.states.len(),
        (gi as int) < chart@.states[s as int].groups.len(),
        ctl_ok(chart@, old(ctl).cfg()),
    ensures
        same(
            final(ctl).cfg(),
            final(ops)@,
            run_handlers(chart@, TN as nat, old(ctl).cfg(), old(ops)@, s, chart@.states[s as int].groups[gi as int], reason, w),
        ),
        ctl_ok(chart@, final(ctl).cfg()),
{
    let g: &HandlerGroup = &chart.state(s).groups[gi];
    proof {
        assert(g@ == chart@.states[s as int].groups[gi as int]);
    }
    push_acts(ops, s, &g.actions, ActionKind::Handler, w);
    match g.target {
        None => {},
        Some(t) => {
            let from = ctl.current;
            ops.push(Op::Note(TraceEvent::TransitionFired { from, to: t, reason }));
            take_transition(chart, ctl, ops, t);
            ops.push(Op::Note(TraceEvent::TransitionComplete { from, to: t }));
        },
    }
}

/// What `plan_step` decided about the queue.
pub struct Decision {
    /// The front event was taken.
    pub consumed: bool,
    /// The machine terminates.
    pub terminates: bool,
}

proof fn lemma_chosen_unique(s: Seq<TimerEntry>, d: Seq<u8>, a: int, b: int)
    requires
        is_chosen_expired(s, d, a),
        is_chosen_expired(s, d, b),
    ensures
        a == b,
{
    if a < b {
        assert(s[a].remaining_ns == 0);
    } else if b < a {
        assert(s[b].remaining_ns == 0);
    }
}

/// Decide one step of a machine that has not terminated, given the front
/// event's index, and push the atoms it produces.
pub fn plan_step<const TN: usize>(chart: &Chart, ctl: &mut Control<TN>, ops: &mut Vec<Op>, front: Option<u16>, elapsed: Duration) -> (r: Decision)
    requires
        chart_wf(chart@),
        ctl_ok(chart@, old(ctl).cfg()),
    ensures
        ({
            let sm = spec_step(chart@, TN as nat, old(ctl).cfg(), front, duration_nanos(elapsed));
            &&& final(ctl).cfg().current == sm.cfg.current
            &&& final(ctl).cfg().timers == sm.cfg.timers
            &&& final(ops)@ == old(ops)@ + sm.ops
            &&& r.consumed == sm.consumed
            &&& r.terminates == sm.terminates
        }),
        ctl_ok(chart@, final(ctl).cfg()),
{
    let ghost m = chart@;
    let ghost c0 = ctl.cfg();
    let ghost ops0 = ops@;
    let ghost sm = spec_step(m, TN as nat, c0, front, duration_nanos(elapsed));
    if ctl.current.is_none() {
        let mut local: Vec<Op> = Vec::new();
        local.push(Op::Note(TraceEvent::Started { chart_hash: chart.chart_hash() }));
        enter_one(chart, ctl, &mut local, 0);
        follow_default(chart, ctl, &mut local, 0);
        ops.append(&mut local);
        return Decision { consumed: false, terminates: false };
    }
    let cur = ctl.current.unwrap();
    ctl.timers.decrement(elapsed);
    let ghost t1 = ctl.timers.entries@;
    proof {
        assert(timers_ok(m, t1));
        assert(depths_cover(t1, depths_of(m)));
    }
    let popped = ctl.timers.pop_expired(chart.depths());
    let mut local: Vec<Op> = Vec::new();
    match popped {
        Some((st, tr)) => {
            proof {
                let depths = depths_of(m);
                let k = choose|k: int| {
                    &&& #[trigger] is_chosen_expired(t1, depths, k)
                    &&& popped == Some((t1[k].state, t1[k].trigger))
                    &&& ctl.timers.entries@ == t1.remove(k)
                };
                assert(depths == m.states.map_values(|s: StateModel| s.depth));
                let kk = choose|k: int| #[trigger] is_chosen_expired(t1, depths, k);
                lemma_chosen_unique(t1, depths, k, kk);
                assert(timers_ok(m, ctl.timers.entries@));
            }
            local.push(Op::Note(TraceEvent::TimerFired { state: st, timer: tr }));
            if chart.timer_repeats(tr) {
                let d = chart.timer_duration(tr);
                let ns = duration_as_nanos(&d);
                proof {
                    lemma_start_ok(m, ctl.timers.entries@, TN as nat, st, tr, ns);
                }
                ctl.timers.start(st, tr, d);
                local.push(Op::Note(TraceEvent::TimerArmed { state: st, timer: tr, ns: #[verifier::truncate] (ns as u64) }));
            }
            match lookup_group(chart, st, 1, tr) {
                Some(gi) => {
                    run_group(chart, ctl, &mut local, st, gi, TransitionReason::Timer { state: st, timer: tr }, false);
                },
                None => {},
            }
            ops.append(&mut local);
            return Decision { consumed: false, terminates: false };
        },
        None => {},
    }
    match front {
        None => Decision { consumed: false, terminates: false },
        Some(id) => {
            local.push(Op::Note(TraceEvent::EventReceived { event: id }));
            let term = match chart.terminate_event() {
                Some(x) => x == id,
                None => false,
            };
            if term {
                local.push(Op::Note(TraceEvent::TerminateRequested { event: id }));
                exit_upward(chart, ctl, &mut local, cur, None);
                ctl.current = None;
                local.push(Op::Note(TraceEvent::Terminated));
                ops.append(&mut local);
                return Decision { consumed: true, terminates: true };
            }
            if id != 0xffff {
                match find_handler_state(chart, cur, 0, id) {
                    Some(s) => {
                        let gi = lookup_group(chart, s, 0, id).unwrap();
                        local.push(Op::Note(TraceEvent::EventDelivered { handler_state: s, event: id }));
                        run_group(chart, ctl, &mut local, s, gi, TransitionReason::Event { event: id }, true);
                    },
                    None => {
                        local.push(Op::Note(TraceEvent::EventDropped { event: id }));
                    },
                }
            } else {
                local.push(Op::Note(TraceEvent::EventDropped { event: id }));
            }
            ops.append(&mut local);
            Decision { consumed: true, terminates: false }
        },
    }
}

} // verus!
