//! Properties of the statechart semantics and of lowering that span several
//! definitions.

use vstd::prelude::*;
use crate::intern::{
    ActView, DurView, ErrView, EvView, act_names, act_typed_step, act_unit_step, dur_keys, dur_step, ev_names, ev_step,
    full_key, id16,
};
use crate::ir::{Ir, TriggerIr, defaults_in_range, ids_in_tables, resolve_name};
use crate::parse::{TokV, punct_at, type_end};
use crate::render::trigger_label;
use crate::render::drawable;
use crate::validate::ir_indices_ok;
use crate::journal::{ActionKind, TraceEvent};
use crate::parse_tree::PayloadKind;
use crate::semantics::{
    Cfg, ChartModel, GroupModel, Op, acts, anc_or_self, arm_timers, bubble, cancel_notes, chart_wf, during_notes,
    enter_down, enter_state, exit_state, exit_up, find_group, fire_default, is_up, move_to, parent_of, run_handlers,
    spec_step, start_step, transition,
};
use crate::journal::TransitionReason;
use crate::seqs::{distinct, index_of, lemma_index_of};
use crate::machine::front_of;
use crate::plan::lemma_find_group_bounds;
use crate::semantics::lca;
use crate::timers::{
    TimerEntry, first_key_index, has_key, lemma_first_key_index_at, lemma_first_key_index_bounds, spec_cancel_state,
    spec_timer_start,
};

verus! {

/// An operation that belongs to leaving a state.
pub open spec fn is_exit_op(op: Op) -> bool {
    match op {
        Op::Note(e) => e is ExitBegan || e is DuringCancelled || e is TimerCancelled || e is Exited,
        Op::Act { kind, .. } => kind == ActionKind::Exit,
    }
}

/// `after` extends `before` with exit operations only.
pub open spec fn extends_with_exits(before: Seq<Op>, after: Seq<Op>) -> bool {
    &&& before.len() <= after.len()
    &&& after.take(before.len() as int) == before
    &&& forall|i: int| before.len() <= i < after.len() ==> is_exit_op(#[trigger] after[i])
}

proof fn lemma_exit_state_ops(m: ChartModel, c: Cfg, ops: Seq<Op>, s: u16)
    ensures
        extends_with_exits(ops, exit_state(m, c, ops, s).1),
        exit_state(m, c, ops, s).0.current == c.current,
{
    let st = m.states[s as int];
    let a = ops.push(Op::Note(TraceEvent::ExitBegan { state: s }));
    let b = during_notes(s, st.durings, false);
    let d = cancel_notes(s, st.timers);
    let e = acts(s, st.exits, ActionKind::Exit, false);
    let r = (a + b + d + e).push(Op::Note(TraceEvent::Exited { state: s }));
    assert(exit_state(m, c, ops, s).1 == r);
    assert(r.take(ops.len() as int) =~= ops);
    assert forall|i: int| ops.len() <= i < r.len() implies is_exit_op(#[trigger] r[i]) by {
        if i == ops.len() {
        } else if i < a.len() + b.len() {
            assert(r[i] == b[i - a.len()]);
        } else if i < a.len() + b.len() + d.len() {
            assert(r[i] == d[i - a.len() - b.len()]);
        } else if i < a.len() + b.len() + d.len() + e.len() {
            assert(r[i] == e[i - a.len() - b.len() - d.len()]);
        }
    }
}

proof fn lemma_extends_trans(a: Seq<Op>, b: Seq<Op>, c: Seq<Op>)
    requires
        extends_with_exits(a, b),
        extends_with_exits(b, c),
    ensures
        extends_with_exits(a, c),
{
    assert(c.take(a.len() as int) =~= b.take(a.len() as int));
    assert forall|i: int| a.len() <= i < c.len() implies is_exit_op(#[trigger] c[i]) by {
        if i < b.len() {
            assert(c[i] == c.take(b.len() as int)[i]);
            assert(c[i] == b[i]);
        }
    }
}

proof fn lemma_exit_up_ops(m: ChartModel, c: Cfg, ops: Seq<Op>, cur: u16, stop: Option<u16>)
    ensures
        extends_with_exits(ops, exit_up(m, c, ops, cur, stop).1),
        exit_up(m, c, ops, cur, stop).0.current == c.current,
    decreases cur,
{
    if stop == Some(cur) {
        assert(ops.take(ops.len() as int) =~= ops);
    } else {
        let (c1, ops1) = exit_state(m, c, ops, cur);
        lemma_exit_state_ops(m, c, ops, cur);
        match m.states[cur as int].parent {
            Some(p) => if p < cur {
                lemma_exit_up_ops(m, c1, ops1, p, stop);
                lemma_extends_trans(ops, ops1, exit_up(m, c1, ops1, p, stop).1);
            },
            None => {},
        }
    }
}

/// An up-transition (to a strict ancestor `t` of the innermost active state
/// `cur`) only leaves states: it leaves exactly the states from `cur` up to,
/// not including, `t`, innermost first; it enters nothing (so `t` is not
/// re-entered, its default is not followed and its timers are not
/// restarted), `t` becomes the innermost active state, and every armed timer
/// of a state that is not left stays armed as it was.
pub proof fn law_up_transition_enters_nothing(m: ChartModel, cap: nat, c: Cfg, ops: Seq<Op>, t: u16)
    requires
        chart_wf(m),
        is_up(m, c.current, t),
    ensures
        transition(m, cap, c, ops, t).0.current == Some(t),
        extends_with_exits(ops, transition(m, cap, c, ops, t).1),
        exited(transition(m, cap, c, ops, t).1.skip(ops.len() as int)) == path_up(m, c.current->0, Some(t)),
        entered(transition(m, cap, c, ops, t).1.skip(ops.len() as int)) == Seq::<u16>::empty(),
        forall|e: TimerEntry|
            c.timers.contains(e) && !path_up(m, c.current->0, Some(t)).contains(e.state)
                ==> #[trigger] transition(m, cap, c, ops, t).0.timers.contains(e),
{
    lemma_exit_up_ops(m, c, ops, c.current->0, Some(t));
    lemma_exit_up_marks(m, c, ops, c.current->0, Some(t));
    assert forall|e: TimerEntry|
        c.timers.contains(e) && !path_up(m, c.current->0, Some(t)).contains(e.state)
            implies #[trigger] transition(m, cap, c, ops, t).0.timers.contains(e) by {
        lemma_exit_up_keeps(m, c, ops, c.current->0, Some(t), e);
    }
}

/// A transition from the innermost active state `cur` to a state `t` that is
/// not a strict ancestor of it: with `l` the parent of `t` when `t` is `cur`
/// (a self-transition), and otherwise the deepest common ancestor of `cur`
/// and `t`, it leaves exactly the states from `cur` up to, not including,
/// `l`, innermost first, then enters exactly the states strictly below `l`
/// down to `t`, outermost first; every armed timer of a state neither left
/// nor entered stays armed as it was. `t` becomes the innermost active
/// state, and then its default chain is followed.
pub proof fn law_transition_exits_then_enters(m: ChartModel, cap: nat, c: Cfg, ops: Seq<Op>, t: u16)
    requires
        chart_wf(m),
        c.current is Some,
        (t as int) < m.states.len(),
        !is_up(m, c.current, t),
    ensures
        ({
            let cur = c.current->0;
            let l = if cur == t { parent_of(m, t) } else { lca(m, cur, t) };
            let (c1, o) = move_to(m, cap, c, ops, t);
            &&& extends(ops, o)
            &&& exited(o.skip(ops.len() as int)) == path_up(m, cur, l)
            &&& entered(o.skip(ops.len() as int)) == path_down(m, l, t)
            &&& c1.current == Some(t)
            &&& transition(m, cap, c, ops, t) == fire_default(m, cap, c1, o, t)
            &&& forall|e: TimerEntry|
                c.timers.contains(e) && !path_up(m, cur, l).contains(e.state) && !path_down(m, l, t).contains(e.state)
                    ==> #[trigger] c1.timers.contains(e)
        }),
{
    let cur = c.current->0;
    let l = if cur == t { parent_of(m, t) } else { lca(m, cur, t) };
    assert(c.current.unwrap_or(t) == cur);
    let (c1, o1) = exit_up(m, c, ops, cur, l);
    lemma_exit_up_marks(m, c, ops, cur, l);
    lemma_enter_down_marks(m, cap, c1, o1, l, t);
    let o = move_to(m, cap, c, ops, t).1;
    lemma_chain(ops, o1, o);
    if l == Some(t) {
        if cur == t {
            if t > 0 {
                assert(m.states[t as int].parent matches Some(p) && p < t);
            }
        } else {
            lemma_lca_anc(m, cur, t);
        }
    }
    assert(Seq::<u16>::empty() + path_down(m, l, t) =~= path_down(m, l, t));
    assert(path_up(m, cur, l) + Seq::<u16>::empty() =~= path_up(m, cur, l));
    assert forall|e: TimerEntry|
        c.timers.contains(e) && !path_up(m, cur, l).contains(e.state) && !path_down(m, l, t).contains(e.state)
            implies #[trigger] move_to(m, cap, c, ops, t).0.timers.contains(e) by {
        lemma_exit_up_keeps(m, c, ops, cur, l, e);
        lemma_enter_down_keeps(m, cap, c1, o1, l, t, e);
    }
}

/// A transition from the innermost active state to itself leaves and
/// re-enters that state alone, then follows its default.
pub proof fn law_self_transition(m: ChartModel, cap: nat, c: Cfg, ops: Seq<Op>, t: u16)
    requires
        chart_wf(m),
        (t as int) < m.states.len(),
        c.current == Some(t),
    ensures
        transition(m, cap, c, ops, t) == ({
            let (c1, o1) = exit_state(m, c, ops, t);
            let (c2, o2) = enter_state(m, cap, c1, o1, t);
            fire_default(m, cap, c2, o2, t)
        }),
{
    let (c1, o1) = exit_state(m, c, ops, t);
    assert(!is_up(m, c.current, t));
    if t == 0 {
        assert(m.states[0].parent is None);
        assert(exit_up(m, c, ops, t, None) == (c1, o1));
        assert(enter_down(m, cap, c1, o1, None, t) == enter_state(m, cap, c1, o1, t));
    } else {
        assert(m.states[t as int].parent matches Some(p) && p < t);
        let p = m.states[t as int].parent->0;
        assert(exit_up(m, c1, o1, p, Some(p)) == (c1, o1));
        assert(exit_up(m, c, ops, t, Some(p)) == (c1, o1));
        assert(enter_down(m, cap, c1, o1, Some(p), p) == (c1, o1));
        assert(enter_down(m, cap, c1, o1, Some(p), t) == enter_state(m, cap, c1, o1, t));
    }
}

/// The termination event, taken when no timer is due, leaves every active
/// state, ends the machine with `Terminated` and leaves no state active.
pub proof fn law_terminate_ends(m: ChartModel, cap: nat, c: Cfg, id: u16, elapsed: u128)
    requires
        c.current is Some,
        m.terminate_event == Some(id),
        !crate::timers::any_expired(crate::timers::spec_decrement(c.timers, elapsed)),
    ensures
        spec_step(m, cap, c, Some(id), elapsed).terminates,
        spec_step(m, cap, c, Some(id), elapsed).consumed,
        spec_step(m, cap, c, Some(id), elapsed).cfg.current is None,
        spec_step(m, cap, c, Some(id), elapsed).ops.last() == Op::Note(TraceEvent::Terminated),
{
}

/// `after` begins with `before`.
pub open spec fn extends(before: Seq<Op>, after: Seq<Op>) -> bool {
    before.len() <= after.len() && after.take(before.len() as int) == before
}

proof fn lemma_extends_trans_any(a: Seq<Op>, b: Seq<Op>, c: Seq<Op>)
    requires
        extends(a, b),
        extends(b, c),
    ensures
        extends(a, c),
{
    assert(c.take(a.len() as int) =~= b.take(a.len() as int));
}

proof fn lemma_push_extends(a: Seq<Op>, x: Op)
    ensures
        extends(a, a.push(x)),
{
    assert(a.push(x).take(a.len() as int) =~= a);
}

proof fn lemma_add_extends(a: Seq<Op>, b: Seq<Op>)
    ensures
        extends(a, a + b),
{
    assert((a + b).take(a.len() as int) =~= a);
}

proof fn lemma_arm_extends(m: ChartModel, cap: nat, c: Cfg, ops: Seq<Op>, s: u16, k: nat)
    ensures
        extends(ops, arm_timers(m, cap, c, ops, s, k).1),
    decreases k,
{
    if k == 0 {
        assert(ops.take(ops.len() as int) =~= ops);
    } else {
        lemma_arm_extends(m, cap, c, ops, s, (k - 1) as nat);
        let (c1, ops1) = arm_timers(m, cap, c, ops, s, (k - 1) as nat);
        let tid = m.states[s as int].timers[k - 1];
        let ns = m.timer_ns[tid as int];
        lemma_push_extends(ops1, Op::Note(TraceEvent::TimerArmed { state: s, timer: tid, ns: ns as u64 }));
        lemma_extends_trans_any(ops, ops1, arm_timers(m, cap, c, ops, s, k).1);
    }
}

proof fn lemma_enter_state_extends(m: ChartModel, cap: nat, c: Cfg, ops: Seq<Op>, s: u16)
    ensures
        extends(ops, enter_state(m, cap, c, ops, s).1),
{
    let st = m.states[s as int];
    let a = ops.push(Op::Note(TraceEvent::EnterBegan { state: s }));
    let ops1 = a + acts(s, st.entries, ActionKind::Entry, false);
    lemma_push_extends(ops, Op::Note(TraceEvent::EnterBegan { state: s }));
    lemma_add_extends(a, acts(s, st.entries, ActionKind::Entry, false));
    lemma_extends_trans_any(ops, a, ops1);
    let (c2, ops2) = arm_timers(m, cap, c, ops1, s, st.timers.len());
    lemma_arm_extends(m, cap, c, ops1, s, st.timers.len());
    lemma_extends_trans_any(ops, ops1, ops2);
    let d = during_notes(s, st.durings, true);
    lemma_add_extends(ops2, d);
    lemma_extends_trans_any(ops, ops2, ops2 + d);
    lemma_push_extends(ops2 + d, Op::Note(TraceEvent::Entered { state: s }));
    lemma_extends_trans_any(ops, ops2 + d, (ops2 + d).push(Op::Note(TraceEvent::Entered { state: s })));
}

proof fn lemma_enter_down_extends(m: ChartModel, cap: nat, c: Cfg, ops: Seq<Op>, stop: Option<u16>, t: u16)
    ensures
        extends(ops, enter_down(m, cap, c, ops, stop, t).1),
    decreases t,
{
    if stop == Some(t) {
        assert(ops.take(ops.len() as int) =~= ops);
    } else {
        let (c1, ops1) = match parent_of(m, t) {
            Some(p) => if p < t {
                enter_down(m, cap, c, ops, stop, p)
            } else {
                (c, ops)
            },
            None => (c, ops),
        };
        match parent_of(m, t) {
            Some(p) => if p < t {
                lemma_enter_down_extends(m, cap, c, ops, stop, p);
            } else {
                assert(ops.take(ops.len() as int) =~= ops);
            },
            None => {
                assert(ops.take(ops.len() as int) =~= ops);
            },
        }
        lemma_enter_state_extends(m, cap, c1, ops1, t);
        lemma_extends_trans_any(ops, ops1, enter_down(m, cap, c, ops, stop, t).1);
    }
}

proof fn lemma_move_to_extends(m: ChartModel, cap: nat, c: Cfg, ops: Seq<Op>, t: u16)
    ensures
        extends(ops, move_to(m, cap, c, ops, t).1),
{
    if is_up(m, c.current, t) {
        lemma_exit_up_ops(m, c, ops, c.current->0, Some(t));
    } else {
        let stop = if c.current == Some(t) {
            parent_of(m, t)
        } else {
            crate::semantics::lca(m, c.current.unwrap_or(t), t)
        };
        let (c1, ops1) = match c.current {
            Some(cur) => exit_up(m, c, ops, cur, stop),
            None => (c, ops),
        };
        match c.current {
            Some(cur) => {
                lemma_exit_up_ops(m, c, ops, cur, stop);
            },
            None => {
                assert(ops.take(ops.len() as int) =~= ops);
            },
        }
        lemma_enter_down_extends(m, cap, c1, ops1, stop, t);
        lemma_extends_trans_any(ops, ops1, enter_down(m, cap, c1, ops1, stop, t).1);
    }
}

proof fn lemma_fire_default_extends(m: ChartModel, cap: nat, c: Cfg, ops: Seq<Op>, s: u16)
    ensures
        extends(ops, fire_default(m, cap, c, ops, s).1),
    decreases m.rank[s as int],
{
    match m.states[s as int].default_target {
        None => {
            assert(ops.take(ops.len() as int) =~= ops);
        },
        Some(d) => if m.rank[d as int] < m.rank[s as int] {
            let from = c.current;
            let x = Op::Note(crate::journal::TraceEvent::TransitionFired { from, to: d, reason: crate::journal::TransitionReason::Internal });
            let ops1 = ops.push(x);
            lemma_push_extends(ops, x);
            let (c2, ops2) = move_to(m, cap, c, ops1, d);
            lemma_move_to_extends(m, cap, c, ops1, d);
            lemma_extends_trans_any(ops, ops1, ops2);
            let y = Op::Note(TraceEvent::TransitionComplete { from, to: d });
            let ops3 = ops2.push(y);
            lemma_push_extends(ops2, y);
            lemma_extends_trans_any(ops, ops2, ops3);
            if !is_up(m, c.current, d) {
                lemma_fire_default_extends(m, cap, c2, ops3, d);
                lemma_extends_trans_any(ops, ops3, fire_default(m, cap, c2, ops3, d).1);
            }
        } else {
            assert(ops.take(ops.len() as int) =~= ops);
        },
    }
}

/// The first step of a machine begins by noting the chart's hash.
pub proof fn law_start_notes_hash(m: ChartModel, cap: nat, c: Cfg)
    ensures
        start_step(m, cap, c).ops.len() > 0,
        start_step(m, cap, c).ops[0] == Op::Note(TraceEvent::Started { chart_hash: m.chart_hash }),
{
    let ops0 = seq![Op::Note(TraceEvent::Started { chart_hash: m.chart_hash })];
    let (c1, ops1) = enter_state(m, cap, c, ops0, 0);
    lemma_enter_state_extends(m, cap, c, ops0, 0);
    lemma_fire_default_extends(m, cap, c1, ops1, 0);
    let ops2 = fire_default(m, cap, c1, ops1, 0).1;
    lemma_extends_trans_any(ops0, ops1, ops2);
    assert(ops2[0] == ops2.take(1)[0]);
}

/// Interning keeps names distinct and positions stable: an action or event
/// variant already in the table keeps its id, a new one is appended, and the
/// returned id names the interned entry.
pub open spec fn interned_names_ok(before: Seq<Seq<char>>, after: Seq<Seq<char>>, name: Seq<char>, p: nat) -> bool {
    &&& distinct(after)
    &&& p < after.len()
    &&& after[p as int] == name
    &&& before.len() <= after.len() <= before.len() + 1
    &&& forall|i: int| 0 <= i < before.len() ==> after[i] == before[i]
    &&& (before.contains(name) ==> after == before)
}

proof fn lemma_push_distinct(s: Seq<Seq<char>>, x: Seq<char>)
    requires
        distinct(s),
        index_of(s, x) < 0,
    ensures
        distinct(s.push(x)),
{
    lemma_index_of(s, x);
    assert forall|i: int, j: int| 0 <= i < j < s.push(x).len() implies s.push(x)[i] != s.push(x)[j] by {
        if j == s.len() {
            assert(s.push(x)[i] == s[i]);
            assert(s.contains(s[i]));
        }
    }
}

/// Interning an action keeps the action names distinct (see
/// `interned_names_ok`).
pub proof fn law_action_interning(
    t: Seq<ActView>,
    name: Seq<char>,
    params: Seq<(Seq<char>, Seq<char>)>,
    variant: Seq<char>,
    kind: PayloadKind,
)
    requires
        distinct(act_names(t)),
    ensures
        act_unit_step(t, name) matches Ok((t2, p)) ==> interned_names_ok(act_names(t), act_names(t2), name, p),
        act_typed_step(t, name, params, variant, kind) matches Ok((t2, p)) ==> interned_names_ok(
            act_names(t),
            act_names(t2),
            name,
            p,
        ),
{
    let names = act_names(t);
    lemma_index_of(names, name);
    let q = index_of(names, name);
    if q < 0 {
        lemma_push_distinct(names, name);
        let n1 = ActView { name, params: Seq::empty(), bound: Seq::empty() };
        assert(act_names(t.push(n1)) =~= names.push(name));
        let n2 = ActView { name, params, bound: seq![(variant, kind)] };
        assert(act_names(t.push(n2)) =~= names.push(name));
    } else {
        assert(names.contains(name));
        if let Ok((t2, p)) = act_typed_step(t, name, params, variant, kind) {
            assert(act_names(t2) =~= names);
        }
    }
}

/// Interning an event variant keeps the variant names distinct (see
/// `interned_names_ok`).
pub proof fn law_event_interning(t: Seq<EvView>, name: Seq<char>, kind: crate::intern::VariantKind, count: Option<nat>)
    requires
        distinct(ev_names(t)),
    ensures
        ev_step(t, name, kind, count) matches Ok((t2, p)) ==> interned_names_ok(ev_names(t), ev_names(t2), name, p),
{
    let names = ev_names(t);
    lemma_index_of(names, name);
    let q = index_of(names, name);
    if q < 0 {
        lemma_push_distinct(names, name);
        assert(ev_names(t.push(EvView { name, kind, count })) =~= names.push(name));
    } else {
        assert(names.contains(name));
        if let Ok((t2, p)) = ev_step(t, name, kind, count) {
            assert(ev_names(t2) =~= names);
        }
    }
}

/// A transition that names the chart itself targets the root.
pub proof fn law_chart_name_targets_root(names: Seq<Seq<char>>, chart: Seq<char>)
    ensures
        resolve_name(names, chart, chart) == Some(0u16),
{
}

proof fn lemma_anc_le(m: ChartModel, a: u16, b: u16)
    requires
        anc_or_self(m, a, b),
    ensures
        a <= b,
    decreases b,
{
    if a != b {
        lemma_anc_le(m, a, parent_of(m, b)->0);
    }
}

/// An event goes to the innermost state on the active path that handles it:
/// the handling state is the active state `s` or one of its ancestors and
/// has a handler group for the trigger, while every state on the path below
/// it has none. When no state on the path handles it, none is found.
pub proof fn law_innermost_handler(m: ChartModel, s: u16, kind: u8, trig: u16, x: u16)
    requires
        anc_or_self(m, x, s),
    ensures
        bubble(m, s, kind, trig) matches Some(h) ==> {
            &&& anc_or_self(m, h, s)
            &&& find_group(m.states[h as int].groups, kind, trig) >= 0
            &&& (x != h && anc_or_self(m, h, x) ==> find_group(m.states[x as int].groups, kind, trig) < 0)
        },
        bubble(m, s, kind, trig) is None ==> find_group(m.states[x as int].groups, kind, trig) < 0,
    decreases s,
{
    if find_group(m.states[s as int].groups, kind, trig) >= 0 {
        if x != s && anc_or_self(m, s, x) {
            lemma_anc_le(m, s, x);
            lemma_anc_le(m, x, s);
        }
    } else if x != s {
        let p = parent_of(m, s)->0;
        law_innermost_handler(m, p, kind, trig, x);
        if let Some(h) = bubble(m, p, kind, trig) {
            assert(anc_or_self(m, h, s));
        }
    } else {
        match parent_of(m, s) {
            Some(p) => if p < s {
                law_innermost_handler(m, p, kind, trig, p);
                if let Some(h) = bubble(m, p, kind, trig) {
                    assert(anc_or_self(m, h, s));
                }
            },
            None => {},
        }
    }
}

/// An event that no active state handles (and that is not the termination
/// event), taken when no timer is due, is journaled as received and dropped;
/// the active state does not change.
pub proof fn law_unhandled_event_dropped(m: ChartModel, cap: nat, c: Cfg, id: u16, elapsed: u128)
    requires
        c.current is Some,
        m.terminate_event != Some(id),
        bubble(m, c.current->0, 0, id) is None,
        !crate::timers::any_expired(crate::timers::spec_decrement(c.timers, elapsed)),
    ensures
        spec_step(m, cap, c, Some(id), elapsed).consumed,
        !spec_step(m, cap, c, Some(id), elapsed).terminates,
        spec_step(m, cap, c, Some(id), elapsed).cfg.current == c.current,
        spec_step(m, cap, c, Some(id), elapsed).cfg.timers == crate::timers::spec_decrement(c.timers, elapsed),
        spec_step(m, cap, c, Some(id), elapsed).ops == seq![
            Op::Note(TraceEvent::EventReceived { event: id }),
            Op::Note(TraceEvent::EventDropped { event: id }),
        ],
{
}

/// An event taken from the queue when no timer is due (and that is not the
/// termination event) goes to the innermost state `h` on the active path
/// with a handler for it: the step notes `EventReceived`, then
/// `EventDelivered` for `h`, and runs exactly `h`'s handler group for the
/// event; no state on the path below `h` has one, and the handlers of
/// states above `h` do not run.
pub proof fn law_event_goes_to_innermost_handler(m: ChartModel, cap: nat, c: Cfg, id: u16, elapsed: u128, h: u16)
    requires
        c.current is Some,
        m.terminate_event != Some(id),
        id != 0xffff,
        bubble(m, c.current->0, 0, id) == Some(h),
        !crate::timers::any_expired(crate::timers::spec_decrement(c.timers, elapsed)),
    ensures
        ({
            let sm = spec_step(m, cap, c, Some(id), elapsed);
            let groups = m.states[h as int].groups;
            let c1 = Cfg { current: c.current, timers: crate::timers::spec_decrement(c.timers, elapsed) };
            let ops1 = seq![
                Op::Note(TraceEvent::EventReceived { event: id }),
                Op::Note(TraceEvent::EventDelivered { handler_state: h, event: id }),
            ];
            &&& sm.consumed
            &&& !sm.terminates
            &&& anc_or_self(m, h, c.current->0)
            &&& find_group(groups, 0, id) >= 0
            &&& (sm.cfg, sm.ops) == run_handlers(
                m, cap, c1, ops1, h, groups[find_group(groups, 0, id)], TransitionReason::Event { event: id }, true)
            &&& forall|x: u16| x != h && anc_or_self(m, x, c.current->0) && #[trigger] anc_or_self(m, h, x)
                ==> find_group(m.states[x as int].groups, 0, id) < 0
        }),
{
    law_innermost_handler(m, c.current->0, 0, id, c.current->0);
    assert forall|x: u16| x != h && anc_or_self(m, x, c.current->0) && #[trigger] anc_or_self(m, h, x)
        implies find_group(m.states[x as int].groups, 0, id) < 0 by {
        law_innermost_handler(m, c.current->0, 0, id, x);
    }
    assert(seq![Op::Note(TraceEvent::EventReceived { event: id })].push(
        Op::Note(TraceEvent::EventDelivered { handler_state: h, event: id })) =~= seq![
        Op::Note(TraceEvent::EventReceived { event: id }),
        Op::Note(TraceEvent::EventDelivered { handler_state: h, event: id }),
    ]);
}

/// A due timer is served before any queued event: the front event stays
/// queued for a later step.
pub proof fn law_timers_before_events(m: ChartModel, cap: nat, c: Cfg, front: Option<u16>, elapsed: u128)
    requires
        c.current is Some,
        crate::timers::any_expired(crate::timers::spec_decrement(c.timers, elapsed)),
    ensures
        !spec_step(m, cap, c, front, elapsed).consumed,
        !spec_step(m, cap, c, front, elapsed).terminates,
{
}

/// A handler group runs all of its actions, in declaration order, before its
/// transition: the operations begin with the actions, then (when the group
/// has a target) `TransitionFired`, and end with `TransitionComplete`.
pub proof fn law_actions_before_transition(
    m: ChartModel,
    cap: nat,
    c: Cfg,
    ops: Seq<Op>,
    s: u16,
    g: GroupModel,
    reason: TransitionReason,
    with_event: bool,
)
    ensures
        ({
            let out = run_handlers(m, cap, c, ops, s, g, reason, with_event).1;
            let pre = ops + acts(s, g.actions, ActionKind::Handler, with_event);
            &&& extends(pre, out)
            &&& g.target matches Some(t) ==> {
                &&& out.len() > pre.len() + 1
                &&& out[pre.len() as int] == Op::Note(TraceEvent::TransitionFired { from: c.current, to: t, reason })
                &&& out.last() == Op::Note(TraceEvent::TransitionComplete { from: c.current, to: t })
            }
            &&& g.target is None ==> out == pre
        }),
{
    let pre = ops + acts(s, g.actions, ActionKind::Handler, with_event);
    match g.target {
        None => {
            assert(pre.take(pre.len() as int) =~= pre);
        },
        Some(t) => {
            let x = Op::Note(TraceEvent::TransitionFired { from: c.current, to: t, reason });
            let ops2 = pre.push(x);
            lemma_push_extends(pre, x);
            let (c3, ops3) = transition(m, cap, c, ops2, t);
            let (c1, ops1) = move_to(m, cap, c, ops2, t);
            lemma_move_to_extends(m, cap, c, ops2, t);
            if !is_up(m, c.current, t) {
                lemma_fire_default_extends(m, cap, c1, ops1, t);
                lemma_extends_trans_any(ops2, ops1, ops3);
            }
            assert(extends(ops2, ops3));
            let y = Op::Note(TraceEvent::TransitionComplete { from: c.current, to: t });
            lemma_push_extends(ops3, y);
            lemma_extends_trans_any(ops2, ops3, ops3.push(y));
            lemma_extends_trans_any(pre, ops2, ops3.push(y));
            assert(ops3.push(y)[pre.len() as int] == ops3.push(y).take(ops2.len() as int)[pre.len() as int]);
        },
    }
}

/// Interning a duration trigger keeps the full keys (expression and repeat
/// flag) distinct: a trigger written again with the same expression and
/// flag gets the same timer, any other gets a new one (see
/// `interned_names_ok`).
pub proof fn law_duration_interning(t: Seq<DurView>, key: Seq<char>, expr: Seq<char>, repeat: bool)
    requires
        distinct(dur_keys(t)),
    ensures
        interned_names_ok(dur_keys(t), dur_keys(dur_step(t, key, expr, repeat).0), full_key(key, repeat), dur_step(t, key, expr, repeat).1),
{
    let keys = dur_keys(t);
    let k = full_key(key, repeat);
    lemma_index_of(keys, k);
    if index_of(keys, k) < 0 {
        lemma_push_distinct(keys, k);
        assert(dur_keys(t.push(DurView { id: id16(t.len()), key: k, expr, repeat })) =~= keys.push(k));
    } else {
        assert(keys.contains(k));
    }
}

/// A chart that `build_ir` lowers and `resolve_transitions` resolves refers
/// only into its own tables (both functions state these facts of their
/// result), so validation and drawing can follow every id it holds.
pub proof fn law_lowered_chart_is_well_indexed(ir: Ir)
    requires
        0 < ir.states@.len() <= 0x10000,
        ids_in_tables(ir),
        defaults_in_range(ir),
    ensures
        ir_indices_ok(ir),
        drawable(ir),
{
}

// ---------------------------------------------------------------------------
// Armed timers belong to active states.

/// Every timer in `t` is owned by `x` or one of its ancestors.
pub open spec fn timers_under(m: ChartModel, t: Seq<TimerEntry>, x: u16) -> bool {
    forall|i: int| 0 <= i < t.len() ==> anc_or_self(m, #[trigger] t[i].state, x)
}

/// Every armed timer is owned by a state on the active path (none is armed
/// when no state is active).
pub open spec fn timers_of_active(m: ChartModel, c: Cfg) -> bool {
    match c.current {
        Some(x) => timers_under(m, c.timers, x),
        None => c.timers.len() == 0,
    }
}

proof fn lemma_anc_trans(m: ChartModel, a: u16, b: u16, c: u16)
    requires
        anc_or_self(m, a, b),
        anc_or_self(m, b, c),
    ensures
        anc_or_self(m, a, c),
    decreases c,
{
    if b != c {
        lemma_anc_trans(m, a, b, parent_of(m, c)->0);
    }
}

proof fn lemma_timers_under_trans(m: ChartModel, t: Seq<TimerEntry>, x: u16, y: u16)
    requires
        timers_under(m, t, x),
        anc_or_self(m, x, y),
    ensures
        timers_under(m, t, y),
{
    assert forall|i: int| 0 <= i < t.len() implies anc_or_self(m, #[trigger] t[i].state, y) by {
        lemma_anc_trans(m, t[i].state, x, y);
    }
}

proof fn lemma_cancel_from(t: Seq<TimerEntry>, s: u16)
    ensures
        forall|i: int| 0 <= i < spec_cancel_state(t, s).len() ==> exists|j: int|
            0 <= j < t.len() && t[j] == #[trigger] spec_cancel_state(t, s)[i] && t[j].state != s,
    decreases t.len(),
{
    if t.len() > 0 {
        let r = spec_cancel_state(t.drop_last(), s);
        lemma_cancel_from(t.drop_last(), s);
        assert forall|i: int| 0 <= i < spec_cancel_state(t, s).len() implies exists|j: int|
            0 <= j < t.len() && t[j] == #[trigger] spec_cancel_state(t, s)[i] && t[j].state != s by {
            if i < r.len() {
                assert(spec_cancel_state(t, s)[i] == r[i]);
                let j = choose|j: int| 0 <= j < t.drop_last().len() && t.drop_last()[j] == #[trigger] r[i] && t.drop_last()[j].state != s;
                assert(t[j] == t.drop_last()[j]);
            } else {
                assert(t[t.len() - 1] == t.last());
            }
        }
    }
}

/// Leaving `cur` (whose parent is `p`) keeps the other timers under `p`.
proof fn lemma_cancel_under(m: ChartModel, t: Seq<TimerEntry>, cur: u16, p: u16)
    requires
        timers_under(m, t, cur),
        parent_of(m, cur) == Some(p),
        p < cur,
    ensures
        timers_under(m, spec_cancel_state(t, cur), p),
{
    lemma_cancel_from(t, cur);
    let r = spec_cancel_state(t, cur);
    assert forall|i: int| 0 <= i < r.len() implies anc_or_self(m, #[trigger] r[i].state, p) by {
        let j = choose|j: int| 0 <= j < t.len() && t[j] == #[trigger] r[i] && t[j].state != cur;
        assert(anc_or_self(m, t[j].state, cur));
    }
}

/// Leaving the root leaves no timer armed.
proof fn lemma_cancel_root(m: ChartModel, t: Seq<TimerEntry>, cur: u16)
    requires
        timers_under(m, t, cur),
        parent_of(m, cur) is None || parent_of(m, cur)->0 >= cur,
    ensures
        spec_cancel_state(t, cur).len() == 0,
{
    lemma_cancel_from(t, cur);
    let r = spec_cancel_state(t, cur);
    if r.len() > 0 {
        let j = choose|j: int| 0 <= j < t.len() && t[j] == #[trigger] r[0] && t[j].state != cur;
        assert(anc_or_self(m, t[j].state, cur));
    }
}

/// Arming a timer of `s` keeps the timers under any `x` above `s`.
proof fn lemma_start_under(m: ChartModel, t: Seq<TimerEntry>, cap: nat, s: u16, tr: u16, ns: u128, x: u16)
    requires
        timers_under(m, t, x),
        anc_or_self(m, s, x),
    ensures
        timers_under(m, spec_timer_start(t, cap, s, tr, ns), x),
{
    lemma_first_key_index_bounds(t, s, tr);
    let r = spec_timer_start(t, cap, s, tr, ns);
    assert forall|i: int| 0 <= i < r.len() implies anc_or_self(m, #[trigger] r[i].state, x) by {
        if i < t.len() && r[i] == t[i] {
        } else {
            assert(r[i].state == s);
        }
    }
}

proof fn lemma_arm_under(m: ChartModel, cap: nat, c: Cfg, ops: Seq<Op>, s: u16, k: nat, x: u16)
    requires
        timers_under(m, c.timers, x),
        anc_or_self(m, s, x),
    ensures
        timers_under(m, arm_timers(m, cap, c, ops, s, k).0.timers, x),
        arm_timers(m, cap, c, ops, s, k).0.current == c.current,
    decreases k,
{
    if k > 0 {
        lemma_arm_under(m, cap, c, ops, s, (k - 1) as nat, x);
        let (c1, _) = arm_timers(m, cap, c, ops, s, (k - 1) as nat);
        let tid = m.states[s as int].timers[k - 1];
        lemma_start_under(m, c1.timers, cap, s, tid, m.timer_ns[tid as int], x);
    }
}

/// Leaving the states from `cur` up to (not including) `stop`: the timers
/// left are under `stop`, which is an ancestor of `cur`; none are left when
/// the walk leaves the root.
proof fn lemma_exit_up_timers(m: ChartModel, c: Cfg, ops: Seq<Op>, cur: u16, stop: Option<u16>)
    requires
        timers_under(m, c.timers, cur),
    ensures
        ({
            let r = exit_up(m, c, ops, cur, stop).0;
            &&& r.current == c.current
            &&& match stop {
                Some(st) => if anc_or_self(m, st, cur) {
                    timers_under(m, r.timers, st)
                } else {
                    r.timers.len() == 0
                },
                None => r.timers.len() == 0,
            }
        }),
    decreases cur,
{
    if stop == Some(cur) {
    } else {
        let (c1, ops1) = exit_state(m, c, ops, cur);
        match parent_of(m, cur) {
            Some(p) => if p < cur {
                lemma_cancel_under(m, c.timers, cur, p);
                lemma_exit_up_timers(m, c1, ops1, p, stop);
                if let Some(st) = stop {
                    if anc_or_self(m, st, cur) {
                        assert(anc_or_self(m, st, p));
                    } else if anc_or_self(m, st, p) {
                        assert(anc_or_self(m, st, cur));
                    }
                }
            } else {
                lemma_cancel_root(m, c.timers, cur);
                if let Some(st) = stop {
                    if anc_or_self(m, st, cur) {
                        assert(st == cur);
                    }
                }
            },
            None => {
                lemma_cancel_root(m, c.timers, cur);
                if let Some(st) = stop {
                    if anc_or_self(m, st, cur) {
                        assert(st == cur);
                    }
                }
            },
        }
    }
}

/// Entering the states from just below `stop` down to `t`, with the armed
/// timers under `stop` (none when `stop` is `None`): the timers end up under
/// `t`, which becomes the innermost active state.
proof fn lemma_enter_down_timers(m: ChartModel, cap: nat, c: Cfg, ops: Seq<Op>, stop: Option<u16>, t: u16)
    requires
        stop != Some(t),
        match stop {
            Some(st) => anc_or_self(m, st, t) && timers_under(m, c.timers, st),
            None => c.timers.len() == 0,
        },
    ensures
        timers_under(m, enter_down(m, cap, c, ops, stop, t).0.timers, t),
        enter_down(m, cap, c, ops, stop, t).0.current == Some(t),
    decreases t,
{
    let (c1, ops1) = match parent_of(m, t) {
        Some(p) => if p < t {
            enter_down(m, cap, c, ops, stop, p)
        } else {
            (c, ops)
        },
        None => (c, ops),
    };
    match parent_of(m, t) {
        Some(p) => if p < t {
            assert(anc_or_self(m, p, p));
            assert(anc_or_self(m, p, t));
            if stop == Some(p) {
                lemma_timers_under_trans(m, c.timers, p, t);
            } else {
                lemma_enter_down_timers(m, cap, c, ops, stop, p);
                lemma_timers_under_trans(m, c1.timers, p, t);
            }
        } else {
        },
        None => {},
    }
    let st = m.states[t as int];
    let ops2 = ops1.push(Op::Note(TraceEvent::EnterBegan { state: t })) + acts(t, st.entries, ActionKind::Entry, false);
    lemma_arm_under(m, cap, c1, ops2, t, st.timers.len(), t);
}

proof fn lemma_lca_anc(m: ChartModel, a: u16, b: u16)
    ensures
        lca(m, a, b) matches Some(x) ==> anc_or_self(m, x, a) && anc_or_self(m, x, b),
    decreases b,
{
    if !anc_or_self(m, b, a) {
        if let Some(p) = parent_of(m, b) {
            if p < b {
                lemma_lca_anc(m, a, p);
            }
        }
    }
}

/// Moving from the innermost active state to `t` keeps every timer under the
/// new innermost active state `t`.
proof fn lemma_move_to_timers(m: ChartModel, cap: nat, c: Cfg, ops: Seq<Op>, t: u16)
    requires
        chart_wf(m),
        (t as int) < m.states.len(),
        c.current is Some,
        timers_under(m, c.timers, c.current->0),
    ensures
        move_to(m, cap, c, ops, t).0.current == Some(t),
        timers_under(m, move_to(m, cap, c, ops, t).0.timers, t),
{
    let cur = c.current->0;
    if is_up(m, c.current, t) {
        lemma_exit_up_timers(m, c, ops, cur, Some(t));
    } else {
        let stop = if c.current == Some(t) {
            parent_of(m, t)
        } else {
            lca(m, cur, t)
        };
        lemma_exit_up_timers(m, c, ops, cur, stop);
        let (c1, ops1) = exit_up(m, c, ops, cur, stop);
        if c.current == Some(t) {
            if let Some(p) = parent_of(m, t) {
                assert(t != 0 && p < t);
                assert(anc_or_self(m, p, p));
                assert(anc_or_self(m, p, t));
            }
        } else {
            lemma_lca_anc(m, cur, t);
        }
        lemma_enter_down_timers(m, cap, c1, ops1, stop, t);
    }
}

proof fn lemma_fire_default_timers(m: ChartModel, cap: nat, c: Cfg, ops: Seq<Op>, s: u16)
    requires
        chart_wf(m),
        (s as int) < m.states.len(),
        c.current matches Some(x) && (x as int) < m.states.len(),
        timers_under(m, c.timers, c.current->0),
    ensures
        fire_default(m, cap, c, ops, s).0.current matches Some(x) && (x as int) < m.states.len(),
        timers_under(m, fire_default(m, cap, c, ops, s).0.timers, fire_default(m, cap, c, ops, s).0.current->0),
    decreases m.rank[s as int],
{
    match m.states[s as int].default_target {
        None => {},
        Some(d) => if m.rank[d as int] < m.rank[s as int] {
            let from = c.current;
            let ops1 = ops.push(Op::Note(TraceEvent::TransitionFired { from, to: d, reason: TransitionReason::Internal }));
            lemma_move_to_timers(m, cap, c, ops1, d);
            let (c2, ops2) = move_to(m, cap, c, ops1, d);
            let ops3 = ops2.push(Op::Note(TraceEvent::TransitionComplete { from, to: d }));
            if !is_up(m, c.current, d) {
                lemma_fire_default_timers(m, cap, c2, ops3, d);
            }
        } else {
        },
    }
}

proof fn lemma_transition_timers(m: ChartModel, cap: nat, c: Cfg, ops: Seq<Op>, t: u16)
    requires
        chart_wf(m),
        (t as int) < m.states.len(),
        c.current matches Some(x) && (x as int) < m.states.len(),
        timers_under(m, c.timers, c.current->0),
    ensures
        transition(m, cap, c, ops, t).0.current matches Some(x) && (x as int) < m.states.len(),
        timers_under(m, transition(m, cap, c, ops, t).0.timers, transition(m, cap, c, ops, t).0.current->0),
{
    lemma_move_to_timers(m, cap, c, ops, t);
    let (c1, ops1) = move_to(m, cap, c, ops, t);
    if !is_up(m, c.current, t) {
        lemma_fire_default_timers(m, cap, c1, ops1, t);
    }
}

proof fn lemma_run_handlers_timers(
    m: ChartModel,
    cap: nat,
    c: Cfg,
    ops: Seq<Op>,
    s: u16,
    g: GroupModel,
    reason: TransitionReason,
    with_event: bool,
)
    requires
        chart_wf(m),
        g.target matches Some(t) ==> (t as int) < m.states.len(),
        c.current matches Some(x) && (x as int) < m.states.len(),
        timers_under(m, c.timers, c.current->0),
    ensures
        timers_of_active(m, run_handlers(m, cap, c, ops, s, g, reason, with_event).0),
{
    let ops1 = ops + acts(s, g.actions, ActionKind::Handler, with_event);
    if let Some(t) = g.target {
        let ops2 = ops1.push(Op::Note(TraceEvent::TransitionFired { from: c.current, to: t, reason }));
        lemma_transition_timers(m, cap, c, ops2, t);
    }
}

/// Timers run only while their state is active: if every armed timer is
/// owned by a state on the active path before a step, the same holds after
/// it. A state's timers are cancelled when it is left, armed when it is
/// entered, and no timer stays armed once the machine terminates.
pub proof fn law_timers_belong_to_active_states(m: ChartModel, cap: nat, c: Cfg, front: Option<u16>, elapsed: u128)
    requires
        chart_wf(m),
        c.current matches Some(x) ==> (x as int) < m.states.len(),
        timers_of_active(m, c),
    ensures
        timers_of_active(m, spec_step(m, cap, c, front, elapsed).cfg),
{
    if c.current is None {
        let ops0 = seq![Op::Note(TraceEvent::Started { chart_hash: m.chart_hash })];
        let st = m.states[0];
        let ops1 = ops0.push(Op::Note(TraceEvent::EnterBegan { state: 0 })) + acts(0, st.entries, ActionKind::Entry, false);
        lemma_arm_under(m, cap, c, ops1, 0, st.timers.len(), 0);
        let (c1, o1) = enter_state(m, cap, c, ops0, 0);
        lemma_fire_default_timers(m, cap, c1, o1, 0);
    } else {
        let cur = c.current->0;
        let t1 = crate::timers::spec_decrement(c.timers, elapsed);
        assert(timers_under(m, t1, cur)) by {
            assert forall|i: int| 0 <= i < t1.len() implies anc_or_self(m, #[trigger] t1[i].state, cur) by {
                assert(t1[i].state == c.timers[i].state);
            }
        }
        if crate::timers::any_expired(t1) {
            let depths = m.states.map_values(|s: crate::semantics::StateModel| s.depth);
            let k = choose|k: int| crate::timers::is_chosen_expired(t1, depths, k);
            if crate::timers::is_chosen_expired(t1, depths, k) {
                let e = t1[k];
                let t2 = crate::semantics::remove_at(t1, k);
                assert(timers_under(m, t2, cur)) by {
                    assert forall|i: int| 0 <= i < t2.len() implies anc_or_self(m, #[trigger] t2[i].state, cur) by {
                        if i < k {
                            assert(t2[i] == t1[i]);
                        } else {
                            assert(t2[i] == t1[i + 1]);
                        }
                    }
                }
                let ns = m.timer_ns[e.trigger as int];
                assert(anc_or_self(m, e.state, cur));
                lemma_start_under(m, t2, cap, e.state, e.trigger, ns, cur);
                let t3 = if m.timer_repeats[e.trigger as int] {
                    spec_timer_start(t2, cap, e.state, e.trigger, ns)
                } else {
                    t2
                };
                let ops0 = seq![Op::Note(TraceEvent::TimerFired { state: e.state, timer: e.trigger })];
                let ops1 = if m.timer_repeats[e.trigger as int] {
                    ops0.push(Op::Note(TraceEvent::TimerArmed { state: e.state, timer: e.trigger, ns: ns as u64 }))
                } else {
                    ops0
                };
                let c1 = Cfg { current: c.current, timers: t3 };
                let groups = m.states[e.state as int].groups;
                let gi = find_group(groups, 1, e.trigger);
                lemma_anc_le(m, e.state, cur);
                lemma_find_group_bounds(groups, 1, e.trigger);
                if gi >= 0 {
                    assert(groups[gi].target matches Some(t) ==> (t as int) < m.states.len()) by {
                        assert(m.states[e.state as int].groups[gi] == groups[gi]);
                    }
                    lemma_run_handlers_timers(
                        m,
                        cap,
                        c1,
                        ops1,
                        e.state,
                        groups[gi],
                        TransitionReason::Timer { state: e.state, timer: e.trigger },
                        false,
                    );
                }
            } else {
                assert(false) by {
                    crate::timers::lemma_chosen_expired_exists(t1, depths);
                }
            }
        } else {
            let c1 = Cfg { current: c.current, timers: t1 };
            if let Some(id) = front {
                let ops0 = seq![Op::Note(TraceEvent::EventReceived { event: id })];
                if m.terminate_event == Some(id) {
                    let ops1 = ops0.push(Op::Note(TraceEvent::TerminateRequested { event: id }));
                    lemma_exit_up_timers(m, c1, ops1, cur, None);
                } else if id != 0xffff {
                    if let Some(s) = bubble(m, cur, 0, id) {
                        let groups = m.states[s as int].groups;
                        law_innermost_handler(m, cur, 0, id, cur);
                        lemma_anc_le(m, s, cur);
                        lemma_find_group_bounds(groups, 0, id);
                        let g = groups[find_group(groups, 0, id)];
                        assert(g.target matches Some(t) ==> (t as int) < m.states.len()) by {
                            assert(m.states[s as int].groups[find_group(groups, 0, id)] == g);
                        }
                        let ops1 = ops0.push(Op::Note(TraceEvent::EventDelivered { handler_state: s, event: id }));
                        lemma_run_handlers_timers(m, cap, c1, ops1, s, g, TransitionReason::Event { event: id }, true);
                    }
                }
            }
        }
    }
}

/// No two armed timers share a (state, timer) key.
pub open spec fn keys_distinct(t: Seq<TimerEntry>) -> bool {
    forall|i: int, j: int| #![trigger t[i], t[j]] 0 <= i < j < t.len() ==> !has_key(t[i], t[j].state, t[j].trigger)
}

/// Starting a timer keeps the armed keys distinct, and arms it with its full
/// duration whenever its key is already armed (it is reset in place) or the
/// table has a free slot (it is appended).
pub proof fn law_timer_start_arms(s: Seq<TimerEntry>, cap: nat, state: u16, trigger: u16, ns: u128)
    requires
        keys_distinct(s),
    ensures
        keys_distinct(spec_timer_start(s, cap, state, trigger, ns)),
        first_key_index(s, state, trigger) >= 0 || s.len() < cap ==> {
            let r = spec_timer_start(s, cap, state, trigger, ns);
            let i = first_key_index(r, state, trigger);
            &&& 0 <= i < r.len()
            &&& r[i] == TimerEntry { state, trigger, remaining_ns: ns }
        },
{
    lemma_first_key_index_bounds(s, state, trigger);
    let e = TimerEntry { state, trigger, remaining_ns: ns };
    let k = first_key_index(s, state, trigger);
    let r = spec_timer_start(s, cap, state, trigger, ns);
    if k >= 0 {
        assert(r == s.update(k, e));
        assert forall|i: int, j: int| 0 <= i < j < r.len() implies !has_key(r[i], r[j].state, r[j].trigger) by {
            assert(has_key(s[k], e.state, e.trigger));
        }
        assert forall|j: int| 0 <= j < k implies !has_key(#[trigger] r[j], state, trigger) by {
            assert(r[j] == s[j]);
        }
        lemma_first_key_index_at(r, state, trigger, k);
    } else if s.len() < cap {
        assert(r == s.push(e));
        assert forall|i: int, j: int| 0 <= i < j < r.len() implies !has_key(r[i], r[j].state, r[j].trigger) by {
            if j == s.len() {
                assert(r[i] == s[i]);
                assert(!has_key(s[i], state, trigger));
            } else {
                assert(r[i] == s[i] && r[j] == s[j]);
            }
        }
        assert forall|j: int| 0 <= j < s.len() implies !has_key(#[trigger] r[j], state, trigger) by {
            assert(r[j] == s[j]);
        }
        lemma_first_key_index_at(r, state, trigger, s.len() as int);
    }
}

/// The states `cur`, its parent, and so on up to, not including, `stop`
/// (through the root when `stop` is never met), innermost first.
pub open spec fn path_up(m: ChartModel, cur: u16, stop: Option<u16>) -> Seq<u16>
    decreases cur,
{
    if stop == Some(cur) {
        Seq::empty()
    } else {
        seq![cur] + match parent_of(m, cur) {
            Some(p) => if p < cur {
                path_up(m, p, stop)
            } else {
                Seq::empty()
            },
            None => Seq::empty(),
        }
    }
}

/// The states strictly below `stop` down to `t`, outermost first.
pub open spec fn path_down(m: ChartModel, stop: Option<u16>, t: u16) -> Seq<u16>
    decreases t,
{
    if stop == Some(t) {
        Seq::empty()
    } else {
        match parent_of(m, t) {
            Some(p) => if p < t {
                path_down(m, stop, p)
            } else {
                Seq::empty()
            },
            None => Seq::empty(),
        }.push(t)
    }
}

/// The states named by the `Exited` notes of `ops`, in order.
pub open spec fn exited(ops: Seq<Op>) -> Seq<u16>
    decreases ops.len(),
{
    if ops.len() == 0 {
        Seq::empty()
    } else {
        exited(ops.drop_last()) + match ops.last() {
            Op::Note(TraceEvent::Exited { state }) => seq![state],
            _ => Seq::empty(),
        }
    }
}

/// The states named by the `Entered` notes of `ops`, in order.
pub open spec fn entered(ops: Seq<Op>) -> Seq<u16>
    decreases ops.len(),
{
    if ops.len() == 0 {
        Seq::empty()
    } else {
        entered(ops.drop_last()) + match ops.last() {
            Op::Note(TraceEvent::Entered { state }) => seq![state],
            _ => Seq::empty(),
        }
    }
}

/// Neither an `Exited` nor an `Entered` note.
pub open spec fn neutral(op: Op) -> bool {
    !(op matches Op::Note(TraceEvent::Exited { .. })) && !(op matches Op::Note(TraceEvent::Entered { .. }))
}

proof fn lemma_marks_add(a: Seq<Op>, b: Seq<Op>)
    ensures
        exited(a + b) == exited(a) + exited(b),
        entered(a + b) == entered(a) + entered(b),
    decreases b.len(),
{
    if b.len() == 0 {
        assert(a + b =~= a);
        assert(exited(a) + exited(b) =~= exited(a));
        assert(entered(a) + entered(b) =~= entered(a));
    } else {
        assert((a + b).drop_last() =~= a + b.drop_last());
        lemma_marks_add(a, b.drop_last());
        assert((a + b).last() == b.last());
        assert(exited(a + b) =~= exited(a) + exited(b));
        assert(entered(a + b) =~= entered(a) + entered(b));
    }
}

proof fn lemma_marks_neutral(x: Seq<Op>)
    requires
        forall|i: int| 0 <= i < x.len() ==> neutral(#[trigger] x[i]),
    ensures
        exited(x) == Seq::<u16>::empty(),
        entered(x) == Seq::<u16>::empty(),
    decreases x.len(),
{
    if x.len() > 0 {
        assert forall|i: int| 0 <= i < x.drop_last().len() implies neutral(#[trigger] x.drop_last()[i]) by {
            assert(x.drop_last()[i] == x[i]);
        }
        lemma_marks_neutral(x.drop_last());
        assert(neutral(x[x.len() - 1]));
        assert(exited(x) =~= Seq::<u16>::empty());
        assert(entered(x) =~= Seq::<u16>::empty());
    }
}

proof fn lemma_exit_state_marks(m: ChartModel, c: Cfg, ops: Seq<Op>, s: u16)
    ensures
        ({
            let o = exit_state(m, c, ops, s).1;
            &&& extends(ops, o)
            &&& exited(o.skip(ops.len() as int)) == seq![s]
            &&& entered(o.skip(ops.len() as int)) == Seq::<u16>::empty()
        }),
{
    let st = m.states[s as int];
    let a = seq![Op::Note(TraceEvent::ExitBegan { state: s })];
    let b = during_notes(s, st.durings, false);
    let cn = cancel_notes(s, st.timers);
    let d = acts(s, st.exits, ActionKind::Exit, false);
    let e = seq![Op::Note(TraceEvent::Exited { state: s })];
    let o = exit_state(m, c, ops, s).1;
    assert(o =~= ops + (a + b + cn + d + e));
    assert(o.skip(ops.len() as int) =~= a + b + cn + d + e);
    assert(o.take(ops.len() as int) =~= ops);
    assert(neutral(a[0]));
    lemma_marks_neutral(a);
    assert forall|i: int| 0 <= i < b.len() implies neutral(#[trigger] b[i]) by {}
    lemma_marks_neutral(b);
    assert forall|i: int| 0 <= i < cn.len() implies neutral(#[trigger] cn[i]) by {}
    lemma_marks_neutral(cn);
    assert forall|i: int| 0 <= i < d.len() implies neutral(#[trigger] d[i]) by {}
    lemma_marks_neutral(d);
    lemma_marks_add(a, b);
    lemma_marks_add(a + b, cn);
    lemma_marks_add(a + b + cn, d);
    lemma_marks_add(a + b + cn + d, e);
    assert(e.drop_last() =~= Seq::<Op>::empty());
    assert(exited(Seq::<Op>::empty()) =~= Seq::<u16>::empty());
    assert(entered(Seq::<Op>::empty()) =~= Seq::<u16>::empty());
    assert(e.last() == Op::Note(TraceEvent::Exited { state: s }));
    assert(exited(e) =~= seq![s]);
    assert(entered(e) =~= Seq::<u16>::empty());
    assert(exited(a + b + cn + d + e) =~= seq![s]);
    assert(entered(a + b + cn + d + e) =~= Seq::<u16>::empty());
}

proof fn lemma_chain(ops: Seq<Op>, o1: Seq<Op>, o: Seq<Op>)
    requires
        extends(ops, o1),
        extends(o1, o),
    ensures
        extends(ops, o),
        o.skip(ops.len() as int) == o1.skip(ops.len() as int) + o.skip(o1.len() as int),
        exited(o.skip(ops.len() as int)) == exited(o1.skip(ops.len() as int)) + exited(o.skip(o1.len() as int)),
        entered(o.skip(ops.len() as int)) == entered(o1.skip(ops.len() as int)) + entered(o.skip(o1.len() as int)),
{
    assert(o.take(ops.len() as int) =~= o.take(o1.len() as int).take(ops.len() as int));
    assert(o.skip(ops.len() as int) =~= o1.skip(ops.len() as int) + o.skip(o1.len() as int)) by {
        assert forall|i: int| 0 <= i < o1.len() implies o[i] == o1[i] by {
            assert(o.take(o1.len() as int)[i] == o[i]);
        }
    }
    lemma_marks_add(o1.skip(ops.len() as int), o.skip(o1.len() as int));
}

proof fn lemma_exit_up_marks(m: ChartModel, c: Cfg, ops: Seq<Op>, cur: u16, stop: Option<u16>)
    ensures
        ({
            let o = exit_up(m, c, ops, cur, stop).1;
            &&& extends(ops, o)
            &&& exited(o.skip(ops.len() as int)) == path_up(m, cur, stop)
            &&& entered(o.skip(ops.len() as int)) == Seq::<u16>::empty()
        }),
    decreases cur,
{
    let o = exit_up(m, c, ops, cur, stop).1;
    if stop == Some(cur) {
        assert(o.skip(ops.len() as int) =~= Seq::<Op>::empty());
        assert(o.take(ops.len() as int) =~= ops);
    } else {
        let (c1, o1) = exit_state(m, c, ops, cur);
        lemma_exit_state_marks(m, c, ops, cur);
        let rest = match parent_of(m, cur) {
            Some(p) => if p < cur {
                path_up(m, p, stop)
            } else {
                Seq::empty()
            },
            None => Seq::empty(),
        };
        if parent_of(m, cur) is Some && parent_of(m, cur)->0 < cur {
            let p = parent_of(m, cur)->0;
            lemma_exit_up_marks(m, c1, o1, p, stop);
            lemma_chain(ops, o1, o);
        } else {
            assert(o == o1);
            assert(o1.take(o1.len() as int) =~= o1);
            assert(o1.skip(o1.len() as int) =~= Seq::<Op>::empty());
            assert(exited(Seq::<Op>::empty()) =~= Seq::<u16>::empty());
            assert(entered(Seq::<Op>::empty()) =~= Seq::<u16>::empty());
            lemma_chain(ops, o1, o);
        }
        assert(path_up(m, cur, stop) =~= seq![cur] + rest);
    }
}

proof fn lemma_arm_marks(m: ChartModel, cap: nat, c: Cfg, ops: Seq<Op>, s: u16, k: nat)
    ensures
        ({
            let (c1, o) = arm_timers(m, cap, c, ops, s, k);
            &&& extends(ops, o)
            &&& exited(o.skip(ops.len() as int)) == Seq::<u16>::empty()
            &&& entered(o.skip(ops.len() as int)) == Seq::<u16>::empty()
            &&& c1.current == c.current
        }),
    decreases k,
{
    let o = arm_timers(m, cap, c, ops, s, k).1;
    assert(exited(Seq::<Op>::empty()) =~= Seq::<u16>::empty());
    assert(entered(Seq::<Op>::empty()) =~= Seq::<u16>::empty());
    if k == 0 {
        assert(o.take(ops.len() as int) =~= ops);
        assert(o.skip(ops.len() as int) =~= Seq::<Op>::empty());
    } else {
        let (c1, o1) = arm_timers(m, cap, c, ops, s, (k - 1) as nat);
        lemma_arm_marks(m, cap, c, ops, s, (k - 1) as nat);
        let x = o.skip(o1.len() as int);
        assert(o =~= o1 + x);
        assert(o.take(o1.len() as int) =~= o1);
        assert(x.len() == 1 && neutral(x[0]));
        lemma_marks_neutral(x);
        lemma_chain(ops, o1, o);
    }
}

proof fn lemma_enter_state_marks(m: ChartModel, cap: nat, c: Cfg, ops: Seq<Op>, s: u16)
    ensures
        ({
            let (c1, o) = enter_state(m, cap, c, ops, s);
            &&& extends(ops, o)
            &&& exited(o.skip(ops.len() as int)) == Seq::<u16>::empty()
            &&& entered(o.skip(ops.len() as int)) == seq![s]
            &&& c1.current == Some(s)
        }),
{
    let st = m.states[s as int];
    let a = seq![Op::Note(TraceEvent::EnterBegan { state: s })];
    let d = acts(s, st.entries, ActionKind::Entry, false);
    let ops1 = ops + (a + d);
    assert(ops.push(Op::Note(TraceEvent::EnterBegan { state: s })) + d =~= ops1);
    let (c2, ops2) = arm_timers(m, cap, c, ops1, s, st.timers.len());
    lemma_arm_marks(m, cap, c, ops1, s, st.timers.len());
    let b = during_notes(s, st.durings, true);
    let e = seq![Op::Note(TraceEvent::Entered { state: s })];
    let o = enter_state(m, cap, c, ops, s).1;
    assert(o =~= ops2 + (b + e));
    assert(neutral(a[0]));
    lemma_marks_neutral(a);
    assert forall|i: int| 0 <= i < d.len() implies neutral(#[trigger] d[i]) by {}
    lemma_marks_neutral(d);
    assert forall|i: int| 0 <= i < b.len() implies neutral(#[trigger] b[i]) by {}
    lemma_marks_neutral(b);
    lemma_marks_add(a, d);
    lemma_marks_add(b, e);
    assert(e.drop_last() =~= Seq::<Op>::empty());
    assert(exited(Seq::<Op>::empty()) =~= Seq::<u16>::empty());
    assert(entered(Seq::<Op>::empty()) =~= Seq::<u16>::empty());
    assert(e.last() == Op::Note(TraceEvent::Entered { state: s }));
    assert(exited(e) =~= Seq::<u16>::empty());
    assert(entered(e) =~= seq![s]);
    assert(ops1.take(ops.len() as int) =~= ops);
    assert(ops1.skip(ops.len() as int) =~= a + d);
    assert(o.take(ops2.len() as int) =~= ops2);
    assert(o.skip(ops2.len() as int) =~= b + e);
    lemma_chain(ops, ops1, ops2);
    lemma_chain(ops, ops2, o);
    assert(entered(o.skip(ops.len() as int)) =~= seq![s]);
}

proof fn lemma_enter_down_marks(m: ChartModel, cap: nat, c: Cfg, ops: Seq<Op>, stop: Option<u16>, t: u16)
    ensures
        ({
            let (c1, o) = enter_down(m, cap, c, ops, stop, t);
            &&& extends(ops, o)
            &&& exited(o.skip(ops.len() as int)) == Seq::<u16>::empty()
            &&& entered(o.skip(ops.len() as int)) == path_down(m, stop, t)
            &&& stop != Some(t) ==> c1.current == Some(t)
        }),
    decreases t,
{
    let o = enter_down(m, cap, c, ops, stop, t).1;
    assert(exited(Seq::<Op>::empty()) =~= Seq::<u16>::empty());
    assert(entered(Seq::<Op>::empty()) =~= Seq::<u16>::empty());
    if stop == Some(t) {
        assert(o.take(ops.len() as int) =~= ops);
        assert(o.skip(ops.len() as int) =~= Seq::<Op>::empty());
    } else {
        let (c1, o1) = match parent_of(m, t) {
            Some(p) => if p < t {
                enter_down(m, cap, c, ops, stop, p)
            } else {
                (c, ops)
            },
            None => (c, ops),
        };
        if parent_of(m, t) is Some && parent_of(m, t)->0 < t {
            lemma_enter_down_marks(m, cap, c, ops, stop, parent_of(m, t)->0);
        } else {
            assert(o1.take(ops.len() as int) =~= ops);
            assert(o1.skip(ops.len() as int) =~= Seq::<Op>::empty());
        }
        lemma_enter_state_marks(m, cap, c1, o1, t);
        lemma_chain(ops, o1, o);
    }
}

proof fn lemma_cancel_keeps(t: Seq<TimerEntry>, s: u16, e: TimerEntry)
    requires
        t.contains(e),
        e.state != s,
    ensures
        spec_cancel_state(t, s).contains(e),
    decreases t.len(),
{
    let r = spec_cancel_state(t.drop_last(), s);
    if t.last() == e {
        assert(spec_cancel_state(t, s) == r.push(t.last()));
        assert(r.push(t.last())[r.len() as int] == e);
    } else {
        let i = choose|i: int| 0 <= i < t.len() && t[i] == e;
        assert(i < t.len() - 1);
        assert(t.drop_last()[i] == e);
        lemma_cancel_keeps(t.drop_last(), s, e);
        let j = choose|j: int| 0 <= j < r.len() && r[j] == e;
        if t.last().state != s {
            assert(r.push(t.last())[j] == e);
        }
    }
}

proof fn lemma_start_keeps(t: Seq<TimerEntry>, cap: nat, st: u16, tr: u16, ns: u128, e: TimerEntry)
    requires
        t.contains(e),
        !has_key(e, st, tr),
    ensures
        spec_timer_start(t, cap, st, tr, ns).contains(e),
{
    lemma_first_key_index_bounds(t, st, tr);
    let i = choose|i: int| 0 <= i < t.len() && t[i] == e;
    let k = first_key_index(t, st, tr);
    let r = spec_timer_start(t, cap, st, tr, ns);
    if k >= 0 {
        assert(k != i);
        assert(r[i] == e);
    } else if t.len() < cap {
        assert(r[i] == e);
    }
}

proof fn lemma_exit_up_keeps(m: ChartModel, c: Cfg, ops: Seq<Op>, cur: u16, stop: Option<u16>, e: TimerEntry)
    requires
        c.timers.contains(e),
        !path_up(m, cur, stop).contains(e.state),
    ensures
        exit_up(m, c, ops, cur, stop).0.timers.contains(e),
    decreases cur,
{
    if stop != Some(cur) {
        let (c1, o1) = exit_state(m, c, ops, cur);
        assert(path_up(m, cur, stop)[0] == cur);
        lemma_cancel_keeps(c.timers, cur, e);
        if parent_of(m, cur) is Some && parent_of(m, cur)->0 < cur {
            let p = parent_of(m, cur)->0;
            if path_up(m, p, stop).contains(e.state) {
                let j = choose|j: int| 0 <= j < path_up(m, p, stop).len() && path_up(m, p, stop)[j] == e.state;
                assert(path_up(m, cur, stop)[j + 1] == e.state);
            }
            lemma_exit_up_keeps(m, c1, o1, p, stop, e);
        }
    }
}

proof fn lemma_arm_keeps(m: ChartModel, cap: nat, c: Cfg, ops: Seq<Op>, s: u16, k: nat, e: TimerEntry)
    requires
        c.timers.contains(e),
        e.state != s,
    ensures
        arm_timers(m, cap, c, ops, s, k).0.timers.contains(e),
    decreases k,
{
    if k > 0 {
        let (c1, o1) = arm_timers(m, cap, c, ops, s, (k - 1) as nat);
        lemma_arm_keeps(m, cap, c, ops, s, (k - 1) as nat, e);
        let tid = m.states[s as int].timers[k - 1];
        lemma_start_keeps(c1.timers, cap, s, tid, m.timer_ns[tid as int], e);
    }
}

proof fn lemma_enter_down_keeps(m: ChartModel, cap: nat, c: Cfg, ops: Seq<Op>, stop: Option<u16>, t: u16, e: TimerEntry)
    requires
        c.timers.contains(e),
        !path_down(m, stop, t).contains(e.state),
    ensures
        enter_down(m, cap, c, ops, stop, t).0.timers.contains(e),
    decreases t,
{
    if stop != Some(t) {
        let front = match parent_of(m, t) {
            Some(p) => if p < t {
                path_down(m, stop, p)
            } else {
                Seq::empty()
            },
            None => Seq::empty(),
        };
        assert(path_down(m, stop, t) == front.push(t));
        assert(path_down(m, stop, t)[front.len() as int] == t);
        let (c1, o1) = match parent_of(m, t) {
            Some(p) => if p < t {
                enter_down(m, cap, c, ops, stop, p)
            } else {
                (c, ops)
            },
            None => (c, ops),
        };
        if parent_of(m, t) is Some && parent_of(m, t)->0 < t {
            let p = parent_of(m, t)->0;
            if front.contains(e.state) {
                let j = choose|j: int| 0 <= j < front.len() && front[j] == e.state;
                assert(path_down(m, stop, t)[j] == e.state);
            }
            lemma_enter_down_keeps(m, cap, c, ops, stop, p, e);
        }
        let st = m.states[t as int];
        let ops1 = o1.push(Op::Note(TraceEvent::EnterBegan { state: t })) + acts(t, st.entries, ActionKind::Entry, false);
        lemma_arm_keeps(m, cap, c1, ops1, t, st.timers.len(), e);
    }
}

/// The entry of timer `tr` of state `s` when just armed.
pub open spec fn full_entry(m: ChartModel, s: u16, tr: u16) -> TimerEntry {
    TimerEntry { state: s, trigger: tr, remaining_ns: m.timer_ns[tr as int] }
}

proof fn lemma_arm_all(m: ChartModel, cap: nat, c: Cfg, ops: Seq<Op>, s: u16, k: nat)
    requires
        keys_distinct(c.timers),
        c.timers.len() + k <= cap,
        k <= m.states[s as int].timers.len(),
    ensures
        ({
            let c1 = arm_timers(m, cap, c, ops, s, k).0;
            let tms = m.states[s as int].timers;
            &&& keys_distinct(c1.timers)
            &&& c1.timers.len() <= c.timers.len() + k
            &&& forall|j: int| 0 <= j < k ==> #[trigger] c1.timers.contains(full_entry(m, s, tms[j]))
        }),
    decreases k,
{
    if k > 0 {
        let (c1, o1) = arm_timers(m, cap, c, ops, s, (k - 1) as nat);
        lemma_arm_all(m, cap, c, ops, s, (k - 1) as nat);
        let tms = m.states[s as int].timers;
        let tid = tms[k - 1];
        let ns = m.timer_ns[tid as int];
        law_timer_start_arms(c1.timers, cap, s, tid, ns);
        let t2 = spec_timer_start(c1.timers, cap, s, tid, ns);
        lemma_first_key_index_bounds(c1.timers, s, tid);
        assert(t2.len() <= c1.timers.len() + 1);
        assert forall|j: int| 0 <= j < k implies #[trigger] t2.contains(full_entry(m, s, tms[j])) by {
            let ej = full_entry(m, s, tms[j]);
            if tms[j] == tid {
                let i = first_key_index(t2, s, tid);
                assert(t2[i] == ej);
            } else {
                assert(c1.timers.contains(ej));
                lemma_start_keeps(c1.timers, cap, s, tid, ns, ej);
            }
        }
    }
}

/// Entering a state whose timers fit in the table's free slots arms every
/// timer the state owns, each with its full duration, and keeps the armed
/// keys distinct.
pub proof fn law_entering_arms_every_owned_timer(m: ChartModel, cap: nat, c: Cfg, ops: Seq<Op>, s: u16)
    requires
        keys_distinct(c.timers),
        c.timers.len() + m.states[s as int].timers.len() <= cap,
    ensures
        ({
            let c1 = enter_state(m, cap, c, ops, s).0;
            let tms = m.states[s as int].timers;
            &&& keys_distinct(c1.timers)
            &&& c1.current == Some(s)
            &&& forall|j: int| 0 <= j < tms.len() ==> #[trigger] c1.timers.contains(full_entry(m, s, tms[j]))
        }),
{
    let st = m.states[s as int];
    let ops1 = ops.push(Op::Note(TraceEvent::EnterBegan { state: s })) + acts(s, st.entries, ActionKind::Entry, false);
    lemma_arm_all(m, cap, c, ops1, s, st.timers.len());
}

/// A timer that fires is re-armed exactly when it repeats. In a step where a
/// timer is due, the deepest expired timer `e` fires first (`TimerFired`).
/// When `e`'s trigger is an `every` trigger, the journal goes on with
/// `TimerArmed` for it with the trigger's full duration, and, when its
/// handlers do not transition (so its state is not left) and the table was
/// within its capacity, the table afterwards holds `e` again with the full
/// duration. When `e`'s trigger is an `after` trigger, no `TimerArmed`
/// follows the `TimerFired`.
pub proof fn law_repeating_timer_rearms(m: ChartModel, cap: nat, c: Cfg, front: Option<u16>, elapsed: u128)
    requires
        c.current is Some,
        crate::timers::any_expired(crate::timers::spec_decrement(c.timers, elapsed)),
    ensures
        ({
            let t1 = crate::timers::spec_decrement(c.timers, elapsed);
            let depths = m.states.map_values(|s: crate::semantics::StateModel| s.depth);
            let k = choose|k: int| crate::timers::is_chosen_expired(t1, depths, k);
            let e = t1[k];
            let sm = spec_step(m, cap, c, front, elapsed);
            let ns = m.timer_ns[e.trigger as int];
            let groups = m.states[e.state as int].groups;
            let gi = find_group(groups, 1, e.trigger);
            &&& sm.ops.len() >= 1
            &&& sm.ops[0] == Op::Note(TraceEvent::TimerFired { state: e.state, timer: e.trigger })
            &&& m.timer_repeats[e.trigger as int] ==> {
                &&& sm.ops.len() >= 2
                &&& sm.ops[1] == Op::Note(TraceEvent::TimerArmed { state: e.state, timer: e.trigger, ns: ns as u64 })
            }
            &&& m.timer_repeats[e.trigger as int] && (gi < 0 || groups[gi].target is None) && t1.len() <= cap
                ==> sm.cfg.timers.contains(TimerEntry { state: e.state, trigger: e.trigger, remaining_ns: ns })
            &&& !m.timer_repeats[e.trigger as int] ==> (sm.ops.len() < 2
                || !(sm.ops[1] matches Op::Note(TraceEvent::TimerArmed { .. })))
        }),
{
    let t1 = crate::timers::spec_decrement(c.timers, elapsed);
    let depths = m.states.map_values(|s: crate::semantics::StateModel| s.depth);
    let k = choose|k: int| crate::timers::is_chosen_expired(t1, depths, k);
    crate::timers::lemma_chosen_expired_exists(t1, depths);
    let e = t1[k];
    let t2 = crate::semantics::remove_at(t1, k);
    let ns = m.timer_ns[e.trigger as int];
    let ops0 = seq![Op::Note(TraceEvent::TimerFired { state: e.state, timer: e.trigger })];
    let rep = m.timer_repeats[e.trigger as int];
    let t3 = if rep { spec_timer_start(t2, cap, e.state, e.trigger, ns) } else { t2 };
    let ops1 = if rep {
        ops0.push(Op::Note(TraceEvent::TimerArmed { state: e.state, timer: e.trigger, ns: ns as u64 }))
    } else {
        ops0
    };
    let c1 = Cfg { current: c.current, timers: t3 };
    let groups = m.states[e.state as int].groups;
    let gi = find_group(groups, 1, e.trigger);
    let sm = spec_step(m, cap, c, front, elapsed);
    if gi >= 0 {
        law_actions_before_transition(m, cap, c1, ops1, e.state, groups[gi], TransitionReason::Timer { state: e.state, timer: e.trigger }, false);
        let pre = ops1 + acts(e.state, groups[gi].actions, ActionKind::Handler, false);
        assert(sm.ops == run_handlers(m, cap, c1, ops1, e.state, groups[gi], TransitionReason::Timer { state: e.state, timer: e.trigger }, false).1);
        assert(sm.ops[0] == sm.ops.take(pre.len() as int)[0]);
        assert(pre[0] == ops1[0]);
        if rep {
            assert(sm.ops[1] == sm.ops.take(pre.len() as int)[1]);
            assert(pre[1] == ops1[1]);
        } else if sm.ops.len() >= 2 {
            if pre.len() >= 2 {
                assert(sm.ops[1] == sm.ops.take(pre.len() as int)[1]);
                assert(pre[1] == acts(e.state, groups[gi].actions, ActionKind::Handler, false)[0]);
            } else {
                assert(groups[gi].target is Some);
            }
        }
    }
    if rep && (gi < 0 || groups[gi].target is None) && t1.len() <= cap {
        lemma_first_key_index_bounds(t2, e.state, e.trigger);
        let i = first_key_index(t2, e.state, e.trigger);
        let te = TimerEntry { state: e.state, trigger: e.trigger, remaining_ns: ns };
        if i >= 0 {
            assert(t3[i] == te);
        } else {
            assert(t3[t2.len() as int] == te);
        }
        assert(sm.cfg.timers == t3);
    }
}

/// The angle-bracket depth just before position `i` of a run that starts
/// at `k`: each `<` opens a level, and each `>` that is not the second half
/// of `->` closes an open one.
pub open spec fn angle_depth(ts: Seq<TokV>, k: int, i: int) -> nat
    decreases i - k,
{
    if i <= k {
        0
    } else {
        let d = angle_depth(ts, k, i - 1);
        let j = i - 1;
        if punct_at(ts, j, '<') {
            d + 1
        } else if punct_at(ts, j, '>') && d > 0 && !(j > 0 && ts[j - 1] == TokV::Punct('-', true)) {
            (d - 1) as nat
        } else {
            d
        }
    }
}

proof fn lemma_type_end_from(ts: Seq<TokV>, k: int, x: int)
    requires
        0 <= k <= x,
    ensures
        ({
            let j = type_end(ts, x, angle_depth(ts, k, x));
            &&& (x <= ts.len() ==> x <= j <= ts.len())
            &&& (x > ts.len() ==> j == ts.len())
            &&& j < ts.len() ==> punct_at(ts, j, ',') && angle_depth(ts, k, j) == 0
            &&& forall|i: int| x <= i < j && punct_at(ts, i, ',') ==> angle_depth(ts, k, i) > 0
        }),
    decreases ts.len() - x,
{
    let d = angle_depth(ts, k, x);
    if x < ts.len() && !(d == 0 && punct_at(ts, x, ',')) {
        assert(angle_depth(ts, k, x + 1) == (if punct_at(ts, x, '<') {
            d + 1
        } else if punct_at(ts, x, '>') && d > 0 && !(x > 0 && ts[x - 1] == TokV::Punct('-', true)) {
            (d - 1) as nat
        } else {
            d
        }));
        lemma_type_end_from(ts, k, x + 1);
    }
}

/// A field type of a typed payload binding runs from its first token `k`
/// to the first `,` that is outside every pair of angle brackets (or to the
/// end): the type ends at `j` with `k <= j`; when `j` is not the end, the
/// token at `j` is a `,` at depth zero; and every `,` before `j` lies inside
/// angle brackets. So `m: HashMap<A, B>` is one field whose type holds both
/// `A` and `B`.
pub proof fn law_field_type_ends_at_outer_comma(ts: Seq<TokV>, k: int)
    requires
        0 <= k <= ts.len(),
    ensures
        ({
            let j = type_end(ts, k, 0);
            &&& k <= j <= ts.len()
            &&& j < ts.len() ==> punct_at(ts, j, ',') && angle_depth(ts, k, j) == 0
            &&& forall|i: int| k <= i < j && punct_at(ts, i, ',') ==> angle_depth(ts, k, i) > 0
        }),
{
    lemma_type_end_from(ts, k, k);
}

/// In the drawn chart a duration trigger's label names its kind: it begins
/// `on(after ` exactly when the trigger does not repeat, and `on(every `
/// exactly when it does, so the two kinds are never drawn alike.
pub proof fn law_timer_label_names_its_kind(durs: Seq<crate::intern::DurationTrigger>, id: u16)
    requires
        (id as int) < durs.len(),
    ensures
        ({
            let label = trigger_label(TriggerIr::Duration(id), durs);
            &&& label.len() >= 9
            &&& (label.take(9) == "on(after "@ <==> !durs[id as int].repeat)
            &&& (label.take(9) == "on(every "@ <==> durs[id as int].repeat)
        }),
{
    reveal_strlit("on(");
    reveal_strlit("after");
    reveal_strlit("every");
    reveal_strlit(" ");
    reveal_strlit(")");
    reveal_strlit("on(after ");
    reveal_strlit("on(every ");
    let label = trigger_label(TriggerIr::Duration(id), durs);
    let w: Seq<char> = if durs[id as int].repeat { "every"@ } else { "after"@ };
    let rest = crate::render::before_colon(durs[id as int].key@) + ")"@;
    assert(label == "on("@ + w + " "@ + rest);
    assert(label.take(9) =~= "on("@ + w + " "@);
    if durs[id as int].repeat {
        assert(label.take(9) =~= "on(every "@);
        assert(label.take(9)[3] != "on(after "@[3]);
    } else {
        assert(label.take(9) =~= "on(after "@);
        assert(label.take(9)[3] != "on(every "@[3]);
    }
}

/// The timer that fires is a due one of the deepest state: after the
/// timers count down by `elapsed`, the `TimerFired` note names an entry whose
/// time has run out, and no entry whose time has run out belongs to a
/// deeper state; among equally deep ones it is the earliest started.
pub proof fn law_deepest_due_timer_fires(m: ChartModel, cap: nat, c: Cfg, front: Option<u16>, elapsed: u128)
    requires
        c.current is Some,
        crate::timers::any_expired(crate::timers::spec_decrement(c.timers, elapsed)),
        forall|j: int| 0 <= j < c.timers.len() ==> (#[trigger] c.timers[j]).state < m.states.len(),
    ensures
        ({
            let t1 = crate::timers::spec_decrement(c.timers, elapsed);
            let depth = |s: u16| m.states[s as int].depth;
            let sm = spec_step(m, cap, c, front, elapsed);
            exists|k: int| {
                &&& 0 <= k < c.timers.len()
                &&& c.timers[k].remaining_ns <= elapsed
                &&& sm.ops[0] == Op::Note(TraceEvent::TimerFired { state: c.timers[k].state, timer: c.timers[k].trigger })
                &&& forall|j: int| 0 <= j < c.timers.len() && c.timers[j].remaining_ns <= elapsed
                    ==> depth(c.timers[j].state) <= depth(c.timers[k].state)
                &&& forall|j: int| 0 <= j < k && c.timers[j].remaining_ns <= elapsed
                    ==> depth(c.timers[j].state) < depth(c.timers[k].state)
            }
        }),
{
    let t1 = crate::timers::spec_decrement(c.timers, elapsed);
    let depths = m.states.map_values(|s: crate::semantics::StateModel| s.depth);
    crate::timers::lemma_chosen_expired_exists(t1, depths);
    let k = choose|k: int| crate::timers::is_chosen_expired(t1, depths, k);
    law_repeating_timer_rearms(m, cap, c, front, elapsed);
    assert forall|j: int| 0 <= j < c.timers.len() implies (t1[j].remaining_ns == 0 <==> c.timers[j].remaining_ns <= elapsed)
        && t1[j].state == c.timers[j].state && t1[j].trigger == c.timers[j].trigger by {
        assert(t1[j] == crate::timers::TimerEntry {
            state: c.timers[j].state,
            trigger: c.timers[j].trigger,
            remaining_ns: crate::timers::saturating_sub(c.timers[j].remaining_ns, elapsed),
        });
    }
    let depth = |s: u16| m.states[s as int].depth;
    assert forall|j: int| 0 <= j < c.timers.len() && c.timers[j].remaining_ns <= elapsed
        implies depth(c.timers[j].state) <= depth(c.timers[k].state) by {
        assert(t1[j].remaining_ns == 0);
        assert(depths[t1[j].state as int] == depth(c.timers[j].state));
        assert(depths[t1[k].state as int] == depth(c.timers[k].state));
    }
    assert forall|j: int| 0 <= j < k && c.timers[j].remaining_ns <= elapsed
        implies depth(c.timers[j].state) < depth(c.timers[k].state) by {
        assert(t1[j].remaining_ns == 0);
        assert(depths[t1[j].state as int] == depth(c.timers[j].state));
        assert(depths[t1[k].state as int] == depth(c.timers[k].state));
    }
    assert(c.timers[k].remaining_ns <= elapsed);
}

} // verus!
