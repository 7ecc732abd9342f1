//! The rules a chart description must follow, checked on the parse tree and
//! on the lowered chart.

use vstd::prelude::*;
use crate::graph::{default_ranks, first_cycle, has_default_cycle, is_default_cycle, targets_in_range};
use crate::intern::{DurationTrigger, durs_view};
use crate::ir::{
    HandlerIr, HandlerKindIr, Ir, StateIr, TriggerIr, collect_state_names, contains_name, durations_below, names_view, root_name,
    state_names, target_names, target_text,
};
use crate::parse_tree::{During, StateBody, StateDecl, StatechartInput};

verus! {

/// Why a chart description is rejected.
#[derive(Debug)]
pub enum ValidationError {
    /// A state declares `default(...)` more than once.
    MultipleDefault { state: String },
    /// A body declares `terminate(...)` more than once.
    MultipleTerminate,
    /// `terminate(...)` below the root.
    TerminateNotAtRoot,
    /// `default(...)` names no state of the chart.
    UnknownDefault { target: String },
    /// Following `default(...)` edges loops through these states.
    DefaultCycle { cycle: Vec<String> },
    /// Two states share a name.
    DuplicateState { name: String },
    /// A declared state has no entries, exits, handlers, children or durings.
    EmptyState { name: String },
    /// One `during:` lists a field twice.
    DuringFieldTwice { field: String, during: String },
    /// Two `during:`s of one state borrow the same field.
    DuringFieldShared { field: String, state: String, first: String, second: String },
    /// Two transitions on one trigger in one state.
    DuplicateTransition { trigger: String, state: String },
    /// A transition names no state.
    UnknownState { target: String },
    /// A transition is declared before an action handler on the same trigger.
    TransitionBeforeAction { target: String, trigger: String },
    /// An action handler is declared after the transition on the same trigger.
    ActionAfterTransition { trigger: String },
}

// ---------------------------------------------------------------------------
// Rules on the parse tree.

/// A parse-tree violation as plain values.
pub enum TreeErr {
    MultipleDefault(Seq<char>),
    MultipleTerminate,
    TerminateNotAtRoot,
    UnknownDefault(Seq<char>),
}

pub open spec fn tree_err_view(e: ValidationError) -> Option<TreeErr> {
    match e {
        ValidationError::MultipleDefault { state } => Some(TreeErr::MultipleDefault(state@)),
        ValidationError::MultipleTerminate => Some(TreeErr::MultipleTerminate),
        ValidationError::TerminateNotAtRoot => Some(TreeErr::TerminateNotAtRoot),
        ValidationError::UnknownDefault { target } => Some(TreeErr::UnknownDefault(target@)),
        _ => None,
    }
}

/// The first violation in `body` (named `name`) or below it, in preorder: at
/// most one `default(...)` and one `terminate(...)` per body,
/// `terminate(...)` only at the root, and a `default(...)` that names one of
/// `names` (the chart's states and the chart itself).
pub open spec fn body_violation(body: StateBody, is_root: bool, name: Seq<char>, names: Seq<Seq<char>>) -> Option<TreeErr>
    decreases body,
{
    if body.default_count > 1 {
        Some(TreeErr::MultipleDefault(name))
    } else if body.terminate_count > 1 {
        Some(TreeErr::MultipleTerminate)
    } else if !is_root && body.terminate is Some {
        Some(TreeErr::TerminateNotAtRoot)
    } else if body.default_child matches Some(d) && !names.contains(d@) {
        Some(TreeErr::UnknownDefault(body.default_child->0@))
    } else {
        list_violation(body.children@, names)
    }
}

/// The first violation among the declared states `cs` and below them.
pub open spec fn list_violation(cs: Seq<StateDecl>, names: Seq<Seq<char>>) -> Option<TreeErr>
    decreases cs,
{
    if cs.len() == 0 {
        None
    } else {
        match list_violation(cs.drop_last(), names) {
            Some(e) => Some(e),
            None => body_violation(cs.last().body, false, cs.last().name@, names),
        }
    }
}

fn validate_body(body: &StateBody, is_root: bool, name: &String, names: &Vec<String>) -> (r: Result<(), ValidationError>)
    ensures
        match body_violation(*body, is_root, name@, names_view(names@)) {
            None => r is Ok,
            Some(e) => r matches Err(x) && tree_err_view(x) == Some(e),
        },
    decreases body,
{
    if body.default_count > 1 {
        return Err(ValidationError::MultipleDefault { state: name.clone() });
    }
    if body.terminate_count > 1 {
        return Err(ValidationError::MultipleTerminate);
    }
    if !is_root && body.terminate.is_some() {
        return Err(ValidationError::TerminateNotAtRoot);
    }
    if let Some(d) = &body.default_child {
        if !contains_name(names, d) {
            proof {
                assert(names@.map_values(|s: String| s@) == names_view(names@));
            }
            return Err(ValidationError::UnknownDefault { target: d.clone() });
        }
        proof {
            assert(names@.map_values(|s: String| s@) == names_view(names@));
        }
    }
    let n = body.children.len();
    let mut i: usize = 0;
    while i < n
        invariant
            i <= n,
            n == body.children@.len(),
            list_violation(body.children@.take(i as int), names_view(names@)) is None,
            body_violation(*body, is_root, name@, names_view(names@)) == list_violation(body.children@, names_view(names@)),
        decreases n - i,
    {
        let c = &body.children[i];
        proof {
            assert(body.children@.take(i + 1).drop_last() =~= body.children@.take(i as int));
        }
        match validate_body(&c.body, false, &c.name, names) {
            Ok(()) => {},
            Err(e) => {
                proof {
                    assert(list_violation(body.children@.take(i + 1), names_view(names@)) == body_violation(c.body, false, c.name@, names_view(names@)));
                    lemma_list_violation_prefix(body.children@, i + 1, names_view(names@));
                }
                return Err(e);
            },
        }
        i += 1;
    }
    proof {
        assert(body.children@.take(n as int) =~= body.children@);
    }
    Ok(())
}

proof fn lemma_list_violation_prefix(cs: Seq<StateDecl>, i: int, names: Seq<Seq<char>>)
    requires
        0 <= i <= cs.len(),
        list_violation(cs.take(i), names) is Some,
    ensures
        list_violation(cs, names) == list_violation(cs.take(i), names),
    decreases cs.len(),
{
    if i < cs.len() {
        assert(cs.drop_last().take(i) =~= cs.take(i));
        lemma_list_violation_prefix(cs.drop_last(), i, names);
    } else {
        assert(cs.take(i) =~= cs);
    }
}

/// Check the rules that need the parse tree: at most one `default(...)` and
/// one `terminate(...)` in each body, `terminate(...)` only at the root, and
/// every `default(...)` naming a declared state (or the chart itself). The
/// root is named by the chart's name.
pub fn validate_parse_tree(input: &StatechartInput) -> (r: Result<(), ValidationError>)
    ensures
        match body_violation(input.body, true, input.name@, target_names(*input)) {
            None => r is Ok,
            Some(e) => r matches Err(x) && tree_err_view(x) == Some(e),
        },
{
    let mut names: Vec<String> = Vec::new();
    collect_state_names(&input.body, &mut names);
    names.push(input.name.clone());
    proof {
        assert(names_view(names@) =~= target_names(*input));
    }
    validate_body(&input.body, true, &input.name, &names)
}

// ---------------------------------------------------------------------------
// Rules on the lowered chart.

/// The indices that `validate` follows stay in range.
pub open spec fn ir_indices_ok(ir: Ir) -> bool {
    &&& ir.states@.len() <= 0x10000
    &&& forall|k: int|
        0 <= k < ir.states@.len() ==> ((#[trigger] ir.states@[k]).default_child matches Some(d) ==> d < ir.states@.len())
    &&& forall|k: int, i: int|
        0 <= k < ir.states@.len() && 0 <= i < ir.states@[k].handlers@.len() ==> ((
        #[trigger] ir.states@[k].handlers@[i]).trigger matches TriggerIr::Duration(id) ==> id
            < ir.duration_triggers@.len())
}

/// Tells whether the ids that validation follows are in range.
pub fn indices_ok(ir: &Ir) -> (r: bool)
    ensures
        r == ir_indices_ok(*ir),
{
    let n = ir.states.len();
    if n > 0x10000 {
        return false;
    }
    let nd = ir.duration_triggers.len();
    let mut k: usize = 0;
    while k < n
        invariant
            k <= n,
            n == ir.states@.len(),
            nd == ir.duration_triggers@.len(),
            forall|a: int| 0 <= a < k ==> ((#[trigger] ir.states@[a]).default_child matches Some(d) ==> d < n),
            forall|a: int, i: int|
                0 <= a < k && 0 <= i < ir.states@[a].handlers@.len() ==> ((
                #[trigger] ir.states@[a].handlers@[i]).trigger matches TriggerIr::Duration(id) ==> id < nd),
        decreases n - k,
    {
        let s = &ir.states[k];
        if let Some(d) = s.default_child {
            if d as usize >= n {
                return false;
            }
        }
        if !durations_below(&s.handlers, nd) {
            proof {
                let i = choose|i: int| 0 <= i < s.handlers@.len() && !((#[trigger] s.handlers@[i]).trigger matches TriggerIr::Duration(id) ==> id < nd);
                assert(ir.states@[k as int].handlers@[i] == s.handlers@[i]);
            }
            return false;
        }
        k += 1;
    }
    true
}

pub open spec fn defaults_of_ir(states: Seq<StateIr>) -> Seq<Option<u16>> {
    states.map_values(|s: StateIr| s.default_child)
}

/// Two triggers are the same event variant (by name) or the same duration
/// trigger (by id).
pub open spec fn same_trigger(a: TriggerIr, b: TriggerIr) -> bool {
    match (a, b) {
        (TriggerIr::Event(_, x, _), TriggerIr::Event(_, y, _)) => x@ == y@,
        (TriggerIr::Duration(x), TriggerIr::Duration(y)) => x == y,
        _ => false,
    }
}

pub open spec fn is_transition(h: HandlerIr) -> bool {
    h.kind is Transition
}

/// Declaration index of the last action handler before position `i` on the
/// trigger `t`.
pub open spec fn last_action_decl(hs: Seq<HandlerIr>, t: TriggerIr, i: int) -> Option<usize>
    decreases i,
{
    if i <= 0 {
        None
    } else if !is_transition(hs[i - 1]) && same_trigger(hs[i - 1].trigger, t) {
        Some(hs[i - 1].decl_index)
    } else {
        last_action_decl(hs, t, i - 1)
    }
}

/// `t` names a state: a declared state or the chart itself.
pub open spec fn known_target(states: Seq<StateIr>, chart: Seq<char>, t: Seq<char>) -> bool {
    ||| t == chart && exists|k: int| 0 <= k < states.len() && (#[trigger] states[k]).parent is None
    ||| exists|k: int| 0 <= k < states.len() && (#[trigger] states[k]).name@ == t && t != root_name()
}

/// A transition repeats one on the same trigger earlier in the state.
pub open spec fn dup_transition(hs: Seq<HandlerIr>, i: int) -> bool {
    is_transition(hs[i]) && exists|j: int| 0 <= j < i && is_transition(#[trigger] hs[j]) && same_trigger(hs[j].trigger, hs[i].trigger)
}

/// A transition is declared before the last action handler on its trigger.
pub open spec fn transition_too_early(hs: Seq<HandlerIr>, i: int) -> bool {
    is_transition(hs[i]) && (last_action_decl(hs, hs[i].trigger, i) matches Some(d) && d > hs[i].decl_index)
}

/// An action handler is declared after a transition on its trigger.
pub open spec fn action_too_late(hs: Seq<HandlerIr>, i: int) -> bool {
    !is_transition(hs[i]) && exists|j: int|
        0 <= j < i && is_transition(#[trigger] hs[j]) && same_trigger(hs[j].trigger, hs[i].trigger) && hs[j].decl_index
            < hs[i].decl_index
}

pub open spec fn unknown_transition(states: Seq<StateIr>, chart: Seq<char>, h: HandlerIr) -> bool {
    h.kind matches HandlerKindIr::Transition(t, _) && !known_target(states, chart, t@)
}

pub open spec fn handler_violation(states: Seq<StateIr>, chart: Seq<char>, hs: Seq<HandlerIr>, i: int) -> bool {
    ||| dup_transition(hs, i)
    ||| unknown_transition(states, chart, hs[i])
    ||| transition_too_early(hs, i)
    ||| action_too_late(hs, i)
}

pub open spec fn is_empty_state(s: StateIr) -> bool {
    &&& s.parent is Some
    &&& s.entries@.len() == 0
    &&& s.exits@.len() == 0
    &&& s.handlers@.len() == 0
    &&& s.children@.len() == 0
    &&& s.durings@.len() == 0
}

/// One `during:` of `s` lists a field twice.
pub open spec fn during_field_twice(s: StateIr) -> bool {
    exists|d: int, a: int, b: int|
        0 <= d < s.durings@.len() && 0 <= a < b < s.durings@[d].fields@.len() && (#[trigger] s.durings@[d].fields@[a])@
            == (#[trigger] s.durings@[d].fields@[b])@
}

/// Two `during:`s of `s` list a common field.
pub open spec fn during_field_shared(s: StateIr) -> bool {
    exists|d1: int, d2: int, a: int, b: int|
        0 <= d1 < d2 < s.durings@.len() && 0 <= a < s.durings@[d1].fields@.len() && 0 <= b
            < s.durings@[d2].fields@.len() && (#[trigger] s.durings@[d1].fields@[a])@ == (#[trigger] s.durings@[d2].fields@[b])@
}

pub open spec fn state_violation(states: Seq<StateIr>, chart: Seq<char>, k: int) -> bool {
    let s = states[k];
    ||| is_empty_state(s)
    ||| during_field_twice(s)
    ||| during_field_shared(s)
    ||| exists|i: int| 0 <= i < s.handlers@.len() && #[trigger] handler_violation(states, chart, s.handlers@, i)
}

/// Two states other than the root share a name.
pub open spec fn duplicate_names(states: Seq<StateIr>) -> bool {
    exists|a: int, b: int|
        0 <= a < b < states.len() && (#[trigger] states[a]).name@ == (#[trigger] states[b]).name@ && states[b].name@
            != root_name()
}

/// The chart follows every rule checked on the lowered form.
pub open spec fn ir_valid(ir: Ir) -> bool {
    &&& !has_default_cycle(defaults_of_ir(ir.states@))
    &&& !duplicate_names(ir.states@)
    &&& forall|k: int| 0 <= k < ir.states@.len() ==> !#[trigger] state_violation(ir.states@, ir.name@, k)
}

/// A trigger as shown in messages: the variant's name or the duration
/// trigger's key.
pub open spec fn trigger_text(t: TriggerIr, durs: Seq<DurationTrigger>) -> Seq<char> {
    match t {
        TriggerIr::Event(_, n, _) => n@,
        TriggerIr::Duration(id) => durs[id as int].key@,
    }
}

/// `e` reports a violation of state `k`.
pub open spec fn reports_in_state(e: ValidationError, ir: Ir, k: int) -> bool {
    let st = ir.states@;
    let s = st[k];
    let hs = s.handlers@;
    match e {
        ValidationError::EmptyState { name } => is_empty_state(s) && name@ == s.name@,
        ValidationError::DuringFieldTwice { field, during } => exists|d: int, a: int, b: int|
            0 <= d < s.durings@.len() && 0 <= a < b < s.durings@[d].fields@.len() && (
            #[trigger] s.durings@[d].fields@[a])@ == (#[trigger] s.durings@[d].fields@[b])@ && field@
                == s.durings@[d].fields@[b]@ && during@ == s.durings@[d].fn_name@,
        ValidationError::DuringFieldShared { field, state, first, second } => exists|d1: int, d2: int, a: int, b: int|
            0 <= d1 < d2 < s.durings@.len() && 0 <= a < s.durings@[d1].fields@.len() && 0 <= b
                < s.durings@[d2].fields@.len() && (#[trigger] s.durings@[d1].fields@[a])@ == (
            #[trigger] s.durings@[d2].fields@[b])@ && field@ == s.durings@[d2].fields@[b]@ && state@ == s.name@
                && first@ == s.durings@[d1].fn_name@ && second@ == s.durings@[d2].fn_name@,
        ValidationError::DuplicateTransition { trigger, state } => exists|i: int|
            0 <= i < hs.len() && #[trigger] dup_transition(hs, i) && trigger@ == trigger_text(
                hs[i].trigger,
                ir.duration_triggers@,
            ) && state@ == s.name@,
        ValidationError::UnknownState { target } => exists|i: int|
            0 <= i < hs.len() && unknown_transition(st, ir.name@, #[trigger] hs[i]) && target@ == target_text(hs[i].kind),
        ValidationError::TransitionBeforeAction { target, trigger } => exists|i: int|
            0 <= i < hs.len() && #[trigger] transition_too_early(hs, i) && target@ == target_text(hs[i].kind)
                && trigger@ == trigger_text(hs[i].trigger, ir.duration_triggers@),
        ValidationError::ActionAfterTransition { trigger } => exists|i: int|
            0 <= i < hs.len() && #[trigger] action_too_late(hs, i) && trigger@ == trigger_text(
                hs[i].trigger,
                ir.duration_triggers@,
            ),
        _ => false,
    }
}

/// `e` reports a violation that `ir` has.
pub open spec fn reports(e: ValidationError, ir: Ir) -> bool {
    let st = ir.states@;
    match e {
        ValidationError::DefaultCycle { cycle } => exists|c: Seq<u16>|
            is_default_cycle(defaults_of_ir(st), c) && cycle@.map_values(|s: String| s@) == c.map_values(
                |i: u16| st[i as int].name@,
            ),
        ValidationError::DuplicateState { name } => exists|a: int, b: int|
            0 <= a < b < st.len() && (#[trigger] st[a]).name@ == (#[trigger] st[b]).name@ && st[b].name@ != root_name()
                && name@ == st[b].name@,
        _ => exists|k: int| 0 <= k < st.len() && #[trigger] reports_in_state(e, ir, k),
    }
}

// ---------------------------------------------------------------------------
// The error that validation reports: the first broken rule in checking
// order.

/// A lowered-chart error as plain values.
pub enum LoweredErr {
    DefaultCycle(Seq<Seq<char>>),
    DuplicateState(Seq<char>),
    EmptyState(Seq<char>),
    DuringFieldTwice(Seq<char>, Seq<char>),
    DuringFieldShared(Seq<char>, Seq<char>, Seq<char>, Seq<char>),
    DuplicateTransition(Seq<char>, Seq<char>),
    UnknownState(Seq<char>),
    TransitionBeforeAction(Seq<char>, Seq<char>),
    ActionAfterTransition(Seq<char>),
}

pub open spec fn lowered_err_view(e: ValidationError) -> Option<LoweredErr> {
    match e {
        ValidationError::DefaultCycle { cycle } => Some(LoweredErr::DefaultCycle(cycle@.map_values(|s: String| s@))),
        ValidationError::DuplicateState { name } => Some(LoweredErr::DuplicateState(name@)),
        ValidationError::EmptyState { name } => Some(LoweredErr::EmptyState(name@)),
        ValidationError::DuringFieldTwice { field, during } => Some(LoweredErr::DuringFieldTwice(field@, during@)),
        ValidationError::DuringFieldShared { field, state, first, second } => Some(
            LoweredErr::DuringFieldShared(field@, state@, first@, second@),
        ),
        ValidationError::DuplicateTransition { trigger, state } => Some(LoweredErr::DuplicateTransition(trigger@, state@)),
        ValidationError::UnknownState { target } => Some(LoweredErr::UnknownState(target@)),
        ValidationError::TransitionBeforeAction { target, trigger } => Some(
            LoweredErr::TransitionBeforeAction(target@, trigger@),
        ),
        ValidationError::ActionAfterTransition { trigger } => Some(LoweredErr::ActionAfterTransition(trigger@)),
        _ => None,
    }
}

/// The error of handler `i` of state `k`, if it breaks a rule. A transition
/// is checked for a repeat on its trigger, then for its target, then for an
/// action handler declared after it; an action handler for a transition
/// declared before it.
pub open spec fn handler_error(ir: Ir, k: int, i: int) -> Option<LoweredErr> {
    let s = ir.states@[k];
    let hs = s.handlers@;
    let h = hs[i];
    let trig = trigger_text(h.trigger, ir.duration_triggers@);
    match h.kind {
        HandlerKindIr::Transition(t, _) => if dup_transition(hs, i) {
            Some(LoweredErr::DuplicateTransition(trig, s.name@))
        } else if !known_target(ir.states@, ir.name@, t@) {
            Some(LoweredErr::UnknownState(t@))
        } else if transition_too_early(hs, i) {
            Some(LoweredErr::TransitionBeforeAction(t@, trig))
        } else {
            None
        },
        HandlerKindIr::Action(_, _) => if action_too_late(hs, i) {
            Some(LoweredErr::ActionAfterTransition(trig))
        } else {
            None
        },
    }
}

/// The first error among the first `i` handlers of state `k`.
pub open spec fn handlers_error(ir: Ir, k: int, i: int) -> Option<LoweredErr>
    decreases i,
{
    if i <= 0 {
        None
    } else {
        match handlers_error(ir, k, i - 1) {
            Some(e) => Some(e),
            None => handler_error(ir, k, i - 1),
        }
    }
}

/// Position `b` of `fs` repeats an earlier field.
pub open spec fn repeats_earlier(fs: Seq<String>, b: int) -> bool {
    exists|a: int| 0 <= a < b && (#[trigger] fs[a])@ == fs[b]@
}

/// The first of the first `b` positions of `fs` that repeats an earlier
/// field, or -1.
pub open spec fn first_repeat(fs: Seq<String>, b: int) -> int
    decreases b,
{
    if b <= 0 {
        -1
    } else {
        let r = first_repeat(fs, b - 1);
        if r >= 0 {
            r
        } else if repeats_earlier(fs, b - 1) {
            b - 1
        } else {
            -1
        }
    }
}

/// The first of the first `d` durings that lists a field twice.
pub open spec fn twice_error(ds: Seq<During>, d: int) -> Option<LoweredErr>
    decreases d,
{
    if d <= 0 {
        None
    } else {
        match twice_error(ds, d - 1) {
            Some(e) => Some(e),
            None => {
                let fs = ds[d - 1].fields@;
                let b = first_repeat(fs, fs.len() as int);
                if b >= 0 {
                    Some(LoweredErr::DuringFieldTwice(fs[b]@, ds[d - 1].fn_name@))
                } else {
                    None
                }
            },
        }
    }
}

/// The first of the first `d1` durings that lists the field `x`, or -1.
pub open spec fn first_owner(ds: Seq<During>, x: Seq<char>, d1: int) -> int
    decreases d1,
{
    if d1 <= 0 {
        -1
    } else {
        let r = first_owner(ds, x, d1 - 1);
        if r >= 0 {
            r
        } else if exists|a: int| 0 <= a < ds[d1 - 1].fields@.len() && (#[trigger] ds[d1 - 1].fields@[a])@ == x {
            d1 - 1
        } else {
            -1
        }
    }
}

/// The first of the first `b` fields of during `d2` of `s` that an earlier
/// during of `s` also lists.
pub open spec fn shared_error_in(s: StateIr, d2: int, b: int) -> Option<LoweredErr>
    decreases b,
{
    if b <= 0 {
        None
    } else {
        match shared_error_in(s, d2, b - 1) {
            Some(e) => Some(e),
            None => {
                let ds = s.durings@;
                let x = ds[d2].fields@[b - 1]@;
                let o = first_owner(ds, x, d2);
                if o >= 0 {
                    Some(LoweredErr::DuringFieldShared(x, s.name@, ds[o].fn_name@, ds[d2].fn_name@))
                } else {
                    None
                }
            },
        }
    }
}

/// The first field shared between two of the first `d2` durings of `s`.
pub open spec fn shared_error(s: StateIr, d2: int) -> Option<LoweredErr>
    decreases d2,
{
    if d2 <= 0 {
        None
    } else {
        match shared_error(s, d2 - 1) {
            Some(e) => Some(e),
            None => shared_error_in(s, d2 - 1, s.durings@[d2 - 1].fields@.len() as int),
        }
    }
}

/// The error of the `during:` declarations of `s`: a field listed twice in
/// one, then a field shared by two.
pub open spec fn durings_error(s: StateIr) -> Option<LoweredErr> {
    match twice_error(s.durings@, s.durings@.len() as int) {
        Some(e) => Some(e),
        None => shared_error(s, s.durings@.len() as int),
    }
}

proof fn lemma_first_repeat_stays(fs: Seq<String>, b: int, m: int)
    requires
        0 <= b <= m,
        first_repeat(fs, b) >= 0,
    ensures
        first_repeat(fs, m) == first_repeat(fs, b),
    decreases m - b,
{
    if m > b {
        lemma_first_repeat_stays(fs, b, m - 1);
    }
}

proof fn lemma_twice_error_stays(ds: Seq<During>, d: int, m: int)
    requires
        0 <= d <= m,
        twice_error(ds, d) is Some,
    ensures
        twice_error(ds, m) == twice_error(ds, d),
    decreases m - d,
{
    if m > d {
        lemma_twice_error_stays(ds, d, m - 1);
    }
}

proof fn lemma_first_owner_stays(ds: Seq<During>, x: Seq<char>, d: int, m: int)
    requires
        0 <= d <= m,
        first_owner(ds, x, d) >= 0,
    ensures
        first_owner(ds, x, m) == first_owner(ds, x, d),
    decreases m - d,
{
    if m > d {
        lemma_first_owner_stays(ds, x, d, m - 1);
    }
}

proof fn lemma_shared_error_in_stays(s: StateIr, d2: int, b: int, m: int)
    requires
        0 <= b <= m,
        shared_error_in(s, d2, b) is Some,
    ensures
        shared_error_in(s, d2, m) == shared_error_in(s, d2, b),
    decreases m - b,
{
    if m > b {
        lemma_shared_error_in_stays(s, d2, b, m - 1);
    }
}

proof fn lemma_shared_error_stays(s: StateIr, d: int, m: int)
    requires
        0 <= d <= m,
        shared_error(s, d) is Some,
    ensures
        shared_error(s, m) == shared_error(s, d),
    decreases m - d,
{
    if m > d {
        lemma_shared_error_stays(s, d, m - 1);
    }
}

/// The error of state `k`: an empty state, then its `during:`s, then its
/// handlers in declaration order.
pub open spec fn state_error(ir: Ir, k: int) -> Option<LoweredErr> {
    let s = ir.states@[k];
    if is_empty_state(s) {
        Some(LoweredErr::EmptyState(s.name@))
    } else {
        match durings_error(s) {
            Some(e) => Some(e),
            None => handlers_error(ir, k, s.handlers@.len() as int),
        }
    }
}

/// The first error among the first `k` states.
pub open spec fn states_error(ir: Ir, k: int) -> Option<LoweredErr>
    decreases k,
{
    if k <= 0 {
        None
    } else {
        match states_error(ir, k - 1) {
            Some(e) => Some(e),
            None => state_error(ir, k - 1),
        }
    }
}

/// State `b` repeats the name of an earlier state (the implicit root's name
/// excepted).
pub open spec fn dup_at(states: Seq<StateIr>, b: int) -> bool {
    states[b].name@ != root_name() && exists|a: int| 0 <= a < b && (#[trigger] states[a]).name@ == states[b].name@
}

/// The first of the first `b` states that repeats an earlier name, or -1.
pub open spec fn first_dup(states: Seq<StateIr>, b: int) -> int
    decreases b,
{
    if b <= 0 {
        -1
    } else {
        let r = first_dup(states, b - 1);
        if r >= 0 {
            r
        } else if dup_at(states, b - 1) {
            b - 1
        } else {
            -1
        }
    }
}

/// The error `validate` reports: a `default(...)` cycle (the loop met from
/// the first state whose chain of defaults loops), then the first repeated
/// state name, then the first error of a state in index order.
pub open spec fn validation_error(ir: Ir) -> Option<LoweredErr> {
    let st = ir.states@;
    match first_cycle(defaults_of_ir(st), 0) {
        Some(c) => Some(LoweredErr::DefaultCycle(c.map_values(|i: u16| st[i as int].name@))),
        None => {
            let b = first_dup(st, st.len() as int);
            if b >= 0 {
                Some(LoweredErr::DuplicateState(st[b].name@))
            } else {
                states_error(ir, st.len() as int)
            }
        },
    }
}

proof fn lemma_states_error_stays(ir: Ir, k: int, m: int)
    requires
        0 <= k <= m,
        states_error(ir, k) is Some,
    ensures
        states_error(ir, m) == states_error(ir, k),
    decreases m - k,
{
    if m > k {
        lemma_states_error_stays(ir, k, m - 1);
    }
}

proof fn lemma_first_dup_stays(states: Seq<StateIr>, b: int, m: int)
    requires
        0 <= b <= m,
        first_dup(states, b) >= 0,
    ensures
        first_dup(states, m) == first_dup(states, b),
    decreases m - b,
{
    if m > b {
        lemma_first_dup_stays(states, b, m - 1);
    }
}

proof fn lemma_handlers_error_stays(ir: Ir, k: int, i: int, m: int)
    requires
        0 <= i <= m,
        handlers_error(ir, k, i) is Some,
    ensures
        handlers_error(ir, k, m) == handlers_error(ir, k, i),
    decreases m - i,
{
    if m > i {
        lemma_handlers_error_stays(ir, k, i, m - 1);
    }
}

fn same_trigger_exec(a: &TriggerIr, b: &TriggerIr) -> (r: bool)
    ensures
        r == same_trigger(*a, *b),
{
    match (a, b) {
        (TriggerIr::Event(_, x, _), TriggerIr::Event(_, y, _)) => *x == *y,
        (TriggerIr::Duration(x), TriggerIr::Duration(y)) => *x == *y,
        _ => false,
    }
}

fn trigger_string(t: &TriggerIr, durs: &Vec<DurationTrigger>) -> (r: String)
    requires
        t matches TriggerIr::Duration(id) ==> id < durs@.len(),
    ensures
        r@ == trigger_text(*t, durs@),
{
    match t {
        TriggerIr::Event(_, n, _) => n.clone(),
        TriggerIr::Duration(id) => durs[*id as usize].key.clone(),
    }
}

fn known_target_exec(states: &Vec<StateIr>, chart: &String, root: &String, t: &String) -> (r: bool)
    requires
        root@ == root_name(),
    ensures
        r == known_target(states@, chart@, t@),
{
    let n = states.len();
    if *t == *chart {
        let mut k: usize = 0;
        while k < n
            invariant
                k <= n,
                n == states@.len(),
                t@ == chart@,
                forall|j: int| 0 <= j < k ==> !((#[trigger] states@[j]).parent is None),
            decreases n - k,
        {
            if states[k].parent.is_none() {
                proof {
                    assert(states@[k as int].parent is None);
                }
                return true;
            }
            k += 1;
        }
    }
    if *t == *root {
        return false;
    }
    let mut k: usize = 0;
    while k < n
        invariant
            k <= n,
            n == states@.len(),
            t@ != root_name(),
            root@ == root_name(),
            t@ == chart@ ==> forall|j: int| 0 <= j < n ==> !((#[trigger] states@[j]).parent is None),
            forall|j: int| 0 <= j < k ==> (#[trigger] states@[j]).name@ != t@,
        decreases n - k,
    {
        if states[k].name == *t {
            return true;
        }
        k += 1;
    }
    false
}

fn last_action(hs: &Vec<HandlerIr>, t: &TriggerIr, i: usize) -> (r: Option<usize>)
    requires
        i <= hs@.len(),
    ensures
        r == last_action_decl(hs@, *t, i as int),
{
    let mut j: usize = i;
    while j > 0
        invariant
            j <= i,
            i <= hs@.len(),
            last_action_decl(hs@, *t, i as int) == last_action_decl(hs@, *t, j as int),
        decreases j,
    {
        let is_tr = match &hs[j - 1].kind {
            HandlerKindIr::Transition(_, _) => true,
            HandlerKindIr::Action(_, _) => false,
        };
        if !is_tr && same_trigger_exec(&hs[j - 1].trigger, t) {
            return Some(hs[j - 1].decl_index);
        }
        j -= 1;
    }
    None
}

fn has_earlier_transition(hs: &Vec<HandlerIr>, i: usize, before_decl: bool) -> (r: bool)
    requires
        i < hs@.len(),
    ensures
        r == exists|j: int|
            0 <= j < i && is_transition(#[trigger] hs@[j]) && same_trigger(hs@[j].trigger, hs@[i as int].trigger) && (
            before_decl ==> hs@[j].decl_index < hs@[i as int].decl_index),
{
    let mut j: usize = 0;
    while j < i
        invariant
            j <= i,
            i < hs@.len(),
            forall|q: int|
                0 <= q < j ==> !(is_transition(#[trigger] hs@[q]) && same_trigger(hs@[q].trigger, hs@[i as int].trigger) && (
                before_decl ==> hs@[q].decl_index < hs@[i as int].decl_index)),
        decreases i - j,
    {
        let is_tr = match &hs[j].kind {
            HandlerKindIr::Transition(_, _) => true,
            HandlerKindIr::Action(_, _) => false,
        };
        if is_tr && same_trigger_exec(&hs[j].trigger, &hs[i].trigger) && (!before_decl || hs[j].decl_index
            < hs[i].decl_index) {
            return true;
        }
        j += 1;
    }
    false
}

/// Check the `during:` declarations of state `k`.
fn check_durings(ir: &Ir, k: usize) -> (r: Result<(), ValidationError>)
    requires
        k < ir.states@.len(),
    ensures
        r is Ok <==> !during_field_twice(ir.states@[k as int]) && !during_field_shared(ir.states@[k as int]),
        r matches Err(e) ==> reports_in_state(e, *ir, k as int),
        match durings_error(ir.states@[k as int]) {
            None => r is Ok,
            Some(x) => r matches Err(e) && lowered_err_view(e) == Some(x),
        },
{
    let s = &ir.states[k];
    let ds = &s.durings;
    let nd = ds.len();
    let mut d: usize = 0;
    while d < nd
        invariant
            d <= nd,
            nd == ds@.len(),
            s == ir.states@[k as int],
            ds == s.durings,
            k < ir.states@.len(),
            forall|x: int, a: int, b: int|
                0 <= x < d && 0 <= a < b < ds@[x].fields@.len() ==> (#[trigger] ds@[x].fields@[a])@
                    != (#[trigger] ds@[x].fields@[b])@,
            twice_error(ds@, d as int) is None,
        decreases nd - d,
    {
        let fs = &ds[d].fields;
        let nf = fs.len();
        let mut b: usize = 0;
        while b < nf
            invariant
                b <= nf,
                nf == fs@.len(),
                d < nd,
                nd == ds@.len(),
                fs == ds@[d as int].fields,
                s == ir.states@[k as int],
                ds == s.durings,
                k < ir.states@.len(),
                forall|x: int, a: int, c: int|
                    0 <= x < d && 0 <= a < c < ds@[x].fields@.len() ==> (#[trigger] ds@[x].fields@[a])@
                        != (#[trigger] ds@[x].fields@[c])@,
                forall|a: int, c: int| 0 <= a < c < b ==> (#[trigger] fs@[a])@ != (#[trigger] fs@[c])@,
                twice_error(ds@, d as int) is None,
                first_repeat(fs@, b as int) == -1,
            decreases nf - b,
        {
            let mut a: usize = 0;
            while a < b
                invariant
                    a <= b,
                    b < nf,
                    nf == fs@.len(),
                    d < nd,
                    nd == ds@.len(),
                    fs == ds@[d as int].fields,
                    s == ir.states@[k as int],
                    ds == s.durings,
                    k < ir.states@.len(),
                    forall|q: int| 0 <= q < a ==> (#[trigger] fs@[q])@ != fs@[b as int]@,
                    twice_error(ds@, d as int) is None,
                    first_repeat(fs@, b as int) == -1,
                decreases b - a,
            {
                if fs[a] == fs[b] {
                    proof {
                        assert(reports_in_state(
                            ValidationError::DuringFieldTwice { field: fs@[b as int], during: ds@[d as int].fn_name },
                            *ir,
                            k as int,
                        ));
                        assert(repeats_earlier(fs@, b as int));
                        lemma_first_repeat_stays(fs@, b + 1, nf as int);
                        lemma_twice_error_stays(ds@, d + 1, nd as int);
                    }
                    return Err(ValidationError::DuringFieldTwice { field: fs[b].clone(), during: ds[d].fn_name.clone() });
                }
                a += 1;
            }
            proof {
                assert(!repeats_earlier(fs@, b as int));
            }
            b += 1;
        }
        d += 1;
    }
    let mut d2: usize = 0;
    while d2 < nd
        invariant
            d2 <= nd,
            nd == ds@.len(),
            s == ir.states@[k as int],
            ds == s.durings,
            k < ir.states@.len(),
            !during_field_twice(*s),
            forall|x: int, y: int, a: int, b: int|
                0 <= x < y < d2 && 0 <= a < ds@[x].fields@.len() && 0 <= b < ds@[y].fields@.len() ==> (
                #[trigger] ds@[x].fields@[a])@ != (#[trigger] ds@[y].fields@[b])@,
            twice_error(ds@, nd as int) is None,
            shared_error(*s, d2 as int) is None,
        decreases nd - d2,
    {
        let f2 = &ds[d2].fields;
        let n2 = f2.len();
        let mut b: usize = 0;
        while b < n2
            invariant
                b <= n2,
                n2 == f2@.len(),
                d2 < nd,
                nd == ds@.len(),
                f2 == ds@[d2 as int].fields,
                s == ir.states@[k as int],
                ds == s.durings,
                k < ir.states@.len(),
                forall|x: int, y: int, a: int, c: int|
                    0 <= x < y < d2 && 0 <= a < ds@[x].fields@.len() && 0 <= c < ds@[y].fields@.len() ==> (
                    #[trigger] ds@[x].fields@[a])@ != (#[trigger] ds@[y].fields@[c])@,
                forall|x: int, a: int, c: int|
                    0 <= x < d2 && 0 <= a < ds@[x].fields@.len() && 0 <= c < b ==> (#[trigger] ds@[x].fields@[a])@
                        != (#[trigger] f2@[c])@,
                twice_error(ds@, nd as int) is None,
                shared_error(*s, d2 as int) is None,
                shared_error_in(*s, d2 as int, b as int) is None,
            decreases n2 - b,
        {
            let mut d1: usize = 0;
            while d1 < d2
                invariant
                    d1 <= d2,
                    d2 < nd,
                    nd == ds@.len(),
                    b < n2,
                    n2 == f2@.len(),
                    f2 == ds@[d2 as int].fields,
                    s == ir.states@[k as int],
                    ds == s.durings,
                    k < ir.states@.len(),
                    forall|x: int, a: int| 0 <= x < d1 && 0 <= a < ds@[x].fields@.len() ==> (#[trigger] ds@[x].fields@[a])@ != f2@[b as int]@,
                    first_owner(ds@, f2@[b as int]@, d1 as int) == -1,
                    twice_error(ds@, nd as int) is None,
                    shared_error(*s, d2 as int) is None,
                    shared_error_in(*s, d2 as int, b as int) is None,
                decreases d2 - d1,
            {
                let f1 = &ds[d1].fields;
                let n1 = f1.len();
                let mut a: usize = 0;
                while a < n1
                    invariant
                        a <= n1,
                        n1 == f1@.len(),
                        f1 == ds@[d1 as int].fields,
                        d1 < d2,
                        d2 < nd,
                        nd == ds@.len(),
                        b < n2,
                        n2 == f2@.len(),
                        f2 == ds@[d2 as int].fields,
                        s == ir.states@[k as int],
                        ds == s.durings,
                        k < ir.states@.len(),
                        forall|q: int| 0 <= q < a ==> (#[trigger] f1@[q])@ != f2@[b as int]@,
                        first_owner(ds@, f2@[b as int]@, d1 as int) == -1,
                        twice_error(ds@, nd as int) is None,
                        shared_error(*s, d2 as int) is None,
                        shared_error_in(*s, d2 as int, b as int) is None,
                    decreases n1 - a,
                {
                    if f1[a] == f2[b] {
                        proof {
                            assert(reports_in_state(
                                ValidationError::DuringFieldShared {
                                    field: f2@[b as int],
                                    state: s.name,
                                    first: ds@[d1 as int].fn_name,
                                    second: ds@[d2 as int].fn_name,
                                },
                                *ir,
                                k as int,
                            ));
                            let x = f2@[b as int]@;
                            assert(ds@[d1 as int].fields@[a as int]@ == x);
                            assert(first_owner(ds@, x, d1 + 1) == d1);
                            lemma_first_owner_stays(ds@, x, d1 + 1, d2 as int);
                            assert(shared_error_in(*s, d2 as int, b + 1) is Some);
                            lemma_shared_error_in_stays(*s, d2 as int, b + 1, n2 as int);
                            assert(shared_error(*s, d2 + 1) is Some);
                            lemma_shared_error_stays(*s, d2 + 1, nd as int);
                        }
                        return Err(
                            ValidationError::DuringFieldShared {
                                field: f2[b].clone(),
                                state: s.name.clone(),
                                first: ds[d1].fn_name.clone(),
                                second: ds[d2].fn_name.clone(),
                            },
                        );
                    }
                    a += 1;
                }
                proof {
                    let x = f2@[b as int]@;
                    assert(!exists|q: int| 0 <= q < ds@[d1 as int].fields@.len() && (#[trigger] ds@[d1 as int].fields@[q])@ == x);
                }
                d1 += 1;
            }
            b += 1;
        }
        d2 += 1;
    }
    Ok(())
}

/// Check the handlers of state `k`.
fn check_handlers(ir: &Ir, k: usize, root: &String) -> (r: Result<(), ValidationError>)
    requires
        ir_indices_ok(*ir),
        k < ir.states@.len(),
        root@ == root_name(),
    ensures
        r is Ok <==> forall|i: int|
            0 <= i < ir.states@[k as int].handlers@.len() ==> !#[trigger] handler_violation(
                ir.states@,
                ir.name@,
                ir.states@[k as int].handlers@,
                i,
            ),
        r matches Err(e) ==> reports_in_state(e, *ir, k as int),
        match handlers_error(*ir, k as int, ir.states@[k as int].handlers@.len() as int) {
            None => r is Ok,
            Some(x) => r matches Err(e) && lowered_err_view(e) == Some(x),
        },
{
    let s = &ir.states[k];
    let hs = &s.handlers;
    let m = hs.len();
    let mut i: usize = 0;
    while i < m
        invariant
            i <= m,
            m == hs@.len(),
            s == ir.states@[k as int],
            hs == s.handlers,
            k < ir.states@.len(),
            ir_indices_ok(*ir),
            root@ == root_name(),
            forall|j: int| 0 <= j < i ==> !#[trigger] handler_violation(ir.states@, ir.name@, hs@, j),
            handlers_error(*ir, k as int, i as int) is None,
        decreases m - i,
    {
        let h = &hs[i];
        proof {
            assert(ir.states@[k as int].handlers@[i as int] == h);
        }
        match &h.kind {
            HandlerKindIr::Transition(t, _) => {
                if has_earlier_transition(hs, i, false) {
                    proof {
                        lemma_handlers_error_stays(*ir, k as int, i + 1, m as int);
                        assert(dup_transition(hs@, i as int));
                        assert(handler_violation(ir.states@, ir.name@, hs@, i as int));
                    }
                    return Err(
                        ValidationError::DuplicateTransition {
                            trigger: trigger_string(&h.trigger, &ir.duration_triggers),
                            state: s.name.clone(),
                        },
                    );
                }
                if !known_target_exec(&ir.states, &ir.name, root, t) {
                    proof {
                        lemma_handlers_error_stays(*ir, k as int, i + 1, m as int);
                        assert(unknown_transition(ir.states@, ir.name@, hs@[i as int]));
                        assert(handler_violation(ir.states@, ir.name@, hs@, i as int));
                    }
                    return Err(ValidationError::UnknownState { target: t.clone() });
                }
                match last_action(hs, &h.trigger, i) {
                    Some(d) => {
                        if d > h.decl_index {
                            proof {
                                lemma_handlers_error_stays(*ir, k as int, i + 1, m as int);
                                assert(transition_too_early(hs@, i as int));
                        assert(handler_violation(ir.states@, ir.name@, hs@, i as int));
                            }
                            return Err(
                                ValidationError::TransitionBeforeAction {
                                    target: t.clone(),
                                    trigger: trigger_string(&h.trigger, &ir.duration_triggers),
                                },
                            );
                        }
                    },
                    None => {},
                }
            },
            HandlerKindIr::Action(_, _) => {
                if has_earlier_transition(hs, i, true) {
                    proof {
                        lemma_handlers_error_stays(*ir, k as int, i + 1, m as int);
                        assert(action_too_late(hs@, i as int));
                        assert(handler_violation(ir.states@, ir.name@, hs@, i as int));
                    }
                    return Err(
                        ValidationError::ActionAfterTransition {
                            trigger: trigger_string(&h.trigger, &ir.duration_triggers),
                        },
                    );
                }
            },
        }
        i += 1;
    }
    Ok(())
}

/// Check the rules local to state `k`.
fn check_state(ir: &Ir, k: usize, root: &String) -> (r: Result<(), ValidationError>)
    requires
        ir_indices_ok(*ir),
        k < ir.states@.len(),
        root@ == root_name(),
    ensures
        r is Ok <==> !state_violation(ir.states@, ir.name@, k as int),
        r matches Err(e) ==> reports_in_state(e, *ir, k as int),
        match state_error(*ir, k as int) {
            None => r is Ok,
            Some(x) => r matches Err(e) && lowered_err_view(e) == Some(x),
        },
{
    let s = &ir.states[k];
    if s.parent.is_some() && s.entries.len() == 0 && s.exits.len() == 0 && s.handlers.len() == 0 && s.children.len()
        == 0 && s.durings.len() == 0 {
        return Err(ValidationError::EmptyState { name: s.name.clone() });
    }
    match check_durings(ir, k) {
        Ok(()) => {},
        Err(e) => {
            return Err(e);
        },
    }
    check_handlers(ir, k, root)
}

/// The name of a state that repeats an earlier one (the root excepted).
fn find_duplicate_name(states: &Vec<StateIr>, root: &String) -> (r: Option<String>)
    requires
        root@ == root_name(),
    ensures
        r is None <==> !duplicate_names(states@),
        r matches Some(n) ==> exists|a: int, b: int|
            0 <= a < b < states@.len() && (#[trigger] states@[a]).name@ == (#[trigger] states@[b]).name@
                && states@[b].name@ != root_name() && n@ == states@[b].name@,
        first_dup(states@, states@.len() as int) < 0 ==> r is None,
        first_dup(states@, states@.len() as int) >= 0 ==> (r matches Some(x) && x@
            == states@[first_dup(states@, states@.len() as int)].name@),
{
    let n = states.len();
    let mut b: usize = 0;
    while b < n
        invariant
            b <= n,
            n == states@.len(),
            root@ == root_name(),
            forall|x: int, y: int|
                0 <= x < y < b ==> !((#[trigger] states@[x]).name@ == (#[trigger] states@[y]).name@ && states@[y].name@
                    != root_name()),
            first_dup(states@, b as int) == -1,
        decreases n - b,
    {
        if !(states[b].name == *root) {
            let mut a: usize = 0;
            while a < b
                invariant
                    a <= b,
                    b < n,
                    n == states@.len(),
                    states@[b as int].name@ != root_name(),
                    forall|x: int| 0 <= x < a ==> (#[trigger] states@[x]).name@ != states@[b as int].name@,
                    first_dup(states@, b as int) == -1,
                decreases b - a,
            {
                if states[a].name == states[b].name {
                    proof {
                        assert(states@[a as int].name@ == states@[b as int].name@);
                        assert(dup_at(states@, b as int));
                        lemma_first_dup_stays(states@, b + 1, n as int);
                    }
                    return Some(states[b].name.clone());
                }
                a += 1;
            }
        }
        proof {
            assert(!dup_at(states@, b as int));
            assert forall|x: int, y: int| 0 <= x < y < b + 1 implies !((#[trigger] states@[x]).name@
                == (#[trigger] states@[y]).name@ && states@[y].name@ != root_name()) by {
                if y == b && states@[y].name@ != root_name() {
                    assert(states@[x].name@ != states@[b as int].name@);
                }
            }
        }
        b += 1;
    }
    None
}

/// The names of the states of a cycle.
fn cycle_names(states: &Vec<StateIr>, cycle: &Vec<u16>) -> (r: Vec<String>)
    requires
        forall|i: int| 0 <= i < cycle@.len() ==> (#[trigger] cycle@[i]) < states@.len(),
    ensures
        r@.map_values(|s: String| s@) == cycle@.map_values(|i: u16| states@[i as int].name@),
{
    let mut out: Vec<String> = Vec::new();
    let n = cycle.len();
    let mut i: usize = 0;
    while i < n
        invariant
            i <= n,
            n == cycle@.len(),
            forall|q: int| 0 <= q < cycle@.len() ==> (#[trigger] cycle@[q]) < states@.len(),
            out@.map_values(|s: String| s@) == cycle@.take(i as int).map_values(|i: u16| states@[i as int].name@),
        decreases n - i,
    {
        let nm = states[cycle[i] as usize].name.clone();
        proof {
            assert(cycle@.take(i + 1).map_values(|i: u16| states@[i as int].name@) =~= cycle@.take(i as int).map_values(
                |i: u16| states@[i as int].name@,
            ).push(nm@));
            assert(out@.push(nm).map_values(|s: String| s@) =~= out@.map_values(|s: String| s@).push(nm@));
        }
        out.push(nm);
        i += 1;
    }
    proof {
        assert(cycle@.take(n as int) =~= cycle@);
    }
    out
}

/// Check the rules on a lowered chart: `default(...)` edges never loop,
/// state names are unique, no declared state is empty, a `during:` borrows
/// each field once and apart from the other `during:`s of its state, each
/// trigger has at most one transition per state, every transition names a
/// state (or the chart), and a trigger's action handlers are declared before
/// its transition.
pub fn validate(ir: &Ir) -> (r: Result<(), ValidationError>)
    requires
        ir_indices_ok(*ir),
    ensures
        r is Ok <==> ir_valid(*ir),
        r matches Err(e) ==> reports(e, *ir),
        match validation_error(*ir) {
            None => r is Ok,
            Some(x) => r matches Err(e) && lowered_err_view(e) == Some(x),
        },
{
    let n = ir.states.len();
    let mut defaults: Vec<Option<u16>> = Vec::new();
    let mut k: usize = 0;
    while k < n
        invariant
            k <= n,
            n == ir.states@.len(),
            defaults@ == defaults_of_ir(ir.states@).take(k as int),
        decreases n - k,
    {
        proof {
            assert(defaults_of_ir(ir.states@).take(k + 1) =~= defaults@.push(ir.states@[k as int].default_child));
        }
        defaults.push(ir.states[k].default_child);
        k += 1;
    }
    proof {
        assert(defaults@ =~= defaults_of_ir(ir.states@));
        assert(targets_in_range(defaults@)) by {
            assert forall|i: int| 0 <= i < defaults@.len() implies (#[trigger] defaults@[i] matches Some(d) ==> d
                < defaults@.len()) by {
                assert(defaults@[i] == ir.states@[i].default_child);
            }
        }
    }
    match default_ranks(&defaults) {
        Err(cycle) => {
            let names = cycle_names(&ir.states, &cycle);
            return Err(ValidationError::DefaultCycle { cycle: names });
        },
        Ok(_) => {},
    }
    let root = String::from_str("__Root");
    match find_duplicate_name(&ir.states, &root) {
        Some(nm) => {
            return Err(ValidationError::DuplicateState { name: nm });
        },
        None => {},
    }
    let mut k: usize = 0;
    while k < n
        invariant
            k <= n,
            n == ir.states@.len(),
            ir_indices_ok(*ir),
            root@ == root_name(),
            !has_default_cycle(defaults_of_ir(ir.states@)),
            !duplicate_names(ir.states@),
            forall|j: int| 0 <= j < k ==> !#[trigger] state_violation(ir.states@, ir.name@, j),
            first_cycle(defaults_of_ir(ir.states@), 0) is None,
            first_dup(ir.states@, n as int) < 0,
            states_error(*ir, k as int) is None,
        decreases n - k,
    {
        match check_state(ir, k, &root) {
            Ok(()) => {},
            Err(e) => {
                proof {
                    lemma_states_error_stays(*ir, k + 1, n as int);
                }
                return Err(e);
            },
        }
        k += 1;
    }
    Ok(())
}

} // verus!
