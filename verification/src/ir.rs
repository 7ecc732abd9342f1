//! The intermediate representation of a chart: states numbered in
//! declaration order (preorder, the root first), and tables of the actions,
//! event variants and duration triggers that the chart mentions, each in
//! first-seen order.

use vstd::prelude::*;

use vstd::string::StringExecFns;
use crate::intern::{
    ActView, ActionIr, DurView, DurationTrigger, ErrView, EvView, EventVariantIr, IrError, VariantKind, act_names,
    act_typed_step, act_unit_step, acts_view, dur_keys, dur_step, durs_view, full_key, err_view, ev_step, evs_view, fields_view, id16, intern_action_unit,
    intern_action_with_params, intern_duration, intern_event, to_id, clone_fields,
};
use crate::parse_tree::{During, EventPayload, Handler, HandlerKind, PayloadField, PayloadKind, StateBody, StateDecl, StatechartInput, Trigger};
use crate::seqs::{index_of, lemma_index_of};


verus! {

/// One state of the declaration tree, in preorder.
pub struct Flat {
    pub name: Seq<char>,
    pub body: StateBody,
    pub parent: Option<nat>,
    pub depth: nat,
}

/// The states of the subtree rooted at a node, in preorder; the node gets
/// index `id`.
pub open spec fn flat_node(name: Seq<char>, body: StateBody, parent: Option<nat>, depth: nat, id: nat) -> Seq<Flat>
    decreases body,
{
    seq![Flat { name, body, parent, depth }] + flat_list(body.children@, id, depth + 1, id + 1)
}

/// The subtrees of `cs` (children of `parent`), one after another; the first
/// gets index `next`.
pub open spec fn flat_list(cs: Seq<crate::parse_tree::StateDecl>, parent: nat, depth: nat, next: nat) -> Seq<Flat>
    decreases cs,
{
    if cs.len() == 0 {
        Seq::empty()
    } else {
        let before = flat_list(cs.drop_last(), parent, depth, next);
        before + flat_node(cs.last().name@, cs.last().body, Some(parent), depth, next + before.len())
    }
}

/// Name of the implicit root state.
pub open spec fn root_name() -> Seq<char> {
    "__Root"@
}

/// Every state of the chart in preorder: the root first, then each declared
/// state before its children.
pub open spec fn flatten(input: StatechartInput) -> Seq<Flat> {
    flat_node(root_name(), input.body, None, 0, 0)
}

/// A state of the preorder list, held by reference.
pub struct FlatRef<'a> {
    pub name: &'a String,
    pub body: &'a StateBody,
    pub parent: Option<usize>,
    pub depth: usize,
}

pub open spec fn flat_view(f: FlatRef) -> Flat {
    Flat { name: f.name@, body: *f.body, parent: match f.parent { Some(p) => Some(p as nat), None => None }, depth: f.depth as nat }
}

pub open spec fn flats_view(s: Seq<FlatRef>) -> Seq<Flat> {
    s.map_values(|f: FlatRef| flat_view(f))
}

proof fn lemma_flat_list_push(cs: Seq<crate::parse_tree::StateDecl>, parent: nat, depth: nat, next: nat, i: int)
    requires
        0 <= i < cs.len(),
    ensures
        flat_list(cs.take(i + 1), parent, depth, next) == flat_list(cs.take(i), parent, depth, next) + flat_node(
            cs[i].name@,
            cs[i].body,
            Some(parent),
            depth,
            next + flat_list(cs.take(i), parent, depth, next).len(),
        ),
{
    assert(cs.take(i + 1).drop_last() =~= cs.take(i));
}

/// Number of states in the subtree at `body` (the node itself included).
pub open spec fn node_size(body: StateBody) -> nat
    decreases body,
{
    1 + list_size(body.children@)
}

/// Number of states in the subtrees of `cs`.
pub open spec fn list_size(cs: Seq<crate::parse_tree::StateDecl>) -> nat
    decreases cs,
{
    if cs.len() == 0 {
        0
    } else {
        list_size(cs.drop_last()) + node_size(cs.last().body)
    }
}

proof fn lemma_flat_node_len(name: Seq<char>, body: StateBody, parent: Option<nat>, depth: nat, id: nat)
    ensures
        flat_node(name, body, parent, depth, id).len() == node_size(body),
    decreases body,
{
    lemma_flat_list_len(body.children@, id, depth + 1, id + 1);
}

proof fn lemma_flat_list_len(cs: Seq<crate::parse_tree::StateDecl>, parent: nat, depth: nat, next: nat)
    ensures
        flat_list(cs, parent, depth, next).len() == list_size(cs),
    decreases cs,
{
    if cs.len() > 0 {
        lemma_flat_list_len(cs.drop_last(), parent, depth, next);
        let before = flat_list(cs.drop_last(), parent, depth, next);
        lemma_flat_node_len(cs.last().name@, cs.last().body, Some(parent), depth, next + before.len());
    }
}

proof fn lemma_list_size_take(cs: Seq<crate::parse_tree::StateDecl>, i: int)
    requires
        0 <= i < cs.len(),
    ensures
        list_size(cs.take(i + 1)) == list_size(cs.take(i)) + node_size(cs[i].body),
        list_size(cs.take(i + 1)) <= list_size(cs),
    decreases cs.len(),
{
    assert(cs.take(i + 1).drop_last() =~= cs.take(i));
    if i + 1 < cs.len() {
        lemma_list_size_take(cs.drop_last(), i);
        assert(cs.drop_last().take(i + 1) =~= cs.take(i + 1));
        assert(cs.drop_last().take(i) =~= cs.take(i));
    } else {
        assert(cs.take(i + 1) =~= cs);
    }
}

/// Number of states in the subtree at `body`, or `cap + 1` when that is
/// smaller.
fn capped_size(body: &StateBody, cap: usize) -> (r: usize)
    requires
        cap < usize::MAX,
    ensures
        r == if node_size(*body) <= cap { node_size(*body) } else { (cap + 1) as nat },
    decreases body,
{
    let n = body.children.len();
    let mut total: usize = 1;
    let mut i: usize = 0;
    while i < n
        invariant
            i <= n,
            n == body.children@.len(),
            cap < usize::MAX,
            total == if 1 + list_size(body.children@.take(i as int)) <= cap { 1 + list_size(body.children@.take(i as int)) } else { (cap + 1) as nat },
        decreases n - i,
    {
        proof {
            lemma_list_size_take(body.children@, i as int);
        }
        if total > cap {
            i += 1;
            continue;
        }
        let c = capped_size(&body.children[i].body, cap);
        if c > cap - total {
            total = cap + 1;
        } else {
            total = total + c;
        }
        i += 1;
    }
    proof {
        assert(body.children@.take(n as int) =~= body.children@);
    }
    total
}

/// Append the preorder list of the subtree at `body` to `out`.
fn flatten_into<'a>(name: &'a String, body: &'a StateBody, parent: Option<usize>, depth: usize, out: &mut Vec<FlatRef<'a>>)
    requires
        depth <= old(out)@.len(),
        old(out)@.len() + node_size(*body) <= 0x10000,
    ensures
        flats_view(final(out)@) == flats_view(old(out)@) + flat_node(
            name@,
            *body,
            match parent { Some(p) => Some(p as nat), None => None },
            depth as nat,
            old(out)@.len(),
        ),
    decreases body,
{
    let id = out.len();
    out.push(FlatRef { name, body, parent, depth });
    let ghost base = flats_view(old(out)@);
    let ghost node = Flat { name: name@, body: *body, parent: match parent { Some(p) => Some(p as nat), None => None }, depth: depth as nat };
    proof {
        assert(flats_view(out@) =~= base + seq![node]);
        assert(flat_list(body.children@.take(0), id as nat, depth as nat + 1, id as nat + 1) =~= Seq::<Flat>::empty());
        assert(base + seq![node] + Seq::<Flat>::empty() =~= base + seq![node]);
    }
    let n = body.children.len();
    let mut i: usize = 0;
    while i < n
        invariant
            i <= n,
            n == body.children@.len(),
            id == old(out)@.len(),
            depth <= id,
            id + node_size(*body) <= 0x10000,
            base == flats_view(old(out)@),
            flats_view(out@) == base + seq![node] + flat_list(body.children@.take(i as int), id as nat, depth as nat + 1, id as nat + 1),
            out@.len() == id + 1 + list_size(body.children@.take(i as int)),
        decreases n - i,
    {
        proof {
            lemma_flat_list_push(body.children@, id as nat, depth as nat + 1, id as nat + 1, i as int);
            lemma_list_size_take(body.children@, i as int);
            lemma_flat_list_len(body.children@.take(i as int), id as nat, depth as nat + 1, id as nat + 1);
            lemma_flat_node_len(body.children@[i as int].name@, body.children@[i as int].body, Some(id as nat), depth as nat + 1,
                id as nat + 1 + list_size(body.children@.take(i as int)));
        }
        let child = &body.children[i];
        let ghost before = out@;
        flatten_into(&child.name, &child.body, Some(id), depth + 1, out);
        proof {
            assert(flats_view(out@).len() == out@.len());
            assert(flats_view(before).len() == before.len());
        }
        i += 1;
    }
    proof {
        assert(body.children@.take(n as int) =~= body.children@);
    }
}

/// The states of the chart in preorder, or `None` when there are more than
/// 65536 of them.
pub fn flatten_input<'a>(input: &'a StatechartInput, root: &'a String) -> (r: Option<Vec<FlatRef<'a>>>)
    requires
        root@ == root_name(),
    ensures
        r is None <==> node_size(input.body) > 0x10000,
        r matches Some(v) ==> flats_view(v@) == flatten(*input),
{
    let size = capped_size(&input.body, 0x10000);
    if size > 0x10000 {
        return None;
    }
    let mut out: Vec<FlatRef<'a>> = Vec::new();
    flatten_into(root, &input.body, None, 0, &mut out);
    proof {
        assert(flats_view(Seq::<FlatRef>::empty()) =~= Seq::<Flat>::empty());
        assert(Seq::<Flat>::empty() + flatten(*input) =~= flatten(*input));
    }
    Some(out)
}




/// What a handler reacts to, with the trigger's table id.
pub enum TriggerIr {
    /// An event variant (id, name) with the typed bindings of this use.
    Event(u16, String, Option<EventPayload>),
    /// A duration trigger.
    Duration(u16),
}

/// What a handler does: move to a state (by name, with its id once
/// resolved) or run an action (id, name).
pub enum HandlerKindIr {
    Transition(String, Option<u16>),
    Action(u16, String),
}

pub struct HandlerIr {
    pub trigger: TriggerIr,
    pub kind: HandlerKindIr,
    pub decl_index: usize,
}

/// One state of the chart.
pub struct StateIr {
    pub id: u16,
    pub name: String,
    pub parent: Option<u16>,
    pub depth: u8,
    /// The resolved `default(...)` target.
    pub default_child: Option<u16>,
    /// The `default(...)` target as written.
    pub default_target: Option<String>,
    pub entries: Vec<u16>,
    pub exits: Vec<u16>,
    pub handlers: Vec<HandlerIr>,
    pub children: Vec<u16>,
    /// Duration triggers that this state's handlers use, first-seen order.
    pub owned_timers: Vec<u16>,
    pub durings: Vec<During>,
}

/// A lowered chart.
pub struct Ir {
    pub name: String,
    pub context_ty: String,
    pub event_ty: String,
    /// True when the chart declares no `events:` (a timer-only machine).
    pub events_omitted: bool,
    pub terminate_event: Option<String>,
    pub states: Vec<StateIr>,
    pub actions: Vec<ActionIr>,
    pub event_variants: Vec<EventVariantIr>,
    pub duration_triggers: Vec<DurationTrigger>,
}

// ---------------------------------------------------------------------------
// Plain-value views.

pub enum TrigView {
    Event(u16, Seq<char>, Option<(PayloadKind, Seq<(Seq<char>, Seq<char>)>)>),
    Duration(u16),
}

pub enum KindView {
    Transition(Seq<char>, Option<u16>),
    Action(u16, Seq<char>),
}

pub struct HView {
    pub trigger: TrigView,
    pub kind: KindView,
    pub decl_index: nat,
}

pub open spec fn payload_view(p: Option<EventPayload>) -> Option<(PayloadKind, Seq<(Seq<char>, Seq<char>)>)> {
    match p {
        Some(p) => Some((p.kind, fields_view(p.fields@))),
        None => None,
    }
}

pub open spec fn trig_view(t: TriggerIr) -> TrigView {
    match t {
        TriggerIr::Event(id, v, p) => TrigView::Event(id, v@, payload_view(p)),
        TriggerIr::Duration(id) => TrigView::Duration(id),
    }
}

pub open spec fn kind_view(k: HandlerKindIr) -> KindView {
    match k {
        HandlerKindIr::Transition(t, s) => KindView::Transition(t@, s),
        HandlerKindIr::Action(a, n) => KindView::Action(a, n@),
    }
}

pub open spec fn h_view(h: HandlerIr) -> HView {
    HView { trigger: trig_view(h.trigger), kind: kind_view(h.kind), decl_index: h.decl_index as nat }
}

pub open spec fn hs_view(hs: Seq<HandlerIr>) -> Seq<HView> {
    hs.map_values(|h: HandlerIr| h_view(h))
}

pub open spec fn opt_text(o: Option<String>) -> Option<Seq<char>> {
    match o {
        Some(s) => Some(s@),
        None => None,
    }
}

pub open spec fn during_view(d: During) -> (Seq<char>, Seq<Seq<char>>) {
    (d.fn_name@, d.fields@.map_values(|f: String| f@))
}

pub open spec fn durings_view(ds: Seq<During>) -> Seq<(Seq<char>, Seq<Seq<char>>)> {
    ds.map_values(|d: During| during_view(d))
}

// ---------------------------------------------------------------------------
// Names of the declared states.

/// Names of the states declared under `body`, in preorder.
pub open spec fn body_names(body: StateBody) -> Seq<Seq<char>>
    decreases body,
{
    list_names(body.children@)
}

/// Names of the states declared in `cs` and under them, in preorder.
pub open spec fn list_names(cs: Seq<StateDecl>) -> Seq<Seq<char>>
    decreases cs,
{
    if cs.len() == 0 {
        Seq::empty()
    } else {
        list_names(cs.drop_last()) + seq![cs.last().name@] + body_names(cs.last().body)
    }
}

/// Append the names of the states declared under `body`, in preorder.
pub fn collect_state_names(body: &StateBody, out: &mut Vec<String>)
    ensures
        final(out)@.map_values(|s: String| s@) == old(out)@.map_values(|s: String| s@) + body_names(*body),
    decreases body,
{
    let ghost start = old(out)@.map_values(|s: String| s@);
    let n = body.children.len();
    let mut i: usize = 0;
    while i < n
        invariant
            i <= n,
            n == body.children@.len(),
            start == old(out)@.map_values(|s: String| s@),
            out@.map_values(|s: String| s@) == start + list_names(body.children@.take(i as int)),
        decreases n - i,
    {
        let c = &body.children[i];
        let ghost before = out@.map_values(|s: String| s@);
        let nm = c.name.clone();
        out.push(nm);
        proof {
            assert(out@.map_values(|s: String| s@) =~= before + seq![c.name@]);
        }
        collect_state_names(&c.body, out);
        proof {
            let cs = body.children@;
            assert(cs.take(i + 1).drop_last() =~= cs.take(i as int));
            assert(out@.map_values(|s: String| s@) =~= start + list_names(cs.take(i + 1)));
        }
        i += 1;
    }
    proof {
        assert(body.children@.take(n as int) =~= body.children@);
    }
}

// ---------------------------------------------------------------------------
// Lowering, stated as a fold over the states in preorder.

/// The three tables.
pub struct Tabs {
    pub acts: Seq<ActView>,
    pub evs: Seq<EvView>,
    pub durs: Seq<DurView>,
}

/// What one state's declarations lower to.
pub struct Lowered {
    pub entries: Seq<u16>,
    pub exits: Seq<u16>,
    pub handlers: Seq<HView>,
    pub timers: Seq<u16>,
}

/// Interning the actions `xs` (used without bindings) in order.
pub open spec fn lower_units(acts: Seq<ActView>, xs: Seq<String>) -> Result<(Seq<ActView>, Seq<u16>), ErrView>
    decreases xs.len(),
{
    if xs.len() == 0 {
        Ok((acts, Seq::empty()))
    } else {
        match lower_units(acts, xs.drop_last()) {
            Err(e) => Err(e),
            Ok((a1, ids)) => match act_unit_step(a1, xs.last()@) {
                Err(e) => Err(e),
                Ok((a2, p)) => Ok((a2, ids.push(id16(p)))),
            },
        }
    }
}

/// The shape of an event use: unit without bindings, else the bindings'
/// style and field count.
pub open spec fn binding_shape(p: Option<EventPayload>) -> (VariantKind, Option<nat>) {
    match p {
        None => (VariantKind::Unit, None),
        Some(p) => (
            match p.kind {
                PayloadKind::Tuple => VariantKind::Tuple,
                PayloadKind::Struct => VariantKind::Struct,
            },
            Some(p.fields@.len()),
        ),
    }
}

/// A target that names a state (`names`) is a transition, which takes
/// neither an `every` timer nor payload bindings; any other target is an
/// action, interned with the bindings of the trigger.
pub open spec fn classify(t: Tabs, trig: TrigView, target: Seq<char>, names: Seq<Seq<char>>) -> Result<(Tabs, KindView), ErrView> {
    if names.contains(target) {
        match trig {
            TrigView::Duration(id) => if t.durs[id as int].repeat {
                Err(ErrView::EveryTimerTransition(target))
            } else {
                Ok((t, KindView::Transition(target, None)))
            },
            TrigView::Event(_, v, pl) => if pl is Some {
                Err(ErrView::PayloadOnTransition(v))
            } else {
                Ok((t, KindView::Transition(target, None)))
            },
        }
    } else {
        let step = match trig {
            TrigView::Event(_, v, Some((k, fs))) => act_typed_step(t.acts, target, fs, v, k),
            _ => act_unit_step(t.acts, target),
        };
        match step {
            Err(e) => Err(e),
            Ok((a2, p)) => Ok((Tabs { acts: a2, ..t }, KindView::Action(id16(p), target))),
        }
    }
}

/// Lowering one handler: intern its trigger (a duration trigger is also
/// added to the state's timers when new), then classify its target.
pub open spec fn lower_handler(t: Tabs, timers: Seq<u16>, h: Handler, names: Seq<Seq<char>>) -> Result<
    (Tabs, Seq<u16>, HView),
    ErrView,
> {
    let target = match h.kind {
        HandlerKind::Target(x) => x@,
    };
    match h.trigger {
        Trigger::Event { variant, payload } => {
            let (k, c) = binding_shape(payload);
            match ev_step(t.evs, variant@, k, c) {
                Err(e) => Err(e),
                Ok((e2, p)) => {
                    let trig = TrigView::Event(id16(p), variant@, payload_view(payload));
                    match classify(Tabs { evs: e2, ..t }, trig, target, names) {
                        Err(e) => Err(e),
                        Ok((t2, kv)) => Ok((t2, timers, HView { trigger: trig, kind: kv, decl_index: h.decl_index as nat })),
                    }
                },
            }
        },
        Trigger::Duration { expr, key, repeat } => {
            let (d2, p) = dur_step(t.durs, key@, expr@, repeat);
            let id = id16(p);
            let timers2 = if timers.contains(id) { timers } else { timers.push(id) };
            let trig = TrigView::Duration(id);
            match classify(Tabs { durs: d2, ..t }, trig, target, names) {
                Err(e) => Err(e),
                Ok((t2, kv)) => Ok((t2, timers2, HView { trigger: trig, kind: kv, decl_index: h.decl_index as nat })),
            }
        },
    }
}

/// Lowering the handlers `hs` in order.
pub open spec fn lower_handlers(t: Tabs, hs: Seq<Handler>, names: Seq<Seq<char>>) -> Result<
    (Tabs, Seq<u16>, Seq<HView>),
    ErrView,
>
    decreases hs.len(),
{
    if hs.len() == 0 {
        Ok((t, Seq::empty(), Seq::empty()))
    } else {
        match lower_handlers(t, hs.drop_last(), names) {
            Err(e) => Err(e),
            Ok((t1, tm, hv)) => match lower_handler(t1, tm, hs.last(), names) {
                Err(e) => Err(e),
                Ok((t2, tm2, h)) => Ok((t2, tm2, hv.push(h))),
            },
        }
    }
}

/// Lowering one state's body: entries, then exits, then handlers.
pub open spec fn lower_body(t: Tabs, body: StateBody, names: Seq<Seq<char>>) -> Result<(Tabs, Lowered), ErrView> {
    match lower_units(t.acts, body.entries@) {
        Err(e) => Err(e),
        Ok((a1, en)) => match lower_units(a1, body.exits@) {
            Err(e) => Err(e),
            Ok((a2, ex)) => match lower_handlers(Tabs { acts: a2, ..t }, body.handlers@, names) {
                Err(e) => Err(e),
                Ok((t3, tm, hv)) => Ok((t3, Lowered { entries: en, exits: ex, handlers: hv, timers: tm })),
            },
        },
    }
}

pub open spec fn empty_tabs() -> Tabs {
    Tabs { acts: Seq::empty(), evs: Seq::empty(), durs: Seq::empty() }
}

/// Lowering the first `k` states of the preorder list.
pub open spec fn lower_states(flats: Seq<Flat>, k: nat, names: Seq<Seq<char>>) -> Result<(Tabs, Seq<Lowered>), ErrView>
    decreases k,
{
    if k == 0 {
        Ok((empty_tabs(), Seq::empty()))
    } else {
        match lower_states(flats, (k - 1) as nat, names) {
            Err(e) => Err(e),
            Ok((t, outs)) => match lower_body(t, flats[k - 1].body, names) {
                Err(e) => Err(e),
                Ok((t2, lo)) => Ok((t2, outs.push(lo))),
            },
        }
    }
}

// ---------------------------------------------------------------------------
// Lowering only produces ids into its own tables.

/// Every action id of `lo` is below `na` and every duration trigger id of its
/// handlers is below `nd`.
pub open spec fn lowered_in_range(lo: Lowered, na: nat, nd: nat) -> bool {
    &&& forall|i: int| 0 <= i < lo.entries.len() ==> (#[trigger] lo.entries[i]) < na
    &&& forall|i: int| 0 <= i < lo.exits.len() ==> (#[trigger] lo.exits[i]) < na
    &&& forall|i: int|
        0 <= i < lo.handlers.len() ==> ((#[trigger] lo.handlers[i]).trigger matches TrigView::Duration(id) ==> id < nd)
}

proof fn lemma_id16_le(p: nat)
    ensures
        id16(p) <= p,
{
}

proof fn lemma_unit_step_grows(t: Seq<ActView>, name: Seq<char>)
    ensures
        act_unit_step(t, name) matches Ok((t2, p)) ==> t.len() <= t2.len() && p < t2.len(),
{
    lemma_index_of(act_names(t), name);
}

proof fn lemma_units_grow(acts: Seq<ActView>, xs: Seq<String>)
    ensures
        lower_units(acts, xs) matches Ok((a2, ids)) ==> acts.len() <= a2.len() && forall|i: int|
            0 <= i < ids.len() ==> (#[trigger] ids[i]) < a2.len(),
    decreases xs.len(),
{
    if xs.len() > 0 {
        lemma_units_grow(acts, xs.drop_last());
        if let Ok((a1, ids)) = lower_units(acts, xs.drop_last()) {
            lemma_unit_step_grows(a1, xs.last()@);
            if let Ok((a2, p)) = act_unit_step(a1, xs.last()@) {
                lemma_id16_le(p);
                assert forall|i: int| 0 <= i < ids.push(id16(p)).len() implies (#[trigger] ids.push(id16(p))[i]) < a2.len() by {
                    if i < ids.len() {
                        assert(ids.push(id16(p))[i] == ids[i]);
                    }
                }
            }
        }
    }
}

proof fn lemma_classify_grows(t: Tabs, trig: TrigView, target: Seq<char>, names: Seq<Seq<char>>)
    ensures
        classify(t, trig, target, names) matches Ok((t2, _)) ==> t.acts.len() <= t2.acts.len() && t2.durs == t.durs,
{
    lemma_index_of(act_names(t.acts), target);
}

proof fn lemma_handler_grows(t: Tabs, timers: Seq<u16>, h: Handler, names: Seq<Seq<char>>)
    ensures
        lower_handler(t, timers, h, names) matches Ok((t2, _, hv)) ==> {
            &&& t.acts.len() <= t2.acts.len()
            &&& t.durs.len() <= t2.durs.len()
            &&& (hv.trigger matches TrigView::Duration(id) ==> id < t2.durs.len())
        },
{
    let target = match h.kind {
        HandlerKind::Target(x) => x@,
    };
    match h.trigger {
        Trigger::Event { variant, payload } => {
            let (k, c) = binding_shape(payload);
            if let Ok((e2, p)) = ev_step(t.evs, variant@, k, c) {
                let trig = TrigView::Event(id16(p), variant@, payload_view(payload));
                lemma_classify_grows(Tabs { evs: e2, ..t }, trig, target, names);
            }
        },
        Trigger::Duration { expr, key, repeat } => {
            let (d2, p) = dur_step(t.durs, key@, expr@, repeat);
            lemma_index_of(dur_keys(t.durs), full_key(key@, repeat));
            lemma_id16_le(p);
            let trig = TrigView::Duration(id16(p));
            lemma_classify_grows(Tabs { durs: d2, ..t }, trig, target, names);
        },
    }
}

proof fn lemma_handlers_grow(t: Tabs, hs: Seq<Handler>, names: Seq<Seq<char>>)
    ensures
        lower_handlers(t, hs, names) matches Ok((t2, _, hv)) ==> {
            &&& t.acts.len() <= t2.acts.len()
            &&& t.durs.len() <= t2.durs.len()
            &&& forall|i: int|
                0 <= i < hv.len() ==> ((#[trigger] hv[i]).trigger matches TrigView::Duration(id) ==> id < t2.durs.len())
        },
    decreases hs.len(),
{
    if hs.len() > 0 {
        lemma_handlers_grow(t, hs.drop_last(), names);
        if let Ok((t1, tm, hv)) = lower_handlers(t, hs.drop_last(), names) {
            lemma_handler_grows(t1, tm, hs.last(), names);
            if let Ok((t2, tm2, h)) = lower_handler(t1, tm, hs.last(), names) {
                assert forall|i: int| 0 <= i < hv.push(h).len() implies ((#[trigger] hv.push(h)[i]).trigger matches TrigView::Duration(id)
                    ==> id < t2.durs.len()) by {
                    if i < hv.len() {
                        assert(hv.push(h)[i] == hv[i]);
                    }
                }
            }
        }
    }
}

proof fn lemma_body_grows(t: Tabs, body: StateBody, names: Seq<Seq<char>>)
    ensures
        lower_body(t, body, names) matches Ok((t2, lo)) ==> {
            &&& t.acts.len() <= t2.acts.len()
            &&& t.durs.len() <= t2.durs.len()
            &&& lowered_in_range(lo, t2.acts.len(), t2.durs.len())
        },
{
    lemma_units_grow(t.acts, body.entries@);
    if let Ok((a1, en)) = lower_units(t.acts, body.entries@) {
        lemma_units_grow(a1, body.exits@);
        if let Ok((a2, ex)) = lower_units(a1, body.exits@) {
            lemma_handlers_grow(Tabs { acts: a2, ..t }, body.handlers@, names);
        }
    }
}

proof fn lemma_states_in_range(flats: Seq<Flat>, k: nat, names: Seq<Seq<char>>)
    ensures
        lower_states(flats, k, names) matches Ok((t, outs)) ==> {
            &&& outs.len() == k
            &&& forall|j: int| 0 <= j < k ==> lowered_in_range(#[trigger] outs[j], t.acts.len(), t.durs.len())
        },
    decreases k,
{
    if k > 0 {
        lemma_states_in_range(flats, (k - 1) as nat, names);
        if let Ok((t, outs)) = lower_states(flats, (k - 1) as nat, names) {
            lemma_body_grows(t, flats[k - 1].body, names);
            if let Ok((t2, lo)) = lower_body(t, flats[k - 1].body, names) {
                assert forall|j: int| 0 <= j < k implies lowered_in_range(#[trigger] outs.push(lo)[j], t2.acts.len(), t2.durs.len()) by {
                    if j < k - 1 {
                        assert(outs.push(lo)[j] == outs[j]);
                        assert(lowered_in_range(outs[j], t.acts.len(), t.durs.len()));
                    }
                }
            }
        }
    }
}

proof fn lemma_units_err(acts: Seq<ActView>, xs: Seq<String>, i: int)
    requires
        0 <= i <= xs.len(),
        lower_units(acts, xs.take(i)) is Err,
    ensures
        lower_units(acts, xs) == lower_units(acts, xs.take(i)),
    decreases xs.len(),
{
    if i < xs.len() {
        assert(xs.drop_last().take(i) =~= xs.take(i));
        lemma_units_err(acts, xs.drop_last(), i);
    } else {
        assert(xs.take(i) =~= xs);
    }
}

proof fn lemma_handlers_err(t: Tabs, hs: Seq<Handler>, names: Seq<Seq<char>>, i: int)
    requires
        0 <= i <= hs.len(),
        lower_handlers(t, hs.take(i), names) is Err,
    ensures
        lower_handlers(t, hs, names) == lower_handlers(t, hs.take(i), names),
    decreases hs.len(),
{
    if i < hs.len() {
        assert(hs.drop_last().take(i) =~= hs.take(i));
        lemma_handlers_err(t, hs.drop_last(), names, i);
    } else {
        assert(hs.take(i) =~= hs);
    }
}

proof fn lemma_states_err(flats: Seq<Flat>, k: nat, n: nat, names: Seq<Seq<char>>)
    requires
        k <= n,
        lower_states(flats, k, names) is Err,
    ensures
        lower_states(flats, n, names) == lower_states(flats, k, names),
    decreases n,
{
    if k < n {
        lemma_states_err(flats, k, (n - 1) as nat, names);
    }
}

/// Intern the actions `xs` (used without bindings) in order.
fn lower_unit_list(acts: &mut Vec<ActionIr>, xs: &Vec<String>) -> (r: Result<Vec<u16>, IrError>)
    ensures
        match lower_units(acts_view(old(acts)@), xs@) {
            Ok((a2, ids)) => r matches Ok(v) && v@ == ids && acts_view(final(acts)@) == a2,
            Err(e) => r matches Err(x) && err_view(x) == e,
        },
{
    let ghost a0 = acts_view(acts@);
    let mut out: Vec<u16> = Vec::new();
    let n = xs.len();
    let mut i: usize = 0;
    proof {
        assert(xs@.take(0) =~= Seq::<String>::empty());
    }
    while i < n
        invariant
            i <= n,
            n == xs@.len(),
            a0 == acts_view(old(acts)@),
            lower_units(a0, xs@.take(i as int)) == Ok::<(Seq<ActView>, Seq<u16>), ErrView>((acts_view(acts@), out@)),
        decreases n - i,
    {
        proof {
            assert(xs@.take(i + 1).drop_last() =~= xs@.take(i as int));
        }
        match intern_action_unit(acts, &xs[i]) {
            Ok(id) => {
                out.push(id);
            },
            Err(e) => {
                proof {
                    lemma_units_err(a0, xs@, i + 1);
                }
                return Err(e);
            },
        }
        i += 1;
    }
    proof {
        assert(xs@.take(n as int) =~= xs@);
    }
    Ok(out)
}

/// Whether `t` is one of `names`.
pub(crate) fn contains_name(names: &Vec<String>, t: &String) -> (r: bool)
    ensures
        r == names@.map_values(|s: String| s@).contains(t@),
{
    let ghost v = names@.map_values(|s: String| s@);
    let n = names.len();
    let mut i: usize = 0;
    while i < n
        invariant
            i <= n,
            n == names@.len(),
            v == names@.map_values(|s: String| s@),
            forall|j: int| 0 <= j < i ==> v[j] != t@,
        decreases n - i,
    {
        if names[i] == *t {
            proof {
                assert(v[i as int] == t@);
            }
            return true;
        }
        i += 1;
    }
    false
}

pub open spec fn names_view(names: Seq<String>) -> Seq<Seq<char>> {
    names.map_values(|s: String| s@)
}

pub open spec fn tabs_of(acts: Seq<ActionIr>, evs: Seq<EventVariantIr>, durs: Seq<DurationTrigger>) -> Tabs {
    Tabs { acts: acts_view(acts), evs: evs_view(evs), durs: durs_view(durs) }
}

/// Copy an event payload.
fn clone_payload(p: &Option<EventPayload>) -> (r: Option<EventPayload>)
    ensures
        payload_view(r) == payload_view(*p),
{
    match p {
        Some(p) => Some(EventPayload { kind: p.kind, fields: clone_fields(&p.fields) }),
        None => None,
    }
}

/// Classify a handler's target: a transition when it names a state, else an
/// action interned with the trigger's bindings.
fn classify_target(
    acts: &mut Vec<ActionIr>,
    evs: &Vec<EventVariantIr>,
    durs: &Vec<DurationTrigger>,
    trig: &TriggerIr,
    target: &String,
    names: &Vec<String>,
) -> (r: Result<HandlerKindIr, IrError>)
    requires
        trig matches TriggerIr::Duration(id) ==> id < durs@.len(),
    ensures
        match classify(tabs_of(old(acts)@, evs@, durs@), trig_view(*trig), target@, names_view(names@)) {
            Ok((t2, kv)) => r matches Ok(k) && kind_view(k) == kv && tabs_of(final(acts)@, evs@, durs@) == t2,
            Err(e) => r matches Err(x) && err_view(x) == e,
        },
{
    if contains_name(names, target) {
        match trig {
            TriggerIr::Duration(id) => {
                if durs[*id as usize].repeat {
                    return Err(IrError::EveryTimerTransition { target: target.clone() });
                }
            },
            TriggerIr::Event(_, v, pl) => {
                if pl.is_some() {
                    return Err(IrError::PayloadOnTransition { variant: v.clone() });
                }
            },
        }
        Ok(HandlerKindIr::Transition(target.clone(), None))
    } else {
        let r = match trig {
            TriggerIr::Event(_, v, Some(p)) => intern_action_with_params(acts, target, &p.fields, v, p.kind),
            _ => intern_action_unit(acts, target),
        };
        match r {
            Ok(a) => Ok(HandlerKindIr::Action(a, target.clone())),
            Err(e) => Err(e),
        }
    }
}

/// Lower one handler: intern its trigger, record a duration trigger among
/// the state's timers, and classify its target.
fn lower_one_handler(
    acts: &mut Vec<ActionIr>,
    evs: &mut Vec<EventVariantIr>,
    durs: &mut Vec<DurationTrigger>,
    timers: &mut Vec<u16>,
    h: &Handler,
    names: &Vec<String>,
) -> (r: Result<HandlerIr, IrError>)
    ensures
        match lower_handler(tabs_of(old(acts)@, old(evs)@, old(durs)@), old(timers)@, *h, names_view(names@)) {
            Ok((t2, tm2, hv)) => r matches Ok(x) && h_view(x) == hv && tabs_of(final(acts)@, final(evs)@, final(durs)@) == t2
                && final(timers)@ == tm2,
            Err(e) => r matches Err(x) && err_view(x) == e,
        },
{
    let HandlerKind::Target(target) = &h.kind;
    match &h.trigger {
        Trigger::Event { variant, payload } => {
            let (k, c) = match payload {
                None => (VariantKind::Unit, None),
                Some(p) => (
                    match p.kind {
                        PayloadKind::Tuple => VariantKind::Tuple,
                        PayloadKind::Struct => VariantKind::Struct,
                    },
                    Some(p.fields.len()),
                ),
            };
            let id = match intern_event(evs, variant, k, c) {
                Ok(id) => id,
                Err(e) => {
                    return Err(e);
                },
            };
            let trig = TriggerIr::Event(id, variant.clone(), clone_payload(payload));
            match classify_target(acts, evs, durs, &trig, target, names) {
                Ok(kind) => Ok(HandlerIr { trigger: trig, kind, decl_index: h.decl_index }),
                Err(e) => Err(e),
            }
        },
        Trigger::Duration { expr, key, repeat } => {
            let ghost d0 = durs_view(durs@);
            let id = intern_duration(durs, key, expr, *repeat);
            proof {
                let (d2, p) = dur_step(d0, key@, expr@, *repeat);
                lemma_index_of(crate::intern::dur_keys(d0), crate::intern::full_key(key@, *repeat));
                assert(p < d2.len());
                assert(id as nat <= p);
                assert(durs@.len() == durs_view(durs@).len());
            }
            let mut found = false;
            let mut j: usize = 0;
            while j < timers.len()
                invariant
                    j <= timers@.len(),
                    timers@ == old(timers)@,
                    found == exists|q: int| 0 <= q < j && timers@[q] == id,
                decreases timers@.len() - j,
            {
                if timers[j] == id {
                    found = true;
                }
                j += 1;
            }
            if !found {
                timers.push(id);
            }
            let trig = TriggerIr::Duration(id);
            match classify_target(acts, evs, durs, &trig, target, names) {
                Ok(kind) => Ok(HandlerIr { trigger: trig, kind, decl_index: h.decl_index }),
                Err(e) => Err(e),
            }
        },
    }
}

/// Lower a state's handlers in order.
fn lower_handler_list(
    acts: &mut Vec<ActionIr>,
    evs: &mut Vec<EventVariantIr>,
    durs: &mut Vec<DurationTrigger>,
    hs: &Vec<Handler>,
    names: &Vec<String>,
) -> (r: Result<(Vec<u16>, Vec<HandlerIr>), IrError>)
    ensures
        match lower_handlers(tabs_of(old(acts)@, old(evs)@, old(durs)@), hs@, names_view(names@)) {
            Ok((t2, tm, hv)) => r matches Ok((x, y)) && x@ == tm && hs_view(y@) == hv && tabs_of(
                final(acts)@,
                final(evs)@,
                final(durs)@,
            ) == t2,
            Err(e) => r matches Err(x) && err_view(x) == e,
        },
{
    let ghost t0 = tabs_of(acts@, evs@, durs@);
    let mut timers: Vec<u16> = Vec::new();
    let mut out: Vec<HandlerIr> = Vec::new();
    let n = hs.len();
    let mut i: usize = 0;
    proof {
        assert(hs@.take(0) =~= Seq::<Handler>::empty());
        assert(hs_view(out@) =~= Seq::<HView>::empty());
    }
    while i < n
        invariant
            i <= n,
            n == hs@.len(),
            t0 == tabs_of(old(acts)@, old(evs)@, old(durs)@),
            lower_handlers(t0, hs@.take(i as int), names_view(names@)) == Ok::<(Tabs, Seq<u16>, Seq<HView>), ErrView>(
                (tabs_of(acts@, evs@, durs@), timers@, hs_view(out@)),
            ),
        decreases n - i,
    {
        proof {
            assert(hs@.take(i + 1).drop_last() =~= hs@.take(i as int));
        }
        match lower_one_handler(acts, evs, durs, &mut timers, &hs[i], names) {
            Ok(h) => {
                let ghost before = out@;
                out.push(h);
                proof {
                    assert(hs_view(out@) =~= hs_view(before).push(h_view(h)));
                }
            },
            Err(e) => {
                proof {
                    lemma_handlers_err(t0, hs@, names_view(names@), i + 1);
                }
                return Err(e);
            },
        }
        i += 1;
    }
    proof {
        assert(hs@.take(n as int) =~= hs@);
    }
    Ok((timers, out))
}

/// Lower one state's body: entries, exits, then handlers.
fn lower_state_body(
    acts: &mut Vec<ActionIr>,
    evs: &mut Vec<EventVariantIr>,
    durs: &mut Vec<DurationTrigger>,
    body: &StateBody,
    names: &Vec<String>,
) -> (r: Result<(Vec<u16>, Vec<u16>, Vec<HandlerIr>, Vec<u16>), IrError>)
    ensures
        match lower_body(tabs_of(old(acts)@, old(evs)@, old(durs)@), *body, names_view(names@)) {
            Ok((t2, lo)) => r matches Ok((en, ex, hs, tm)) && en@ == lo.entries && ex@ == lo.exits && hs_view(hs@)
                == lo.handlers && tm@ == lo.timers && tabs_of(final(acts)@, final(evs)@, final(durs)@) == t2,
            Err(e) => r matches Err(x) && err_view(x) == e,
        },
{
    let en = match lower_unit_list(acts, &body.entries) {
        Ok(v) => v,
        Err(e) => {
            return Err(e);
        },
    };
    let ex = match lower_unit_list(acts, &body.exits) {
        Ok(v) => v,
        Err(e) => {
            return Err(e);
        },
    };
    match lower_handler_list(acts, evs, durs, &body.handlers, names) {
        Ok((tm, hs)) => Ok((en, ex, hs, tm)),
        Err(e) => Err(e),
    }
}

/// Ids, in order, of the states among the first `j` of `flats` whose parent
/// is `k`.
pub open spec fn child_ids(flats: Seq<Flat>, k: nat, j: nat) -> Seq<u16>
    decreases j,
{
    if j == 0 {
        Seq::empty()
    } else {
        let r = child_ids(flats, k, (j - 1) as nat);
        if flats[j - 1].parent == Some(k) {
            r.push(id16((j - 1) as nat))
        } else {
            r
        }
    }
}

/// Ids of the children of state `k`.
fn children_of(flats: &Vec<FlatRef>, k: usize) -> (r: Vec<u16>)
    ensures
        r@ == child_ids(flats_view(flats@), k as nat, flats@.len()),
{
    let mut out: Vec<u16> = Vec::new();
    let n = flats.len();
    let mut j: usize = 0;
    while j < n
        invariant
            j <= n,
            n == flats@.len(),
            out@ == child_ids(flats_view(flats@), k as nat, j as nat),
        decreases n - j,
    {
        proof {
            assert(flats_view(flats@)[j as int] == flat_view(flats@[j as int]));
        }
        if flats[j].parent == Some(k) {
            out.push(to_id(j));
        }
        j += 1;
    }
    out
}

/// Copy a list of names.
fn clone_strings(v: &Vec<String>) -> (r: Vec<String>)
    ensures
        names_view(r@) == names_view(v@),
{
    let mut out: Vec<String> = Vec::new();
    let n = v.len();
    let mut i: usize = 0;
    while i < n
        invariant
            i <= n,
            n == v@.len(),
            names_view(out@) == names_view(v@.take(i as int)),
        decreases n - i,
    {
        let s = v[i].clone();
        proof {
            assert(names_view(v@.take(i + 1)) =~= names_view(v@.take(i as int)).push(v@[i as int]@));
            assert(names_view(out@.push(s)) =~= names_view(out@).push(s@));
        }
        out.push(s);
        i += 1;
    }
    proof {
        assert(v@.take(n as int) =~= v@);
    }
    out
}

/// Copy a list of `during:` declarations.
pub fn clone_durings(v: &Vec<During>) -> (r: Vec<During>)
    ensures
        durings_view(r@) == durings_view(v@),
{
    let mut out: Vec<During> = Vec::new();
    let n = v.len();
    let mut i: usize = 0;
    while i < n
        invariant
            i <= n,
            n == v@.len(),
            durings_view(out@) == durings_view(v@.take(i as int)),
        decreases n - i,
    {
        let d = During { fn_name: v[i].fn_name.clone(), fields: clone_strings(&v[i].fields) };
        proof {
            assert(during_view(d) == during_view(v@[i as int]));
            assert(durings_view(v@.take(i + 1)) =~= durings_view(v@.take(i as int)).push(during_view(v@[i as int])));
            assert(durings_view(out@.push(d)) =~= durings_view(out@).push(during_view(d)));
        }
        out.push(d);
        i += 1;
    }
    proof {
        assert(v@.take(n as int) =~= v@);
    }
    out
}

fn clone_opt_string(o: &Option<String>) -> (r: Option<String>)
    ensures
        opt_text(r) == opt_text(*o),
{
    match o {
        Some(s) => Some(s.clone()),
        None => None,
    }
}

pub open spec fn parent16(p: Option<nat>) -> Option<u16> {
    match p {
        Some(p) => Some(id16(p)),
        None => None,
    }
}

/// State `k` of the lowered chart agrees with the `k`-th state of the
/// preorder list and with what its declarations lowered to. Defaults are
/// not resolved yet.
pub open spec fn state_lowered(s: StateIr, flats: Seq<Flat>, k: nat, lo: Lowered) -> bool {
    let f = flats[k as int];
    &&& s.id == id16(k)
    &&& s.name@ == f.name
    &&& s.parent == parent16(f.parent)
    &&& s.depth as nat == f.depth
    &&& s.default_child is None
    &&& opt_text(s.default_target) == opt_text(f.body.default_child)
    &&& s.entries@ == lo.entries
    &&& s.exits@ == lo.exits
    &&& hs_view(s.handlers@) == lo.handlers
    &&& s.owned_timers@ == lo.timers
    &&& durings_view(s.durings@) == durings_view(f.body.durings@)
    &&& s.children@ == child_ids(flats, k, flats.len())
}

/// The names that make a handler target a transition: every declared state
/// and the chart itself.
pub open spec fn target_names(input: StatechartInput) -> Seq<Seq<char>> {
    body_names(input.body).push(input.name@)
}

/// Every state sits at most 255 levels below the root.
pub open spec fn depths_fit(input: StatechartInput) -> bool {
    forall|k: int| 0 <= k < flatten(input).len() ==> (#[trigger] flatten(input)[k]).depth < 256
}

/// The outcome of lowering a chart description.
pub open spec fn lowering(input: StatechartInput) -> Result<(Tabs, Seq<Lowered>), ErrView> {
    if input.body.context_ty is None {
        Err(ErrView::MissingContext)
    } else if node_size(input.body) > 0x10000 {
        Err(ErrView::TooManyStates)
    } else {
        match lower_states(flatten(input), flatten(input).len(), target_names(input)) {
            Err(e) => Err(e),
            Ok((t, outs)) => Ok((with_terminate(t, input.body.terminate), outs)),
        }
    }
}

/// The terminate event is interned (as a use without bindings) after every
/// state has been lowered.
pub open spec fn with_terminate(t: Tabs, term: Option<String>) -> Tabs {
    match term {
        None => t,
        Some(x) => match ev_step(t.evs, x@, VariantKind::Unit, None) {
            Ok((e2, _)) => Tabs { evs: e2, ..t },
            Err(_) => t,
        },
    }
}

/// `ir` is the lowering of `input` with tables `t` and per-state results `outs`.
pub open spec fn ir_lowered(ir: Ir, input: StatechartInput, t: Tabs, outs: Seq<Lowered>) -> bool {
    let flats = flatten(input);
    &&& ir.name@ == input.name@
    &&& Some(ir.context_ty@) == opt_text(input.body.context_ty)
    &&& match input.body.event_ty {
        Some(e) => ir.event_ty@ == e@ && !ir.events_omitted,
        None => ir.event_ty@ == "__NoEvents"@ && ir.events_omitted,
    }
    &&& opt_text(ir.terminate_event) == opt_text(input.body.terminate)
    &&& acts_view(ir.actions@) == t.acts
    &&& evs_view(ir.event_variants@) == t.evs
    &&& durs_view(ir.duration_triggers@) == t.durs
    &&& ir.states@.len() == flats.len()
    &&& outs.len() == flats.len()
    &&& forall|k: int| 0 <= k < flats.len() ==> state_lowered(#[trigger] ir.states@[k], flats, k as nat, outs[k])
}

/// Every action id of a state (entries and exits) and every duration
/// trigger id of its handlers refers into the chart's tables.
pub open spec fn ids_in_tables(ir: Ir) -> bool {
    &&& forall|k: int, i: int|
        0 <= k < ir.states@.len() && 0 <= i < ir.states@[k].entries@.len() ==> (#[trigger] ir.states@[k].entries@[i])
            < ir.actions@.len()
    &&& forall|k: int, i: int|
        0 <= k < ir.states@.len() && 0 <= i < ir.states@[k].exits@.len() ==> (#[trigger] ir.states@[k].exits@[i])
            < ir.actions@.len()
    &&& forall|k: int, i: int|
        0 <= k < ir.states@.len() && 0 <= i < ir.states@[k].handlers@.len() ==> ((
        #[trigger] ir.states@[k].handlers@[i]).trigger matches TriggerIr::Duration(id) ==> id
            < ir.duration_triggers@.len())
}

/// Every resolved default target is a state of the chart.
pub open spec fn defaults_in_range(ir: Ir) -> bool {
    forall|k: int|
        0 <= k < ir.states@.len() ==> ((#[trigger] ir.states@[k]).default_child matches Some(d) ==> d < ir.states@.len())
}

proof fn lemma_lowered_ids(ir: Ir, input: StatechartInput, t: Tabs, outs: Seq<Lowered>)
    requires
        lowering(input) == Ok::<(Tabs, Seq<Lowered>), ErrView>((t, outs)),
        ir_lowered(ir, input, t, outs),
    ensures
        0 < ir.states@.len() <= 0x10000,
        ids_in_tables(ir),
        defaults_in_range(ir),
{
    let fl = flatten(input);
    let names = target_names(input);
    lemma_flat_node_len(root_name(), input.body, None, 0, 0);
    lemma_states_in_range(fl, fl.len(), names);
    let t0 = lower_states(fl, fl.len(), names)->Ok_0.0;
    assert(t.acts == t0.acts && t.durs == t0.durs);
    assert(ir.actions@.len() == acts_view(ir.actions@).len());
    assert(ir.duration_triggers@.len() == durs_view(ir.duration_triggers@).len());
    assert forall|k: int, i: int|
        0 <= k < ir.states@.len() && 0 <= i < ir.states@[k].entries@.len() implies (#[trigger] ir.states@[k].entries@[i])
            < ir.actions@.len() by {
        assert(state_lowered(ir.states@[k], fl, k as nat, outs[k]));
        assert(lowered_in_range(outs[k], t0.acts.len(), t0.durs.len()));
        assert(ir.states@[k].entries@[i] == outs[k].entries[i]);
    }
    assert forall|k: int, i: int|
        0 <= k < ir.states@.len() && 0 <= i < ir.states@[k].exits@.len() implies (#[trigger] ir.states@[k].exits@[i])
            < ir.actions@.len() by {
        assert(state_lowered(ir.states@[k], fl, k as nat, outs[k]));
        assert(lowered_in_range(outs[k], t0.acts.len(), t0.durs.len()));
        assert(ir.states@[k].exits@[i] == outs[k].exits[i]);
    }
    assert forall|k: int, i: int|
        0 <= k < ir.states@.len() && 0 <= i < ir.states@[k].handlers@.len() implies ((
        #[trigger] ir.states@[k].handlers@[i]).trigger matches TriggerIr::Duration(id) ==> id
            < ir.duration_triggers@.len()) by {
        assert(state_lowered(ir.states@[k], fl, k as nat, outs[k]));
        assert(lowered_in_range(outs[k], t0.acts.len(), t0.durs.len()));
        assert(hs_view(ir.states@[k].handlers@)[i] == outs[k].handlers[i]);
        assert(hs_view(ir.states@[k].handlers@)[i] == h_view(ir.states@[k].handlers@[i]));
    }
    assert forall|k: int| 0 <= k < ir.states@.len() implies ((#[trigger] ir.states@[k]).default_child matches Some(d) ==> d
        < ir.states@.len()) by {
        assert(state_lowered(ir.states@[k], fl, k as nat, outs[k]));
    }
}

/// Lower a parsed chart: number its states in preorder (the root first),
/// intern its actions, event variants and duration triggers in first-seen
/// order, and classify each handler as a transition or an action.
pub fn build_ir(input: StatechartInput) -> (r: Result<Ir, IrError>)
    requires
        depths_fit(input),
    ensures
        match lowering(input) {
            Err(e) => r matches Err(x) && err_view(x) == e,
            Ok((t, outs)) => r matches Ok(ir) && ir_lowered(ir, input, t, outs),
        },
        r matches Ok(ir) ==> 0 < ir.states@.len() <= 0x10000 && ids_in_tables(ir) && defaults_in_range(ir),
{
    let ctx = match &input.body.context_ty {
        Some(c) => c.clone(),
        None => {
            return Err(IrError::MissingContext);
        },
    };
    let root = String::from_str("__Root");
    let flats = match flatten_input(&input, &root) {
        Some(f) => f,
        None => {
            return Err(IrError::TooManyStates);
        },
    };
    let ghost fl = flatten(input);
    let mut names: Vec<String> = Vec::new();
    collect_state_names(&input.body, &mut names);
    names.push(input.name.clone());
    proof {
        assert(names_view(names@) =~= target_names(input));
    }
    let mut acts: Vec<ActionIr> = Vec::new();
    let mut evs: Vec<EventVariantIr> = Vec::new();
    let mut durs: Vec<DurationTrigger> = Vec::new();
    let mut states: Vec<StateIr> = Vec::new();
    let ghost mut outs: Seq<Lowered> = Seq::empty();
    let n = flats.len();
    proof {
        assert(acts_view(acts@) =~= Seq::<ActView>::empty());
        assert(evs_view(evs@) =~= Seq::<EvView>::empty());
        assert(durs_view(durs@) =~= Seq::<DurView>::empty());
        lemma_flat_node_len(root_name(), input.body, None, 0, 0);
        assert(flats_view(flats@).len() == flats@.len());
    }
    let mut k: usize = 0;
    while k < n
        invariant
            k <= n,
            n == flats@.len(),
            fl == flatten(input),
            flats_view(flats@) == fl,
            n <= 0x10000,
            depths_fit(input),
            input.body.context_ty is Some,
            node_size(input.body) <= 0x10000,
            names_view(names@) == target_names(input),
            lower_states(fl, k as nat, target_names(input)) == Ok::<(Tabs, Seq<Lowered>), ErrView>(
                (tabs_of(acts@, evs@, durs@), outs),
            ),
            states@.len() == k,
            outs.len() == k,
            forall|j: int| 0 <= j < k ==> state_lowered(#[trigger] states@[j], fl, j as nat, outs[j]),
        decreases n - k,
    {
        let f = &flats[k];
        proof {
            assert(fl[k as int] == flat_view(flats@[k as int]));
            assert(fl[k as int].depth < 256);
        }
        match lower_state_body(&mut acts, &mut evs, &mut durs, f.body, &names) {
            Ok((en, ex, hs, tm)) => {
                let s = StateIr {
                    id: to_id(k),
                    name: f.name.clone(),
                    parent: match f.parent {
                        Some(p) => Some(to_id(p)),
                        None => None,
                    },
                    depth: f.depth as u8,
                    default_child: None,
                    default_target: clone_opt_string(&f.body.default_child),
                    entries: en,
                    exits: ex,
                    handlers: hs,
                    children: children_of(&flats, k),
                    owned_timers: tm,
                    durings: clone_durings(&f.body.durings),
                };
                let ghost lo = Lowered { entries: en@, exits: ex@, handlers: hs_view(hs@), timers: tm@ };
                let ghost prev = states@;
                states.push(s);
                proof {
                    outs = outs.push(lo);
                    assert(state_lowered(states@[k as int], fl, k as nat, outs[k as int]));
                    assert forall|j: int| 0 <= j < k + 1 implies state_lowered(#[trigger] states@[j], fl, j as nat, outs[j]) by {
                        if j < k {
                            assert(states@[j] == prev[j]);
                        }
                    }
                }
            },
            Err(e) => {
                proof {
                    assert(lower_states(fl, (k + 1) as nat, target_names(input)) == Err::<(Tabs, Seq<Lowered>), ErrView>(err_view(e)));
                    lemma_states_err(fl, (k + 1) as nat, n as nat, target_names(input));
                    assert(lowering(input) == lower_states(fl, n as nat, target_names(input)));
                }
                return Err(e);
            },
        }
        k += 1;
    }
    proof {
        assert(lowering(input) == Ok::<(Tabs, Seq<Lowered>), ErrView>(
            (with_terminate(tabs_of(acts@, evs@, durs@), input.body.terminate), outs),
        ));
    }
    match &input.body.terminate {
        Some(x) => {
            let _ = intern_event(&mut evs, x, VariantKind::Unit, None);
        },
        None => {},
    }
    let (event_ty, events_omitted) = match &input.body.event_ty {
        Some(t) => (t.clone(), false),
        None => (String::from_str("__NoEvents"), true),
    };
    let ir = Ir {
        name: input.name.clone(),
        context_ty: ctx,
        event_ty,
        events_omitted,
        terminate_event: clone_opt_string(&input.body.terminate),
        states,
        actions: acts,
        event_variants: evs,
        duration_triggers: durs,
    };
    proof {
        let (t, o) = lowering(input)->Ok_0;
        lemma_lowered_ids(ir, input, t, o);
    }
    Ok(ir)
}

pub open spec fn state_names(states: Seq<StateIr>) -> Seq<Seq<char>> {
    states.map_values(|s: StateIr| s.name@)
}

/// Position of the last declared state (index at least 1, not named like
/// the implicit root) among the first `j` that is named `t`, or -1.
pub open spec fn last_named(names: Seq<Seq<char>>, t: Seq<char>, j: int) -> int
    decreases j,
{
    if j <= 1 {
        -1
    } else if names[j - 1] == t && names[j - 1] != root_name() {
        j - 1
    } else {
        last_named(names, t, j - 1)
    }
}

/// The state a target name designates: the chart's own name designates the
/// root; any other name the last declared state so named.
pub open spec fn resolve_name(names: Seq<Seq<char>>, chart: Seq<char>, t: Seq<char>) -> Option<u16> {
    if t == chart {
        Some(0)
    } else {
        let j = last_named(names, t, names.len() as int);
        if j >= 1 {
            Some(id16(j as nat))
        } else {
            None
        }
    }
}

/// An unresolved transition whose target designates no state.
pub open spec fn unknown_target(k: HandlerKindIr, names: Seq<Seq<char>>, chart: Seq<char>) -> bool {
    k matches HandlerKindIr::Transition(t, None) && resolve_name(names, chart, t@) is None
}

pub open spec fn resolved_kind(k: HandlerKindIr, names: Seq<Seq<char>>, chart: Seq<char>) -> HandlerKindIr {
    match k {
        HandlerKindIr::Transition(t, None) => HandlerKindIr::Transition(t, resolve_name(names, chart, t@)),
        _ => k,
    }
}

pub open spec fn resolved_default(s: StateIr, names: Seq<Seq<char>>, chart: Seq<char>) -> Option<u16> {
    match s.default_target {
        Some(t) => resolve_name(names, chart, t@),
        None => None,
    }
}

/// `new` is `old` with its default target and its transitions resolved.
pub open spec fn state_resolved(new: StateIr, old: StateIr, names: Seq<Seq<char>>, chart: Seq<char>) -> bool {
    &&& new == (StateIr { default_child: resolved_default(old, names, chart), handlers: new.handlers, ..old })
    &&& new.handlers@.len() == old.handlers@.len()
    &&& forall|j: int|
        0 <= j < old.handlers@.len() ==> #[trigger] new.handlers@[j] == (HandlerIr {
            kind: resolved_kind(old.handlers@[j].kind, names, chart),
            ..old.handlers@[j]
        })
}

/// The state named `t` (see `resolve_name`).
fn lookup_state(names: &Vec<String>, chart: &String, root: &String, t: &String) -> (r: Option<u16>)
    requires
        root@ == root_name(),
    ensures
        r == resolve_name(names_view(names@), chart@, t@),
{
    if *t == *chart {
        return Some(0);
    }
    let ghost v = names_view(names@);
    let mut j: usize = names.len();
    while j > 1
        invariant
            j <= names@.len(),
            v == names_view(names@),
            v.len() == names@.len(),
            t@ != chart@,
            root@ == root_name(),
            last_named(v, t@, names@.len() as int) == last_named(v, t@, j as int),
        decreases j,
    {
        proof {
            assert(v[j - 1] == names@[j - 1]@);
        }
        if names[j - 1] == *t && !(names[j - 1] == *root) {
            return Some(to_id(j - 1));
        }
        j -= 1;
    }
    None
}

/// The name a handler targets.
pub open spec fn target_text(k: HandlerKindIr) -> Seq<char> {
    match k {
        HandlerKindIr::Transition(t, _) => t@,
        HandlerKindIr::Action(_, n) => n@,
    }
}

/// Some transition names no state.
pub open spec fn has_unknown_target(states: Seq<StateIr>, names: Seq<Seq<char>>, chart: Seq<char>) -> bool {
    exists|k: int, j: int|
        0 <= k < states.len() && 0 <= j < states[k].handlers@.len() && unknown_target(
            #[trigger] states[k].handlers@[j].kind,
            names,
            chart,
        )
}

/// No transition before handler `j` of state `k` (in state order, then
/// declaration order) names an unknown state.
pub open spec fn none_unknown_before(states: Seq<StateIr>, names: Seq<Seq<char>>, chart: Seq<char>, k: int, j: int) -> bool {
    forall|a: int, b: int|
        0 <= a < states.len() && 0 <= b < states[a].handlers@.len() && (a < k || (a == k && b < j)) ==> !unknown_target(
            #[trigger] states[a].handlers@[b].kind,
            names,
            chart,
        )
}

/// The target of the first transition that names no state.
fn first_unknown(states: &Vec<StateIr>, names: &Vec<String>, chart: &String, root: &String) -> (r: Option<String>)
    requires
        root@ == root_name(),
    ensures
        r is None <==> !has_unknown_target(states@, names_view(names@), chart@),
        r matches Some(t) ==> exists|k: int, j: int|
            0 <= k < states@.len() && 0 <= j < states@[k].handlers@.len() && unknown_target(
                #[trigger] states@[k].handlers@[j].kind,
                names_view(names@),
                chart@,
            ) && target_text(states@[k].handlers@[j].kind) == t@ && none_unknown_before(
                states@,
                names_view(names@),
                chart@,
                k,
                j,
            ),
{
    let ghost nv = names_view(names@);
    let n = states.len();
    let mut k: usize = 0;
    while k < n
        invariant
            k <= n,
            n == states@.len(),
            nv == names_view(names@),
            root@ == root_name(),
            forall|a: int, b: int|
                0 <= a < k && 0 <= b < states@[a].handlers@.len() ==> !unknown_target(
                    #[trigger] states@[a].handlers@[b].kind,
                    nv,
                    chart@,
                ),
        decreases n - k,
    {
        let hs = &states[k].handlers;
        let m = hs.len();
        let mut j: usize = 0;
        while j < m
            invariant
                j <= m,
                m == hs@.len(),
                k < n,
                n == states@.len(),
                hs == states@[k as int].handlers,
                nv == names_view(names@),
                root@ == root_name(),
                forall|b: int| 0 <= b < j ==> !unknown_target(#[trigger] hs@[b].kind, nv, chart@),
                forall|a: int, b: int|
                    0 <= a < k && 0 <= b < states@[a].handlers@.len() ==> !unknown_target(
                        #[trigger] states@[a].handlers@[b].kind,
                        nv,
                        chart@,
                    ),
            decreases m - j,
        {
            match &hs[j].kind {
                HandlerKindIr::Transition(t, None) => {
                    if lookup_state(names, chart, root, t).is_none() {
                        proof {
                            assert(unknown_target(states@[k as int].handlers@[j as int].kind, nv, chart@));
                            assert(none_unknown_before(states@, nv, chart@, k as int, j as int)) by {
                                assert forall|a: int, b: int|
                                    0 <= a < states@.len() && 0 <= b < states@[a].handlers@.len() && (a < k || (a == k
                                        && b < j)) implies !unknown_target(#[trigger] states@[a].handlers@[b].kind, nv, chart@) by {
                                    if a == k {
                                        assert(states@[a].handlers@[b] == hs@[b]);
                                    }
                                }
                            }
                        }
                        return Some(t.clone());
                    }
                },
                _ => {},
            }
            j += 1;
        }
        proof {
            assert forall|a: int, b: int|
                0 <= a < k + 1 && 0 <= b < states@[a].handlers@.len() implies !unknown_target(
                    #[trigger] states@[a].handlers@[b].kind,
                    nv,
                    chart@,
                ) by {
                if a == k {
                    assert(!unknown_target(hs@[b].kind, nv, chart@));
                }
            }
        }
        k += 1;
    }
    None
}

proof fn lemma_last_named_below(names: Seq<Seq<char>>, t: Seq<char>, j: int)
    requires
        0 <= j,
    ensures
        last_named(names, t, j) < j,
        last_named(names, t, j) == -1 || last_named(names, t, j) >= 1,
    decreases j,
{
    if j > 1 {
        lemma_last_named_below(names, t, j - 1);
    }
}

/// A name resolves to a state of a chart with at most 2^16 states.
proof fn lemma_resolve_in_range(names: Seq<Seq<char>>, chart: Seq<char>, t: Seq<char>)
    requires
        0 < names.len() <= 0x10000,
    ensures
        resolve_name(names, chart, t) matches Some(d) ==> d < names.len(),
{
    lemma_last_named_below(names, t, names.len() as int);
}

proof fn lemma_resolved_in_range(old_ir: Ir, new_ir: Ir)
    requires
        old_ir.states@.len() <= 0x10000,
        new_ir == (Ir { states: new_ir.states, ..old_ir }),
        new_ir.states@.len() == old_ir.states@.len(),
        forall|k: int|
            0 <= k < old_ir.states@.len() ==> state_resolved(
                #[trigger] new_ir.states@[k],
                old_ir.states@[k],
                state_names(old_ir.states@),
                old_ir.name@,
            ),
    ensures
        ids_in_tables(old_ir) ==> ids_in_tables(new_ir),
        defaults_in_range(new_ir),
{
    let names = state_names(old_ir.states@);
    assert forall|k: int| 0 <= k < new_ir.states@.len() implies ((#[trigger] new_ir.states@[k]).default_child matches Some(d)
        ==> d < new_ir.states@.len()) by {
        assert(state_resolved(new_ir.states@[k], old_ir.states@[k], names, old_ir.name@));
        if let Some(t) = old_ir.states@[k].default_target {
            lemma_resolve_in_range(names, old_ir.name@, t@);
        }
    }
    if ids_in_tables(old_ir) {
        assert forall|k: int, i: int|
            0 <= k < new_ir.states@.len() && 0 <= i < new_ir.states@[k].handlers@.len() implies ((
            #[trigger] new_ir.states@[k].handlers@[i]).trigger matches TriggerIr::Duration(id) ==> id
                < new_ir.duration_triggers@.len()) by {
            assert(state_resolved(new_ir.states@[k], old_ir.states@[k], names, old_ir.name@));
            assert(new_ir.states@[k].handlers@[i].trigger == old_ir.states@[k].handlers@[i].trigger);
        }
        assert forall|k: int, i: int|
            0 <= k < new_ir.states@.len() && 0 <= i < new_ir.states@[k].entries@.len() implies (
            #[trigger] new_ir.states@[k].entries@[i]) < new_ir.actions@.len() by {
            assert(state_resolved(new_ir.states@[k], old_ir.states@[k], names, old_ir.name@));
        }
        assert forall|k: int, i: int|
            0 <= k < new_ir.states@.len() && 0 <= i < new_ir.states@[k].exits@.len() implies (
            #[trigger] new_ir.states@[k].exits@[i]) < new_ir.actions@.len() by {
            assert(state_resolved(new_ir.states@[k], old_ir.states@[k], names, old_ir.name@));
        }
    }
}

/// Resolve every transition target and default target to a state id. The
/// chart's own name designates the root. Fails, leaving `ir` unchanged, when
/// a transition names no state.
pub fn resolve_transitions(ir: &mut Ir) -> (r: Result<(), IrError>)
    ensures
        ({
            let names = state_names(old(ir).states@);
            let chart = old(ir).name@;
            &&& r is Ok <==> !has_unknown_target(old(ir).states@, names, chart)
            &&& r is Ok ==> {
                &&& final(ir).states@.len() == old(ir).states@.len()
                &&& forall|k: int|
                    0 <= k < old(ir).states@.len() ==> state_resolved(
                        #[trigger] final(ir).states@[k],
                        old(ir).states@[k],
                        names,
                        chart,
                    )
                &&& *final(ir) == (Ir { states: final(ir).states, ..*old(ir) })
            }
            &&& r is Ok ==> (ids_in_tables(*old(ir)) ==> ids_in_tables(*final(ir)))
            &&& r is Ok && old(ir).states@.len() <= 0x10000 ==> defaults_in_range(*final(ir))
            &&& r matches Err(e) ==> *final(ir) == *old(ir) && exists|k: int, j: int|
                0 <= k < old(ir).states@.len() && 0 <= j < old(ir).states@[k].handlers@.len() && unknown_target(
                    #[trigger] old(ir).states@[k].handlers@[j].kind,
                    names,
                    chart,
                ) && err_view(e) == ErrView::UnknownState(
                    target_text(old(ir).states@[k].handlers@[j].kind),
                ) && none_unknown_before(old(ir).states@, names, chart, k, j)
        }),
{
    let ghost old_states = ir.states@;
    let mut names: Vec<String> = Vec::new();
    let n = ir.states.len();
    let mut k: usize = 0;
    while k < n
        invariant
            k <= n,
            n == ir.states@.len(),
            ir.states@ == old_states,
            names_view(names@) == state_names(old_states).take(k as int),
        decreases n - k,
    {
        let nm = ir.states[k].name.clone();
        proof {
            assert(state_names(old_states)[k as int] == old_states[k as int].name@);
            assert(nm@ == old_states[k as int].name@);
            assert(names_view(names@.push(nm)) =~= names_view(names@).push(nm@));
            assert(names_view(names@.push(nm)) =~= state_names(old_states).take(k + 1));
        }
        names.push(nm);
        k += 1;
    }
    proof {
        assert(state_names(old_states).take(n as int) =~= state_names(old_states));
    }
    let ghost nv = names_view(names@);
    let root = String::from_str("__Root");
    match first_unknown(&ir.states, &names, &ir.name, &root) {
        Some(t) => {
            return Err(IrError::UnknownState { target: t });
        },
        None => {},
    }
    let mut k: usize = 0;
    while k < n
        invariant
            k <= n,
            n == ir.states@.len(),
            n == old_states.len(),
            nv == names_view(names@),
            nv == state_names(old_states),
            root@ == root_name(),
            !has_unknown_target(old_states, nv, ir.name@),
            ir.name@ == old(ir).name@,
            old_states == old(ir).states@,
            *ir == (Ir { states: ir.states, ..*old(ir) }),
            forall|a: int| 0 <= a < k ==> state_resolved(#[trigger] ir.states@[a], old_states[a], nv, ir.name@),
            forall|a: int| k <= a < n ==> #[trigger] ir.states@[a] == old_states[a],
        decreases n - k,
    {
        let ghost before = ir.states@;
        let s = ir.states.remove(k);
        let StateIr {
            id,
            name,
            parent,
            depth,
            default_child: _,
            default_target,
            entries,
            exits,
            handlers,
            children,
            owned_timers,
            durings,
        } = s;
        let dc = match &default_target {
            Some(t) => lookup_state(&names, &ir.name, &root, t),
            None => None,
        };
        let mut hs = handlers;
        let ghost hs0 = hs@;
        let m = hs.len();
        let mut j: usize = 0;
        while j < m
            invariant
                j <= m,
                m == hs@.len(),
                m == hs0.len(),
                hs0 == s.handlers@,
                s == old_states[k as int],
                k < n,
                n == old_states.len(),
                nv == names_view(names@),
                nv == state_names(old_states),
                root@ == root_name(),
                !has_unknown_target(old_states, nv, ir.name@),
                forall|b: int| 0 <= b < j ==> #[trigger] hs@[b] == (HandlerIr { kind: resolved_kind(hs0[b].kind, nv, ir.name@), ..hs0[b] }),
                forall|b: int| j <= b < m ==> #[trigger] hs@[b] == hs0[b],
            decreases m - j,
        {
            let ghost hb = hs@;
            let h = hs.remove(j);
            let HandlerIr { trigger, kind, decl_index } = h;
            let kind2 = match kind {
                HandlerKindIr::Transition(t, None) => {
                    let id = lookup_state(&names, &ir.name, &root, &t);
                    HandlerKindIr::Transition(t, id)
                },
                other => other,
            };
            proof {
                assert(!unknown_target(old_states[k as int].handlers@[j as int].kind, nv, ir.name@));
            }
            hs.insert(j, HandlerIr { trigger, kind: kind2, decl_index });
            proof {
                assert forall|b: int| 0 <= b < j + 1 implies #[trigger] hs@[b] == (HandlerIr { kind: resolved_kind(hs0[b].kind, nv, ir.name@), ..hs0[b] }) by {
                    if b < j {
                        assert(hs@[b] == hb[b]);
                    }
                }
                assert forall|b: int| j + 1 <= b < m implies #[trigger] hs@[b] == hs0[b] by {
                    assert(hs@[b] == hb[b]);
                }
            }
            j += 1;
        }
        let s2 = StateIr {
            id,
            name,
            parent,
            depth,
            default_child: dc,
            default_target,
            entries,
            exits,
            handlers: hs,
            children,
            owned_timers,
            durings,
        };
        proof {
            assert(state_resolved(s2, old_states[k as int], nv, ir.name@));
        }
        ir.states.insert(k, s2);
        proof {
            assert forall|a: int| 0 <= a < k + 1 implies state_resolved(#[trigger] ir.states@[a], old_states[a], nv, ir.name@) by {
                if a < k {
                    assert(ir.states@[a] == before[a]);
                }
            }
            assert forall|a: int| k + 1 <= a < n implies #[trigger] ir.states@[a] == old_states[a] by {
                assert(ir.states@[a] == before[a]);
            }
        }
        k += 1;
    }
    proof {
        if old(ir).states@.len() <= 0x10000 {
            lemma_resolved_in_range(*old(ir), *ir);
        } else if ids_in_tables(*old(ir)) {
            assert forall|a: int, i: int|
                0 <= a < ir.states@.len() && 0 <= i < ir.states@[a].handlers@.len() implies ((
                #[trigger] ir.states@[a].handlers@[i]).trigger matches TriggerIr::Duration(id) ==> id
                    < ir.duration_triggers@.len()) by {
                assert(state_resolved(ir.states@[a], old_states[a], nv, ir.name@));
                assert(ir.states@[a].handlers@[i].trigger == old_states[a].handlers@[i].trigger);
            }
            assert forall|a: int, i: int|
                0 <= a < ir.states@.len() && 0 <= i < ir.states@[a].entries@.len() implies (
                #[trigger] ir.states@[a].entries@[i]) < ir.actions@.len() by {
                assert(state_resolved(ir.states@[a], old_states[a], nv, ir.name@));
            }
            assert forall|a: int, i: int|
                0 <= a < ir.states@.len() && 0 <= i < ir.states@[a].exits@.len() implies (
                #[trigger] ir.states@[a].exits@[i]) < ir.actions@.len() by {
                assert(state_resolved(ir.states@[a], old_states[a], nv, ir.name@));
            }
        }
    }
    Ok(())
}

/// Every id in `ids` is below `n`.
pub fn ids_below(ids: &Vec<u16>, n: usize) -> (r: bool)
    ensures
        r == forall|i: int| 0 <= i < ids@.len() ==> (#[trigger] ids@[i]) < n,
{
    let mut i: usize = 0;
    while i < ids.len()
        invariant
            i <= ids@.len(),
            forall|j: int| 0 <= j < i ==> (#[trigger] ids@[j]) < n,
        decreases ids@.len() - i,
    {
        if ids[i] as usize >= n {
            return false;
        }
        i += 1;
    }
    true
}

/// Every duration trigger that a handler of `hs` uses is below `n`.
pub fn durations_below(hs: &Vec<HandlerIr>, n: usize) -> (r: bool)
    ensures
        r == forall|i: int|
            0 <= i < hs@.len() ==> ((#[trigger] hs@[i]).trigger matches TriggerIr::Duration(id) ==> id < n),
{
    let mut i: usize = 0;
    while i < hs.len()
        invariant
            i <= hs@.len(),
            forall|j: int| 0 <= j < i ==> ((#[trigger] hs@[j]).trigger matches TriggerIr::Duration(id) ==> id < n),
        decreases hs@.len() - i,
    {
        if let TriggerIr::Duration(id) = hs[i].trigger {
            if id as usize >= n {
                return false;
            }
        }
        i += 1;
    }
    true
}

} // verus!
