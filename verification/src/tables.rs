//! From a lowered chart to the tables the runtime executes.

use vstd::prelude::*;
use vstd::string::StringExecFns;
use crate::chart::{HandlerGroup, StateDef};
use crate::intern::{to_id, id16, EventVariantIr, evs_view, ev_names};
use crate::ir::{HandlerIr, HandlerKindIr, Ir, StateIr, TriggerIr, clone_durings, durings_view};
use crate::parse_tree::During;
use crate::semantics::{GroupModel, StateModel};
use crate::seqs::{index_of, lemma_index_of, lemma_index_of_at};

verus! {

/// The lookup key of a trigger: 0 and the event id, or 1 and the timer id.
pub open spec fn trig_key(t: TriggerIr) -> (u8, u16) {
    match t {
        TriggerIr::Event(id, _, _) => (0, id),
        TriggerIr::Duration(id) => (1, id),
    }
}

pub open spec fn group_keys(gs: Seq<GroupModel>) -> Seq<(u8, u16)> {
    gs.map_values(|g: GroupModel| (g.trigger_kind, g.trigger))
}

/// Adding one handler to the groups: its trigger's group (created when
/// missing) gains its action, or takes its resolved transition target.
pub open spec fn group_step(gs: Seq<GroupModel>, h: HandlerIr) -> Seq<GroupModel> {
    let (k, id) = trig_key(h.trigger);
    let p = index_of(group_keys(gs), (k, id));
    let g0 = if p >= 0 { gs[p] } else { GroupModel { trigger_kind: k, trigger: id, actions: Seq::empty(), target: None } };
    let g1 = match h.kind {
        HandlerKindIr::Action(a, _) => GroupModel { actions: g0.actions.push(a), ..g0 },
        HandlerKindIr::Transition(_, Some(t)) => GroupModel { target: Some(t), ..g0 },
        HandlerKindIr::Transition(_, None) => g0,
    };
    if p >= 0 { gs.update(p, g1) } else { gs.push(g1) }
}

/// The handlers of a state gathered by trigger, in declaration order.
pub open spec fn groups_of(hs: Seq<HandlerIr>) -> Seq<GroupModel>
    decreases hs.len(),
{
    if hs.len() == 0 {
        Seq::empty()
    } else {
        group_step(groups_of(hs.drop_last()), hs.last())
    }
}

fn copy_ids(v: &Vec<u16>) -> (r: Vec<u16>)
    ensures
        r@ == v@,
{
    let mut out: Vec<u16> = Vec::new();
    let n = v.len();
    let mut i: usize = 0;
    while i < n
        invariant
            i <= n,
            n == v@.len(),
            out@ == v@.take(i as int),
        decreases n - i,
    {
        proof {
            assert(v@.take(i + 1) =~= v@.take(i as int).push(v@[i as int]));
        }
        out.push(v[i]);
        i += 1;
    }
    proof {
        assert(v@.take(n as int) =~= v@);
    }
    out
}

pub open spec fn groups_view(gs: Seq<HandlerGroup>) -> Seq<GroupModel> {
    gs.map_values(|g: HandlerGroup| g@)
}

/// Gather a state's handlers by trigger (they come in declaration order).
pub fn handler_groups(hs: &Vec<HandlerIr>) -> (r: Vec<HandlerGroup>)
    ensures
        groups_view(r@) == groups_of(hs@),
{
    let mut gs: Vec<HandlerGroup> = Vec::new();
    let n = hs.len();
    let mut i: usize = 0;
    proof {
        assert(hs@.take(0) =~= Seq::<HandlerIr>::empty());
        assert(groups_view(gs@) =~= Seq::<GroupModel>::empty());
    }
    while i < n
        invariant
            i <= n,
            n == hs@.len(),
            groups_view(gs@) == groups_of(hs@.take(i as int)),
        decreases n - i,
    {
        let h = &hs[i];
        proof {
            assert(hs@.take(i + 1).drop_last() =~= hs@.take(i as int));
        }
        let (k, id): (u8, u16) = match h.trigger {
            TriggerIr::Event(id, _, _) => (0, id),
            TriggerIr::Duration(id) => (1, id),
        };
        let ghost keys = group_keys(groups_view(gs@));
        let m = gs.len();
        let mut p: usize = m;
        let mut q: usize = 0;
        while q < m
            invariant
                q <= m,
                p <= m,
                m == gs@.len(),
                keys == group_keys(groups_view(gs@)),
                p == m ==> forall|x: int| 0 <= x < q ==> keys[x] != (k, id),
                p < m ==> p < q && keys[p as int] == (k, id) && forall|x: int| 0 <= x < p ==> keys[x] != (k, id),
            decreases m - q,
        {
            if p == m && gs[q].trigger_kind == k && gs[q].trigger == id {
                p = q;
            }
            q += 1;
        }
        let ghost before = groups_view(gs@);
        if p < m {
            proof {
                assert(keys[p as int] == (k, id));
                lemma_index_of_at(keys, (k, id), p as int);
            }
            let mut g = gs.remove(p);
            match &h.kind {
                HandlerKindIr::Action(a, _) => {
                    g.actions.push(*a);
                },
                HandlerKindIr::Transition(_, Some(t)) => {
                    g.target = Some(*t);
                },
                HandlerKindIr::Transition(_, None) => {},
            }
            gs.insert(p, g);
            proof {
                assert(groups_view(gs@) =~= group_step(before, *h));
            }
        } else {
            proof {
                assert(keys.len() == m);
                lemma_index_of(keys, (k, id));
                if index_of(keys, (k, id)) >= 0 {
                    assert(keys[index_of(keys, (k, id))] == (k, id));
                }
                assert(trig_key(h.trigger) == (k, id));
                assert(group_keys(before) == keys);
                assert(index_of(keys, (k, id)) < 0);
            }
            let mut g = HandlerGroup { trigger_kind: k, trigger: id, actions: Vec::new(), target: None };
            match &h.kind {
                HandlerKindIr::Action(a, _) => {
                    g.actions.push(*a);
                },
                HandlerKindIr::Transition(_, Some(t)) => {
                    g.target = Some(*t);
                },
                HandlerKindIr::Transition(_, None) => {},
            }
            gs.push(g);
            proof {
                let g0 = GroupModel { trigger_kind: k, trigger: id, actions: Seq::empty(), target: None };
                match h.kind {
                    HandlerKindIr::Action(a, _) => {
                        assert(g@.actions =~= g0.actions.push(a));
                    },
                    _ => {
                        assert(g@.actions =~= g0.actions);
                    },
                }
                assert(groups_view(gs@) =~= before.push(g@));
                assert(groups_view(gs@) =~= group_step(before, *h));
            }
        }
        i += 1;
    }
    proof {
        assert(hs@.take(n as int) =~= hs@);
    }
    gs
}

/// The runtime row of a lowered state.
pub open spec fn state_model(s: StateIr) -> StateModel {
    StateModel {
        parent: s.parent,
        depth: s.depth,
        default_target: s.default_child,
        entries: s.entries@,
        exits: s.exits@,
        groups: groups_of(s.handlers@),
        timers: s.owned_timers@,
        durings: id16(s.durings@.len()),
    }
}

/// The runtime rows of every state of a lowered chart.
pub fn state_defs(ir: &Ir) -> (r: Vec<StateDef>)
    ensures
        r@.len() == ir.states@.len(),
        forall|k: int| 0 <= k < ir.states@.len() ==> (#[trigger] r@[k])@ == state_model(ir.states@[k]),
{
    let mut out: Vec<StateDef> = Vec::new();
    let n = ir.states.len();
    let mut k: usize = 0;
    while k < n
        invariant
            k <= n,
            n == ir.states@.len(),
            out@.len() == k,
            forall|j: int| 0 <= j < k ==> (#[trigger] out@[j])@ == state_model(ir.states@[j]),
        decreases n - k,
    {
        let s = &ir.states[k];
        let d = StateDef {
            parent: s.parent,
            depth: s.depth,
            default_target: s.default_child,
            entries: copy_ids(&s.entries),
            exits: copy_ids(&s.exits),
            groups: handler_groups(&s.handlers),
            timers: copy_ids(&s.owned_timers),
            durings: to_id(s.durings.len()),
        };
        proof {
            assert(d@ == state_model(*s));
        }
        let ghost prev = out@;
        out.push(d);
        proof {
            assert forall|j: int| 0 <= j < k + 1 implies (#[trigger] out@[j])@ == state_model(ir.states@[j]) by {
                if j < k {
                    assert(out@[j] == prev[j]);
                }
            }
        }
        k += 1;
    }
    out
}

/// The id the terminate event gets: its position among the event variants,
/// or `u16::MAX` (the id of an event the chart never names) when absent.
pub open spec fn terminate_id(ir: Ir) -> Option<u16> {
    match ir.terminate_event {
        None => None,
        Some(t) => {
            let p = index_of(ev_names(evs_view(ir.event_variants@)), t@);
            if p >= 0 {
                Some(id16(p as nat))
            } else {
                Some(0xFFFF)
            }
        },
    }
}

/// The event id of the chart's terminate event.
pub fn terminate_event_id(ir: &Ir) -> (r: Option<u16>)
    ensures
        r == terminate_id(*ir),
{
    match &ir.terminate_event {
        None => None,
        Some(t) => {
            let ghost names = ev_names(evs_view(ir.event_variants@));
            let n = ir.event_variants.len();
            let mut i: usize = 0;
            while i < n
                invariant
                    i <= n,
                    n == ir.event_variants@.len(),
                    ir.terminate_event == Some(*t),
                    names == ev_names(evs_view(ir.event_variants@)),
                    forall|j: int| 0 <= j < i ==> names[j] != t@,
                decreases n - i,
            {
                if ir.event_variants[i].name == *t {
                    proof {
                        assert(names[i as int] == t@);
                        lemma_index_of_at(names, t@, i as int);
                    }
                    return Some(to_id(i));
                }
                i += 1;
            }
            proof {
                lemma_index_of(names, t@);
                if index_of(names, t@) >= 0 {
                    assert(names[index_of(names, t@)] == t@);
                }
            }
            Some(0xFFFF)
        },
    }
}

/// The repeat flag of each duration trigger, by id.
pub fn timer_repeat_flags(ir: &Ir) -> (r: Vec<bool>)
    ensures
        r@ == ir.duration_triggers@.map_values(|d: crate::intern::DurationTrigger| d.repeat),
{
    let mut out: Vec<bool> = Vec::new();
    let n = ir.duration_triggers.len();
    let mut i: usize = 0;
    while i < n
        invariant
            i <= n,
            n == ir.duration_triggers@.len(),
            out@ == ir.duration_triggers@.take(i as int).map_values(|d: crate::intern::DurationTrigger| d.repeat),
        decreases n - i,
    {
        proof {
            assert(ir.duration_triggers@.take(i + 1).map_values(|d: crate::intern::DurationTrigger| d.repeat)
                =~= out@.push(ir.duration_triggers@[i as int].repeat));
        }
        out.push(ir.duration_triggers[i].repeat);
        i += 1;
    }
    proof {
        assert(ir.duration_triggers@.take(n as int) =~= ir.duration_triggers@);
    }
    out
}

/// The number of (state, timer) pairs of `states`: each state's owned timers.
pub open spec fn owned_pairs(states: Seq<StateIr>) -> nat
    decreases states.len(),
{
    if states.len() == 0 {
        0
    } else {
        owned_pairs(states.drop_last()) + states.last().owned_timers@.len()
    }
}

/// The size of the timer table a chart's machine needs: one slot for each
/// (state, timer) pair, so that every timer of every active state can be
/// armed at once, and at least one. Saturates at `usize::MAX`.
pub fn timer_slots(ir: &Ir) -> (r: usize)
    ensures
        r as int == if owned_pairs(ir.states@) == 0 {
            1
        } else if owned_pairs(ir.states@) > usize::MAX {
            usize::MAX as int
        } else {
            owned_pairs(ir.states@) as int
        },
{
    let n = ir.states.len();
    let mut total: usize = 0;
    let mut saturated = false;
    let mut i: usize = 0;
    while i < n
        invariant
            i <= n,
            n == ir.states@.len(),
            saturated ==> total == usize::MAX && owned_pairs(ir.states@.take(i as int)) > usize::MAX,
            !saturated ==> total as nat == owned_pairs(ir.states@.take(i as int)),
        decreases n - i,
    {
        proof {
            assert(ir.states@.take(i + 1).drop_last() =~= ir.states@.take(i as int));
        }
        let k = ir.states[i].owned_timers.len();
        if !saturated {
            if total > usize::MAX - k {
                total = usize::MAX;
                saturated = true;
            } else {
                total = total + k;
            }
        }
        i += 1;
    }
    proof {
        assert(ir.states@.take(n as int) =~= ir.states@);
    }
    if total == 0 {
        1
    } else {
        total
    }
}

/// The `during:` activities active in state `id`: its own, then those of
/// each ancestor up to the root (an ancestor is followed while parents have
/// smaller ids, as lowering numbers them).
pub open spec fn during_chain(states: Seq<StateIr>, id: int) -> Seq<(Seq<char>, Seq<Seq<char>>)>
    decreases id,
{
    if 0 <= id < states.len() {
        durings_view(states[id].durings@) + match states[id].parent {
            Some(p) => if (p as int) < id {
                during_chain(states, p as int)
            } else {
                Seq::empty()
            },
            None => Seq::empty(),
        }
    } else {
        Seq::empty()
    }
}

/// For the first `j` states: each declared leaf with at least one active
/// `during:`, with that chain.
pub open spec fn leaf_durings(states: Seq<StateIr>, j: int) -> Seq<(u16, Seq<(Seq<char>, Seq<Seq<char>>)>)>
    decreases j,
{
    if j <= 0 {
        Seq::empty()
    } else {
        let r = leaf_durings(states, j - 1);
        let s = states[j - 1];
        let c = during_chain(states, j - 1);
        if s.children@.len() == 0 && s.parent is Some && c.len() > 0 {
            r.push((s.id, c))
        } else {
            r
        }
    }
}

pub open spec fn leaf_view(v: Seq<(u16, Vec<During>)>) -> Seq<(u16, Seq<(Seq<char>, Seq<Seq<char>>)>)> {
    v.map_values(|x: (u16, Vec<During>)| (x.0, durings_view(x.1@)))
}

fn append_durings(out: &mut Vec<During>, ds: &Vec<During>)
    ensures
        durings_view(final(out)@) == durings_view(old(out)@) + durings_view(ds@),
{
    let mut c = clone_durings(ds);
    let ghost a = out@;
    let ghost b = c@;
    out.append(&mut c);
    proof {
        assert(out@ == a + b);
        assert(durings_view(a + b) =~= durings_view(a) + durings_view(b));
    }
}

/// Each declared leaf state whose own `during:`s and its ancestors' are not
/// all empty, with those activities leaf first.
pub fn active_durings_per_leaf(ir: &Ir) -> (r: Vec<(u16, Vec<During>)>)
    ensures
        leaf_view(r@) == leaf_durings(ir.states@, ir.states@.len() as int),
{
    let st = &ir.states;
    let n = st.len();
    let mut out: Vec<(u16, Vec<During>)> = Vec::new();
    let mut k: usize = 0;
    while k < n
        invariant
            k <= n,
            n == st@.len(),
            leaf_view(out@) == leaf_durings(st@, k as int),
        decreases n - k,
    {
        if st[k].children.len() == 0 && st[k].parent.is_some() {
            let mut chain: Vec<During> = Vec::new();
            let mut cur = k;
            let mut more = true;
            while more
                invariant
                    cur < n,
                    n == st@.len(),
                    more ==> durings_view(chain@) + during_chain(st@, cur as int) == during_chain(st@, k as int),
                    !more ==> durings_view(chain@) == during_chain(st@, k as int),
                decreases cur + (if more { 1int } else { 0int }),
            {
                let ghost before = durings_view(chain@);
                append_durings(&mut chain, &st[cur].durings);
                match st[cur].parent {
                    Some(p) => {
                        if (p as usize) < cur {
                            proof {
                                assert(during_chain(st@, cur as int) == durings_view(st@[cur as int].durings@) + during_chain(st@, p as int));
                                assert(before + during_chain(st@, cur as int) =~= durings_view(chain@) + during_chain(st@, p as int));
                            }
                            cur = p as usize;
                        } else {
                            proof {
                                assert(durings_view(chain@) =~= before + during_chain(st@, cur as int));
                            }
                            more = false;
                        }
                    },
                    None => {
                        proof {
                            assert(durings_view(chain@) =~= before + during_chain(st@, cur as int));
                        }
                        more = false;
                    },
                }
            }
            if chain.len() > 0 {
                let ghost prev = out@;
                out.push((st[k].id, chain));
                proof {
                    assert(leaf_view(out@) =~= leaf_view(prev).push((st@[k as int].id, durings_view(chain@))));
                }
            }
        }
        k += 1;
    }
    out
}

/// The ordinal variant names of a select's result, in order.
pub open spec fn ordinals() -> Seq<Seq<char>> {
    seq!["First"@, "Second"@, "Third"@, "Fourth"@, "Fifth"@, "Sixth"@]
}

/// The select function for `arity` futures.
pub open spec fn select_name(arity: nat) -> Seq<char> {
    if arity == 2 {
        "select"@
    } else if arity == 3 {
        "select3"@
    } else if arity == 4 {
        "select4"@
    } else if arity == 5 {
        "select5"@
    } else {
        "select6"@
    }
}

/// The select function that races `arity` futures, and the result
/// variants naming which one finished, first to last.
pub fn embassy_select_for_arity(arity: usize) -> (r: (String, Vec<String>))
    requires
        2 <= arity <= 6,
    ensures
        r.0@ == select_name(arity as nat),
        r.1@.map_values(|s: String| s@) == ordinals().take(arity as int),
{
    let name = if arity == 2 {
        String::from_str("select")
    } else if arity == 3 {
        String::from_str("select3")
    } else if arity == 4 {
        String::from_str("select4")
    } else if arity == 5 {
        String::from_str("select5")
    } else {
        String::from_str("select6")
    };
    let all = ["First", "Second", "Third", "Fourth", "Fifth", "Sixth"];
    let mut v: Vec<String> = Vec::new();
    let mut i: usize = 0;
    while i < arity
        invariant
            i <= arity,
            arity <= 6,
            all@ == seq!["First", "Second", "Third", "Fourth", "Fifth", "Sixth"],
            v@.map_values(|s: String| s@) == ordinals().take(i as int),
        decreases arity - i,
    {
        let s = String::from_str(all[i]);
        proof {
            assert(s@ == ordinals()[i as int]);
            assert(v@.push(s).map_values(|s: String| s@) =~= v@.map_values(|s: String| s@).push(s@));
            assert(ordinals().take(i + 1) =~= ordinals().take(i as int).push(ordinals()[i as int]));
        }
        v.push(s);
        i += 1;
    }
    (name, v)
}

} // verus!
