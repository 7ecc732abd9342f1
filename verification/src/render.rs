//! The chart drawn as a text tree: every declared state with its default
//! marker, entry and exit actions, `during:` activities and handlers.

use vstd::prelude::*;
use vstd::string::{StrSliceExecFns, StringExecFns};
use crate::intern::DurationTrigger;
use crate::ir::{HandlerIr, HandlerKindIr, Ir, TriggerIr, durations_below, ids_below};
use crate::parse_tree::During;
use crate::seqs::{index_of, lemma_index_of, lemma_index_of_at};

verus! {

pub open spec fn branch(last: bool) -> Seq<char> {
    if last { "└── "@ } else { "├── "@ }
}

pub open spec fn pad(last: bool) -> Seq<char> {
    if last { "    "@ } else { "│   "@ }
}

/// One line per action id: the prefix, the label and the action's name.
pub open spec fn action_lines(ir: Ir, pre: Seq<char>, label: Seq<char>, ids: Seq<u16>) -> Seq<char>
    decreases ids.len(),
{
    if ids.len() == 0 {
        Seq::empty()
    } else {
        action_lines(ir, pre, label, ids.drop_last()) + pre + label + ir.actions@[ids.last() as int].name@ + "\n"@
    }
}

/// Names joined by `, `.
pub open spec fn joined(fs: Seq<String>) -> Seq<char>
    decreases fs.len(),
{
    if fs.len() == 0 {
        Seq::empty()
    } else if fs.len() == 1 {
        fs[0]@
    } else {
        joined(fs.drop_last()) + ", "@ + fs.last()@
    }
}

pub open spec fn during_lines(pre: Seq<char>, ds: Seq<During>) -> Seq<char>
    decreases ds.len(),
{
    if ds.len() == 0 {
        Seq::empty()
    } else {
        during_lines(pre, ds.drop_last()) + pre + "• during: "@ + ds.last().fn_name@ + "("@ + joined(ds.last().fields@)
            + ")\n"@
    }
}

/// The text before the first `:` (all of it when there is none).
pub open spec fn before_colon(k: Seq<char>) -> Seq<char> {
    let i = index_of(k, ':');
    if i >= 0 { k.take(i) } else { k }
}

pub open spec fn trigger_label(t: TriggerIr, durs: Seq<DurationTrigger>) -> Seq<char> {
    match t {
        TriggerIr::Event(_, n, _) => "on("@ + n@ + ")"@,
        TriggerIr::Duration(id) => "on("@ + (if durs[id as int].repeat { "every"@ } else { "after"@ }) + " "@
            + before_colon(durs[id as int].key@) + ")"@,
    }
}

pub open spec fn target_label(k: HandlerKindIr) -> Seq<char> {
    match k {
        HandlerKindIr::Transition(t, _) => "→ "@ + t@,
        HandlerKindIr::Action(_, n) => "⇒ "@ + n@,
    }
}

pub open spec fn handler_lines(ir: Ir, pre: Seq<char>, hs: Seq<HandlerIr>) -> Seq<char>
    decreases hs.len(),
{
    if hs.len() == 0 {
        Seq::empty()
    } else {
        handler_lines(ir, pre, hs.drop_last()) + pre + "• "@ + trigger_label(hs.last().trigger, ir.duration_triggers@) + " "@
            + target_label(hs.last().kind) + "\n"@
    }
}

/// The subtree of state `sid`, drawn below `prefix`. Children are drawn
/// when their ids follow the parent's, as lowering numbers them.
pub open spec fn render(ir: Ir, sid: int, prefix: Seq<char>, last: bool, is_default: bool) -> Seq<char>
    decreases ir.states@.len() - sid, ir.states@[sid].children@.len() + 1,
{
    if 0 <= sid < ir.states@.len() {
        let cp = prefix + pad(last);
        state_head(ir, sid, prefix, last, is_default) + state_body(ir, sid, cp) + render_children(
            ir,
            sid,
            cp,
            ir.states@[sid].children@.len() as int,
        )
    } else {
        Seq::empty()
    }
}

/// The line naming state `sid`.
pub open spec fn state_head(ir: Ir, sid: int, prefix: Seq<char>, last: bool, is_default: bool) -> Seq<char> {
    prefix + branch(last) + (if is_default { "[default] "@ } else { Seq::empty() }) + ir.states@[sid].name@ + "\n"@
}

/// The lines under state `sid`'s name, before its children.
pub open spec fn state_body(ir: Ir, sid: int, cp: Seq<char>) -> Seq<char> {
    let s = ir.states@[sid];
    action_lines(ir, cp, "• entry: "@, s.entries@) + action_lines(ir, cp, "• exit: "@, s.exits@) + during_lines(
        cp,
        s.durings@,
    ) + handler_lines(ir, cp, s.handlers@)
}

/// The first `j` children of state `sid`, drawn below `cp`.
pub open spec fn render_children(ir: Ir, sid: int, cp: Seq<char>, j: int) -> Seq<char>
    decreases ir.states@.len() - sid, j,
{
    if 0 <= sid < ir.states@.len() && 0 < j <= ir.states@[sid].children@.len() {
        let s = ir.states@[sid];
        let c = s.children@[j - 1] as int;
        render_children(ir, sid, cp, j - 1) + if sid < c < ir.states@.len() {
            render(ir, c, cp, j == s.children@.len(), s.default_child == Some(s.children@[j - 1]))
        } else {
            Seq::empty()
        }
    } else {
        Seq::empty()
    }
}

/// The whole tree: the chart's name, then the root's children.
pub open spec fn chart_tree(ir: Ir) -> Seq<char> {
    ir.name@ + "\n"@ + render_children(ir, 0, Seq::empty(), ir.states@[0].children@.len() as int)
}

/// The ids that drawing follows are in range.
pub open spec fn drawable(ir: Ir) -> bool {
    &&& ir.states@.len() > 0
    &&& forall|k: int, i: int|
        0 <= k < ir.states@.len() && 0 <= i < ir.states@[k].entries@.len() ==> (#[trigger] ir.states@[k].entries@[i])
            < ir.actions@.len()
    &&& forall|k: int, i: int|
        0 <= k < ir.states@.len() && 0 <= i < ir.states@[k].exits@.len() ==> (#[trigger] ir.states@[k].exits@[i])
            < ir.actions@.len()
    &&& forall|k: int, i: int|
        0 <= k < ir.states@.len() && 0 <= i < ir.states@[k].handlers@.len() ==> ((
        #[trigger] ir.states@[k].handlers@[i]).trigger matches TriggerIr::Duration(id) ==> id
            < ir.duration_triggers@.len())
}

/// Tells whether the ids that drawing follows are in range.
pub fn is_drawable(ir: &Ir) -> (r: bool)
    ensures
        r == drawable(*ir),
{
    let n = ir.states.len();
    if n == 0 {
        return false;
    }
    let na = ir.actions.len();
    let nd = ir.duration_triggers.len();
    let mut k: usize = 0;
    while k < n
        invariant
            k <= n,
            n == ir.states@.len(),
            na == ir.actions@.len(),
            nd == ir.duration_triggers@.len(),
            forall|a: int, i: int|
                0 <= a < k && 0 <= i < ir.states@[a].entries@.len() ==> (#[trigger] ir.states@[a].entries@[i]) < na,
            forall|a: int, i: int|
                0 <= a < k && 0 <= i < ir.states@[a].exits@.len() ==> (#[trigger] ir.states@[a].exits@[i]) < na,
            forall|a: int, i: int|
                0 <= a < k && 0 <= i < ir.states@[a].handlers@.len() ==> ((
                #[trigger] ir.states@[a].handlers@[i]).trigger matches TriggerIr::Duration(id) ==> id < nd),
        decreases n - k,
    {
        let s = &ir.states[k];
        if !ids_below(&s.entries, na) {
            proof {
                let i = choose|i: int| 0 <= i < s.entries@.len() && !((#[trigger] s.entries@[i]) < na);
                assert(ir.states@[k as int].entries@[i] == s.entries@[i]);
            }
            return false;
        }
        if !ids_below(&s.exits, na) {
            proof {
                let i = choose|i: int| 0 <= i < s.exits@.len() && !((#[trigger] s.exits@[i]) < na);
                assert(ir.states@[k as int].exits@[i] == s.exits@[i]);
            }
            return false;
        }
        if !durations_below(&s.handlers, nd) {
            proof {
                let i = choose|i: int| 0 <= i < s.handlers@.len() && !((#[trigger] s.handlers@[i]).trigger matches TriggerIr::Duration(id) ==> id < nd);
                assert(ir.states@[k as int].handlers@[i] == s.handlers@[i]);
            }
            return false;
        }
        k += 1;
    }
    true
}

fn push_action_lines(ir: &Ir, pre: &String, label: &str, ids: &Vec<u16>, out: &mut String)
    requires
        forall|i: int| 0 <= i < ids@.len() ==> (#[trigger] ids@[i]) < ir.actions@.len(),
    ensures
        final(out)@ == old(out)@ + action_lines(*ir, pre@, label@, ids@),
{
    let ghost start = out@;
    let n = ids.len();
    let mut i: usize = 0;
    while i < n
        invariant
            i <= n,
            n == ids@.len(),
            forall|q: int| 0 <= q < ids@.len() ==> (#[trigger] ids@[q]) < ir.actions@.len(),
            start == old(out)@,
            out@ == start + action_lines(*ir, pre@, label@, ids@.take(i as int)),
        decreases n - i,
    {
        proof {
            assert(ids@.take(i + 1).drop_last() =~= ids@.take(i as int));
        }
        out.append(pre.as_str());
        out.append(label);
        out.append(ir.actions[ids[i] as usize].name.as_str());
        out.append("\n");
        proof {
            assert(out@ =~= start + action_lines(*ir, pre@, label@, ids@.take(i + 1)));
        }
        i += 1;
    }
    proof {
        assert(ids@.take(n as int) =~= ids@);
    }
}

fn push_joined(fs: &Vec<String>, out: &mut String)
    ensures
        final(out)@ == old(out)@ + joined(fs@),
{
    let ghost start = out@;
    let n = fs.len();
    let mut i: usize = 0;
    proof {
        assert(fs@.take(0) =~= Seq::<String>::empty());
    }
    while i < n
        invariant
            i <= n,
            n == fs@.len(),
            start == old(out)@,
            out@ == start + joined(fs@.take(i as int)),
        decreases n - i,
    {
        proof {
            assert(fs@.take(i + 1).drop_last() =~= fs@.take(i as int));
        }
        if i > 0 {
            out.append(", ");
        }
        out.append(fs[i].as_str());
        proof {
            if i == 0 {
                assert(fs@.take(1)[0] == fs@[0]);
            }
            assert(out@ =~= start + joined(fs@.take(i + 1)));
        }
        i += 1;
    }
    proof {
        assert(fs@.take(n as int) =~= fs@);
    }
}

fn push_during_lines(pre: &String, ds: &Vec<During>, out: &mut String)
    ensures
        final(out)@ == old(out)@ + during_lines(pre@, ds@),
{
    let ghost start = out@;
    let n = ds.len();
    let mut i: usize = 0;
    while i < n
        invariant
            i <= n,
            n == ds@.len(),
            start == old(out)@,
            out@ == start + during_lines(pre@, ds@.take(i as int)),
        decreases n - i,
    {
        proof {
            assert(ds@.take(i + 1).drop_last() =~= ds@.take(i as int));
        }
        out.append(pre.as_str());
        out.append("• during: ");
        out.append(ds[i].fn_name.as_str());
        out.append("(");
        push_joined(&ds[i].fields, out);
        out.append(")\n");
        proof {
            assert(out@ =~= start + during_lines(pre@, ds@.take(i + 1)));
        }
        i += 1;
    }
    proof {
        assert(ds@.take(n as int) =~= ds@);
    }
}

/// The text of a duration key before its first `:`.
fn key_before_colon(k: &String) -> (r: String)
    ensures
        r@ == before_colon(k@),
{
    let s = k.as_str();
    let n = s.unicode_len();
    let mut i: usize = 0;
    while i < n
        invariant
            i <= n,
            n == s@.len(),
            s@ == k@,
            forall|q: int| 0 <= q < i ==> s@[q] != ':',
        decreases n - i,
    {
        if s.get_char(i) == ':' {
            proof {
                lemma_index_of_at(s@, ':', i as int);
            }
            return String::from_str(s.substring_char(0, i));
        }
        i += 1;
    }
    proof {
        lemma_index_of(s@, ':');
        if index_of(s@, ':') >= 0 {
            assert(s@[index_of(s@, ':')] == ':');
        }
    }
    k.clone()
}

/// One handler's line.
pub open spec fn handler_line(ir: Ir, pre: Seq<char>, h: HandlerIr) -> Seq<char> {
    pre + "• "@ + trigger_label(h.trigger, ir.duration_triggers@) + " "@ + target_label(h.kind) + "\n"@
}

proof fn lemma_handler_lines_push(ir: Ir, pre: Seq<char>, hs: Seq<HandlerIr>, i: int)
    requires
        0 <= i < hs.len(),
    ensures
        handler_lines(ir, pre, hs.take(i + 1)) == handler_lines(ir, pre, hs.take(i)) + handler_line(ir, pre, hs[i]),
{
    assert(hs.take(i + 1).drop_last() =~= hs.take(i));
    let a = handler_lines(ir, pre, hs.take(i));
    let h = hs[i];
    assert(a + pre + "• "@ + trigger_label(h.trigger, ir.duration_triggers@) + " "@ + target_label(h.kind) + "\n"@
        =~= a + handler_line(ir, pre, h));
}

fn push_trigger_label(ir: &Ir, t: &TriggerIr, out: &mut String)
    requires
        t matches TriggerIr::Duration(id) ==> id < ir.duration_triggers@.len(),
    ensures
        final(out)@ == old(out)@ + trigger_label(*t, ir.duration_triggers@),
{
    match t {
        TriggerIr::Event(_, n, _) => {
            out.append("on(");
            out.append(n.as_str());
            out.append(")");
            proof {
                assert(final(out)@ =~= old(out)@ + trigger_label(*t, ir.duration_triggers@));
            }
        },
        TriggerIr::Duration(id) => {
            let d = &ir.duration_triggers[*id as usize];
            let ghost w: Seq<char> = if d.repeat { "every"@ } else { "after"@ };
            out.append("on(");
            if d.repeat {
                out.append("every");
            } else {
                out.append("after");
            }
            out.append(" ");
            let k = key_before_colon(&d.key);
            out.append(k.as_str());
            out.append(")");
            proof {
                assert(out@ =~= old(out)@ + ("on("@ + w + " "@ + before_colon(d.key@) + ")"@));
            }
        },
    }
}

fn push_target_label(k: &HandlerKindIr, out: &mut String)
    ensures
        final(out)@ == old(out)@ + target_label(*k),
{
    match k {
        HandlerKindIr::Transition(t, _) => {
            out.append("→ ");
            out.append(t.as_str());
            proof {
                assert(out@ =~= old(out)@ + target_label(*k));
            }
        },
        HandlerKindIr::Action(_, n) => {
            out.append("⇒ ");
            out.append(n.as_str());
            proof {
                assert(out@ =~= old(out)@ + target_label(*k));
            }
        },
    }
}

fn push_handler_line(ir: &Ir, pre: &String, h: &HandlerIr, out: &mut String)
    requires
        h.trigger matches TriggerIr::Duration(id) ==> id < ir.duration_triggers@.len(),
    ensures
        final(out)@ == old(out)@ + handler_line(*ir, pre@, *h),
{
    out.append(pre.as_str());
    out.append("• ");
    let ghost a = out@;
    push_trigger_label(ir, &h.trigger, out);
    out.append(" ");
    let ghost b = out@;
    push_target_label(&h.kind, out);
    out.append("\n");
    proof {
        assert(out@ =~= old(out)@ + handler_line(*ir, pre@, *h));
    }
}

fn push_handler_lines(ir: &Ir, pre: &String, hs: &Vec<HandlerIr>, out: &mut String)
    requires
        forall|i: int| 0 <= i < hs@.len() ==> ((#[trigger] hs@[i]).trigger matches TriggerIr::Duration(id) ==> id
            < ir.duration_triggers@.len()),
    ensures
        final(out)@ == old(out)@ + handler_lines(*ir, pre@, hs@),
{
    let ghost start = out@;
    let n = hs.len();
    let mut i: usize = 0;
    while i < n
        invariant
            i <= n,
            n == hs@.len(),
            forall|q: int| 0 <= q < hs@.len() ==> ((#[trigger] hs@[q]).trigger matches TriggerIr::Duration(id) ==> id
                < ir.duration_triggers@.len()),
            start == old(out)@,
            out@ == start + handler_lines(*ir, pre@, hs@.take(i as int)),
        decreases n - i,
    {
        proof {
            lemma_handler_lines_push(*ir, pre@, hs@, i as int);
            assert(hs@[i as int] == hs[i as int]);
        }
        let ghost before = out@;
        push_handler_line(ir, pre, &hs[i], out);
        proof {
            assert(out@ =~= start + handler_lines(*ir, pre@, hs@.take(i + 1)));
        }
        i += 1;
    }
    proof {
        assert(hs@.take(n as int) =~= hs@);
    }
}

fn push_state_head(ir: &Ir, k: usize, prefix: &String, is_last: bool, is_default: bool, out: &mut String)
    requires
        k < ir.states@.len(),
    ensures
        final(out)@ == old(out)@ + state_head(*ir, k as int, prefix@, is_last, is_default),
{
    out.append(prefix.as_str());
    if is_last {
        out.append("└── ");
    } else {
        out.append("├── ");
    }
    if is_default {
        out.append("[default] ");
    }
    out.append(ir.states[k].name.as_str());
    out.append("\n");
    proof {
        assert(out@ =~= old(out)@ + state_head(*ir, k as int, prefix@, is_last, is_default));
    }
}

fn push_state_body(ir: &Ir, k: usize, cp: &String, out: &mut String)
    requires
        drawable(*ir),
        k < ir.states@.len(),
    ensures
        final(out)@ == old(out)@ + state_body(*ir, k as int, cp@),
{
    let s = &ir.states[k];
    proof {
        assert forall|i: int| 0 <= i < s.entries@.len() implies (#[trigger] s.entries@[i]) < ir.actions@.len() by {
            assert(s.entries@[i] == ir.states@[k as int].entries@[i]);
        }
        assert forall|i: int| 0 <= i < s.exits@.len() implies (#[trigger] s.exits@[i]) < ir.actions@.len() by {
            assert(s.exits@[i] == ir.states@[k as int].exits@[i]);
        }
        assert forall|i: int| 0 <= i < s.handlers@.len() implies ((#[trigger] s.handlers@[i]).trigger matches TriggerIr::Duration(id)
            ==> id < ir.duration_triggers@.len()) by {
            assert(s.handlers@[i] == ir.states@[k as int].handlers@[i]);
        }
    }
    push_action_lines(ir, cp, "• entry: ", &s.entries, out);
    push_action_lines(ir, cp, "• exit: ", &s.exits, out);
    push_during_lines(cp, &s.durings, out);
    push_handler_lines(ir, cp, &s.handlers, out);
    proof {
        assert(out@ =~= old(out)@ + state_body(*ir, k as int, cp@));
    }
}

/// Draw state `sid` and its subtree below `prefix`.
#[verifier::rlimit(60)]
pub fn render_state(ir: &Ir, sid: u16, prefix: &String, is_last: bool, is_default: bool, out: &mut String)
    requires
        drawable(*ir),
        (sid as int) < ir.states@.len(),
    ensures
        final(out)@ == old(out)@ + render(*ir, sid as int, prefix@, is_last, is_default),
    decreases ir.states@.len() - sid,
{
    let ghost start = out@;
    let k = sid as usize;
    push_state_head(ir, k, prefix, is_last, is_default, out);
    let mut cp = prefix.clone();
    if is_last {
        cp.append("    ");
    } else {
        cp.append("│   ");
    }
    proof {
        assert(cp@ == prefix@ + pad(is_last));
    }
    push_state_body(ir, k, &cp, out);
    let ghost mid = out@;
    let s = &ir.states[k];
    let n = s.children.len();
    let mut j: usize = 0;
    while j < n
        invariant
            j <= n,
            n == s.children@.len(),
            s == ir.states@[k as int],
            k == sid,
            (k as int) < ir.states@.len(),
            drawable(*ir),
            out@ == mid + render_children(*ir, k as int, cp@, j as int),
        decreases n - j,
    {
        let c = s.children[j];
        if sid < c && (c as usize) < ir.states.len() {
            render_state(ir, c, &cp, j + 1 == n, s.default_child == Some(c), out);
        }
        proof {
            assert(out@ =~= mid + render_children(*ir, k as int, cp@, j + 1));
        }
        j += 1;
    }
    proof {
        assert(out@ =~= start + render(*ir, sid as int, prefix@, is_last, is_default));
    }
}

/// The chart drawn as a text tree, headed by the chart's name.
pub fn emit_state_chart_string(ir: &Ir) -> (r: String)
    requires
        drawable(*ir),
    ensures
        r@ == chart_tree(*ir),
{
    let mut out = ir.name.clone();
    out.append("\n");
    let ghost mid = out@;
    let root = &ir.states[0];
    let empty = String::new();
    let n = root.children.len();
    let mut j: usize = 0;
    while j < n
        invariant
            j <= n,
            n == root.children@.len(),
            root == ir.states@[0],
            drawable(*ir),
            empty@ == Seq::<char>::empty(),
            out@ == mid + render_children(*ir, 0, Seq::empty(), j as int),
        decreases n - j,
    {
        let c = root.children[j];
        if 0 < c && (c as usize) < ir.states.len() {
            render_state(ir, c, &empty, j + 1 == n, root.default_child == Some(c), &mut out);
        }
        proof {
            assert(out@ =~= mid + render_children(*ir, 0, Seq::empty(), j + 1));
        }
        j += 1;
    }
    out
}

} // verus!
