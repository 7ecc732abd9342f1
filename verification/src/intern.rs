//! The three tables that lowering fills in first-seen order: actions, event
//! variants and duration triggers. Each interning step is stated as a
//! function on the table's model, and the executable step is proved to
//! compute it.

use vstd::prelude::*;
use vstd::string::StringExecFns;
use crate::parse_tree::{PayloadField, PayloadKind, bool_text, bool_string};
use crate::seqs::{index_of, lemma_index_of, lemma_index_of_at};

verus! {

/// The shape an event variant is matched with.
#[derive(Clone, Copy, Debug, PartialEq, Eq, Structural)]
pub enum VariantKind {
    Unit,
    Tuple,
    Struct,
}

/// A variant that a payload-bearing action is bound to.
#[derive(Clone, Debug)]
pub struct BoundVariant {
    pub name: String,
    pub kind: PayloadKind,
}

/// One action: its name, its typed parameters (from its first use) and the
/// variants it is bound to.
pub struct ActionIr {
    pub name: String,
    pub params: Vec<PayloadField>,
    pub bound_variants: Vec<BoundVariant>,
}

/// One event variant referenced by the chart.
pub struct EventVariantIr {
    pub name: String,
    pub kind: VariantKind,
    /// Number of payload fields, known once a typed binding declares them.
    pub field_count: Option<usize>,
}

/// One duration trigger; `key` is `<expr key>:<repeat>` and `expr` the
/// duration expression's text at its first use.
pub struct DurationTrigger {
    pub id: u16,
    pub key: String,
    pub expr: String,
    pub repeat: bool,
}

/// Why a chart description cannot be lowered or is rejected.
#[derive(Debug)]
pub enum IrError {
    /// The root declares no `context:`.
    MissingContext,
    /// An action first used with typed bindings is used without.
    ActionNeedsBindings { action: String },
    /// An action first used without typed bindings is used with bindings.
    ActionHasNoBindings { action: String },
    /// An action is used with a different binding shape than its first use.
    ActionShapeMismatch { action: String },
    /// An event variant is bound with tuple-style and struct-style payloads.
    EventKindMismatch { variant: String, first: VariantKind, second: VariantKind },
    /// An event variant is bound with different numbers of fields.
    EventFieldCountMismatch { variant: String, first: usize, second: usize },
    /// An `every` timer targets a state.
    EveryTimerTransition { target: String },
    /// An event payload binding is attached to a transition.
    PayloadOnTransition { variant: String },
    /// More than 65536 states.
    TooManyStates,
    /// A transition names no state.
    UnknownState { target: String },
}

/// An error as plain values.
pub enum ErrView {
    MissingContext,
    ActionNeedsBindings(Seq<char>),
    ActionHasNoBindings(Seq<char>),
    ActionShapeMismatch(Seq<char>),
    EventKindMismatch(Seq<char>, VariantKind, VariantKind),
    EventFieldCountMismatch(Seq<char>, nat, nat),
    EveryTimerTransition(Seq<char>),
    PayloadOnTransition(Seq<char>),
    TooManyStates,
    UnknownState(Seq<char>),
}

pub open spec fn err_view(e: IrError) -> ErrView {
    match e {
        IrError::MissingContext => ErrView::MissingContext,
        IrError::ActionNeedsBindings { action } => ErrView::ActionNeedsBindings(action@),
        IrError::ActionHasNoBindings { action } => ErrView::ActionHasNoBindings(action@),
        IrError::ActionShapeMismatch { action } => ErrView::ActionShapeMismatch(action@),
        IrError::EventKindMismatch { variant, first, second } => ErrView::EventKindMismatch(variant@, first, second),
        IrError::EventFieldCountMismatch { variant, first, second } => ErrView::EventFieldCountMismatch(
            variant@,
            first as nat,
            second as nat,
        ),
        IrError::EveryTimerTransition { target } => ErrView::EveryTimerTransition(target@),
        IrError::PayloadOnTransition { variant } => ErrView::PayloadOnTransition(variant@),
        IrError::TooManyStates => ErrView::TooManyStates,
        IrError::UnknownState { target } => ErrView::UnknownState(target@),
    }
}

/// A field binding as text: (name, type).
pub open spec fn field_view(f: PayloadField) -> (Seq<char>, Seq<char>) {
    (f.name@, f.ty@)
}

pub open spec fn fields_view(fs: Seq<PayloadField>) -> Seq<(Seq<char>, Seq<char>)> {
    fs.map_values(|f: PayloadField| field_view(f))
}

/// An action table entry as plain values.
pub struct ActView {
    pub name: Seq<char>,
    pub params: Seq<(Seq<char>, Seq<char>)>,
    pub bound: Seq<(Seq<char>, PayloadKind)>,
}

pub open spec fn bound_view(b: BoundVariant) -> (Seq<char>, PayloadKind) {
    (b.name@, b.kind)
}

pub open spec fn act_view(a: ActionIr) -> ActView {
    ActView {
        name: a.name@,
        params: fields_view(a.params@),
        bound: a.bound_variants@.map_values(|b: BoundVariant| bound_view(b)),
    }
}

pub open spec fn acts_view(t: Seq<ActionIr>) -> Seq<ActView> {
    t.map_values(|a: ActionIr| act_view(a))
}

pub open spec fn act_names(t: Seq<ActView>) -> Seq<Seq<char>> {
    t.map_values(|a: ActView| a.name)
}

pub open spec fn bound_names(b: Seq<(Seq<char>, PayloadKind)>) -> Seq<Seq<char>> {
    b.map_values(|x: (Seq<char>, PayloadKind)| x.0)
}

/// Interning an action used without bindings: it is found (and must have
/// been declared without bindings) or appended.
pub open spec fn act_unit_step(t: Seq<ActView>, name: Seq<char>) -> Result<(Seq<ActView>, nat), ErrView> {
    let p = index_of(act_names(t), name);
    if p >= 0 {
        if t[p].params.len() > 0 {
            Err(ErrView::ActionNeedsBindings(name))
        } else {
            Ok((t, p as nat))
        }
    } else {
        Ok((t.push(ActView { name, params: Seq::empty(), bound: Seq::empty() }), t.len()))
    }
}

/// Interning an action used with typed bindings from `variant`: it is found
/// (with the same bindings, and the variant is added to its bound variants
/// when new) or appended.
pub open spec fn act_typed_step(
    t: Seq<ActView>,
    name: Seq<char>,
    params: Seq<(Seq<char>, Seq<char>)>,
    variant: Seq<char>,
    kind: PayloadKind,
) -> Result<(Seq<ActView>, nat), ErrView> {
    let p = index_of(act_names(t), name);
    if p >= 0 {
        if t[p].params.len() == 0 {
            Err(ErrView::ActionHasNoBindings(name))
        } else if t[p].params != params {
            Err(ErrView::ActionShapeMismatch(name))
        } else if bound_names(t[p].bound).contains(variant) {
            Ok((t, p as nat))
        } else {
            Ok((t.update(p, ActView { bound: t[p].bound.push((variant, kind)), ..t[p] }), p as nat))
        }
    } else {
        Ok((t.push(ActView { name, params, bound: seq![(variant, kind)] }), t.len()))
    }
}

/// An event table entry as plain values.
pub struct EvView {
    pub name: Seq<char>,
    pub kind: VariantKind,
    pub count: Option<nat>,
}

pub open spec fn opt_nat(c: Option<usize>) -> Option<nat> {
    match c {
        Some(c) => Some(c as nat),
        None => None,
    }
}

pub open spec fn ev_view(e: EventVariantIr) -> EvView {
    EvView { name: e.name@, kind: e.kind, count: opt_nat(e.field_count) }
}

pub open spec fn evs_view(t: Seq<EventVariantIr>) -> Seq<EvView> {
    t.map_values(|e: EventVariantIr| ev_view(e))
}

pub open spec fn ev_names(t: Seq<EvView>) -> Seq<Seq<char>> {
    t.map_values(|e: EvView| e.name)
}

/// Interning an event variant used with `kind` and `count` fields (unit and
/// `None` for a use without bindings). A variant first seen as unit takes
/// the first typed shape; a typed variant keeps its shape, and a later typed
/// use must agree with it.
pub open spec fn ev_step(t: Seq<EvView>, name: Seq<char>, kind: VariantKind, count: Option<nat>) -> Result<
    (Seq<EvView>, nat),
    ErrView,
> {
    let p = index_of(ev_names(t), name);
    if p >= 0 {
        let ex = t[p];
        if ex.kind == VariantKind::Unit {
            if kind == VariantKind::Unit {
                Ok((t, p as nat))
            } else {
                Ok((t.update(p, EvView { name: ex.name, kind, count }), p as nat))
            }
        } else if ex.kind == kind {
            match (ex.count, count) {
                (Some(x), Some(y)) => if x != y {
                    Err(ErrView::EventFieldCountMismatch(name, x, y))
                } else {
                    Ok((t, p as nat))
                },
                _ => Ok((t, p as nat)),
            }
        } else if kind == VariantKind::Unit {
            Ok((t, p as nat))
        } else {
            Err(ErrView::EventKindMismatch(name, ex.kind, kind))
        }
    } else {
        Ok((t.push(EvView { name, kind, count }), t.len()))
    }
}

/// A duration table entry as plain values.
pub struct DurView {
    pub id: u16,
    pub key: Seq<char>,
    pub expr: Seq<char>,
    pub repeat: bool,
}

pub open spec fn dur_view(d: DurationTrigger) -> DurView {
    DurView { id: d.id, key: d.key@, expr: d.expr@, repeat: d.repeat }
}

pub open spec fn durs_view(t: Seq<DurationTrigger>) -> Seq<DurView> {
    t.map_values(|d: DurationTrigger| dur_view(d))
}

pub open spec fn dur_keys(t: Seq<DurView>) -> Seq<Seq<char>> {
    t.map_values(|d: DurView| d.key)
}

/// The full key of a duration trigger: the expression text, `:` and the
/// repeat flag.
pub open spec fn full_key(key: Seq<char>, repeat: bool) -> Seq<char> {
    key + ":"@ + bool_text(repeat)
}

/// Interning a duration trigger: found by full key or appended (with the
/// expression of this use), with the id its position (as `u16`).
pub open spec fn dur_step(t: Seq<DurView>, key: Seq<char>, expr: Seq<char>, repeat: bool) -> (Seq<DurView>, nat) {
    let k = full_key(key, repeat);
    let p = index_of(dur_keys(t), k);
    if p >= 0 {
        (t, p as nat)
    } else {
        (t.push(DurView { id: id16(t.len()), key: k, expr, repeat }), t.len())
    }
}

/// A position as a 16-bit id (its low 16 bits).
pub open spec fn id16(p: nat) -> u16 {
    (p % 0x10000) as u16
}

/// A position as a 16-bit id (its low 16 bits).
pub fn to_id(p: usize) -> (r: u16)
    ensures
        r == id16(p as nat),
{
    (p % 0x10000) as u16
}

/// The text of a variant kind.
pub open spec fn kind_text(k: VariantKind) -> Seq<char> {
    match k {
        VariantKind::Unit => "unit"@,
        VariantKind::Tuple => "tuple"@,
        VariantKind::Struct => "struct"@,
    }
}

/// `unit`, `tuple` or `struct`.
pub fn variant_kind_name(k: VariantKind) -> (s: &'static str)
    ensures
        s@ == kind_text(k),
{
    match k {
        VariantKind::Unit => "unit",
        VariantKind::Tuple => "tuple",
        VariantKind::Struct => "struct",
    }
}

/// Copy a list of payload fields.
pub fn clone_fields(v: &Vec<PayloadField>) -> (r: Vec<PayloadField>)
    ensures
        fields_view(r@) == fields_view(v@),
{
    let mut out: Vec<PayloadField> = Vec::new();
    let n = v.len();
    let mut i: usize = 0;
    while i < n
        invariant
            i <= n,
            n == v@.len(),
            fields_view(out@) == fields_view(v@.take(i as int)),
        decreases n - i,
    {
        let f = PayloadField { name: v[i].name.clone(), ty: v[i].ty.clone() };
        proof {
            assert(fields_view(v@.take(i + 1)) =~= fields_view(v@.take(i as int)).push(field_view(v@[i as int])));
            assert(fields_view(out@.push(f)) =~= fields_view(out@).push(field_view(f)));
        }
        out.push(f);
        i += 1;
    }
    proof {
        assert(v@.take(n as int) =~= v@);
    }
    out
}

/// Whether two binding lists have the same names and type texts.
pub fn params_match(a: &Vec<PayloadField>, b: &Vec<PayloadField>) -> (r: bool)
    ensures
        r == (fields_view(a@) == fields_view(b@)),
{
    if a.len() != b.len() {
        proof {
            assert(fields_view(a@).len() != fields_view(b@).len());
        }
        return false;
    }
    let n = a.len();
    let mut i: usize = 0;
    while i < n
        invariant
            i <= n,
            n == a@.len(),
            n == b@.len(),
            forall|j: int| 0 <= j < i ==> field_view(a@[j]) == field_view(b@[j]),
        decreases n - i,
    {
        if !(a[i].name == b[i].name && a[i].ty == b[i].ty) {
            proof {
                assert(fields_view(a@)[i as int] != fields_view(b@)[i as int]);
            }
            return false;
        }
        i += 1;
    }
    proof {
        assert(fields_view(a@) =~= fields_view(b@));
    }
    true
}

/// Position of the first action named `name`.
fn find_action(t: &Vec<ActionIr>, name: &String) -> (r: Option<usize>)
    ensures
        r is None ==> index_of(act_names(acts_view(t@)), name@) < 0,
        r matches Some(p) ==> p == index_of(act_names(acts_view(t@)), name@) && p < t@.len(),
{
    let ghost names = act_names(acts_view(t@));
    let n = t.len();
    let mut i: usize = 0;
    while i < n
        invariant
            i <= n,
            n == t@.len(),
            names == act_names(acts_view(t@)),
            forall|j: int| 0 <= j < i ==> names[j] != name@,
        decreases n - i,
    {
        if t[i].name == *name {
            proof {
                lemma_index_of_at(names, name@, i as int);
            }
            return Some(i);
        }
        i += 1;
    }
    proof {
        lemma_index_of(names, name@);
        if index_of(names, name@) >= 0 {
            assert(names[index_of(names, name@)] == name@);
        }
    }
    None
}

/// Intern an action used without bindings; returns its id.
pub fn intern_action_unit(t: &mut Vec<ActionIr>, name: &String) -> (r: Result<u16, IrError>)
    ensures
        match act_unit_step(acts_view(old(t)@), name@) {
            Ok((t2, p)) => r == Ok::<u16, IrError>(id16(p)) && acts_view(final(t)@) == t2,
            Err(e) => r matches Err(x) && err_view(x) == e && final(t)@ == old(t)@,
        },
{
    match find_action(t, name) {
        Some(p) => {
            if t[p].params.len() > 0 {
                return Err(IrError::ActionNeedsBindings { action: name.clone() });
            }
            Ok(to_id(p))
        },
        None => {
            let a = ActionIr { name: name.clone(), params: Vec::new(), bound_variants: Vec::new() };
            let ghost old_t = acts_view(t@);
            t.push(a);
            proof {
                assert(acts_view(t@) =~= old_t.push(act_view(a)));
                assert(act_view(a).params =~= Seq::<(Seq<char>, Seq<char>)>::empty());
                assert(act_view(a).bound =~= Seq::<(Seq<char>, PayloadKind)>::empty());
            }
            Ok(to_id(t.len() - 1))
        },
    }
}

/// Position of `name` among `v`'s bound variants.
fn has_bound(v: &Vec<BoundVariant>, name: &String) -> (r: bool)
    ensures
        r == bound_names(v@.map_values(|b: BoundVariant| bound_view(b))).contains(name@),
{
    let ghost names = bound_names(v@.map_values(|b: BoundVariant| bound_view(b)));
    let n = v.len();
    let mut i: usize = 0;
    while i < n
        invariant
            i <= n,
            n == v@.len(),
            names == bound_names(v@.map_values(|b: BoundVariant| bound_view(b))),
            forall|j: int| 0 <= j < i ==> names[j] != name@,
        decreases n - i,
    {
        if v[i].name == *name {
            proof {
                assert(names[i as int] == name@);
            }
            return true;
        }
        i += 1;
    }
    false
}

/// Intern an action used with typed bindings `params` from `variant`;
/// returns its id.
pub fn intern_action_with_params(
    t: &mut Vec<ActionIr>,
    name: &String,
    params: &Vec<PayloadField>,
    variant: &String,
    kind: PayloadKind,
) -> (r: Result<u16, IrError>)
    ensures
        match act_typed_step(acts_view(old(t)@), name@, fields_view(params@), variant@, kind) {
            Ok((t2, p)) => r == Ok::<u16, IrError>(id16(p)) && acts_view(final(t)@) == t2,
            Err(e) => r matches Err(x) && err_view(x) == e && final(t)@ == old(t)@,
        },
{
    let ghost old_t = acts_view(t@);
    match find_action(t, name) {
        Some(p) => {
            if t[p].params.len() == 0 {
                return Err(IrError::ActionHasNoBindings { action: name.clone() });
            }
            if !params_match(&t[p].params, params) {
                return Err(IrError::ActionShapeMismatch { action: name.clone() });
            }
            if !has_bound(&t[p].bound_variants, variant) {
                let b = BoundVariant { name: variant.clone(), kind };
                let mut a = t.remove(p);
                let ghost a0 = a;
                a.bound_variants.push(b);
                t.insert(p, a);
                proof {
                    assert(a.bound_variants@.map_values(|b: BoundVariant| bound_view(b)) =~= a0.bound_variants@.map_values(
                        |b: BoundVariant| bound_view(b),
                    ).push((variant@, kind)));
                    assert(acts_view(t@) =~= old_t.update(
                        p as int,
                        ActView { bound: old_t[p as int].bound.push((variant@, kind)), ..old_t[p as int] },
                    ));
                }
            }
            Ok(to_id(p))
        },
        None => {
            let b = BoundVariant { name: variant.clone(), kind };
            let a = ActionIr { name: name.clone(), params: clone_fields(params), bound_variants: vec![b] };
            t.push(a);
            proof {
                assert(act_view(a).bound =~= seq![(variant@, kind)]);
                assert(acts_view(t@) =~= old_t.push(act_view(a)));
            }
            Ok(to_id(t.len() - 1))
        },
    }
}

/// Position of the first event variant named `name`.
fn find_event(t: &Vec<EventVariantIr>, name: &String) -> (r: Option<usize>)
    ensures
        r is None ==> index_of(ev_names(evs_view(t@)), name@) < 0,
        r matches Some(p) ==> p == index_of(ev_names(evs_view(t@)), name@) && p < t@.len(),
{
    let ghost names = ev_names(evs_view(t@));
    let n = t.len();
    let mut i: usize = 0;
    while i < n
        invariant
            i <= n,
            n == t@.len(),
            names == ev_names(evs_view(t@)),
            forall|j: int| 0 <= j < i ==> names[j] != name@,
        decreases n - i,
    {
        if t[i].name == *name {
            proof {
                lemma_index_of_at(names, name@, i as int);
            }
            return Some(i);
        }
        i += 1;
    }
    proof {
        lemma_index_of(names, name@);
        if index_of(names, name@) >= 0 {
            assert(names[index_of(names, name@)] == name@);
        }
    }
    None
}

/// Intern an event variant used with the given shape (`Unit` and `None` for
/// a use without bindings); returns its id.
pub fn intern_event(t: &mut Vec<EventVariantIr>, name: &String, kind: VariantKind, count: Option<usize>) -> (r: Result<
    u16,
    IrError,
>)
    ensures
        match ev_step(evs_view(old(t)@), name@, kind, opt_nat(count)) {
            Ok((t2, p)) => r == Ok::<u16, IrError>(id16(p)) && evs_view(final(t)@) == t2,
            Err(e) => r matches Err(x) && err_view(x) == e && final(t)@ == old(t)@,
        },
{
    let ghost old_t = evs_view(t@);
    match find_event(t, name) {
        Some(p) => {
            let ek = t[p].kind;
            let ec = t[p].field_count;
            if ek == VariantKind::Unit {
                if kind != VariantKind::Unit {
                    let e = EventVariantIr { name: t[p].name.clone(), kind, field_count: count };
                    t.set(p, e);
                    proof {
                        assert(evs_view(t@) =~= old_t.update(
                            p as int,
                            EvView { name: old_t[p as int].name, kind, count: opt_nat(count) },
                        ));
                    }
                }
            } else if ek == kind {
                match (ec, count) {
                    (Some(x), Some(y)) => {
                        if x != y {
                            return Err(IrError::EventFieldCountMismatch { variant: name.clone(), first: x, second: y });
                        }
                    },
                    _ => {},
                }
            } else if kind != VariantKind::Unit {
                return Err(IrError::EventKindMismatch { variant: name.clone(), first: ek, second: kind });
            }
            Ok(to_id(p))
        },
        None => {
            let e = EventVariantIr { name: name.clone(), kind, field_count: count };
            t.push(e);
            proof {
                assert(evs_view(t@) =~= old_t.push(ev_view(e)));
            }
            Ok(to_id(t.len() - 1))
        },
    }
}

/// Intern a duration trigger by its full key `<key>:<repeat>`; returns its id.
pub fn intern_duration(t: &mut Vec<DurationTrigger>, key: &String, expr: &String, repeat: bool) -> (r: u16)
    ensures
        ({
            let (t2, p) = dur_step(durs_view(old(t)@), key@, expr@, repeat);
            r == id16(p) && durs_view(final(t)@) == t2
        }),
{
    let ghost old_t = durs_view(t@);
    let mut full = key.clone();
    full.append(":");
    let b = bool_string(repeat);
    full.append(b.as_str());
    let ghost names = dur_keys(old_t);
    proof {
        assert(full@ == full_key(key@, repeat));
    }
    let n = t.len();
    let mut i: usize = 0;
    while i < n
        invariant
            i <= n,
            n == t@.len(),
            old_t == durs_view(t@),
            t@ == old(t)@,
            full@ == full_key(key@, repeat),
            names == dur_keys(old_t),
            forall|j: int| 0 <= j < i ==> names[j] != full@,
        decreases n - i,
    {
        if t[i].key == full {
            proof {
                assert(old_t[i as int] == dur_view(t@[i as int]));
                assert(names[i as int] == full@);
                lemma_index_of_at(names, full@, i as int);
            }
            return to_id(i);
        }
        i += 1;
    }
    proof {
        lemma_index_of(names, full@);
        if index_of(names, full@) >= 0 {
            assert(names[index_of(names, full@)] == full@);
        }
    }
    let id = to_id(n);
    let d = DurationTrigger { id, key: full, expr: expr.clone(), repeat };
    t.push(d);
    proof {
        assert(durs_view(t@) =~= old_t.push(dur_view(d)));
    }
    id
}

} // verus!
