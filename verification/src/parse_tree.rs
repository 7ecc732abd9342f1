//! The statechart description as parsed: plain values, names as strings.

use vstd::prelude::*;
use vstd::string::StringExecFns;

verus! {

/// The whole `statechart!` input: the chart's name and the root body.
pub struct StatechartInput {
    pub name: String,
    pub body: StateBody,
}

/// Everything declared in one state (or at the root).
pub struct StateBody {
    /// The context type's text; only valid at the root.
    pub context_ty: Option<String>,
    /// The event type's text; only valid at the root.
    pub event_ty: Option<String>,
    /// The first `terminate(...)` event.
    pub terminate: Option<String>,
    /// The first `default(...)` target.
    pub default_child: Option<String>,
    /// Number of `default(...)` declarations.
    pub default_count: usize,
    /// Number of `terminate(...)` declarations.
    pub terminate_count: usize,
    pub entries: Vec<String>,
    pub exits: Vec<String>,
    pub handlers: Vec<Handler>,
    pub children: Vec<StateDecl>,
    pub durings: Vec<During>,
}

/// `during: fn_name(field, ...);` — an activity scoped to a state, borrowing
/// the named root-context fields.
#[derive(Clone, Debug)]
pub struct During {
    pub fn_name: String,
    pub fields: Vec<String>,
}

/// A nested `state Name { ... }`.
pub struct StateDecl {
    pub name: String,
    pub body: StateBody,
}

/// One `on(trigger) => target;` entry (a list of targets gives one handler each).
#[derive(Clone, Debug)]
pub struct Handler {
    pub trigger: Trigger,
    pub kind: HandlerKind,
    pub decl_index: usize,
}

/// The unresolved target of a handler: a state name (a transition) or an
/// action name.
#[derive(Clone, Debug)]
pub enum HandlerKind {
    Target(String),
}

/// What a handler reacts to.
#[derive(Clone, Debug)]
pub enum Trigger {
    /// An event variant, with typed payload bindings when declared.
    Event { variant: String, payload: Option<EventPayload> },
    /// A duration: `expr` is the expression's text, `key` the same text
    /// without whitespace, and `repeat` is true for `every` timers.
    Duration { expr: String, key: String, repeat: bool },
}

/// Typed payload bindings attached to an event-variant trigger.
#[derive(Clone, Debug)]
pub struct EventPayload {
    pub kind: PayloadKind,
    pub fields: Vec<PayloadField>,
}

/// Tuple-style `V(a: T)` or struct-style `V { a: T }` bindings.
#[derive(Clone, Copy, Debug, PartialEq, Eq, Structural)]
pub enum PayloadKind {
    Tuple,
    Struct,
}

/// One typed binding; `ty` is the type's canonical text.
#[derive(Clone, Debug)]
pub struct PayloadField {
    pub name: String,
    pub ty: String,
}

/// The text of a boolean.
pub open spec fn bool_text(b: bool) -> Seq<char> {
    if b { "true"@ } else { "false"@ }
}

/// A trigger's deduplication key.
pub open spec fn spec_trigger_key(t: Trigger) -> Seq<char> {
    match t {
        Trigger::Event { variant, .. } => "event:"@ + variant@,
        Trigger::Duration { key, repeat, .. } => "dur:"@ + key@ + ":"@ + bool_text(repeat),
    }
}

/// A trigger as shown in diagnostics.
pub open spec fn spec_trigger_display(t: Trigger) -> Seq<char> {
    match t {
        Trigger::Event { variant, .. } => variant@,
        Trigger::Duration { key, .. } => key@,
    }
}

/// The text `"true"` or `"false"`.
pub fn bool_string(b: bool) -> (s: String)
    ensures
        s@ == bool_text(b),
{
    if b {
        String::from_str("true")
    } else {
        String::from_str("false")
    }
}

impl Trigger {
    /// Deduplication key: `event:<Variant>` or `dur:<expr>:<repeat>`.
    pub fn key(&self) -> (s: String)
        ensures
            s@ == spec_trigger_key(*self),
    {
        match self {
            Trigger::Event { variant, .. } => {
                let mut s = String::from_str("event:");
                s.append(variant.as_str());
                s
            },
            Trigger::Duration { key, repeat, .. } => {
                let mut s = String::from_str("dur:");
                s.append(key.as_str());
                s.append(":");
                let b = bool_string(*repeat);
                s.append(b.as_str());
                s
            },
        }
    }

    /// Text shown in diagnostics: the variant name or the duration expression.
    pub fn display(&self) -> (s: String)
        ensures
            s@ == spec_trigger_display(*self),
    {
        match self {
            Trigger::Event { variant, .. } => variant.clone(),
            Trigger::Duration { key, .. } => key.clone(),
        }
    }
}

} // verus!
