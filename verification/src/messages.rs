//! The messages of the chart front end's errors.

use vstd::prelude::*;
use vstd::string::StringExecFns;
use crate::intern::{IrError, kind_text, variant_kind_name};
use crate::parse::{Expect, ParseError, push_char};
use crate::validate::ValidationError;

verus! {

/// The character of decimal digit `d`.
pub open spec fn digit(d: nat) -> char {
    if d == 0 {
        '0'
    } else if d == 1 {
        '1'
    } else if d == 2 {
        '2'
    } else if d == 3 {
        '3'
    } else if d == 4 {
        '4'
    } else if d == 5 {
        '5'
    } else if d == 6 {
        '6'
    } else if d == 7 {
        '7'
    } else if d == 8 {
        '8'
    } else {
        '9'
    }
}

/// `n` written in decimal, without leading zeros.
pub open spec fn decimal(n: nat) -> Seq<char>
    decreases n,
{
    if n < 10 {
        seq![digit(n)]
    } else {
        decimal(n / 10).push(digit(n % 10))
    }
}

fn digit_char(d: usize) -> (c: char)
    requires
        d < 10,
    ensures
        c == digit(d as nat),
{
    if d == 0 {
        '0'
    } else if d == 1 {
        '1'
    } else if d == 2 {
        '2'
    } else if d == 3 {
        '3'
    } else if d == 4 {
        '4'
    } else if d == 5 {
        '5'
    } else if d == 6 {
        '6'
    } else if d == 7 {
        '7'
    } else if d == 8 {
        '8'
    } else {
        '9'
    }
}

/// Append `n` in decimal.
fn append_decimal(s: &mut String, n: usize)
    ensures
        final(s)@ == old(s)@ + decimal(n as nat),
    decreases n,
{
    if n >= 10 {
        append_decimal(s, n / 10);
    }
    let c = digit_char(n % 10);
    push_char(s, c);
    proof {
        if n < 10 {
            assert(decimal(n as nat) == seq![digit(n as nat)]);
            assert(old(s)@.push(c) =~= old(s)@ + decimal(n as nat));
        } else {
            assert(old(s)@ + decimal((n / 10) as nat) + seq![c] =~= old(s)@ + decimal(n as nat));
        }
    }
}

/// What a missing token is called in messages.
pub open spec fn expect_text(e: Expect) -> Seq<char> {
    match e {
        Expect::Colon => "`:`"@,
        Expect::Semicolon => "`;`"@,
        Expect::Ident => "an identifier"@,
        Expect::ParenGroup => "`( ... )`"@,
        Expect::BraceGroup => "`{ ... }`"@,
        Expect::FatArrow => "`=>`"@,
        Expect::Type => "a type"@,
        Expect::Expr => "an expression"@,
    }
}

impl Expect {
    /// What the missing token is called in messages.
    pub fn text(&self) -> (s: &'static str)
        ensures
            s@ == expect_text(*self),
    {
        match self {
            Expect::Colon => "`:`",
            Expect::Semicolon => "`;`",
            Expect::Ident => "an identifier",
            Expect::ParenGroup => "`( ... )`",
            Expect::BraceGroup => "`{ ... }`",
            Expect::FatArrow => "`=>`",
            Expect::Type => "a type",
            Expect::Expr => "an expression",
        }
    }
}

/// The text of a grammar error.
pub open spec fn parse_error_text(e: ParseError) -> Seq<char> {
    match e {
        ParseError::ExpectedChartName => "expected the statechart's name"@,
        ParseError::ExpectedChartBody => "expected `{ ... }` after the statechart's name"@,
        ParseError::TrailingTokens => "unexpected tokens after the statechart body"@,
        ParseError::ExpectedItem => "expected an item (`state`, `on`, `entry`, ...)"@,
        ParseError::UnknownItem { name } => "unknown item `"@ + name@ + "` in statechart body"@,
        ParseError::Expected { what } => "expected "@ + expect_text(what),
        ParseError::ContextNotAtRoot => "`context:` is only valid at root"@,
        ParseError::EventsNotAtRoot => "`events:` is only valid at root"@,
        ParseError::BadTrigger => "expected an event variant (`Name`, `Name(..)`, `Name { .. }`) or a duration trigger prefixed with `after` or `every`"@,
        ParseError::UnexpectedAfterVariant => "unexpected token after event variant name; expected end of trigger, `(..)`, or `{ .. }`"@,
        ParseError::UnexpectedTokens => "unexpected tokens"@,
        ParseError::BareNumericDuration => "bare numeric literals are not accepted as durations; use a typed expression like `Duration::from_secs(5)` or `Duration::from_millis(250)`"@,
    }
}

impl ParseError {
    /// The message that describes this error.
    pub fn message(&self) -> (r: String)
        ensures
            r@ == parse_error_text(*self),
    {
        match self {
            ParseError::ExpectedChartName => {
                String::from_str("expected the statechart's name")
            },
            ParseError::ExpectedChartBody => {
                String::from_str("expected `{ ... }` after the statechart's name")
            },
            ParseError::TrailingTokens => {
                String::from_str("unexpected tokens after the statechart body")
            },
            ParseError::ExpectedItem => {
                String::from_str("expected an item (`state`, `on`, `entry`, ...)")
            },
            ParseError::UnknownItem { name } => {
                let mut s = String::from_str("unknown item `");
                s.append(name.as_str());
                s.append("` in statechart body");
                s
            },
            ParseError::Expected { what } => {
                let mut s = String::from_str("expected ");
                s.append(what.text());
                s
            },
            ParseError::ContextNotAtRoot => {
                String::from_str("`context:` is only valid at root")
            },
            ParseError::EventsNotAtRoot => {
                String::from_str("`events:` is only valid at root")
            },
            ParseError::BadTrigger => {
                String::from_str("expected an event variant (`Name`, `Name(..)`, `Name { .. }`) or a duration trigger prefixed with `after` or `every`")
            },
            ParseError::UnexpectedAfterVariant => {
                String::from_str("unexpected token after event variant name; expected end of trigger, `(..)`, or `{ .. }`")
            },
            ParseError::UnexpectedTokens => {
                String::from_str("unexpected tokens")
            },
            ParseError::BareNumericDuration => {
                String::from_str("bare numeric literals are not accepted as durations; use a typed expression like `Duration::from_secs(5)` or `Duration::from_millis(250)`")
            },
        }
    }
}

/// The text of a lowering error.
pub open spec fn ir_error_text(e: IrError) -> Seq<char> {
    match e {
        IrError::MissingContext => "statechart missing `context:` declaration"@,
        IrError::ActionNeedsBindings { action } => "action `"@ + action@ + "` was previously declared with typed event-payload bindings; cannot also be used without bindings"@,
        IrError::ActionHasNoBindings { action } => "action `"@ + action@ + "` was previously declared without bindings; cannot also be used with typed event-payload bindings"@,
        IrError::ActionShapeMismatch { action } => "action `"@ + action@ + "` used with a different payload binding shape than its first declaration"@,
        IrError::EventKindMismatch { variant, first, second } => "event variant `"@ + variant@ + "` is used with inconsistent kinds ("@ + kind_text(first) + " vs "@ + kind_text(second) + ")"@,
        IrError::EventFieldCountMismatch { variant, first, second } => "event variant `"@ + variant@ + "` is used with inconsistent payload field counts ("@ + decimal(first as nat) + " vs "@ + decimal(second as nat) + ")"@,
        IrError::EveryTimerTransition { .. } => "`every` timers are only valid on action handlers; transitioning to a state cancels the timer on first fire"@,
        IrError::PayloadOnTransition { .. } => "event payload bindings are only valid when dispatching to an action handler; a transition target takes no arguments"@,
        IrError::TooManyStates => "a statechart holds at most 65536 states"@,
        IrError::UnknownState { target } => "unknown state `"@ + target@ + "` in transition"@,
    }
}

impl IrError {
    /// The message that describes this error.
    pub fn message(&self) -> (r: String)
        ensures
            r@ == ir_error_text(*self),
    {
        match self {
            IrError::MissingContext => {
                String::from_str("statechart missing `context:` declaration")
            },
            IrError::ActionNeedsBindings { action } => {
                let mut s = String::from_str("action `");
                s.append(action.as_str());
                s.append("` was previously declared with typed event-payload bindings; cannot also be used without bindings");
                s
            },
            IrError::ActionHasNoBindings { action } => {
                let mut s = String::from_str("action `");
                s.append(action.as_str());
                s.append("` was previously declared without bindings; cannot also be used with typed event-payload bindings");
                s
            },
            IrError::ActionShapeMismatch { action } => {
                let mut s = String::from_str("action `");
                s.append(action.as_str());
                s.append("` used with a different payload binding shape than its first declaration");
                s
            },
            IrError::EventKindMismatch { variant, first, second } => {
                let mut s = String::from_str("event variant `");
                s.append(variant.as_str());
                s.append("` is used with inconsistent kinds (");
                s.append(variant_kind_name(*first));
                s.append(" vs ");
                s.append(variant_kind_name(*second));
                s.append(")");
                s
            },
            IrError::EventFieldCountMismatch { variant, first, second } => {
                let mut s = String::from_str("event variant `");
                s.append(variant.as_str());
                s.append("` is used with inconsistent payload field counts (");
                append_decimal(&mut s, *first);
                s.append(" vs ");
                append_decimal(&mut s, *second);
                s.append(")");
                s
            },
            IrError::EveryTimerTransition { .. } => {
                String::from_str("`every` timers are only valid on action handlers; transitioning to a state cancels the timer on first fire")
            },
            IrError::PayloadOnTransition { .. } => {
                String::from_str("event payload bindings are only valid when dispatching to an action handler; a transition target takes no arguments")
            },
            IrError::TooManyStates => {
                String::from_str("a statechart holds at most 65536 states")
            },
            IrError::UnknownState { target } => {
                let mut s = String::from_str("unknown state `");
                s.append(target.as_str());
                s.append("` in transition");
                s
            },
        }
    }
}

/// `names` joined by `" -> "`.
pub open spec fn joined(names: Seq<Seq<char>>) -> Seq<char>
    decreases names.len(),
{
    if names.len() == 0 {
        Seq::empty()
    } else if names.len() == 1 {
        names[0]
    } else {
        joined(names.drop_last()) + " -> "@ + names.last()
    }
}

/// The text of a `default(...)` cycle: its states joined by `" -> "` and
/// closed by the first one again.
pub open spec fn cycle_text(names: Seq<Seq<char>>) -> Seq<char> {
    let first = if names.len() > 0 { names[0] } else { Seq::empty() };
    "default-transition cycle detected: "@ + joined(names) + " -> "@ + first
        + " (entering any state in this cycle would loop forever before reaching user code)"@
}

fn cycle_message(cycle: &Vec<String>) -> (r: String)
    ensures
        r@ == cycle_text(cycle@.map_values(|s: String| s@)),
{
    let ghost names = cycle@.map_values(|s: String| s@);
    let mut s = String::from_str("default-transition cycle detected: ");
    let ghost head = s@;
    let n = cycle.len();
    let mut i: usize = 0;
    while i < n
        invariant
            i <= n,
            n == cycle@.len(),
            names == cycle@.map_values(|s: String| s@),
            s@ == head + joined(names.take(i as int)),
        decreases n - i,
    {
        proof {
            assert(names.take(i + 1).drop_last() =~= names.take(i as int));
            assert(names.take(i + 1).last() == cycle@[i as int]@);
        }
        if i > 0 {
            s.append(" -> ");
        }
        s.append(cycle[i].as_str());
        proof {
            if i == 0 {
                assert(joined(names.take(0)) =~= Seq::<char>::empty());
                assert(names.take(1)[0] == cycle@[0]@);
            }
        }
        i += 1;
    }
    proof {
        assert(names.take(n as int) =~= names);
    }
    s.append(" -> ");
    if n > 0 {
        s.append(cycle[0].as_str());
    }
    s.append(" (entering any state in this cycle would loop forever before reaching user code)");
    proof {
        if n == 0 {
            assert(s@ =~= cycle_text(names));
        }
    }
    s
}

/// The text of a rule violation.
pub open spec fn validation_error_text(e: ValidationError) -> Seq<char> {
    match e {
        ValidationError::MultipleDefault { state } => "multiple `default` declarations in state `"@ + state@ + "`"@,
        ValidationError::MultipleTerminate => "multiple `terminate` declarations"@,
        ValidationError::DefaultCycle { cycle } => cycle_text(cycle@.map_values(|s: String| s@)),
        ValidationError::TerminateNotAtRoot => "`terminate` is only valid at the root level"@,
        ValidationError::UnknownDefault { target } => "`default("@ + target@ + ")` names no state declared in the statechart"@,
        ValidationError::DuplicateState { name } => "duplicate state name `"@ + name@ + "`"@,
        ValidationError::EmptyState { name } => "empty state `"@ + name@ + "`"@,
        ValidationError::DuringFieldTwice { field, during } => "field `"@ + field@ + "` listed twice in `during: "@ + during@ + "(...)` — each field can only be borrowed once per during"@,
        ValidationError::DuringFieldShared { field, state, first, second } => "field `"@ + field@ + "` is borrowed by two concurrent durings on state `"@ + state@ + "` (`"@ + first@ + "` and `"@ + second@ + "`) — move one of them to a disjoint field or combine the activities into a single during that uses `select`"@,
        ValidationError::DuplicateTransition { trigger, state } => "duplicate transition on trigger `"@ + trigger@ + "` in state `"@ + state@ + "`"@,
        ValidationError::UnknownState { target } => "unknown state `"@ + target@ + "` in transition"@,
        ValidationError::TransitionBeforeAction { target, trigger } => "transition to state `"@ + target@ + "` on trigger `"@ + trigger@ + "` must come after every action handler on the same trigger; hsmc runs all actions before the transition, so declaring the state target earlier misleads the reader"@,
        ValidationError::ActionAfterTransition { trigger } => "action handler on trigger `"@ + trigger@ + "` must be declared before the state transition target; hsmc runs all actions before the transition, so placing actions after the target misleads the reader"@,
    }
}

impl ValidationError {
    /// The message that describes this error.
    pub fn message(&self) -> (r: String)
        ensures
            r@ == validation_error_text(*self),
    {
        match self {
            ValidationError::MultipleDefault { state } => {
                let mut s = String::from_str("multiple `default` declarations in state `");
                s.append(state.as_str());
                s.append("`");
                s
            },
            ValidationError::MultipleTerminate => {
                String::from_str("multiple `terminate` declarations")
            },
            ValidationError::DefaultCycle { cycle } => cycle_message(cycle),
            ValidationError::TerminateNotAtRoot => {
                String::from_str("`terminate` is only valid at the root level")
            },
            ValidationError::UnknownDefault { target } => {
                let mut s = String::from_str("`default(");
                s.append(target.as_str());
                s.append(")` names no state declared in the statechart");
                s
            },
            ValidationError::DuplicateState { name } => {
                let mut s = String::from_str("duplicate state name `");
                s.append(name.as_str());
                s.append("`");
                s
            },
            ValidationError::EmptyState { name } => {
                let mut s = String::from_str("empty state `");
                s.append(name.as_str());
                s.append("`");
                s
            },
            ValidationError::DuringFieldTwice { field, during } => {
                let mut s = String::from_str("field `");
                s.append(field.as_str());
                s.append("` listed twice in `during: ");
                s.append(during.as_str());
                s.append("(...)` — each field can only be borrowed once per during");
                s
            },
            ValidationError::DuringFieldShared { field, state, first, second } => {
                let mut s = String::from_str("field `");
                s.append(field.as_str());
                s.append("` is borrowed by two concurrent durings on state `");
                s.append(state.as_str());
                s.append("` (`");
                s.append(first.as_str());
                s.append("` and `");
                s.append(second.as_str());
                s.append("`) — move one of them to a disjoint field or combine the activities into a single during that uses `select`");
                s
            },
            ValidationError::DuplicateTransition { trigger, state } => {
                let mut s = String::from_str("duplicate transition on trigger `");
                s.append(trigger.as_str());
                s.append("` in state `");
                s.append(state.as_str());
                s.append("`");
                s
            },
            ValidationError::UnknownState { target } => {
                let mut s = String::from_str("unknown state `");
                s.append(target.as_str());
                s.append("` in transition");
                s
            },
            ValidationError::TransitionBeforeAction { target, trigger } => {
                let mut s = String::from_str("transition to state `");
                s.append(target.as_str());
                s.append("` on trigger `");
                s.append(trigger.as_str());
                s.append("` must come after every action handler on the same trigger; hsmc runs all actions before the transition, so declaring the state target earlier misleads the reader");
                s
            },
            ValidationError::ActionAfterTransition { trigger } => {
                let mut s = String::from_str("action handler on trigger `");
                s.append(trigger.as_str());
                s.append("` must be declared before the state transition target; hsmc runs all actions before the transition, so placing actions after the target misleads the reader");
                s
            },
        }
    }
}

} // verus!
