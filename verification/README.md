# hsmc

Hierarchical state machines (statecharts) described in a small declarative
language. The chart front end (parsing, checks, lowering, tables) and the
runtime step are verified with Verus: each step is proved to follow a
mathematical model of the chart's semantics, including (for action impls
that keep a record of their calls) which actions it calls, with which event,
and what becomes of the events they emit; the front end's error messages are
stated too. What the actions themselves do is the user's code and is not
verified; neither is the code generation in `app/`, nor the loop that drives
a machine, though each of its rounds is a verified call.

## Layout

- `src/` — the verified library.
  - `parse.rs`: the chart description language, from token trees to a parse
    tree (`parse_tree.rs`), with the grammar stated as spec functions.
  - `validate.rs`, `graph.rs`: the rules a chart must follow, on the parse tree
    and on the lowered chart; the error reported is the first broken rule.
  - `intern.rs`, `ir.rs`: lowering to numbered states, actions, event variants
    and duration triggers; resolution of transition and default targets.
  - `tables.rs`, `hash.rs`, `render.rs`: the tables a machine runs on, the
    chart's structural hash and its text drawing.
  - `semantics.rs`: the mathematical model of one machine step.
  - `chart.rs`, `plan.rs`, `machine.rs`, `queue.rs`, `timers.rs`,
    `journal.rs`: the runtime, proved to follow the model. User actions
    implement the `Actions` trait; an impl checked by Verus may keep a record
    of its calls, and for such impls `Machine::step` states which actions
    were called, with which event, and what they emitted. `drain_step`,
    `dispatch_begin`, `settle_step` and `drain_decision` make the decisions
    of a driver loop. A step can also be driven in parts (`begin_step`,
    `advance`, `open_sink`/`close_action` around each action, `end_step`), so
    that a driver can await asynchronous actions; `step` is itself that
    sequence of parts, so its contract covers them.
  - `messages.rs`: the text of every front-end error.
  - `laws.rs`: properties that span several definitions (up-transitions enter
    nothing, self-transitions, termination, bubbling to the innermost handler,
    timers before events, actions before transitions, timers only for active
    states, interning, well-indexed lowering).
- `tests/` — scenario tests: the grammar, lowering and validation, and the
  machine's behaviour and journal.
- `app/` — the `statechart!` front end: token conversion, error messages and
  code generation with `syn` and `quote`.
