use core::time::Duration;
use hsmc::chart::Chart;
use hsmc::error::HsmcError;
use hsmc::hash::compute_chart_hash;
use hsmc::intern::{IrError, VariantKind, variant_kind_name};
use hsmc::ir::{build_ir, collect_state_names, resolve_transitions, HandlerKindIr, Ir, TriggerIr};
use hsmc::journal::{ActionKind, TraceEvent, TransitionReason};
use hsmc::machine::{Actions, EmitSink, Machine};
use hsmc::parse_tree::{
    During, EventPayload, Handler, HandlerKind, PayloadField, PayloadKind, StateBody, StateDecl, StatechartInput,
    Trigger,
};
use hsmc::render::{emit_state_chart_string, is_drawable};
use hsmc::tables::{
    active_durings_per_leaf, embassy_select_for_arity, state_defs, terminate_event_id, timer_repeat_flags,
};
use hsmc::validate::{indices_ok, validate, validate_parse_tree, ValidationError};

fn s(x: &str) -> String {
    x.to_string()
}

fn body() -> StateBody {
    StateBody {
        context_ty: None,
        event_ty: None,
        terminate: None,
        default_child: None,
        default_count: 0,
        terminate_count: 0,
        entries: vec![],
        exits: vec![],
        handlers: vec![],
        children: vec![],
        durings: vec![],
    }
}

fn with_actions(entry: &str, exit: &str) -> StateBody {
    let mut b = body();
    b.entries.push(s(entry));
    b.exits.push(s(exit));
    b
}

fn set_default(b: &mut StateBody, target: &str) {
    b.default_child = Some(s(target));
    b.default_count += 1;
}

fn on(ev: &str, target: &str, idx: usize) -> Handler {
    Handler {
        trigger: Trigger::Event { variant: s(ev), payload: None },
        kind: HandlerKind::Target(s(target)),
        decl_index: idx,
    }
}

fn on_timer(key: &str, repeat: bool, target: &str, idx: usize) -> Handler {
    Handler {
        trigger: Trigger::Duration { expr: s(key), key: s(key), repeat },
        kind: HandlerKind::Target(s(target)),
        decl_index: idx,
    }
}

fn state(name: &str, b: StateBody) -> StateDecl {
    StateDecl { name: s(name), body: b }
}

fn root(name: &str, mut b: StateBody, terminate: Option<&str>) -> StatechartInput {
    b.context_ty = Some(s("Ctx"));
    b.event_ty = Some(s("Ev"));
    if let Some(t) = terminate {
        b.terminate = Some(s(t));
        b.terminate_count = 1;
    }
    StatechartInput { name: s(name), body: b }
}

fn lower(input: StatechartInput) -> Ir {
    validate_parse_tree(&input).unwrap();
    let mut ir = build_ir(input).unwrap();
    resolve_transitions(&mut ir).unwrap();
    validate(&ir).unwrap();
    ir
}

fn chart_of(ir: &Ir, durations: Vec<Duration>) -> Chart {
    let states = state_defs(ir);
    let repeats = timer_repeat_flags(ir);
    Chart::new(states, durations, repeats, terminate_event_id(ir), compute_chart_hash(ir)).unwrap()
}

#[derive(Default)]
struct Rec {
    calls: Vec<(u16, Option<u32>)>,
    emit_on: Vec<(u16, u16, u32)>,
}

impl Actions<u32> for Rec {
    fn run_action(&mut self, action: u16, event: Option<&u32>, sink: &mut EmitSink<u32>) {
        self.calls.push((action, event.copied()));
        for (a, id, ev) in self.emit_on.clone() {
            if a == action {
                let _ = sink.emit(id, ev);
            }
        }
    }
}

// Chart: root { default(Parent); terminate(Halt);
//   Parent { p_in/p_out; default(A);
//     A { a_in/a_out; on(GoB) => B; on(GoC) => C; on(GoD) => D; on(GoE) => E; }
//     B { b_in/b_out; on(GoC) => C; } }
//   C { c_in/c_out; }
//   D { d_in/d_out; default(E); E { e_in/e_out; } } }
fn lateral_input() -> StatechartInput {
    let mut a = with_actions("a_in", "a_out");
    a.handlers = vec![on("GoB", "B", 0), on("GoC", "C", 1), on("GoD", "D", 2), on("GoE", "E", 3)];
    let mut b = with_actions("b_in", "b_out");
    b.handlers = vec![on("GoC", "C", 0)];
    let mut parent = with_actions("p_in", "p_out");
    set_default(&mut parent, "A");
    parent.children = vec![state("A", a), state("B", b)];
    let c = with_actions("c_in", "c_out");
    let e = with_actions("e_in", "e_out");
    let mut d = with_actions("d_in", "d_out");
    set_default(&mut d, "E");
    d.children = vec![state("E", e)];
    let mut r = body();
    set_default(&mut r, "Parent");
    r.children = vec![state("Parent", parent), state("C", c), state("D", d)];
    root("Lat", r, Some("Halt"))
}

const SR: u16 = 0;
const SP: u16 = 1;
const SA: u16 = 2;
const SB: u16 = 3;
const SC: u16 = 4;
const SD: u16 = 5;
const SE: u16 = 6;

fn entry(state: u16, action: u16) -> TraceEvent {
    TraceEvent::ActionInvoked { state, action, kind: ActionKind::Entry }
}

fn exit_(state: u16, action: u16) -> TraceEvent {
    TraceEvent::ActionInvoked { state, action, kind: ActionKind::Exit }
}

fn initial_descent(hash: u64) -> Vec<TraceEvent> {
    vec![
        TraceEvent::Started { chart_hash: hash },
        TraceEvent::EnterBegan { state: SR },
        TraceEvent::Entered { state: SR },
        TraceEvent::TransitionFired { from: Some(SR), to: SP, reason: TransitionReason::Internal },
        TraceEvent::EnterBegan { state: SP },
        entry(SP, 0),
        TraceEvent::Entered { state: SP },
        TraceEvent::TransitionComplete { from: Some(SR), to: SP },
        TraceEvent::TransitionFired { from: Some(SP), to: SA, reason: TransitionReason::Internal },
        TraceEvent::EnterBegan { state: SA },
        entry(SA, 2),
        TraceEvent::Entered { state: SA },
        TraceEvent::TransitionComplete { from: Some(SP), to: SA },
    ]
}

fn assert_journal(actual: &[TraceEvent], expected: &[TraceEvent]) {
    if let Some(i) = actual.iter().zip(expected.iter()).position(|(a, e)| a != e) {
        panic!("journal mismatch at {}: actual {:?}, expected {:?}", i, actual[i], expected[i]);
    }
    assert_eq!(actual.len(), expected.len(), "journal length mismatch: {:?}", actual);
}

fn lateral_machine() -> (Machine<u32, 8, 8>, u64) {
    let ir = lower(lateral_input());
    let hash = compute_chart_hash(&ir);
    (Machine::new(chart_of(&ir, vec![])), hash)
}

#[test]
fn lowering_numbers_states_actions_and_events_in_first_seen_order() {
    let ir = lower(lateral_input());
    let names: Vec<&str> = ir.states.iter().map(|s| s.name.as_str()).collect();
    assert_eq!(names, vec!["__Root", "Parent", "A", "B", "C", "D", "E"]);
    let parents: Vec<Option<u16>> = ir.states.iter().map(|s| s.parent).collect();
    assert_eq!(parents, vec![None, Some(0), Some(1), Some(1), Some(0), Some(0), Some(5)]);
    let depths: Vec<u8> = ir.states.iter().map(|s| s.depth).collect();
    assert_eq!(depths, vec![0, 1, 2, 2, 1, 1, 2]);
    let actions: Vec<&str> = ir.actions.iter().map(|a| a.name.as_str()).collect();
    assert_eq!(
        actions,
        vec!["p_in", "p_out", "a_in", "a_out", "b_in", "b_out", "c_in", "c_out", "d_in", "d_out", "e_in", "e_out"]
    );
    let events: Vec<&str> = ir.event_variants.iter().map(|e| e.name.as_str()).collect();
    assert_eq!(events, vec!["GoB", "GoC", "GoD", "GoE", "Halt"]);
    assert_eq!(terminate_event_id(&ir), Some(4));
    assert_eq!(ir.states[0].children, vec![1, 4, 5]);
    assert_eq!(ir.states[1].children, vec![2, 3]);
    assert_eq!(ir.states[0].default_child, Some(1));
    assert_eq!(ir.states[5].default_child, Some(6));
    match &ir.states[2].handlers[2].kind {
        HandlerKindIr::Transition(t, slot) => {
            assert_eq!(t, "D");
            assert_eq!(*slot, Some(5));
        },
        _ => panic!("expected a transition"),
    }
}

#[test]
fn det_lateral_a_to_b_lca_is_parent() {
    let (mut m, hash) = lateral_machine();
    let mut rec = Rec::default();
    m.step(&mut rec, Duration::ZERO);
    m.send(0, 0).unwrap();
    m.step(&mut rec, Duration::ZERO);
    let mut expected = initial_descent(hash);
    expected.extend(vec![
        TraceEvent::EventReceived { event: 0 },
        TraceEvent::EventDelivered { handler_state: SA, event: 0 },
        TraceEvent::TransitionFired { from: Some(SA), to: SB, reason: TransitionReason::Event { event: 0 } },
        TraceEvent::ExitBegan { state: SA },
        exit_(SA, 3),
        TraceEvent::Exited { state: SA },
        TraceEvent::EnterBegan { state: SB },
        entry(SB, 4),
        TraceEvent::Entered { state: SB },
        TraceEvent::TransitionComplete { from: Some(SA), to: SB },
    ]);
    assert_journal(&m.take_journal(), &expected);
    assert_eq!(m.current_state(), Some(SB));
}

#[test]
fn det_lateral_a_to_c_exits_parent() {
    let (mut m, hash) = lateral_machine();
    let mut rec = Rec::default();
    m.step(&mut rec, Duration::ZERO);
    m.send(1, 0).unwrap();
    m.step(&mut rec, Duration::ZERO);
    let mut expected = initial_descent(hash);
    expected.extend(vec![
        TraceEvent::EventReceived { event: 1 },
        TraceEvent::EventDelivered { handler_state: SA, event: 1 },
        TraceEvent::TransitionFired { from: Some(SA), to: SC, reason: TransitionReason::Event { event: 1 } },
        TraceEvent::ExitBegan { state: SA },
        exit_(SA, 3),
        TraceEvent::Exited { state: SA },
        TraceEvent::ExitBegan { state: SP },
        exit_(SP, 1),
        TraceEvent::Exited { state: SP },
        TraceEvent::EnterBegan { state: SC },
        entry(SC, 6),
        TraceEvent::Entered { state: SC },
        TraceEvent::TransitionComplete { from: Some(SA), to: SC },
    ]);
    assert_journal(&m.take_journal(), &expected);
}

#[test]
fn det_lateral_target_with_children_default_descends() {
    let (mut m, hash) = lateral_machine();
    let mut rec = Rec::default();
    m.step(&mut rec, Duration::ZERO);
    m.send(2, 0).unwrap();
    m.step(&mut rec, Duration::ZERO);
    let mut expected = initial_descent(hash);
    expected.extend(vec![
        TraceEvent::EventReceived { event: 2 },
        TraceEvent::EventDelivered { handler_state: SA, event: 2 },
        TraceEvent::TransitionFired { from: Some(SA), to: SD, reason: TransitionReason::Event { event: 2 } },
        TraceEvent::ExitBegan { state: SA },
        exit_(SA, 3),
        TraceEvent::Exited { state: SA },
        TraceEvent::ExitBegan { state: SP },
        exit_(SP, 1),
        TraceEvent::Exited { state: SP },
        TraceEvent::EnterBegan { state: SD },
        entry(SD, 8),
        TraceEvent::Entered { state: SD },
        TraceEvent::TransitionFired { from: Some(SD), to: SE, reason: TransitionReason::Internal },
        TraceEvent::EnterBegan { state: SE },
        entry(SE, 10),
        TraceEvent::Entered { state: SE },
        TraceEvent::TransitionComplete { from: Some(SD), to: SE },
        TraceEvent::TransitionComplete { from: Some(SA), to: SD },
    ]);
    assert_journal(&m.take_journal(), &expected);
    assert_eq!(m.current_state(), Some(SE));
}

#[test]
fn terminate_exits_innermost_first_and_refuses_later_events() {
    let (mut m, _hash) = lateral_machine();
    let mut rec = Rec::default();
    m.step(&mut rec, Duration::ZERO);
    m.take_journal();
    m.send(4, 0).unwrap();
    assert_eq!(m.step(&mut rec, Duration::ZERO), None);
    let expected = vec![
        TraceEvent::EventReceived { event: 4 },
        TraceEvent::TerminateRequested { event: 4 },
        TraceEvent::ExitBegan { state: SA },
        exit_(SA, 3),
        TraceEvent::Exited { state: SA },
        TraceEvent::ExitBegan { state: SP },
        exit_(SP, 1),
        TraceEvent::Exited { state: SP },
        TraceEvent::ExitBegan { state: SR },
        TraceEvent::Exited { state: SR },
        TraceEvent::Terminated,
    ];
    assert_journal(&m.take_journal(), &expected);
    assert!(m.is_terminated());
    assert_eq!(m.current_state(), None);
    assert_eq!(m.send(0, 0), Err(HsmcError::AlreadyTerminated));
}

// Chart "Sub": root r_in/r_out, default(A), terminate(Halt);
//   A { a_in/a_out; default(B); B { b_in/b_out; on(UpToRoot) => Sub; } }
fn root_target_input() -> StatechartInput {
    let mut b = with_actions("b_in", "b_out");
    b.handlers = vec![on("UpToRoot", "Sub", 0)];
    let mut a = with_actions("a_in", "a_out");
    set_default(&mut a, "B");
    a.children = vec![state("B", b)];
    let mut r = with_actions("r_in", "r_out");
    set_default(&mut r, "A");
    r.children = vec![state("A", a)];
    root("Sub", r, Some("Halt"))
}

#[test]
fn det_root_targetable_by_chart_name() {
    let ir = lower(root_target_input());
    let hash = compute_chart_hash(&ir);
    let mut m: Machine<u32, 8, 8> = Machine::new(chart_of(&ir, vec![]));
    let mut rec = Rec::default();
    m.step(&mut rec, Duration::ZERO);
    m.take_journal();
    m.send(0, 0).unwrap();
    m.step(&mut rec, Duration::ZERO);
    let expected = vec![
        TraceEvent::EventReceived { event: 0 },
        TraceEvent::EventDelivered { handler_state: 2, event: 0 },
        TraceEvent::TransitionFired { from: Some(2), to: 0, reason: TransitionReason::Event { event: 0 } },
        TraceEvent::ExitBegan { state: 2 },
        exit_(2, 5),
        TraceEvent::Exited { state: 2 },
        TraceEvent::ExitBegan { state: 1 },
        exit_(1, 3),
        TraceEvent::Exited { state: 1 },
        TraceEvent::TransitionComplete { from: Some(2), to: 0 },
    ];
    assert_journal(&m.take_journal(), &expected);
    assert_eq!(m.current_state(), Some(0));
    assert_eq!(m.chart_hash(), hash);
}

#[test]
fn self_transition_reenters_only_the_target() {
    // root default(Mid); Mid { m_in/m_out; default(Leaf); Leaf { l_in/l_out; on(Again) => Leaf; } }
    let mut leaf = with_actions("l_in", "l_out");
    leaf.handlers = vec![on("Again", "Leaf", 0)];
    let mut mid = with_actions("m_in", "m_out");
    set_default(&mut mid, "Leaf");
    mid.children = vec![state("Leaf", leaf)];
    let mut r = body();
    set_default(&mut r, "Mid");
    r.children = vec![state("Mid", mid)];
    let ir = lower(root("Self_", r, None));
    let mut m: Machine<u32, 8, 8> = Machine::new(chart_of(&ir, vec![]));
    let mut rec = Rec::default();
    m.step(&mut rec, Duration::ZERO);
    m.take_journal();
    m.send(0, 0).unwrap();
    m.step(&mut rec, Duration::ZERO);
    let expected = vec![
        TraceEvent::EventReceived { event: 0 },
        TraceEvent::EventDelivered { handler_state: 2, event: 0 },
        TraceEvent::TransitionFired { from: Some(2), to: 2, reason: TransitionReason::Event { event: 0 } },
        TraceEvent::ExitBegan { state: 2 },
        exit_(2, 3),
        TraceEvent::Exited { state: 2 },
        TraceEvent::EnterBegan { state: 2 },
        entry(2, 2),
        TraceEvent::Entered { state: 2 },
        TraceEvent::TransitionComplete { from: Some(2), to: 2 },
    ];
    assert_journal(&m.take_journal(), &expected);
}

#[test]
fn sibling_default_exits_declarer_and_lands_at_target() {
    let foyer = {
        let mut b = with_actions("foyer_in", "foyer_out");
        set_default(&mut b, "LivingRoom");
        b
    };
    let living = with_actions("living_in", "living_out");
    let mut r = body();
    set_default(&mut r, "Foyer");
    r.children = vec![state("Foyer", foyer), state("LivingRoom", living)];
    let ir = lower(root("SiblingDefault", r, Some("Halt")));
    let mut m: Machine<u32, 8, 8> = Machine::new(chart_of(&ir, vec![]));
    let mut rec = Rec::default();
    m.step(&mut rec, Duration::ZERO);
    assert_eq!(m.current_state(), Some(2));
    let j = m.take_journal();
    let entered: Vec<u16> = j
        .iter()
        .filter_map(|e| match e {
            TraceEvent::Entered { state } => Some(*state),
            _ => None,
        })
        .collect();
    let exited: Vec<u16> = j
        .iter()
        .filter_map(|e| match e {
            TraceEvent::Exited { state } => Some(*state),
            _ => None,
        })
        .collect();
    assert_eq!(entered, vec![0, 1, 2]);
    assert_eq!(exited, vec![1]);
}

#[test]
fn actions_run_before_transition_and_emit_is_queued() {
    // root default(Red); Red { on(Go) => log_go; on(Go) => Green; } Green { entry: green_on; }
    let mut red = body();
    red.handlers = vec![on("Go", "log_go", 0), on("Go", "Green", 1)];
    let mut green = body();
    green.entries.push(s("green_on"));
    green.handlers = vec![on("Ping", "pong", 0)];
    let mut r = body();
    set_default(&mut r, "Red");
    r.children = vec![state("Red", red), state("Green", green)];
    let ir = lower(root("Light", r, None));
    assert_eq!(ir.actions.iter().map(|a| a.name.as_str()).collect::<Vec<_>>(), vec!["log_go", "green_on", "pong"]);
    let mut m: Machine<u32, 8, 8> = Machine::new(chart_of(&ir, vec![]));
    let mut rec = Rec::default();
    rec.emit_on.push((0, 1, 77));
    m.step(&mut rec, Duration::ZERO);
    m.send(0, 5).unwrap();
    m.step(&mut rec, Duration::ZERO);
    assert_eq!(rec.calls, vec![(0, Some(5)), (1, None)]);
    assert!(m.has_pending_events());
    m.step(&mut rec, Duration::ZERO);
    assert_eq!(rec.calls, vec![(0, Some(5)), (1, None), (2, Some(77))]);
}

#[test]
fn timer_transition_fires_after_its_duration() {
    // root default(A); A { on(after 1s) => B; } B { entry: b_in; }
    let mut a = body();
    a.handlers = vec![on_timer("Duration::from_secs(1)", false, "B", 0)];
    let mut b = body();
    b.entries.push(s("b_in"));
    let mut r = body();
    set_default(&mut r, "A");
    r.children = vec![state("A", a), state("B", b)];
    let ir = lower(root("Tm", r, None));
    assert_eq!(ir.duration_triggers.len(), 1);
    assert_eq!(ir.duration_triggers[0].key, "Duration::from_secs(1):false");
    assert_eq!(ir.states[1].owned_timers, vec![0]);
    let mut m: Machine<u32, 8, 8> = Machine::new(chart_of(&ir, vec![Duration::from_secs(1)]));
    let mut rec = Rec::default();
    assert_eq!(m.step(&mut rec, Duration::ZERO), Some(Duration::from_secs(1)));
    assert_eq!(m.step(&mut rec, Duration::from_millis(400)), Some(Duration::from_millis(600)));
    assert_eq!(m.current_state(), Some(1));
    m.step(&mut rec, Duration::from_millis(600));
    assert_eq!(m.current_state(), Some(2));
    assert_eq!(rec.calls, vec![(0, None)]);
}

#[test]
fn resolve_transitions_rejects_unknown_target() {
    let mut a = body();
    a.handlers = vec![on("Go", "Nowhere", 0)];
    let mut r = body();
    r.children = vec![state("A", a)];
    // "Nowhere" names no state, so it is taken as an action; make it a
    // transition by naming a state that is then renamed.
    let mut ir = build_ir(root("X", r, None)).unwrap();
    match &ir.states[1].handlers[0].kind {
        HandlerKindIr::Action(id, name) => {
            assert_eq!(*id, 0);
            assert_eq!(name, "Nowhere");
        },
        _ => panic!("expected an action"),
    }
    ir.states[1].handlers[0].kind = HandlerKindIr::Transition(s("Nowhere"), None);
    match resolve_transitions(&mut ir) {
        Err(IrError::UnknownState { target }) => assert_eq!(target, "Nowhere"),
        _ => panic!("expected UnknownState"),
    }
    assert!(matches!(ir.states[1].handlers[0].kind, HandlerKindIr::Transition(_, None)));
}

#[test]
fn build_ir_errors() {
    let mut b = body();
    b.context_ty = None;
    let input = StatechartInput { name: s("X"), body: b };
    assert!(matches!(build_ir(input), Err(IrError::MissingContext)));

    // every-timer transition
    let mut a = body();
    a.handlers = vec![on_timer("T", true, "B", 0)];
    let mut r = body();
    r.children = vec![state("A", a), state("B", with_actions("x", "y"))];
    assert!(matches!(build_ir(root("X", r, None)), Err(IrError::EveryTimerTransition { target }) if target == "B"));

    // payload on a transition
    let mut a = body();
    a.handlers = vec![Handler {
        trigger: Trigger::Event {
            variant: s("Set"),
            payload: Some(EventPayload {
                kind: PayloadKind::Tuple,
                fields: vec![PayloadField { name: s("v"), ty: s("u8") }],
            }),
        },
        kind: HandlerKind::Target(s("B")),
        decl_index: 0,
    }];
    let mut r = body();
    r.children = vec![state("A", a), state("B", with_actions("x", "y"))];
    assert!(matches!(build_ir(root("X", r, None)), Err(IrError::PayloadOnTransition { variant }) if variant == "Set"));

    // action used with and without bindings
    let typed = Handler {
        trigger: Trigger::Event {
            variant: s("Set"),
            payload: Some(EventPayload {
                kind: PayloadKind::Struct,
                fields: vec![PayloadField { name: s("v"), ty: s("u8") }],
            }),
        },
        kind: HandlerKind::Target(s("apply")),
        decl_index: 1,
    };
    let mut a = body();
    a.entries.push(s("apply"));
    a.handlers = vec![typed];
    let mut r = body();
    r.children = vec![state("A", a)];
    assert!(matches!(build_ir(root("X", r, None)), Err(IrError::ActionHasNoBindings { action }) if action == "apply"));
}

#[test]
fn event_payload_shapes_are_recorded_and_checked() {
    let typed = |kind: PayloadKind, n: usize, target: &str, idx: usize| Handler {
        trigger: Trigger::Event {
            variant: s("Set"),
            payload: Some(EventPayload {
                kind,
                fields: (0..n).map(|i| PayloadField { name: format!("f{}", i), ty: s("u8") }).collect(),
            }),
        },
        kind: HandlerKind::Target(s(target)),
        decl_index: idx,
    };
    let mut a = body();
    a.handlers = vec![on("Set", "noop", 0), typed(PayloadKind::Tuple, 2, "apply", 1)];
    let mut r = body();
    r.children = vec![state("A", a)];
    let ir = build_ir(root("X", r, None)).unwrap();
    assert_eq!(ir.event_variants[0].kind, VariantKind::Tuple);
    assert_eq!(ir.event_variants[0].field_count, Some(2));
    assert_eq!(ir.actions[1].bound_variants.len(), 1);
    assert_eq!(variant_kind_name(VariantKind::Tuple), "tuple");

    let mut a = body();
    a.handlers = vec![typed(PayloadKind::Tuple, 2, "apply", 0), typed(PayloadKind::Struct, 2, "apply2", 1)];
    let mut r = body();
    r.children = vec![state("A", a)];
    assert!(matches!(
        build_ir(root("X", r, None)),
        Err(IrError::EventKindMismatch { first: VariantKind::Tuple, second: VariantKind::Struct, .. })
    ));

    let mut a = body();
    a.handlers = vec![typed(PayloadKind::Tuple, 2, "apply", 0), typed(PayloadKind::Tuple, 3, "apply2", 1)];
    let mut r = body();
    r.children = vec![state("A", a)];
    assert!(matches!(
        build_ir(root("X", r, None)),
        Err(IrError::EventFieldCountMismatch { first: 2, second: 3, .. })
    ));

    let mut a = body();
    a.handlers = vec![typed(PayloadKind::Tuple, 2, "apply", 0), typed(PayloadKind::Tuple, 1, "apply", 1)];
    let mut r = body();
    r.children = vec![state("A", a)];
    assert!(matches!(build_ir(root("X", r, None)), Err(IrError::EventFieldCountMismatch { .. })));
}

#[test]
fn parse_tree_rules() {
    let mut r = body();
    r.default_count = 2;
    r.default_child = Some(s("A"));
    r.children = vec![state("A", with_actions("x", "y"))];
    assert!(matches!(validate_parse_tree(&root("X", r, None)), Err(ValidationError::MultipleDefault { state }) if state == "X"));

    let mut inner = with_actions("x", "y");
    inner.terminate = Some(s("Halt"));
    inner.terminate_count = 1;
    let mut r = body();
    r.children = vec![state("A", inner)];
    assert!(matches!(validate_parse_tree(&root("X", r, None)), Err(ValidationError::TerminateNotAtRoot)));

    let mut input = root("X", body(), Some("Halt"));
    input.body.terminate_count = 2;
    assert!(matches!(validate_parse_tree(&input), Err(ValidationError::MultipleTerminate)));
}

#[test]
fn validation_rules() {
    // default cycle: A default(B), B default(A)
    let mut a = with_actions("a1", "a2");
    set_default(&mut a, "B");
    let mut b = with_actions("b1", "b2");
    set_default(&mut b, "A");
    let mut r = body();
    r.children = vec![state("A", a), state("B", b)];
    let mut ir = build_ir(root("X", r, None)).unwrap();
    resolve_transitions(&mut ir).unwrap();
    match validate(&ir) {
        Err(ValidationError::DefaultCycle { cycle }) => {
            assert_eq!(cycle.len(), 2);
            assert!(cycle.contains(&s("A")) && cycle.contains(&s("B")));
        },
        _ => panic!("expected a default cycle"),
    }

    // duplicate state names
    let mut r = body();
    r.children = vec![state("A", with_actions("a", "b")), state("A", with_actions("c", "d"))];
    let mut ir = build_ir(root("X", r, None)).unwrap();
    resolve_transitions(&mut ir).unwrap();
    assert!(matches!(validate(&ir), Err(ValidationError::DuplicateState { name }) if name == "A"));

    // empty state
    let mut r = body();
    r.children = vec![state("Empty", body())];
    let mut ir = build_ir(root("X", r, None)).unwrap();
    resolve_transitions(&mut ir).unwrap();
    assert!(matches!(validate(&ir), Err(ValidationError::EmptyState { name }) if name == "Empty"));

    // duplicate transition on one trigger
    let mut a = body();
    a.handlers = vec![on("Go", "B", 0), on("Go", "B", 1)];
    let mut r = body();
    r.children = vec![state("A", a), state("B", with_actions("x", "y"))];
    let mut ir = build_ir(root("X", r, None)).unwrap();
    resolve_transitions(&mut ir).unwrap();
    assert!(matches!(validate(&ir), Err(ValidationError::DuplicateTransition { trigger, state }) if trigger == "Go" && state == "A"));

    // action after the transition on the same trigger
    let mut a = body();
    a.handlers = vec![on("Go", "B", 0), on("Go", "log", 1)];
    let mut r = body();
    r.children = vec![state("A", a), state("B", with_actions("x", "y"))];
    let mut ir = build_ir(root("X", r, None)).unwrap();
    resolve_transitions(&mut ir).unwrap();
    assert!(matches!(validate(&ir), Err(ValidationError::ActionAfterTransition { trigger }) if trigger == "Go"));

    // transition declared before an action with a later index
    let mut a = body();
    a.handlers = vec![on("Go", "log", 5), on("Go", "B", 1)];
    let mut r = body();
    r.children = vec![state("A", a), state("B", with_actions("x", "y"))];
    let mut ir = build_ir(root("X", r, None)).unwrap();
    resolve_transitions(&mut ir).unwrap();
    assert!(matches!(validate(&ir), Err(ValidationError::TransitionBeforeAction { target, trigger }) if target == "B" && trigger == "Go"));

    // durings: a field twice, a field shared
    let mut a = body();
    a.durings = vec![During { fn_name: s("blink"), fields: vec![s("led"), s("led")] }];
    let mut r = body();
    r.children = vec![state("A", a)];
    let mut ir = build_ir(root("X", r, None)).unwrap();
    resolve_transitions(&mut ir).unwrap();
    assert!(matches!(validate(&ir), Err(ValidationError::DuringFieldTwice { field, during }) if field == "led" && during == "blink"));

    let mut a = body();
    a.durings = vec![
        During { fn_name: s("blink"), fields: vec![s("led")] },
        During { fn_name: s("fade"), fields: vec![s("pwm"), s("led")] },
    ];
    let mut r = body();
    r.children = vec![state("A", a)];
    let mut ir = build_ir(root("X", r, None)).unwrap();
    resolve_transitions(&mut ir).unwrap();
    match validate(&ir) {
        Err(ValidationError::DuringFieldShared { field, state, first, second }) => {
            assert_eq!((field.as_str(), state.as_str(), first.as_str(), second.as_str()), ("led", "A", "blink", "fade"));
        },
        _ => panic!("expected a shared field"),
    }
}

#[test]
fn chart_hash_changes_with_structure() {
    let h1 = compute_chart_hash(&lower(lateral_input()));
    let h2 = compute_chart_hash(&lower(lateral_input()));
    assert_eq!(h1, h2);
    let mut other = lateral_input();
    other.name = s("Lat2");
    let h3 = compute_chart_hash(&lower(other));
    assert_ne!(h1, h3);
}

#[test]
fn chart_hash_of_minimal_chart() {
    // name "A", one root state with nothing: compare with a direct FNV-1a
    // computation of the same byte stream.
    let mut r = body();
    r.context_ty = Some(s("C"));
    let ir = build_ir(StatechartInput { name: s("A"), body: r }).unwrap();
    let mut chunks: Vec<Vec<u8>> = vec![b"A".to_vec()];
    chunks.push(vec![0, 0]);
    chunks.push(b"__Root".to_vec());
    chunks.push(vec![0xff, 0xff]);
    chunks.push(vec![0]);
    chunks.push(vec![0xff, 0xff]);
    chunks.push(vec![0xee]);
    chunks.push(vec![0xff]);
    chunks.push(vec![0xfe]);
    chunks.push(vec![0xfd]);
    chunks.push(vec![0, 0]);
    chunks.push(vec![0xfc]);
    chunks.push(vec![0xfb]);
    let mut h: u64 = 0xcbf2_9ce4_8422_2325;
    for c in chunks {
        for b in c {
            h ^= b as u64;
            h = h.wrapping_mul(0x0000_0100_0000_01b3);
        }
        h ^= 0xff;
        h = h.wrapping_mul(0x0000_0100_0000_01b3);
    }
    assert_eq!(compute_chart_hash(&ir), h);
}

#[test]
fn state_chart_string_draws_the_tree() {
    let ir = lower(lateral_input());
    let text = emit_state_chart_string(&ir);
    let expected: String = [
        "Lat\n",
        "├── [default] Parent\n",
        "│   • entry: p_in\n",
        "│   • exit: p_out\n",
        "│   ├── [default] A\n",
        "│   │   • entry: a_in\n",
        "│   │   • exit: a_out\n",
        "│   │   • on(GoB) → B\n",
        "│   │   • on(GoC) → C\n",
        "│   │   • on(GoD) → D\n",
        "│   │   • on(GoE) → E\n",
        "│   └── B\n",
        "│       • entry: b_in\n",
        "│       • exit: b_out\n",
        "│       • on(GoC) → C\n",
        "├── C\n",
        "│   • entry: c_in\n",
        "│   • exit: c_out\n",
        "└── D\n",
        "    • entry: d_in\n",
        "    • exit: d_out\n",
        "    └── [default] E\n",
        "        • entry: e_in\n",
        "        • exit: e_out\n",
    ]
    .concat();
    assert_eq!(text, expected);
}

#[test]
fn state_chart_string_shows_timers_and_durings() {
    let mut a = body();
    a.handlers = vec![on_timer("Duration::from_millis(5)", true, "tick", 0)];
    a.durings = vec![During { fn_name: s("blink"), fields: vec![s("led"), s("pwm")] }];
    let mut r = body();
    r.children = vec![state("A", a)];
    let ir = lower(root("T", r, None));
    assert_eq!(
        emit_state_chart_string(&ir),
        "T\n└── A\n    • during: blink(led, pwm)\n    • on(every Duration) ⇒ tick\n"
    );
}

#[test]
fn durings_per_leaf_are_leaf_first() {
    let mut leaf = body();
    leaf.durings = vec![During { fn_name: s("inner"), fields: vec![s("a")] }];
    let mut mid = body();
    mid.durings = vec![During { fn_name: s("outer"), fields: vec![s("b")] }];
    mid.children = vec![state("Leaf", leaf), state("Other", with_actions("x", "y"))];
    let mut r = body();
    r.children = vec![state("Mid", mid)];
    let ir = lower(root("D", r, None));
    let per_leaf = active_durings_per_leaf(&ir);
    assert_eq!(per_leaf.len(), 2);
    assert_eq!(per_leaf[0].0, 2);
    let names: Vec<&str> = per_leaf[0].1.iter().map(|d| d.fn_name.as_str()).collect();
    assert_eq!(names, vec!["inner", "outer"]);
    assert_eq!(per_leaf[1].0, 3);
    assert_eq!(per_leaf[1].1.len(), 1);
}

#[test]
fn select_for_arity() {
    let (f, vs) = embassy_select_for_arity(3);
    assert_eq!(f, "select3");
    assert_eq!(vs, vec![s("First"), s("Second"), s("Third")]);
    let (f, vs) = embassy_select_for_arity(2);
    assert_eq!(f, "select");
    assert_eq!(vs.len(), 2);
}

#[test]
fn collect_state_names_is_preorder() {
    let input = lateral_input();
    let mut out = Vec::new();
    collect_state_names(&input.body, &mut out);
    assert_eq!(out, vec![s("Parent"), s("A"), s("B"), s("C"), s("D"), s("E")]);
}

#[test]
fn handler_groups_gather_actions_then_target() {
    let mut red = body();
    red.handlers = vec![on("Go", "log_go", 0), on("Go", "prepare", 1), on("Go", "Green", 2)];
    let mut r = body();
    set_default(&mut r, "Red");
    r.children = vec![state("Red", red), state("Green", with_actions("g", "h"))];
    let ir = lower(root("L", r, None));
    let defs = state_defs(&ir);
    assert_eq!(defs[1].groups.len(), 1);
    assert_eq!(defs[1].groups[0].actions, vec![0, 1]);
    assert_eq!(defs[1].groups[0].target, Some(2));
    assert_eq!(defs[1].groups[0].trigger_kind, 0);
    assert!(matches!(ir.states[1].handlers[0].trigger, TriggerIr::Event(0, _, None)));
}

#[test]
fn lowered_chart_ids_stay_in_their_tables() {
    let ir = lower(lateral_input());
    assert!(indices_ok(&ir));
    assert!(is_drawable(&ir));

    let mut bad_default = lower(lateral_input());
    bad_default.states[1].default_child = Some(99);
    assert!(!indices_ok(&bad_default));
    assert!(is_drawable(&bad_default));

    let mut bad_entry = lower(lateral_input());
    bad_entry.states[1].entries.push(99);
    assert!(indices_ok(&bad_entry));
    assert!(!is_drawable(&bad_entry));

    let mut bad_timer = lower(lateral_input());
    bad_timer.states[1].handlers.push(hsmc::ir::HandlerIr {
        trigger: TriggerIr::Duration(7),
        kind: HandlerKindIr::Action(0, s("a")),
        decl_index: 9,
    });
    assert!(!indices_ok(&bad_timer));
    assert!(!is_drawable(&bad_timer));
}

#[test]
fn validation_reports_the_first_broken_rule() {
    // A default(B), B default(C), C default(B): the walk from A meets the
    // loop at B, listed from B.
    let mut a = with_actions("a1", "a2");
    set_default(&mut a, "B");
    let mut b = with_actions("b1", "b2");
    set_default(&mut b, "C");
    let mut c = with_actions("c1", "c2");
    set_default(&mut c, "B");
    let mut r = body();
    r.children = vec![state("A", a), state("B", b), state("C", c), state("A", body())];
    let mut ir = build_ir(root("X", r, None)).unwrap();
    resolve_transitions(&mut ir).unwrap();
    match validate(&ir) {
        Err(ValidationError::DefaultCycle { cycle }) => assert_eq!(cycle, vec![s("B"), s("C")]),
        other => panic!("expected the default cycle first, got {:?}", other),
    }

    // Two repeated names: the first repetition in state order is reported,
    // before any empty state.
    let mut r = body();
    r.children = vec![
        state("P", with_actions("p1", "p2")),
        state("Q", with_actions("q1", "q2")),
        state("Q", body()),
        state("P", body()),
    ];
    let mut ir = build_ir(root("X", r, None)).unwrap();
    resolve_transitions(&mut ir).unwrap();
    assert!(matches!(validate(&ir), Err(ValidationError::DuplicateState { name }) if name == "Q"));

    // Within states: the first state in order wins; inside a state an empty
    // state comes before durings, durings before handlers.
    let mut a = body();
    a.handlers = vec![on("Go", "B", 0), on("Go", "B", 1)];
    a.durings = vec![During { fn_name: s("spin"), fields: vec![s("m"), s("m")] }];
    let mut r = body();
    r.children = vec![state("A", a), state("B", with_actions("b1", "b2")), state("E", body())];
    let mut ir = build_ir(root("X", r, None)).unwrap();
    resolve_transitions(&mut ir).unwrap();
    assert!(matches!(validate(&ir), Err(ValidationError::DuringFieldTwice { field, during }) if field == "m" && during == "spin"));

    // Handlers in declaration order: the action declared after the `Go`
    // transition is reported before the repeated `Stop` transition.
    let mut a = body();
    a.handlers = vec![on("Go", "B", 0), on("Go", "log", 1), on("Stop", "B", 2), on("Stop", "B", 3)];
    let mut r = body();
    r.children = vec![state("A", a), state("B", with_actions("b1", "b2"))];
    let mut ir = build_ir(root("X", r, None)).unwrap();
    resolve_transitions(&mut ir).unwrap();
    assert!(matches!(validate(&ir), Err(ValidationError::ActionAfterTransition { trigger }) if trigger == "Go"));
}

#[test]
fn chart_hash_changes_with_a_timer_duration() {
    let timed = |expr: &str| {
        let mut a = body();
        a.handlers = vec![on_timer(expr, false, "B", 0)];
        let mut r = body();
        set_default(&mut r, "A");
        r.children = vec![state("A", a), state("B", with_actions("b1", "b2"))];
        lower(root("T", r, None))
    };
    let h5 = compute_chart_hash(&timed("Duration::from_secs(5)"));
    let h6 = compute_chart_hash(&timed("Duration::from_secs(6)"));
    assert_ne!(h5, h6);
    assert_eq!(h5, compute_chart_hash(&timed("Duration::from_secs(5)")));
}
