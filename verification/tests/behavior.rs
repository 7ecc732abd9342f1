//! Machine behaviour, driven from chart text through the library's parser,
//! checks, lowering, tables and machine. Actions log into a context; what an
//! action does besides logging its own name is given per chart.

use core::time::Duration;
use hsmc::chart::Chart;
use hsmc::error::HsmcError;
use hsmc::hash::compute_chart_hash;
use hsmc::ir::{build_ir, resolve_transitions, Ir};
use hsmc::journal::{ActionKind, TraceEvent};
use hsmc::machine::{Actions, EmitSink, Machine, Next};
use hsmc::parse::{parse_statechart, Delim, Tok};
use hsmc::tables::{state_defs, terminate_event_id, timer_repeat_flags, timer_slots};
use hsmc::validate::{validate, validate_parse_tree};
use proc_macro2::{Delimiter, Spacing, TokenStream, TokenTree};

fn conv(ts: TokenStream) -> Vec<Tok> {
    ts.into_iter()
        .map(|tt| match tt {
            TokenTree::Ident(i) => Tok::Ident(i.to_string()),
            TokenTree::Punct(p) => Tok::Punct(p.as_char(), p.spacing() == Spacing::Joint),
            TokenTree::Literal(l) => Tok::Lit(l.to_string()),
            TokenTree::Group(g) => {
                let d = match g.delimiter() {
                    Delimiter::Parenthesis => Delim::Paren,
                    Delimiter::Brace => Delim::Brace,
                    Delimiter::Bracket => Delim::Bracket,
                    Delimiter::None => Delim::Invisible,
                };
                Tok::Group(d, conv(g.stream()))
            },
        })
        .collect()
}

/// The value of a `Duration::from_*(n)` expression as written in a chart.
fn eval_duration(expr: &str) -> Duration {
    let e: String = expr.chars().filter(|c| !c.is_whitespace()).collect();
    let arg = |prefix: &str| -> Option<u64> {
        e.strip_prefix(prefix).and_then(|r| r.strip_suffix(')')).map(|n| n.parse().unwrap())
    };
    if let Some(n) = arg("Duration::from_secs(") {
        Duration::from_secs(n)
    } else if let Some(n) = arg("Duration::from_millis(") {
        Duration::from_millis(n)
    } else {
        panic!("unsupported duration expression {}", expr)
    }
}

/// What an action does.
#[derive(Clone)]
enum Does {
    /// Log this text.
    Log(&'static str),
    /// Nothing.
    Nop,
    /// Log, then emit the event (which must be accepted).
    LogEmit(&'static str, &'static str),
    /// Emit the event (which must be accepted), then log.
    EmitLog(&'static str, &'static str),
    /// Log, then try to emit the event.
    LogTryEmit(&'static str, &'static str),
    /// Emit the event `n` times and log `err=<refused count>`.
    Flood(&'static str, usize),
    /// Try to emit the event and log the result.
    Probe(&'static str),
    /// Log this text with the event the action was handed.
    LogEvent(&'static str),
}

struct Ctx {
    log: Vec<String>,
    actions: Vec<Does>,
    events: Vec<String>,
}

fn event_id(events: &[String], name: &str) -> u16 {
    events.iter().position(|e| e == name).map(|p| p as u16).unwrap_or(u16::MAX)
}

impl Actions<String> for Ctx {
    fn run_action(&mut self, action: u16, event: Option<&String>, sink: &mut EmitSink<String>) {
        let does = self.actions[action as usize].clone();
        let mut emit = |ev: &str| sink.emit(event_id(&self.events, ev), ev.to_string());
        match does {
            Does::Log(t) => self.log.push(t.to_string()),
            Does::Nop => {},
            Does::LogEmit(t, ev) => {
                self.log.push(t.to_string());
                emit(ev).unwrap();
            },
            Does::EmitLog(ev, t) => {
                emit(ev).unwrap();
                self.log.push(t.to_string());
            },
            Does::LogTryEmit(t, ev) => {
                self.log.push(t.to_string());
                let _ = emit(ev);
            },
            Does::Flood(ev, n) => {
                let mut errors = 0;
                for _ in 0..n {
                    if emit(ev).is_err() {
                        errors += 1;
                    }
                }
                self.log.push(format!("err={}", errors));
            },
            Does::Probe(ev) => {
                let r = emit(ev);
                self.log.push(format!("{:?}", r));
            },
            Does::LogEvent(t) => self.log.push(format!("{}:{:?}", t, event)),
        }
    }
}

/// The lowered chart of `src`, its runtime chart and a context whose actions
/// not listed in `does` log their own name.
fn build(src: &str, does: &[(&str, Does)]) -> (Ir, Chart, Ctx) {
    let ts: TokenStream = src.parse().unwrap();
    let input = parse_statechart(&conv(ts)).unwrap();
    validate_parse_tree(&input).unwrap();
    let mut ir = build_ir(input).unwrap();
    resolve_transitions(&mut ir).unwrap();
    validate(&ir).unwrap();
    let durations = ir.duration_triggers.iter().map(|d| eval_duration(&d.expr)).collect();
    let chart = Chart::new(
        state_defs(&ir),
        durations,
        timer_repeat_flags(&ir),
        terminate_event_id(&ir),
        compute_chart_hash(&ir),
    )
    .unwrap();
    let actions = ir
        .actions
        .iter()
        .map(|a| {
            let d = does
                .iter()
                .find(|(n, _)| *n == a.name)
                .map(|(_, d)| d.clone())
                .unwrap_or_else(|| Does::Log(Box::leak(a.name.clone().into_boxed_str())));
            d
        })
        .collect();
    let events = ir.event_variants.iter().map(|e| e.name.clone()).collect();
    (ir, chart, Ctx { log: vec![], actions, events })
}

struct Sm {
    ir: Ir,
    m: Machine<String, 8, 8>,
    ctx: Ctx,
}

impl Sm {
    /// A machine for the chart `src`; actions not listed in `does` log their
    /// own name.
    fn new(src: &str, does: &[(&str, Does)]) -> Sm {
        let (ir, chart, ctx) = build(src, does);
        Sm { ir, m: Machine::new(chart), ctx }
    }

    fn step(&mut self, d: Duration) -> Option<Duration> {
        self.m.step(&mut self.ctx, d)
    }

    fn send(&mut self, ev: &str) -> Result<(), HsmcError> {
        let id = event_id(&self.ctx.events, ev);
        self.m.send(id, ev.to_string())
    }

    fn current_state(&self) -> &str {
        let s = self.m.current_state().expect("an active state");
        &self.ir.states[s as usize].name
    }

    fn logs(&self) -> Vec<&str> {
        self.ctx.log.iter().map(|s| s.as_str()).collect()
    }

    fn clear_log(&mut self) {
        self.ctx.log.clear();
    }

    fn is_terminated(&self) -> bool {
        self.m.is_terminated()
    }

    fn has_pending_events(&self) -> bool {
        self.m.has_pending_events()
    }

    fn into_context(self) -> Vec<String> {
        self.ctx.log
    }

    /// Queue `ev`, start the machine if needed and run until the queue is
    /// empty or the machine terminates.
    fn dispatch(&mut self, ev: &str) -> Result<(), HsmcError> {
        let id = event_id(&self.ctx.events, ev);
        let mut more = self.m.dispatch_begin(&mut self.ctx, id, ev.to_string())?;
        while more {
            more = self.m.drain_step(&mut self.ctx)?;
        }
        Ok(())
    }

    fn journal(&self) -> &[TraceEvent] {
        self.m.journal()
    }

    fn take_journal(&mut self) -> Vec<TraceEvent> {
        self.m.take_journal()
    }
}

#[test]
fn t1_1_initial_entry() {
    let mut m = Sm::new(
        "T11 { context: TestCtx; events: Ev; default(Red); entry: do_post;
           state Red { entry: red_on; exit: red_off; } }",
        &[],
    );
    m.step(Duration::ZERO);
    assert_eq!(m.logs(), ["do_post", "red_on"]);
    assert_eq!(m.current_state(), "Red");
    assert!(!m.is_terminated());
}

#[test]
fn t1_2_nested_default() {
    let mut m = Sm::new(
        "T12 { context: TestCtx; events: Ev; default(A); entry: r_entry;
           state A { entry: a_entry; default(B);
             state B { entry: b_entry; default(C);
               state C { entry: c_entry; } } } }",
        &[],
    );
    m.step(Duration::ZERO);
    assert_eq!(m.logs(), ["r_entry", "a_entry", "b_entry", "c_entry"]);
    assert_eq!(m.current_state(), "C");
}

const T2A: &str = "T2A { context: TestCtx; events: Ev; default(Red);
    state Red { entry: red_on; exit: red_off;
        on(GoGreen) => Green; on(Reset) => Red;
        on(after Duration::from_millis(200)) => Green; }
    state Green { entry: green_on; exit: green_off; } }";

#[test]
fn t2_1_sibling_transition() {
    let mut m = Sm::new(T2A, &[]);
    m.step(Duration::ZERO);
    m.send("GoGreen").unwrap();
    m.step(Duration::ZERO);
    assert_eq!(m.current_state(), "Green");
    let logs = m.logs();
    assert!(logs.contains(&"red_off"));
    assert!(logs.contains(&"green_on"));
}

#[test]
fn t2_6_self_transition() {
    let mut m = Sm::new(T2A, &[]);
    m.step(Duration::ZERO);
    m.clear_log();
    m.step(Duration::from_millis(100));
    assert_eq!(m.current_state(), "Red");
    m.send("Reset").unwrap();
    m.step(Duration::ZERO);
    assert_eq!(m.current_state(), "Red");
    assert_eq!(m.logs(), ["red_off", "red_on"]);
    m.step(Duration::from_millis(150));
    assert_eq!(m.current_state(), "Red");
    m.step(Duration::from_millis(60));
    assert_eq!(m.current_state(), "Green");
}

#[test]
fn t3_3_actions_before_transition() {
    let mut m = Sm::new(
        "T33 { context: TestCtx; events: Ev; default(Red);
           state Red { exit: red_off; on(Go) => log_go; on(Go) => prepare; on(Go) => Green; }
           state Green { entry: green_on; } }",
        &[],
    );
    m.step(Duration::ZERO);
    m.send("Go").unwrap();
    m.step(Duration::ZERO);
    assert_eq!(m.logs(), ["log_go", "prepare", "red_off", "green_on"]);
    assert_eq!(m.current_state(), "Green");
}

#[test]
fn t2_2_timer_transition() {
    let mut m = Sm::new(
        "T22 { context: TestCtx; events: Ev; default(Red);
           state Red { on(after Duration::from_secs(5)) => Green; exit: red_off; }
           state Green { entry: green_on; } }",
        &[],
    );
    m.step(Duration::ZERO);
    assert_eq!(m.current_state(), "Red");
    m.step(Duration::from_secs(4));
    assert_eq!(m.current_state(), "Red");
    m.step(Duration::from_secs(1));
    assert_eq!(m.current_state(), "Green");
}

#[test]
fn t4_2_bubble() {
    let mut m = Sm::new(
        "T42 { context: TestCtx; events: Ev; default(A);
           state A { default(B); exit: a_exit; on(Foo) => D;
             state B { default(C); exit: b_exit;
               state C { exit: c_exit; } } }
           state D { entry: d_entry; } }",
        &[],
    );
    m.step(Duration::ZERO);
    assert_eq!(m.current_state(), "C");
    m.send("Foo").unwrap();
    m.step(Duration::ZERO);
    assert_eq!(m.current_state(), "D");
    assert_eq!(m.logs(), ["c_exit", "b_exit", "a_exit", "d_entry"]);
}

#[test]
fn t6_1_terminate() {
    let mut m = Sm::new(
        "T61 { context: TestCtx; events: Ev; default(A); terminate(Halt); exit: root_exit;
           state A { default(B); exit: a_exit;
             state B { default(C); exit: b_exit;
               state C { exit: c_exit; } } } }",
        &[],
    );
    m.step(Duration::ZERO);
    m.send("Halt").unwrap();
    m.step(Duration::ZERO);
    assert!(m.is_terminated());
    assert_eq!(m.logs(), ["c_exit", "b_exit", "a_exit", "root_exit"]);
    assert!(m.step(Duration::ZERO).is_none());
}

#[test]
fn t7_1_emit() {
    let mut m = Sm::new(
        "T71 { context: TestCtx; events: Ev; default(A);
           state A { on(Foo) => emit_bar; on(Bar) => B; }
           state B { entry: b_entry; } }",
        &[("emit_bar", Does::LogEmit("emit_bar", "Bar"))],
    );
    m.step(Duration::ZERO);
    m.send("Foo").unwrap();
    m.step(Duration::ZERO);
    assert_eq!(m.current_state(), "A");
    m.step(Duration::ZERO);
    assert_eq!(m.current_state(), "B");
    assert_eq!(m.logs(), ["emit_bar", "b_entry"]);
}

#[test]
fn t1_3_not_started() {
    let m = Sm::new(
        "T13 { context: TestCtx; events: Ev; default(Red); entry: r_entry;
           state Red { entry: red_on; } }",
        &[],
    );
    assert!(!m.is_terminated());
    assert!(m.logs().is_empty());
}

#[test]
fn t2_3_timer_cancel_on_exit() {
    let mut m = Sm::new(
        "T23 { context: TestCtx; events: Ev; default(Red);
           state Red { on(after Duration::from_secs(5)) => Green; on(EarlyExit) => Yellow; }
           state Green { entry: green_on; }
           state Yellow { entry: yellow_on; } }",
        &[],
    );
    m.step(Duration::ZERO);
    m.step(Duration::from_secs(3));
    m.send("EarlyExit").unwrap();
    m.step(Duration::ZERO);
    assert_eq!(m.current_state(), "Yellow");
    m.step(Duration::from_secs(5));
    assert_eq!(m.current_state(), "Yellow");
}

#[test]
fn t2_4_cross_hierarchy() {
    let mut m = Sm::new(
        "T24 { context: TestCtx; events: Ev; default(A);
           state A { default(B); exit: a_exit;
             state B { default(C); exit: b_exit;
               state C { exit: c_exit; on(Jump) => D; } } }
           state D { entry: d_entry; } }",
        &[],
    );
    m.step(Duration::ZERO);
    m.send("Jump").unwrap();
    m.step(Duration::ZERO);
    assert_eq!(m.current_state(), "D");
    assert_eq!(m.logs(), ["c_exit", "b_exit", "a_exit", "d_entry"]);
}

#[test]
fn t2_5_descend_to_default() {
    let mut m = Sm::new(
        "T25 { context: TestCtx; events: Ev; default(A);
           state A { on(Go) => B; }
           state B { default(C); entry: b_entry;
             state C { default(D); entry: c_entry;
               state D { entry: d_entry; } } } }",
        &[],
    );
    m.step(Duration::ZERO);
    m.send("Go").unwrap();
    m.step(Duration::ZERO);
    assert_eq!(m.current_state(), "D");
    assert_eq!(m.logs(), ["b_entry", "c_entry", "d_entry"]);
}

#[test]
fn t2_7_child_to_uncle() {
    let mut m = Sm::new(
        "T27 { context: TestCtx; events: Ev; default(A);
           state A { default(B); exit: a_exit;
             state B { exit: b_exit; on(Go) => C; } }
           state C { entry: c_entry; } }",
        &[],
    );
    m.step(Duration::ZERO);
    m.send("Go").unwrap();
    m.step(Duration::ZERO);
    assert_eq!(m.current_state(), "C");
    assert_eq!(m.logs(), ["b_exit", "a_exit", "c_entry"]);
}

#[test]
fn t3_1_t3_2_actions() {
    let mut m = Sm::new(
        "T312 { context: TestCtx; events: Ev; default(Red);
           state Red { on(Beep) => honk1; on(Beep) => honk2; on(Beep) => honk3; } }",
        &[],
    );
    m.step(Duration::ZERO);
    m.send("Beep").unwrap();
    m.step(Duration::ZERO);
    assert_eq!(m.logs(), ["honk1", "honk2", "honk3"]);
    assert_eq!(m.current_state(), "Red");
}

#[test]
fn t3_4_timer_action() {
    let mut m = Sm::new(
        "T34 { context: TestCtx; events: Ev; default(Red);
           state Red { on(after Duration::from_millis(500)) => heartbeat; } }",
        &[("heartbeat", Does::Log("beat"))],
    );
    m.step(Duration::ZERO);
    m.step(Duration::from_millis(500));
    assert_eq!(m.logs(), ["beat"]);
    assert_eq!(m.current_state(), "Red");
    m.step(Duration::from_millis(500));
    m.step(Duration::from_millis(500));
    assert_eq!(m.logs(), ["beat"]);
}

const T4M: &str = "T4M { context: TestCtx; events: Ev; default(A); on(Foo) => root_handler;
    state A { default(B);
      state B { default(C);
        state C { entry: c_entry; } } } }";

#[test]
fn t4_3_bubble_to_root() {
    let mut m = Sm::new(T4M, &[("root_handler", Does::Log("root")), ("c_entry", Does::Nop)]);
    m.step(Duration::ZERO);
    m.send("Foo").unwrap();
    m.step(Duration::ZERO);
    assert_eq!(m.logs(), ["root"]);
}

#[test]
fn t4_5_unknown_event_discarded() {
    let mut m = Sm::new(T4M, &[("root_handler", Does::Log("root")), ("c_entry", Does::Nop)]);
    m.step(Duration::ZERO);
    m.send("Unknown").unwrap();
    m.step(Duration::ZERO);
    assert!(m.logs().is_empty());
    assert_eq!(m.current_state(), "C");
}

#[test]
fn t4_1_and_t4_4_leaf_shadows() {
    let mut m = Sm::new(
        "T414 { context: TestCtx; events: Ev; default(A);
           state A { default(C); on(Foo) => E;
             state C { on(Foo) => D; } }
           state D { entry: d_entry; }
           state E { entry: e_entry; } }",
        &[],
    );
    m.step(Duration::ZERO);
    assert_eq!(m.current_state(), "C");
    m.send("Foo").unwrap();
    m.step(Duration::ZERO);
    assert_eq!(m.current_state(), "D");
    assert_eq!(m.logs(), ["d_entry"]);
}

#[test]
fn t4_6_timer_fires_for_owner() {
    let mut m = Sm::new(
        "T46 { context: TestCtx; events: Ev; default(A);
           state A { default(B); on(after Duration::from_secs(10)) => D;
             state B { default(C);
               state C { entry: c_entry; } } }
           state D { entry: d_entry; } }",
        &[("c_entry", Does::Nop)],
    );
    m.step(Duration::ZERO);
    assert_eq!(m.current_state(), "C");
    m.step(Duration::from_secs(10));
    assert_eq!(m.current_state(), "D");
}

const T5X: &str = "T5X { context: TestCtx; events: Ev; default(A);
    state A { default(B); entry: alpha, beta; entry: gamma; exit: cleanup1; exit: cleanup2;
      state B { entry: b_entry; exit: b_exit; on(Go) => Z; } }
    state Z { entry: z_entry; } }";

#[test]
fn t5_1_t5_3_entry_order() {
    let mut m = Sm::new(T5X, &[]);
    m.step(Duration::ZERO);
    assert_eq!(m.logs(), ["alpha", "beta", "gamma", "b_entry"]);
}

#[test]
fn t5_2_t5_4_exit_order() {
    let mut m = Sm::new(T5X, &[]);
    m.step(Duration::ZERO);
    m.clear_log();
    m.send("Go").unwrap();
    m.step(Duration::ZERO);
    assert_eq!(m.logs(), ["b_exit", "cleanup1", "cleanup2", "z_entry"]);
}

#[test]
fn t5_5_lca_stays_active() {
    let mut m = Sm::new(
        "T55 { context: TestCtx; events: Ev; default(Parent);
           state Parent { default(A); entry: parent_entry; exit: parent_exit;
             on(after Duration::from_secs(10)) => Somewhere;
             state A { entry: a_entry; exit: a_exit; on(Go) => B; }
             state B { entry: b_entry; } }
           state Somewhere { entry: somewhere_entry; } }",
        &[],
    );
    let next = m.step(Duration::ZERO);
    assert!(next.is_some());
    m.step(Duration::from_secs(3));
    m.clear_log();
    m.send("Go").unwrap();
    let next_after = m.step(Duration::ZERO);
    assert_eq!(m.logs(), ["a_exit", "b_entry"]);
    let remaining = next_after.expect("parent timer still armed");
    assert!(
        remaining <= Duration::from_secs(7) + Duration::from_millis(50),
        "parent timer should not have been restarted; remaining={:?}",
        remaining
    );
    assert!(remaining >= Duration::from_secs(6), "parent timer should have ~7s left; remaining={:?}", remaining);
}

#[test]
fn t6_2_rejects_after_term() {
    let mut m = Sm::new(
        "T62 { context: TestCtx; events: Ev; default(A); terminate(Halt);
           state A { entry: a_entry; } }",
        &[("a_entry", Does::Log("a"))],
    );
    m.step(Duration::ZERO);
    m.send("Halt").unwrap();
    m.step(Duration::ZERO);
    assert!(m.is_terminated());
    let r = m.send("Other");
    assert!(r.is_err());
}

#[test]
fn t6_4_step_after_term() {
    let mut m = Sm::new(
        "T64 { context: TestCtx; events: Ev; default(A); terminate(Halt);
           state A { entry: a_entry; } }",
        &[("a_entry", Does::Log("a"))],
    );
    m.step(Duration::ZERO);
    m.send("Halt").unwrap();
    m.step(Duration::ZERO);
    let before = m.logs().len();
    let r = m.step(Duration::from_secs(5));
    assert!(r.is_none());
    assert_eq!(m.logs().len(), before);
}

#[test]
fn t7_2_emit_during_transition() {
    let mut m = Sm::new(
        "T72 { context: TestCtx; events: Ev; default(A); on(Cleanup) => do_cleanup;
           state A { exit: emit_cleanup; on(Go) => B; }
           state B { entry: b_entry; } }",
        &[("emit_cleanup", Does::LogEmit("a_exit", "Cleanup"))],
    );
    m.step(Duration::ZERO);
    m.send("Go").unwrap();
    m.step(Duration::ZERO);
    assert_eq!(m.current_state(), "B");
    m.step(Duration::ZERO);
    assert_eq!(m.logs(), ["a_exit", "b_entry", "do_cleanup"]);
}

#[test]
fn t7_3_queue_overflow() {
    let mut m = Sm::new(
        "T73 { context: TestCtx; events: Ev; default(A);
           state A { on(Start) => flood; } }",
        &[("flood", Does::Flood("Tick", 9))],
    );
    m.step(Duration::ZERO);
    m.send("Start").unwrap();
    m.step(Duration::ZERO);
    assert!(m.logs().iter().any(|s| s.starts_with("err=")));
    let got = m.logs().last().unwrap().to_string();
    assert_ne!(got, "err=0");
}

#[test]
fn t8_3_parent_timer_survives() {
    let mut m = Sm::new(
        "T83 { context: TestCtx; events: Ev; default(Parent);
           state Parent { default(ChildA); exit: parent_exit;
             on(after Duration::from_secs(10)) => Done;
             state ChildA { exit: childa_exit; on(after Duration::from_secs(3)) => ChildB; }
             state ChildB { exit: childb_exit; entry: childb_entry; } }
           state Done { entry: done_entry; } }",
        &[],
    );
    m.step(Duration::ZERO);
    m.step(Duration::from_secs(3));
    assert_eq!(m.current_state(), "ChildB");
    m.step(Duration::from_secs(7));
    assert_eq!(m.current_state(), "Done");
    let logs = m.logs();
    let tail: Vec<&str> = logs.iter().rev().take(3).rev().cloned().collect();
    assert_eq!(tail, ["childb_exit", "parent_exit", "done_entry"]);
}

#[test]
fn t8_4_timer_restart() {
    let mut m = Sm::new(
        "T84 { context: TestCtx; events: Ev; default(Red);
           state Red { on(after Duration::from_secs(5)) => Green; }
           state Green { on(after Duration::from_secs(5)) => Red; } }",
        &[],
    );
    m.step(Duration::ZERO);
    m.step(Duration::from_secs(5));
    assert_eq!(m.current_state(), "Green");
    m.step(Duration::from_secs(5));
    assert_eq!(m.current_state(), "Red");
    m.step(Duration::from_secs(4));
    assert_eq!(m.current_state(), "Red");
    m.step(Duration::from_secs(1));
    assert_eq!(m.current_state(), "Green");
}

#[test]
fn round_trip_restarts_alternation() {
    let mut m = Sm::new(
        "T84b { context: TestCtx; events: Ev; default(On);
           state On { on(Go) => Listening; on(Back) => Splash; default(Splash);
             state Splash { default(LearnMore);
               state LearnMore { entry: enter_lm; on(after Duration::from_secs(5)) => Info; }
               state Info { entry: enter_info; on(after Duration::from_secs(5)) => LearnMore; } }
             state Dashboard { default(Listening);
               state Listening { entry: enter_listening; } } } }",
        &[
            ("enter_lm", Does::Log("LM")),
            ("enter_info", Does::Log("INFO")),
            ("enter_listening", Does::Log("LISTEN")),
        ],
    );
    m.step(Duration::ZERO);
    assert_eq!(m.current_state(), "LearnMore");
    m.step(Duration::from_secs(5));
    assert_eq!(m.current_state(), "Info");
    m.step(Duration::from_secs(5));
    assert_eq!(m.current_state(), "LearnMore");
    m.step(Duration::from_secs(5));
    assert_eq!(m.current_state(), "Info");
    m.send("Go").unwrap();
    m.step(Duration::ZERO);
    assert_eq!(m.current_state(), "Listening");
    m.send("Back").unwrap();
    m.step(Duration::ZERO);
    assert_eq!(m.current_state(), "LearnMore", "after Back we should land in Splash's default (LearnMore)");
    m.step(Duration::from_secs(5));
    assert_eq!(m.current_state(), "Info", "LearnMore's 5s timer should fire after re-entry");
    m.step(Duration::from_secs(5));
    assert_eq!(m.current_state(), "LearnMore", "Info's 5s timer should fire after its first re-entry");
}

#[test]
fn t8_5_multi_level_timers() {
    let mut m = Sm::new(
        "T85 { context: TestCtx; events: Ev; default(A);
           state A { default(B); on(after Duration::from_secs(2)) => ping;
             state B { on(after Duration::from_secs(5)) => C; }
             state C { entry: c_entry; } } }",
        &[],
    );
    m.step(Duration::ZERO);
    m.step(Duration::from_secs(2));
    assert_eq!(m.current_state(), "B");
    assert_eq!(m.logs(), ["ping"]);
    m.step(Duration::from_secs(3));
    assert_eq!(m.current_state(), "C");
    m.step(Duration::from_secs(10));
    let count = m.logs().iter().filter(|s| **s == "ping").count();
    assert_eq!(count, 1);
}

#[test]
fn t10_2_timer_only() {
    let mut m = Sm::new(
        "TimerOnly { context: TestCtx; events: NoEvents; default(A);
           state A { on(after Duration::from_secs(1)) => B; entry: a_e; }
           state B { on(after Duration::from_secs(1)) => A; entry: b_e; } }",
        &[("a_e", Does::Log("a")), ("b_e", Does::Log("b"))],
    );
    m.step(Duration::ZERO);
    m.step(Duration::from_secs(1));
    m.step(Duration::from_secs(1));
    assert_eq!(m.logs(), ["a", "b", "a"]);
}

#[test]
fn t10_3_deep_descent() {
    let mut m = Sm::new(
        "Deep { context: TestCtx; events: Ev; default(A); entry: root_e;
           state A { default(B); entry: a_e;
             state B { default(C); entry: b_e;
               state C { default(D); entry: c_e;
                 state D { default(E); entry: d_e;
                   state E { entry: e_e; } } } } } }",
        &[
            ("root_e", Does::Log("root")),
            ("a_e", Does::Log("a")),
            ("b_e", Does::Log("b")),
            ("c_e", Does::Log("c")),
            ("d_e", Does::Log("d")),
            ("e_e", Does::Log("e")),
        ],
    );
    m.step(Duration::ZERO);
    assert_eq!(m.current_state(), "E");
    assert_eq!(m.logs(), ["root", "a", "b", "c", "d", "e"]);
}

#[test]
fn t10_4_emit_chain() {
    let mut m = Sm::new(
        "T104 { context: TestCtx; events: Ev; default(A);
           state A { on(Foo) => emit_bar; on(Bar) => emit_baz; on(Baz) => B; }
           state B { entry: b_entry; } }",
        &[
            ("emit_bar", Does::EmitLog("Bar", "bar")),
            ("emit_baz", Does::EmitLog("Baz", "baz")),
            ("b_entry", Does::Log("b")),
        ],
    );
    m.step(Duration::ZERO);
    m.send("Foo").unwrap();
    for _ in 0..5 {
        m.step(Duration::ZERO);
    }
    assert_eq!(m.current_state(), "B");
    assert_eq!(m.logs(), ["bar", "baz", "b"]);
}

#[test]
fn t10_5_emit_during_term() {
    let mut m = Sm::new(
        "T105 { context: TestCtx; events: Ev; default(A); terminate(Halt); on(Cleanup) => do_cleanup;
           state A { exit: a_exit; } }",
        &[("a_exit", Does::LogTryEmit("a_exit", "Cleanup"))],
    );
    m.step(Duration::ZERO);
    m.send("Halt").unwrap();
    m.step(Duration::ZERO);
    assert!(m.is_terminated());
    for _ in 0..3 {
        m.step(Duration::ZERO);
    }
    assert!(!m.logs().contains(&"do_cleanup"));
}

#[test]
fn t10_6_root_transition() {
    let mut m = Sm::new(
        "T106 { context: TestCtx; events: Ev; default(Deep1); entry: root_entry; exit: root_exit;
           on(after Duration::from_secs(60)) => FirstState;
           state Deep1 { default(Deep2); exit: d1_exit;
             state Deep2 { exit: d2_exit; } }
           state FirstState { entry: first_entry; } }",
        &[],
    );
    m.step(Duration::ZERO);
    m.clear_log();
    m.step(Duration::from_secs(60));
    assert_eq!(m.current_state(), "FirstState");
    let logs = m.logs();
    assert!(!logs.contains(&"root_exit"));
    assert_eq!(logs, ["d2_exit", "d1_exit", "first_entry"]);
}

#[test]
fn t10_7_into_context() {
    let mut m = Sm::new(
        "T107 { context: TestCtx; events: Ev; default(A); terminate(Halt);
           state A { entry: a_e; } }",
        &[("a_e", Does::Log("hello"))],
    );
    m.step(Duration::ZERO);
    m.send("Halt").unwrap();
    m.step(Duration::ZERO);
    assert!(m.is_terminated());
    let log = m.into_context();
    assert_eq!(log, vec!["hello".to_string()]);
}

#[test]
fn t10_1_shared_action() {
    let mut m = Sm::new(
        "T101 { context: TestCtx; events: Ev; default(A);
           state A { entry: shared_setup; on(Go) => B; }
           state B { entry: shared_setup; } }",
        &[("shared_setup", Does::Log("shared"))],
    );
    m.step(Duration::ZERO);
    m.send("Go").unwrap();
    m.step(Duration::ZERO);
    assert_eq!(m.logs(), ["shared", "shared"]);
}

#[test]
fn t8_1_timer_starts_on_entry() {
    let mut m = Sm::new(
        "T81 { context: TestCtx; events: Ev; default(Red);
           state Red { on(after Duration::from_secs(5)) => Green; }
           state Green { entry: green_on; } }",
        &[],
    );
    m.step(Duration::ZERO);
    m.step(Duration::from_millis(4900));
    assert_eq!(m.current_state(), "Red");
    m.step(Duration::from_millis(100));
    assert_eq!(m.current_state(), "Green");
}

#[test]
fn t8_2_timer_cancelled_on_exit() {
    let mut m = Sm::new(
        "T82 { context: TestCtx; events: Ev; default(Red);
           state Red { on(after Duration::from_secs(5)) => Green; on(Interrupt) => Yellow; }
           state Green { entry: green_on; }
           state Yellow { entry: yellow_on; } }",
        &[],
    );
    m.step(Duration::ZERO);
    m.step(Duration::from_secs(2));
    m.send("Interrupt").unwrap();
    m.step(Duration::ZERO);
    assert_eq!(m.current_state(), "Yellow");
    m.step(Duration::from_secs(5));
    assert_eq!(m.current_state(), "Yellow");
    assert!(!m.logs().contains(&"green_on"));
}

#[test]
fn b1_emit_or_panic() {
    let mut m = Sm::new(
        "B1M { context: TestCtx; events: Ev; default(A);
           state A { on(Foo) => emit_bar; on(Bar) => B; }
           state B { entry: b_entry; } }",
        &[("emit_bar", Does::LogEmit("emit_bar", "Bar"))],
    );
    m.step(Duration::ZERO);
    m.send("Foo").unwrap();
    m.step(Duration::ZERO);
    m.step(Duration::ZERO);
    assert_eq!(m.current_state(), "B");
    assert_eq!(m.logs(), ["emit_bar", "b_entry"]);
}

#[test]
fn b2_has_pending_events() {
    let mut m = Sm::new(
        "B2M { context: TestCtx; events: Ev; default(A);
           state A { on(Foo) => noop; } }",
        &[],
    );
    m.step(Duration::ZERO);
    assert!(!m.has_pending_events());
    m.send("Foo").unwrap();
    assert!(m.has_pending_events());
    m.step(Duration::ZERO);
    assert!(!m.has_pending_events());
}

#[test]
fn b5_timer_only_no_events() {
    let mut m = Sm::new(
        "B5M { context: TestCtx; default(A);
           state A { on(after Duration::from_millis(100)) => B; exit: a_exit; }
           state B { entry: b_entry; } }",
        &[],
    );
    m.step(Duration::ZERO);
    assert_eq!(m.current_state(), "A");
    m.step(Duration::from_millis(100));
    assert_eq!(m.current_state(), "B");
    assert_eq!(m.logs(), ["a_exit", "b_entry"]);
}

#[test]
fn unhandled_event_is_dropped_and_state_kept() {
    // law: an event no active state handles is received, dropped, and
    // leaves the active state unchanged.
    let mut m = Sm::new(
        "Drop { context: TestCtx; events: Ev; default(A);
           state A { on(Known) => B; }
           state B { entry: b_entry; } }",
        &[],
    );
    m.step(Duration::ZERO);
    let before = m.m.journal().len();
    m.send("Unknown").unwrap();
    m.step(Duration::ZERO);
    assert_eq!(m.current_state(), "A");
    assert!(!m.has_pending_events());
    let tail: Vec<_> = m.m.journal()[before..].to_vec();
    assert_eq!(
        tail,
        vec![
            TraceEvent::EventReceived { event: u16::MAX },
            TraceEvent::EventDropped { event: u16::MAX },
        ]
    );
}

#[test]
fn due_timer_is_served_before_queued_event() {
    // law: a due timer fires first; the queued event waits for the next step.
    let mut m = Sm::new(
        "Order { context: TestCtx; events: Ev; default(A);
           state A { on(after Duration::from_secs(1)) => tick; on(Go) => B; }
           state B { entry: b_entry; } }",
        &[],
    );
    m.step(Duration::ZERO);
    m.send("Go").unwrap();
    m.step(Duration::from_secs(1));
    assert_eq!(m.logs(), ["tick"]);
    assert_eq!(m.current_state(), "A");
    assert!(m.has_pending_events());
    m.step(Duration::ZERO);
    assert_eq!(m.current_state(), "B");
    assert_eq!(m.logs(), ["tick", "b_entry"]);
}

#[test]
fn timers_of_left_states_never_fire() {
    // law: armed timers belong to active states; leaving a state cancels
    // its timers.
    let mut m = Sm::new(
        "Tm { context: TestCtx; events: Ev; default(Red);
           state Red { on(after Duration::from_secs(5)) => Green; on(Interrupt) => Yellow; }
           state Green { entry: green_on; }
           state Yellow { entry: yellow_on; } }",
        &[],
    );
    m.step(Duration::ZERO);
    m.step(Duration::from_secs(2));
    m.send("Interrupt").unwrap();
    let next = m.step(Duration::ZERO);
    assert_eq!(next, None);
    let red = 1u16;
    assert!(m.m.journal().contains(&TraceEvent::TimerCancelled { state: red, timer: 0 }));
    m.step(Duration::from_secs(10));
    assert!(!m.m.journal().iter().any(|e| matches!(e, TraceEvent::TimerFired { .. })));
    assert_eq!(m.current_state(), "Yellow");
}

const TIM: &str = "Tim { context: Ctx; events: Ev; default(Counting); terminate(Halt);
    state Counting { entry: c_in; exit: c_out;
        on(after Duration::from_millis(50)) => Done; on(Stop) => Done; }
    state Done { entry: d_in; on(after Duration::from_millis(20)) => log_tick; } }";
const TIM_SC: u16 = 1;
const TIM_SD: u16 = 2;
const T_COUNTING: u16 = 0;
const T_DONE: u16 = 1;

fn timer_events(j: &[TraceEvent]) -> Vec<&TraceEvent> {
    j.iter()
        .filter(|e| {
            matches!(e, TraceEvent::TimerArmed { .. } | TraceEvent::TimerCancelled { .. } | TraceEvent::TimerFired { .. })
        })
        .collect()
}

#[test]
fn det_timer_arms_on_entry() {
    let mut m = Sm::new(TIM, &[]);
    let _ = m.dispatch("Stop");
    let j = m.take_journal();
    let first_armed = j.iter().find(|e| matches!(e, TraceEvent::TimerArmed { .. }));
    assert!(
        matches!(first_armed, Some(TraceEvent::TimerArmed { state: TIM_SC, timer: T_COUNTING, ns: 50_000_000 })),
        "got: {:?}",
        first_armed
    );
}

#[test]
fn det_timer_cancels_on_exit() {
    let mut m = Sm::new(TIM, &[]);
    let _ = m.dispatch("Stop");
    let j = m.take_journal();
    let cancelled = j.iter().find(|e| matches!(e, TraceEvent::TimerCancelled { state: TIM_SC, timer: T_COUNTING }));
    assert!(cancelled.is_some(), "Counting's timer must be cancelled on exit, got: {:?}", j);
}

#[test]
fn det_timer_cancel_appears_before_exit_actions() {
    let mut m = Sm::new(TIM, &[]);
    let _ = m.dispatch("Stop");
    let j = m.take_journal();
    let cancel_idx = j.iter().position(|e| matches!(e, TraceEvent::TimerCancelled { state: TIM_SC, .. })).unwrap();
    let exit_action_idx = j
        .iter()
        .position(|e| matches!(e, TraceEvent::ActionInvoked { state: TIM_SC, kind: ActionKind::Exit, .. }))
        .unwrap();
    assert!(
        cancel_idx < exit_action_idx,
        "TimerCancelled at {} must precede ActionInvoked Exit at {}",
        cancel_idx,
        exit_action_idx
    );
}

#[test]
fn det_timer_arm_appears_after_entry_actions() {
    let mut m = Sm::new(TIM, &[]);
    let _ = m.dispatch("Stop");
    let j = m.take_journal();
    let entry_idx = j
        .iter()
        .position(|e| matches!(e, TraceEvent::ActionInvoked { state: TIM_SC, kind: ActionKind::Entry, .. }))
        .unwrap();
    let armed_idx = j.iter().position(|e| matches!(e, TraceEvent::TimerArmed { state: TIM_SC, .. })).unwrap();
    assert!(entry_idx < armed_idx, "entry actions ({}) must fire before TimerArmed ({})", entry_idx, armed_idx);
}

#[test]
fn det_timer_arm_each_state_in_path() {
    let mut m = Sm::new(TIM, &[]);
    let _ = m.dispatch("Halt");
    let armed: Vec<&TraceEvent> = m.journal().iter().filter(|e| matches!(e, TraceEvent::TimerArmed { .. })).collect();
    assert_eq!(armed.len(), 1, "expected 1 TimerArmed during initial descent, got {:?}", armed);
}

#[test]
fn det_timer_two_lifecycles_arm_then_cancel_each() {
    let mut m = Sm::new(TIM, &[]);
    let _ = m.dispatch("Stop");
    let evs = timer_events(m.journal());
    assert_eq!(evs.len(), 3, "expected arm → cancel → arm (Done's timer), got {:?}", evs);
    assert!(matches!(evs[0], TraceEvent::TimerArmed { state: TIM_SC, timer: T_COUNTING, ns: 50_000_000 }));
    assert!(matches!(evs[1], TraceEvent::TimerCancelled { state: TIM_SC, timer: T_COUNTING }));
    assert!(matches!(evs[2], TraceEvent::TimerArmed { state: TIM_SD, timer: T_DONE, ns: 20_000_000 }));
}

#[test]
fn det_timer_byte_deterministic() {
    let run = || {
        let mut m = Sm::new(TIM, &[]);
        let _ = m.dispatch("Stop");
        let _ = m.dispatch("Halt");
        m.take_journal()
    };
    let first = run();
    for i in 1..10 {
        assert_eq!(first, run(), "diverged on run {i}");
    }
}

#[test]
fn det_timer_state_cancel_uses_correct_state_id() {
    let mut m = Sm::new(TIM, &[]);
    let _ = m.dispatch("Stop");
    let cancels: Vec<u16> = m
        .journal()
        .iter()
        .filter_map(|e| match e {
            TraceEvent::TimerCancelled { state, .. } => Some(*state),
            _ => None,
        })
        .collect();
    assert_eq!(cancels, vec![TIM_SC]);
}

const TERM: &str = "Term { context: Ctx; events: Ev; default(Mid); terminate(Halt); entry: r_in; exit: r_out;
    state Mid { entry: m_in; exit: m_out; default(Leaf); on(Other) => log_other;
        state Leaf { entry: l_in; exit: l_out; } } }";
const TERM_SR: u16 = 0;
const TERM_SM: u16 = 1;
const TERM_SL: u16 = 2;
const E_OTHER: u16 = 0;
const E_HALT: u16 = 1;

#[test]
fn det_terminate_records_terminate_requested() {
    let mut m = Sm::new(TERM, &[]);
    let _ = m.dispatch("Halt");
    let j = m.take_journal();
    let req_idx = j.iter().position(|e| matches!(e, TraceEvent::TerminateRequested { event: E_HALT }));
    assert!(req_idx.is_some(), "TerminateRequested must appear, got: {:?}", j);
}

#[test]
fn det_terminate_exits_bottom_up() {
    let mut m = Sm::new(TERM, &[]);
    let _ = m.dispatch("Halt");
    let exits: Vec<u16> = m
        .journal()
        .iter()
        .filter_map(|e| match e {
            TraceEvent::Exited { state } => Some(*state),
            _ => None,
        })
        .collect();
    assert_eq!(exits, vec![TERM_SL, TERM_SM, TERM_SR], "termination exits inner-to-outer");
}

#[test]
fn det_terminate_terminated_is_last() {
    let mut m = Sm::new(TERM, &[]);
    let _ = m.dispatch("Halt");
    assert!(matches!(m.journal().last(), Some(TraceEvent::Terminated)));
}

#[test]
fn det_terminate_dispatch_after_returns_already_terminated() {
    let mut m = Sm::new(TERM, &[]);
    let _ = m.dispatch("Halt");
    let res = m.dispatch("Other");
    assert!(
        matches!(res, Err(HsmcError::AlreadyTerminated)),
        "dispatch after terminate must return AlreadyTerminated, got {:?}",
        res
    );
}

#[test]
fn det_terminate_journal_unchanged_by_post_term_dispatch() {
    let mut m = Sm::new(TERM, &[]);
    let _ = m.dispatch("Halt");
    let len_before = m.journal().len();
    let _ = m.dispatch("Other");
    let len_after = m.journal().len();
    assert_eq!(len_before, len_after, "journal length must not change after termination");
}

#[test]
fn det_terminate_exit_actions_run_in_order() {
    let mut m = Sm::new(TERM, &[]);
    let _ = m.dispatch("Halt");
    let exit_actions: Vec<u16> = m
        .journal()
        .iter()
        .filter_map(|e| match e {
            TraceEvent::ActionInvoked { state, kind: ActionKind::Exit, .. } => Some(*state),
            _ => None,
        })
        .collect();
    assert_eq!(exit_actions, vec![TERM_SL, TERM_SM, TERM_SR]);
}

#[test]
fn det_terminate_other_event_processed_before_halt() {
    let mut m = Sm::new(TERM, &[]);
    let _ = m.dispatch("Other");
    let _ = m.dispatch("Halt");
    let j = m.take_journal();
    let other_delivered = j.iter().any(|e| matches!(e, TraceEvent::EventDelivered { event: E_OTHER, .. }));
    let halt_delivered = j.iter().any(|e| matches!(e, TraceEvent::EventDelivered { event: E_HALT, .. }));
    let halt_requested = j.iter().any(|e| matches!(e, TraceEvent::TerminateRequested { event: E_HALT }));
    assert!(other_delivered, "Other must be delivered");
    assert!(!halt_delivered, "Halt does not go through EventDelivered");
    assert!(halt_requested, "Halt goes through TerminateRequested");
}

#[test]
fn det_terminate_byte_deterministic() {
    let run = || {
        let mut m = Sm::new(TERM, &[]);
        let _ = m.dispatch("Other");
        let _ = m.dispatch("Halt");
        m.take_journal()
    };
    let first = run();
    for i in 1..10 {
        assert_eq!(first, run(), "diverged on run {i}");
    }
}

const EM: &str = "Em { context: Ctx; events: Ev; default(A); terminate(Halt);
    state A { entry: a_in; exit: a_out;
        on(Trigger) => emit_followup; on(Followup) => B; on(Many) => emit_many; }
    state B { entry: b_in; exit: b_out; } }";
const E_TRIGGER: u16 = 0;
const E_FOLLOWUP: u16 = 1;
const E_MANY: u16 = 2;

fn em() -> Sm {
    Sm::new(
        EM,
        &[("emit_followup", Does::LogTryEmit("emit_followup", "Followup")), ("emit_many", Does::Flood("Followup", 15))],
    )
}

#[test]
fn det_emit_queues_event() {
    let mut m = em();
    let _ = m.dispatch("Trigger");
    let queued = m.journal().iter().filter(|e| matches!(e, TraceEvent::EmitQueued { .. })).count();
    assert_eq!(queued, 1, "exactly one EmitQueued, got {:?}", m.journal());
}

#[test]
fn det_emit_followup_event_is_dispatched() {
    let mut m = em();
    let _ = m.dispatch("Trigger");
    let j = m.take_journal();
    let delivered_events: Vec<u16> = j
        .iter()
        .filter_map(|e| match e {
            TraceEvent::EventDelivered { event, .. } => Some(*event),
            _ => None,
        })
        .collect();
    assert_eq!(delivered_events, vec![E_TRIGGER, E_FOLLOWUP]);
}

#[test]
fn det_emit_no_reentrant_dispatch() {
    let mut m = em();
    let _ = m.dispatch("Trigger");
    let j = m.take_journal();
    let queued_idx = j.iter().position(|e| matches!(e, TraceEvent::EmitQueued { event: E_FOLLOWUP })).unwrap();
    let delivered_idx = j.iter().position(|e| matches!(e, TraceEvent::EventDelivered { event: E_FOLLOWUP, .. })).unwrap();
    assert!(
        queued_idx < delivered_idx,
        "EmitQueued ({}) must come before EventDelivered ({})",
        queued_idx,
        delivered_idx
    );
}

#[test]
fn det_emit_overflow_records_emitfailed() {
    let mut m = em();
    let _ = m.dispatch("Many");
    let j = m.take_journal();
    let queued = j.iter().filter(|e| matches!(e, TraceEvent::EmitQueued { .. })).count();
    let failed = j.iter().filter(|e| matches!(e, TraceEvent::EmitFailed { .. })).count();
    assert!(queued > 0, "some emits must succeed");
    assert!(failed > 0, "some emits must fail when queue overflows");
    assert_eq!(queued + failed, 15, "total emit attempts must be 15");
}

#[test]
fn det_emit_does_not_reorder_external_events() {
    let mut m = em();
    let _ = m.dispatch("Trigger");
    let j = m.take_journal();
    let delivered_events: Vec<u16> = j
        .iter()
        .filter_map(|e| match e {
            TraceEvent::EventDelivered { event, .. } => Some(*event),
            _ => None,
        })
        .collect();
    assert_eq!(delivered_events[0], E_TRIGGER);
    assert_eq!(delivered_events[1], E_FOLLOWUP);
}

#[test]
fn det_emit_byte_deterministic() {
    let run = || {
        let mut m = em();
        let _ = m.dispatch("Trigger");
        let _ = m.dispatch("Halt");
        m.take_journal()
    };
    let first = run();
    for i in 1..10 {
        assert_eq!(first, run(), "diverged on run {i}");
    }
}

#[test]
fn det_emit_state_after_emit_action_runs_to_completion() {
    let mut m = em();
    let _ = m.dispatch("Many");
    let j = m.take_journal();
    let many_delivered_idx = j.iter().position(|e| matches!(e, TraceEvent::EventDelivered { event: E_MANY, .. })).unwrap();
    let emit_results: Vec<&TraceEvent> = j[many_delivered_idx..]
        .iter()
        .take_while(|e| {
            matches!(
                e,
                TraceEvent::EmitQueued { .. }
                    | TraceEvent::EmitFailed { .. }
                    | TraceEvent::ActionInvoked { .. }
                    | TraceEvent::EventDelivered { event: E_MANY, .. }
            )
        })
        .filter(|e| matches!(e, TraceEvent::EmitQueued { .. } | TraceEvent::EmitFailed { .. }))
        .collect();
    assert_eq!(emit_results.len(), 15);
}

const BUB: &str = "Bub { context: Ctx; events: Ev; default(Mid); terminate(Halt);
    on(RootEv) => root_handler;
    state Mid { entry: m_in; exit: m_out; default(Leaf);
        on(MidEv) => mid_handler; on(Shadowed) => mid_shadowed;
        state Leaf { entry: l_in; exit: l_out;
            on(LeafEv) => leaf_handler; on(Shadowed) => leaf_shadowed;
            on(MultiAct) => multi1; on(MultiAct) => multi2; on(MultiAct) => multi3; } } }";
const BUB_SR: u16 = 0;
const BUB_SM: u16 = 1;
const BUB_SL: u16 = 2;
const A_ROOT_HANDLER: u16 = 0;
const A_MID_HANDLER: u16 = 3;
const A_LEAF_HANDLER: u16 = 7;
const A_MID_SHADOWED: u16 = 4;
const A_LEAF_SHADOWED: u16 = 8;
const A_MULTI1: u16 = 9;
const A_MULTI2: u16 = 10;
const A_MULTI3: u16 = 11;
const E_ROOTEV: u16 = 0;
const E_MIDEV: u16 = 1;
const E_LEAFEV: u16 = 3;

#[test]
fn det_bub_handler_at_leaf() {
    let mut m = Sm::new(BUB, &[]);
    let _ = m.dispatch("LeafEv");
    let j = m.take_journal();
    let delivered = j.iter().find(|e| matches!(e, TraceEvent::EventDelivered { event: E_LEAFEV, .. }));
    assert!(
        matches!(delivered, Some(TraceEvent::EventDelivered { handler_state: BUB_SL, event: E_LEAFEV })),
        "LeafEv must be delivered to Leaf, got: {:?}",
        delivered
    );
    let saw_handler = j.iter().any(|e| {
        matches!(e, TraceEvent::ActionInvoked { state: BUB_SL, action: A_LEAF_HANDLER, kind: ActionKind::Handler })
    });
    assert!(saw_handler, "leaf_handler must run");
}

#[test]
fn det_bub_event_bubbles_to_parent() {
    let mut m = Sm::new(BUB, &[]);
    let _ = m.dispatch("MidEv");
    let j = m.take_journal();
    let delivered = j.iter().find(|e| matches!(e, TraceEvent::EventDelivered { event: E_MIDEV, .. }));
    assert!(
        matches!(delivered, Some(TraceEvent::EventDelivered { handler_state: BUB_SM, event: E_MIDEV })),
        "MidEv must be delivered to Mid, got: {:?}",
        delivered
    );
    assert_eq!(j.iter().filter(|e| matches!(e, TraceEvent::ActionInvoked { action: A_MID_HANDLER, .. })).count(), 1);
}

#[test]
fn det_bub_event_bubbles_to_root() {
    let mut m = Sm::new(BUB, &[]);
    let _ = m.dispatch("RootEv");
    let j = m.take_journal();
    let delivered = j.iter().find(|e| matches!(e, TraceEvent::EventDelivered { event: E_ROOTEV, .. }));
    assert!(
        matches!(delivered, Some(TraceEvent::EventDelivered { handler_state: BUB_SR, event: E_ROOTEV })),
        "RootEv must be delivered to Root, got: {:?}",
        delivered
    );
    assert_eq!(j.iter().filter(|e| matches!(e, TraceEvent::ActionInvoked { action: A_ROOT_HANDLER, .. })).count(), 1);
}

#[test]
fn det_bub_unknown_event_dropped() {
    let mut m = Sm::new(BUB, &[]);
    let _ = m.dispatch("Unknown");
    let j = m.take_journal();
    let dropped = j.iter().any(|e| matches!(e, TraceEvent::EventDropped { .. }));
    assert!(dropped, "unhandled Unknown must be journaled as EventDropped");
    let delivered_count = j.iter().filter(|e| matches!(e, TraceEvent::EventDelivered { .. })).count();
    assert_eq!(delivered_count, 0, "Unknown must not be delivered; got: {:?}", j);
}

#[test]
fn det_bub_leaf_shadows_parent() {
    let mut m = Sm::new(BUB, &[]);
    let _ = m.dispatch("Shadowed");
    let j = m.take_journal();
    let leaf_fired = j.iter().any(|e| matches!(e, TraceEvent::ActionInvoked { action: A_LEAF_SHADOWED, .. }));
    let mid_fired = j.iter().any(|e| matches!(e, TraceEvent::ActionInvoked { action: A_MID_SHADOWED, .. }));
    assert!(leaf_fired, "leaf_shadowed must fire (innermost wins)");
    assert!(!mid_fired, "mid_shadowed must NOT fire (shadowed by leaf)");
}

#[test]
fn det_bub_multiple_handlers_declaration_order() {
    let mut m = Sm::new(BUB, &[]);
    let _ = m.dispatch("MultiAct");
    let order: Vec<u16> = m
        .take_journal()
        .iter()
        .filter_map(|e| match e {
            TraceEvent::ActionInvoked { action, kind: ActionKind::Handler, .. } => Some(*action),
            _ => None,
        })
        .collect();
    assert_eq!(order, vec![A_MULTI1, A_MULTI2, A_MULTI3], "multi-action handlers must fire in declaration order");
}

#[test]
fn det_bub_handler_state_recorded_correctly() {
    let mut m = Sm::new(BUB, &[]);
    let _ = m.dispatch("MidEv");
    let _ = m.dispatch("RootEv");
    let j = m.take_journal();
    let mid_delivered = j.iter().find(|e| matches!(e, TraceEvent::EventDelivered { event: E_MIDEV, .. }));
    let root_delivered = j.iter().find(|e| matches!(e, TraceEvent::EventDelivered { event: E_ROOTEV, .. }));
    assert!(matches!(mid_delivered, Some(TraceEvent::EventDelivered { handler_state: BUB_SM, .. })));
    assert!(matches!(root_delivered, Some(TraceEvent::EventDelivered { handler_state: BUB_SR, .. })));
}

#[test]
fn det_bub_multiple_unknown_events_each_dropped() {
    let mut m = Sm::new(BUB, &[]);
    let _ = m.dispatch("Unknown");
    let _ = m.dispatch("Unknown");
    let _ = m.dispatch("Unknown");
    let dropped_count = m.journal().iter().filter(|e| matches!(e, TraceEvent::EventDropped { .. })).count();
    assert_eq!(dropped_count, 3);
}

#[test]
fn det_bub_byte_deterministic_under_mixed_events() {
    let run = || {
        let mut m = Sm::new(BUB, &[]);
        let _ = m.dispatch("LeafEv");
        let _ = m.dispatch("MidEv");
        let _ = m.dispatch("Unknown");
        let _ = m.dispatch("Shadowed");
        let _ = m.dispatch("MultiAct");
        let _ = m.dispatch("RootEv");
        m.take_journal()
    };
    let first = run();
    for i in 1..15 {
        assert_eq!(first, run(), "diverged on run {i}");
    }
}

fn entered_states(j: &[TraceEvent]) -> Vec<u16> {
    j.iter()
        .filter_map(|e| match e {
            TraceEvent::Entered { state } => Some(*state),
            _ => None,
        })
        .collect()
}

fn exited_states(j: &[TraceEvent]) -> Vec<u16> {
    j.iter()
        .filter_map(|e| match e {
            TraceEvent::Exited { state } => Some(*state),
            _ => None,
        })
        .collect()
}

fn entry_action_states(j: &[TraceEvent]) -> Vec<u16> {
    j.iter()
        .filter_map(|e| match e {
            TraceEvent::ActionInvoked { state, kind: ActionKind::Entry, .. } => Some(*state),
            _ => None,
        })
        .collect()
}

const CUR: &str = "Cur { context: Ctx; events: Ev; default(Parent); terminate(Halt);
    state Parent { entry: p_in; exit: p_out; default(A);
        state A { entry: a_in; exit: a_out; on(GoB) => B; on(UpToParent) => Parent; }
        state B { entry: b_in; exit: b_out; on(UpToParent) => Parent; } } }";

#[test]
fn det_current_state_initial_is_default_leaf() {
    let mut m = Sm::new(CUR, &[]);
    let _ = m.dispatch("GoB");
    assert_eq!(m.current_state(), "B");
}

#[test]
fn det_current_state_after_lateral_transition() {
    let mut m = Sm::new(CUR, &[]);
    let _ = m.dispatch("GoB");
    assert_eq!(m.current_state(), "B");
}

#[test]
fn det_current_state_after_up_returns_composite() {
    let mut m = Sm::new(CUR, &[]);
    let _ = m.dispatch("UpToParent");
    assert_eq!(m.current_state(), "Parent", "after up-transition, current_state returns the composite Parent");
}

const ANCESTOR_DEFAULT: &str = "AncestorDefault { context: Ctx; events: Ev; default(Outer); terminate(Halt);
    state Outer { entry: outer_in; on(GoIn) => Inner;
        state Inner { entry: inner_in; exit: inner_out; default(Outer); } } }";
const AD_ROOT: u16 = 0;
const AD_OUTER: u16 = 1;
const AD_INNER: u16 = 2;

#[test]
fn det_initial_lands_at_outer_no_default_descent() {
    let mut m = Sm::new(ANCESTOR_DEFAULT, &[]);
    let _ = m.step(Duration::ZERO);
    assert_eq!(m.current_state(), "Outer");
    let j = m.take_journal();
    assert_eq!(entered_states(&j), vec![AD_ROOT, AD_OUTER]);
}

#[test]
fn det_explicit_into_inner_bounces_back_via_up_default() {
    let mut m = Sm::new(ANCESTOR_DEFAULT, &[]);
    let _ = m.dispatch("GoIn");
    assert_eq!(m.current_state(), "Outer", "Inner's default bounces us back to Outer");
    let j = m.take_journal();
    assert_eq!(entered_states(&j), vec![AD_ROOT, AD_OUTER, AD_INNER]);
    assert_eq!(exited_states(&j), vec![AD_INNER], "only Inner exits; Outer remains on the active path");
    let outer_entries = j
        .iter()
        .filter(|e| matches!(e, TraceEvent::ActionInvoked { state: AD_OUTER, kind: ActionKind::Entry, .. }))
        .count();
    assert_eq!(outer_entries, 1, "Outer is entered once and stays put");
}

const MICROWAVE: &str = "Microwave { context: Ctx; events: Ev; default(Standby); terminate(Halt);
    state Standby { entry: standby_in; exit: standby_out; on(PowerOn) => On; on(EnterLowPower) => LowPower;
        state LowPower { entry: low_in; exit: low_out; on(LeaveLowPower) => Standby; } }
    state On { entry: on_in; exit: on_out; on(PowerOff) => Standby; } }";
const MW_SR: u16 = 0;
const S_STANDBY: u16 = 1;
const S_LOW: u16 = 2;

#[test]
fn det_initial_lands_on_composite_no_descent() {
    let mut m = Sm::new(MICROWAVE, &[]);
    let _ = m.step(Duration::ZERO);
    assert_eq!(m.current_state(), "Standby", "innermost active state is the composite Standby");
    let j = m.take_journal();
    assert_eq!(
        entered_states(&j),
        vec![MW_SR, S_STANDBY],
        "initial entry stops at Standby; no default-descent into LowPower"
    );
}

#[test]
fn det_transition_into_substate_works() {
    let mut m = Sm::new(MICROWAVE, &[]);
    let _ = m.dispatch("EnterLowPower");
    assert_eq!(m.current_state(), "LowPower");
    let j = m.take_journal();
    assert_eq!(entered_states(&j), vec![MW_SR, S_STANDBY, S_LOW]);
}

#[test]
fn det_up_from_substate_lands_on_composite() {
    let mut m = Sm::new(MICROWAVE, &[]);
    let _ = m.dispatch("EnterLowPower");
    let _ = m.dispatch("LeaveLowPower");
    assert_eq!(m.current_state(), "Standby");
    let j = m.take_journal();
    let standby_entries = entry_action_states(&j).iter().filter(|&&s| s == S_STANDBY).count();
    assert_eq!(standby_entries, 1, "Standby's entry runs once; up-transition does not re-enter it");
    assert_eq!(exited_states(&j), vec![S_LOW], "only LowPower is exited; Standby remains on the active path");
}

#[test]
fn det_lateral_to_composite_does_not_descend() {
    let mut m = Sm::new(MICROWAVE, &[]);
    let _ = m.dispatch("PowerOn");
    assert_eq!(m.current_state(), "On");
    let _ = m.dispatch("PowerOff");
    assert_eq!(m.current_state(), "Standby", "PowerOff lands on Standby; absence of `default` skips descent");
    let j = m.take_journal();
    assert!(!entered_states(&j).contains(&S_LOW), "no descent into LowPower on entry to Standby");
}

#[test]
fn det_terminate_from_composite_unwinds_path() {
    let mut m = Sm::new(MICROWAVE, &[]);
    let _ = m.dispatch("Halt");
    let j = m.take_journal();
    assert_eq!(exited_states(&j), vec![S_STANDBY, MW_SR], "terminate from Standby exits Standby then Root");
    assert!(matches!(j.last(), Some(TraceEvent::Terminated)));
}

const EQ: &str = "Eq { context: Ctx; events: Ev; default(A); terminate(Halt);
    state A { entry: a_in; exit: a_out; on(Tick) => B; }
    state B { entry: b_in; exit: b_out; on(Tick) => A; } }";

#[test]
fn det_dispatch_drains_to_quiescence() {
    let mut m = Sm::new(EQ, &[]);
    let _ = m.dispatch("Tick");
    assert!(!m.has_pending_events());
}

#[test]
fn det_step_and_dispatch_produce_same_journal() {
    let mut m1 = Sm::new(EQ, &[]);
    let _ = m1.dispatch("Tick");
    let _ = m1.dispatch("Tick");
    let _ = m1.dispatch("Halt");
    let j_dispatch = m1.take_journal();
    let mut m2 = Sm::new(EQ, &[]);
    m2.send("Tick").unwrap();
    m2.send("Tick").unwrap();
    m2.send("Halt").unwrap();
    for _ in 0..20 {
        let _ = m2.step(Duration::ZERO);
        if m2.is_terminated() {
            break;
        }
    }
    let j_step = m2.take_journal();
    assert_eq!(j_dispatch, j_step, "step and dispatch must produce identical journals for the same event sequence");
}

#[test]
fn det_step_is_at_most_one_unit_of_work() {
    let mut m = Sm::new(EQ, &[]);
    m.send("Tick").unwrap();
    m.send("Tick").unwrap();
    m.send("Halt").unwrap();
    let _ = m.step(Duration::ZERO);
    let len_after_2 = {
        let _ = m.step(Duration::ZERO);
        m.journal().len()
    };
    let _ = m.step(Duration::ZERO);
    let len_after_3 = m.journal().len();
    assert!(len_after_3 > len_after_2, "step processes additional events");
}

#[test]
fn det_step_repeated_idempotent_when_queue_empty() {
    let mut m = Sm::new(EQ, &[]);
    let _ = m.step(Duration::ZERO);
    let len_after_first = m.journal().len();
    for _ in 0..10 {
        let _ = m.step(Duration::ZERO);
    }
    assert_eq!(m.journal().len(), len_after_first, "step(ZERO) on empty queue must not change journal");
}

const ET: &str = "Et { context: Ctx; events: Ev; default(A); terminate(Halt);
    on(Cleanup) => log_cleanup; on(Wakeup) => log_wakeup;
    state A { entry: a_in; exit: emit_cleanup; on(Go) => B; }
    state B { entry: emit_wakeup; exit: b_out; } }";

fn et() -> Sm {
    Sm::new(
        ET,
        &[
            ("emit_cleanup", Does::LogTryEmit("emit_cleanup", "Cleanup")),
            ("emit_wakeup", Does::LogTryEmit("emit_wakeup", "Wakeup")),
        ],
    )
}

#[test]
fn det_emit_in_exit_action_runs_after_transition() {
    let mut m = et();
    let _ = m.dispatch("Go");
    let j = m.take_journal();
    let cleanup_queued = j.iter().position(|e| matches!(e, TraceEvent::EmitQueued { event: 0 }));
    let wakeup_queued = j.iter().position(|e| matches!(e, TraceEvent::EmitQueued { event: 1 }));
    let cleanup_delivered = j.iter().position(|e| matches!(e, TraceEvent::EventDelivered { event: 0, .. }));
    let wakeup_delivered = j.iter().position(|e| matches!(e, TraceEvent::EventDelivered { event: 1, .. }));
    assert!(cleanup_queued.is_some(), "Cleanup must be queued");
    assert!(wakeup_queued.is_some(), "Wakeup must be queued");
    assert!(cleanup_delivered.is_some(), "Cleanup must be delivered");
    assert!(wakeup_delivered.is_some(), "Wakeup must be delivered");
    assert!(cleanup_queued.unwrap() < cleanup_delivered.unwrap());
    assert!(
        wakeup_queued.unwrap() < cleanup_delivered.unwrap(),
        "Wakeup queued before Cleanup delivered (transition completes first)"
    );
}

#[test]
fn det_emit_in_exit_action_journals_in_order() {
    let mut m = et();
    let _ = m.dispatch("Go");
    let j = m.take_journal();
    let queued_events: Vec<u16> = j
        .iter()
        .filter_map(|e| match e {
            TraceEvent::EmitQueued { event } => Some(*event),
            _ => None,
        })
        .collect();
    assert_eq!(queued_events, vec![0, 1], "Cleanup (id 0) then Wakeup (id 1)");
}

#[test]
fn det_emit_in_transition_byte_deterministic() {
    let run = || {
        let mut m = et();
        let _ = m.dispatch("Go");
        m.take_journal()
    };
    let first = run();
    for i in 1..10 {
        assert_eq!(first, run(), "diverged on run {i}");
    }
}

const PT: &str = "Pt { context: Ctx; events: Ev; default(Parent); terminate(Halt);
    state Parent { entry: p_in; exit: p_out; default(ChildA);
        on(after Duration::from_millis(100)) => Done;
        state ChildA { entry: ca_in; exit: ca_out; } }
    state Done { entry: d_in; } }";
const PT_SP: u16 = 1;
const T_PARENT: u16 = 0;

#[test]
fn det_parent_timer_armed_before_child_entered() {
    let mut m = Sm::new(PT, &[]);
    let _ = m.dispatch("Halt");
    let j = m.take_journal();
    let armed_idx = j.iter().position(|e| matches!(e, TraceEvent::TimerArmed { state: PT_SP, .. })).unwrap();
    let child_entered_idx = j.iter().position(|e| matches!(e, TraceEvent::Entered { state: 2 })).unwrap();
    assert!(
        armed_idx < child_entered_idx,
        "TimerArmed (Parent) at {} must precede Entered (ChildA) at {}",
        armed_idx,
        child_entered_idx
    );
}

#[test]
fn det_parent_timer_only_one_arm_in_initial_descent() {
    let mut m = Sm::new(PT, &[]);
    let _ = m.dispatch("Halt");
    let armed: Vec<u16> = m
        .journal()
        .iter()
        .filter_map(|e| match e {
            TraceEvent::TimerArmed { state, .. } => Some(*state),
            _ => None,
        })
        .collect();
    assert_eq!(armed, vec![PT_SP]);
}

#[test]
fn det_parent_timer_cancelled_on_termination() {
    let mut m = Sm::new(PT, &[]);
    let _ = m.dispatch("Halt");
    let cancels: Vec<&TraceEvent> =
        m.journal().iter().filter(|e| matches!(e, TraceEvent::TimerCancelled { .. })).collect();
    assert_eq!(cancels.len(), 1, "expected exactly 1 TimerCancelled (Parent's), got {:?}", cancels);
    assert!(matches!(cancels[0], TraceEvent::TimerCancelled { state: PT_SP, timer: T_PARENT }));
}

const DU: &str = "Du { context: Ctx; events: Ev; default(Working); terminate(Halt);
    state Working { entry: w_in; exit: w_out; during: tick_a(a); during: tick_b(b); on(Done) => Idle; }
    state Idle { entry: i_in; exit: i_out; } }";
const DU_SW: u16 = 1;
const DU_SI: u16 = 2;

#[test]
fn det_during_started_after_entries() {
    let mut m = Sm::new(DU, &[]);
    let _ = m.dispatch("Halt");
    let j = m.take_journal();
    let w_entry_idx = j.iter().position(|e| matches!(e, TraceEvent::ActionInvoked { state: DU_SW, kind: ActionKind::Entry, .. }));
    let d_started_idx = j.iter().position(|e| matches!(e, TraceEvent::DuringStarted { state: DU_SW, .. }));
    assert!(w_entry_idx.is_some());
    assert!(d_started_idx.is_some());
    assert!(w_entry_idx.unwrap() < d_started_idx.unwrap(), "DuringStarted must come AFTER entry actions");
}

#[test]
fn det_during_cancelled_before_exits() {
    let mut m = Sm::new(DU, &[]);
    let _ = m.dispatch("Halt");
    let j = m.take_journal();
    let d_cancelled_idx = j.iter().position(|e| matches!(e, TraceEvent::DuringCancelled { state: DU_SW, .. }));
    let w_exit_idx = j.iter().position(|e| matches!(e, TraceEvent::ActionInvoked { state: DU_SW, kind: ActionKind::Exit, .. }));
    assert!(d_cancelled_idx.is_some(), "DuringCancelled must appear");
    assert!(w_exit_idx.is_some(), "exit actions must run");
    assert!(d_cancelled_idx.unwrap() < w_exit_idx.unwrap(), "DuringCancelled must come BEFORE exit actions");
}

#[test]
fn det_during_two_durings_two_started_two_cancelled() {
    let mut m = Sm::new(DU, &[]);
    let _ = m.dispatch("Halt");
    let j = m.take_journal();
    let started = j.iter().filter(|e| matches!(e, TraceEvent::DuringStarted { state: DU_SW, .. })).count();
    let cancelled = j.iter().filter(|e| matches!(e, TraceEvent::DuringCancelled { state: DU_SW, .. })).count();
    assert_eq!(started, 2);
    assert_eq!(cancelled, 2);
}

#[test]
fn det_during_indices_are_declaration_order() {
    let mut m = Sm::new(DU, &[]);
    let _ = m.dispatch("Halt");
    let started_indices: Vec<u16> = m
        .journal()
        .iter()
        .filter_map(|e| match e {
            TraceEvent::DuringStarted { during, .. } => Some(*during),
            _ => None,
        })
        .collect();
    assert_eq!(started_indices, vec![0, 1]);
}

#[test]
fn det_during_cancelled_indices_match() {
    let mut m = Sm::new(DU, &[]);
    let _ = m.dispatch("Halt");
    let cancelled_indices: Vec<u16> = m
        .journal()
        .iter()
        .filter_map(|e| match e {
            TraceEvent::DuringCancelled { during, .. } => Some(*during),
            _ => None,
        })
        .collect();
    assert_eq!(cancelled_indices, vec![0, 1]);
}

#[test]
fn det_during_state_id_matches() {
    let mut m = Sm::new(DU, &[]);
    let _ = m.dispatch("Halt");
    let started_states: Vec<u16> = m
        .journal()
        .iter()
        .filter_map(|e| match e {
            TraceEvent::DuringStarted { state, .. } => Some(*state),
            _ => None,
        })
        .collect();
    assert!(started_states.iter().all(|&s| s == DU_SW));
}

#[test]
fn det_during_no_durings_on_idle() {
    let mut m = Sm::new(DU, &[]);
    let _ = m.dispatch("Done");
    let on_idle: usize = m.journal().iter().filter(|e| matches!(e, TraceEvent::DuringStarted { state: DU_SI, .. })).count();
    assert_eq!(on_idle, 0);
}

#[test]
fn det_during_byte_deterministic() {
    let run = || {
        let mut m = Sm::new(DU, &[]);
        let _ = m.dispatch("Done");
        let _ = m.dispatch("Halt");
        m.take_journal()
    };
    let first = run();
    for i in 1..10 {
        assert_eq!(first, run(), "diverged on run {i}");
    }
}

#[test]
fn dispatch_drains_before_returning() {
    let mut m = Sm::new(
        "DispatchM { context: Ctx; events: Ev; default(Start); terminate(Halt);
           state Start { on(Go) => Next; }
           state Next { entry: mark_entered; } }",
        &[],
    );
    m.dispatch("Go").unwrap();
    assert_eq!(m.current_state(), "Next");
    assert_eq!(m.logs(), ["mark_entered"]);
}

#[test]
fn owned_timers_sharing_a_duration_both_arm() {
    let src = "P2 { context: C; events: Ev; default(P);
        state P { default(K); on(after Duration::from_secs(5)) => X;
            state K { on(after Duration::from_secs(5)) => Y; } }
        state X { entry: x; }
        state Y { entry: y; } }";
    let (ir, chart, mut ctx) = build(src, &[]);
    assert_eq!(ir.duration_triggers.len(), 1);
    assert_eq!(timer_slots(&ir), 2);
    let mut m: Machine<String, 8, 2> = Machine::new(chart);
    m.step(&mut ctx, Duration::ZERO);
    m.step(&mut ctx, Duration::from_secs(5));
    let cur = m.current_state().expect("an active state");
    assert_eq!(ir.states[cur as usize].name, "Y");
    assert_eq!(ctx.log, ["y"]);
}

#[test]
fn timer_slots_count_owned_pairs() {
    let (ir, _, _) = build("N { context: C; events: Ev; default(A); state A { on(Go) => B; } state B { entry: b; } }", &[]);
    assert_eq!(timer_slots(&ir), 1);
    let (ir, _, _) = build(
        "S3 { context: C; events: Ev; default(A); on(after Duration::from_secs(1)) => B;
           state A { on(after Duration::from_secs(1)) => B; on(after Duration::from_secs(2)) => B; }
           state B { entry: b; } }",
        &[],
    );
    assert_eq!(ir.duration_triggers.len(), 2);
    assert_eq!(timer_slots(&ir), 3);
}

#[test]
fn emit_while_terminating_is_refused() {
    let mut m = Sm::new(
        "TE { context: TestCtx; events: Ev; default(A); terminate(Halt);
           state A { exit: a_exit; on(Go) => g; } }",
        &[("a_exit", Does::Probe("Go"))],
    );
    m.step(Duration::ZERO);
    m.send("Halt").unwrap();
    m.step(Duration::ZERO);
    assert!(m.is_terminated());
    assert_eq!(m.logs(), ["Err(AlreadyTerminated)"]);
    assert!(!m.has_pending_events());
    assert!(!m
        .journal()
        .iter()
        .any(|e| matches!(e, TraceEvent::EmitQueued { .. } | TraceEvent::EmitFailed { .. })));
}

#[test]
fn transition_to_ancestor_exits_without_reentry() {
    let mut m = Sm::new(
        "T28 { context: TestCtx; events: Ev; default(A);
           state A { default(B); entry: a_entry; exit: a_exit;
             state B { entry: b_entry; exit: b_exit; on(Up) => A; } } }",
        &[],
    );
    m.step(Duration::ZERO);
    assert_eq!(m.logs(), ["a_entry", "b_entry"]);
    m.clear_log();
    m.send("Up").unwrap();
    m.step(Duration::ZERO);
    assert_eq!(m.current_state(), "A");
    assert_eq!(m.logs(), ["b_exit"]);
}

#[test]
fn handlers_get_the_event_and_other_actions_none() {
    let mut m = Sm::new(
        "HE { context: TestCtx; events: Ev; default(A);
           state A { entry: a_in; exit: a_out; on(Go) => seen; on(Go) => B; }
           state B { entry: b_in; } }",
        &[
            ("a_in", Does::LogEvent("a_in")),
            ("a_out", Does::LogEvent("a_out")),
            ("seen", Does::LogEvent("seen")),
            ("b_in", Does::LogEvent("b_in")),
        ],
    );
    m.step(Duration::ZERO);
    m.send("Go").unwrap();
    m.step(Duration::ZERO);
    assert_eq!(m.logs(), ["a_in:None", "seen:Some(\"Go\")", "a_out:None", "b_in:None"]);
    assert_eq!(m.current_state(), "B");
}

#[test]
fn settle_step_reports_whether_events_wait() {
    let (_ir, chart, mut ctx) = build(
        "SS { context: C; events: Ev; default(A);
           state A { entry: a_in; on(Go) => B; }
           state B { entry: b_in; } }",
        &[("a_in", Does::LogEmit("a_in", "Go"))],
    );
    let mut m: Machine<String, 8, 8> = Machine::new(chart);
    let (_, more) = m.settle_step(&mut ctx, Duration::ZERO);
    assert!(more);
    let (_, more) = m.settle_step(&mut ctx, Duration::ZERO);
    assert!(!more);
    assert_eq!(ctx.log, ["a_in", "b_in"]);
    assert!(!m.take_overflow());
}

/// Drive one step through its parts, calling the actions in between.
fn step_by_parts(m: &mut Machine<String, 8, 8>, ctx: &mut Ctx, elapsed: Duration) -> Option<Duration> {
    let mut run = match m.begin_step(elapsed) {
        Some(run) => run,
        None => return None,
    };
    loop {
        match m.advance(&mut run) {
            Next::Done => break,
            Next::Noted => {},
            Next::Act { action, with_event } => {
                let mut sink = m.open_sink(run.is_closing());
                let event = if with_event { run.event() } else { None };
                ctx.run_action(action, event, &mut sink);
                let _ = m.close_action(sink);
            },
        }
    }
    m.end_step(run)
}

#[test]
fn stepping_by_parts_matches_step() {
    let src = "PT { context: C; events: Ev; default(A); terminate(Halt);
        state A { entry: a_in; exit: a_out; on(Go) => seen; on(Go) => B; on(after Duration::from_millis(5)) => B; }
        state B { entry: b_in; on(Back) => A; } }";
    let does = [("a_in", Does::LogEmit("a_in", "Go")), ("seen", Does::LogEvent("seen"))];
    let (_, c1, mut x1) = build(src, &does);
    let (_, c2, mut x2) = build(src, &does);
    let mut m1: Machine<String, 8, 8> = Machine::new(c1);
    let mut m2: Machine<String, 8, 8> = Machine::new(c2);
    let script: [(Option<&str>, u64); 6] =
        [(None, 0), (None, 0), (Some("Back"), 0), (None, 0), (None, 3), (Some("Halt"), 0)];
    for (ev, ms) in script {
        if let Some(e) = ev {
            let id = event_id(&x1.events, e);
            m1.send(id, e.to_string()).unwrap();
            m2.send(id, e.to_string()).unwrap();
        }
        let r1 = m1.step(&mut x1, Duration::from_millis(ms));
        let r2 = step_by_parts(&mut m2, &mut x2, Duration::from_millis(ms));
        assert_eq!(r1, r2);
        assert_eq!(m1.journal(), m2.journal());
        assert_eq!(m1.current_state(), m2.current_state());
    }
    assert_eq!(x1.log, x2.log);
    assert!(m2.is_terminated());
    assert!(m2.begin_step(Duration::ZERO).is_none());
}

#[test]
fn a_stale_sink_is_dropped() {
    let (_, chart, mut ctx) = build(
        "ST { context: C; events: Ev; default(A); state A { entry: a_in; on(Go) => B; } state B { entry: b_in; } }",
        &[],
    );
    let mut m: Machine<String, 8, 8> = Machine::new(chart);
    m.step(&mut ctx, Duration::ZERO);
    let before = m.journal().len();
    let mut sink = m.open_sink(false);
    sink.emit(0, "Go".to_string()).unwrap();
    // The queue changed since the sink was opened: nothing it holds is kept.
    m.send(0, "Go".to_string()).unwrap();
    let _ = m.close_action(sink);
    assert_eq!(m.journal().len(), before);
    let (_, more) = m.settle_step(&mut ctx, Duration::ZERO);
    assert!(!more);
    assert_eq!(ctx.log, ["a_in", "b_in"]);
}
