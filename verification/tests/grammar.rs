use hsmc::ir::build_ir;
use hsmc::parse::{parse_statechart, Delim, Expect, ParseError, Tok};
use hsmc::parse_tree::{HandlerKind, PayloadKind, StatechartInput, Trigger};
use proc_macro2::{Delimiter, Spacing, TokenStream, TokenTree};

fn conv(ts: TokenStream) -> Vec<Tok> {
    ts.into_iter()
        .map(|tt| match tt {
            TokenTree::Ident(i) => Tok::Ident(i.to_string()),
            TokenTree::Punct(p) => Tok::Punct(p.as_char(), p.spacing() == Spacing::Joint),
            TokenTree::Literal(l) => Tok::Lit(l.to_string()),
            TokenTree::Group(g) => {
                let d = match g.delimiter() {
                    Delimiter::Parenthesis => Delim::Paren,
                    Delimiter::Brace => Delim::Brace,
                    Delimiter::Bracket => Delim::Bracket,
                    Delimiter::None => Delim::Invisible,
                };
                Tok::Group(d, conv(g.stream()))
            },
        })
        .collect()
}

fn parse(src: &str) -> Result<StatechartInput, ParseError> {
    let ts: TokenStream = src.parse().unwrap();
    parse_statechart(&conv(ts))
}

const LAT: &str = r#"
    Lat {
        context: Ctx;
        events:  Ev;
        default(Parent);
        terminate(Halt);

        state Parent {
            entry: p_in;
            exit:  p_out;
            default(A);
            state A {
                entry: a_in;
                exit:  a_out;
                on(GoB) => B;
                on(GoC) => C;
                on(GoD) => D;
                on(GoE) => E;
            }
            state B {
                entry: b_in;
                exit:  b_out;
                on(GoC) => C;
            }
        }
        state C {
            entry: c_in;
            exit:  c_out;
        }
        state D {
            entry: d_in;
            exit:  d_out;
            default(E);
            state E {
                entry: e_in;
                exit:  e_out;
            }
        }
    }
"#;

#[test]
fn parses_a_full_chart() {
    let input = parse(LAT).unwrap();
    assert_eq!(input.name, "Lat");
    assert_eq!(input.body.context_ty.as_deref(), Some("Ctx"));
    assert_eq!(input.body.event_ty.as_deref(), Some("Ev"));
    assert_eq!(input.body.default_child.as_deref(), Some("Parent"));
    assert_eq!(input.body.terminate.as_deref(), Some("Halt"));
    assert_eq!(input.body.default_count, 1);
    assert_eq!(input.body.terminate_count, 1);
    let names: Vec<&str> = input.body.children.iter().map(|c| c.name.as_str()).collect();
    assert_eq!(names, vec!["Parent", "C", "D"]);
    let a = &input.body.children[0].body.children[0];
    assert_eq!(a.name, "A");
    assert_eq!(a.body.handlers.len(), 4);
    assert_eq!(a.body.handlers[3].decl_index, 3);
    match (&a.body.handlers[2].trigger, &a.body.handlers[2].kind) {
        (Trigger::Event { variant, payload: None }, HandlerKind::Target(t)) => {
            assert_eq!(variant, "GoD");
            assert_eq!(t, "D");
        },
        _ => panic!("unexpected handler"),
    }
    let ir = build_ir(input).unwrap();
    let states: Vec<&str> = ir.states.iter().map(|s| s.name.as_str()).collect();
    assert_eq!(states, vec!["__Root", "Parent", "A", "B", "C", "D", "E"]);
    let events: Vec<&str> = ir.event_variants.iter().map(|e| e.name.as_str()).collect();
    assert_eq!(events, vec!["GoB", "GoC", "GoD", "GoE", "Halt"]);
}

#[test]
fn handler_lists_number_each_target() {
    let input = parse("M { context: C; state S { on(Go) => log, count, T; } state T { entry: x; } }").unwrap();
    let hs = &input.body.children[0].body.handlers;
    assert_eq!(hs.len(), 3);
    let targets: Vec<String> = hs
        .iter()
        .map(|h| match &h.kind {
            HandlerKind::Target(t) => t.clone(),
        })
        .collect();
    assert_eq!(targets, vec!["log", "count", "T"]);
    let idx: Vec<usize> = hs.iter().map(|h| h.decl_index).collect();
    assert_eq!(idx, vec![0, 1, 2]);
}

#[test]
fn duration_triggers_keep_text_and_key() {
    let input = parse("M { context: C; state S { on(after Duration::from_millis(250)) => T; on(every hsmc::Duration::from_secs(1)) => tick; } state T { entry: x; } }").unwrap();
    let hs = &input.body.children[0].body.handlers;
    match &hs[0].trigger {
        Trigger::Duration { expr, key, repeat } => {
            assert_eq!(key, "Duration::from_millis(250)");
            assert!(!repeat);
            let reparsed: TokenStream = expr.parse().unwrap();
            assert_eq!(reparsed.to_string().split_whitespace().collect::<String>(), "Duration::from_millis(250)");
        },
        _ => panic!("expected a duration"),
    }
    match &hs[1].trigger {
        Trigger::Duration { key, repeat, .. } => {
            assert_eq!(key, "hsmc::Duration::from_secs(1)");
            assert!(repeat);
        },
        _ => panic!("expected a duration"),
    }
}

#[test]
fn typed_payload_bindings() {
    let input = parse("M { context: C; events: E; state S { on(Set(v: u8, w: Vec<(u8, u16)>)) => apply; on(Move { x: i32 }) => go; } }").unwrap();
    let hs = &input.body.children[0].body.handlers;
    match &hs[0].trigger {
        Trigger::Event { variant, payload: Some(p) } => {
            assert_eq!(variant, "Set");
            assert_eq!(p.kind, PayloadKind::Tuple);
            assert_eq!(p.fields.len(), 2);
            assert_eq!(p.fields[0].name, "v");
            assert_eq!(p.fields[0].ty, "u8");
            assert_eq!(p.fields[1].name, "w");
            assert_eq!(p.fields[1].ty, "Vec < (u8 , u16) >");
        },
        _ => panic!("expected typed bindings"),
    }
    match &hs[1].trigger {
        Trigger::Event { payload: Some(p), .. } => {
            assert_eq!(p.kind, PayloadKind::Struct);
            assert_eq!(p.fields[0].ty, "i32");
        },
        _ => panic!("expected typed bindings"),
    }
}

#[test]
fn during_declarations() {
    let input = parse("M { context: C; state S { during: blink(led, pwm); during: idle; } }").unwrap();
    let ds = &input.body.children[0].body.durings;
    assert_eq!(ds.len(), 2);
    assert_eq!(ds[0].fn_name, "blink");
    assert_eq!(ds[0].fields, vec!["led".to_string(), "pwm".to_string()]);
    assert_eq!(ds[1].fn_name, "idle");
    assert!(ds[1].fields.is_empty());
}

#[test]
fn repeated_defaults_are_counted_and_first_kept() {
    let input = parse("M { context: C; default(A); default(B); state A { entry: x; } state B { entry: y; } }").unwrap();
    assert_eq!(input.body.default_count, 2);
    assert_eq!(input.body.default_child.as_deref(), Some("A"));
}

#[test]
fn grammar_errors() {
    assert!(matches!(parse("{ }"), Err(ParseError::ExpectedChartName)));
    assert!(matches!(parse("M ( )"), Err(ParseError::ExpectedChartBody)));
    assert!(matches!(parse("M { } extra"), Err(ParseError::TrailingTokens)));
    assert!(matches!(parse("M { frobnicate: x; }"), Err(ParseError::UnknownItem { name }) if name == "frobnicate"));
    assert!(matches!(parse("M { ; }"), Err(ParseError::ExpectedItem)));
    assert!(matches!(parse("M { context C; }"), Err(ParseError::Expected { what: Expect::Colon })));
    assert!(matches!(parse("M { context: C }"), Err(ParseError::Expected { what: Expect::Semicolon })));
    assert!(matches!(parse("M { context: ; }"), Err(ParseError::Expected { what: Expect::Type })));
    assert!(matches!(parse("M { state S { context: C; } }"), Err(ParseError::ContextNotAtRoot)));
    assert!(matches!(parse("M { state S { events: E; } }"), Err(ParseError::EventsNotAtRoot)));
    assert!(matches!(parse("M { entry: ; }"), Err(ParseError::Expected { what: Expect::Ident })));
    assert!(matches!(parse("M { default A; }"), Err(ParseError::Expected { what: Expect::ParenGroup })));
    assert!(matches!(parse("M { default(A B); }"), Err(ParseError::UnexpectedTokens)));
    assert!(matches!(parse("M { on(Go) -> A; }"), Err(ParseError::Expected { what: Expect::FatArrow })));
    assert!(matches!(parse("M { on(after 5) => A; }"), Err(ParseError::BareNumericDuration)));
    assert!(matches!(parse("M { on(after) => A; }"), Err(ParseError::Expected { what: Expect::Expr })));
    assert!(matches!(parse("M { on(Ev::Go) => A; }"), Err(ParseError::BadTrigger)));
    assert!(matches!(parse("M { on(1) => A; }"), Err(ParseError::BadTrigger)));
    assert!(matches!(parse("M { on(Go [x]) => A; }"), Err(ParseError::UnexpectedAfterVariant)));
    assert!(matches!(parse("M { on(Go(a: u8) x) => A; }"), Err(ParseError::UnexpectedTokens)));
    assert!(matches!(parse("M { on(Go(a u8)) => A; }"), Err(ParseError::Expected { what: Expect::Colon })));
    assert!(matches!(parse("M { during: f(a b); }"), Err(ParseError::UnexpectedTokens)));
    assert!(matches!(parse("M { state { } }"), Err(ParseError::Expected { what: Expect::Ident })));
    assert!(matches!(parse("M { state S ( ) }"), Err(ParseError::Expected { what: Expect::BraceGroup })));
}

#[test]
fn same_duration_and_flag_share_one_timer() {
    let input = parse(
        "M { context: C; default(A);
             state A { on(after Duration::from_secs(5)) => B; on(every Duration::from_secs(5)) => tick; }
             state B { on(after Duration::from_secs(5)) => A; on(after Duration::from_secs(6)) => A; } }",
    )
    .unwrap();
    let mut ir = build_ir(input).unwrap();
    hsmc::ir::resolve_transitions(&mut ir).unwrap();
    let keys: Vec<&str> = ir.duration_triggers.iter().map(|d| d.key.as_str()).collect();
    assert_eq!(keys, vec!["Duration::from_secs(5):false", "Duration::from_secs(5):true", "Duration::from_secs(6):false"]);
    let ids: Vec<u16> = ir.duration_triggers.iter().map(|d| d.id).collect();
    assert_eq!(ids, vec![0, 1, 2]);
    assert_eq!(ir.states[1].owned_timers, vec![0, 1]);
    assert_eq!(ir.states[2].owned_timers, vec![0, 2]);
}

#[test]
fn t9_5_default_childless() {
    let input = parse(
        "M { context: Ctx; events: Ev; default(Leaf); state Leaf { default(Ghost); entry: e; } }",
    )
    .unwrap();
    match hsmc::validate::validate_parse_tree(&input) {
        Err(hsmc::validate::ValidationError::UnknownDefault { target }) => assert_eq!(target, "Ghost"),
        other => panic!("expected an unknown default target, got {:?}", other),
    }
    // The chart's own name and any declared state are accepted.
    let ok = parse("M { context: Ctx; default(B); state A { default(M); entry: e; } state B { default(A); entry: f; } }")
        .unwrap();
    assert!(hsmc::validate::validate_parse_tree(&ok).is_ok());
}
