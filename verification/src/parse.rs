//! The `statechart!` grammar over a token tree.
//!
//! A chart is `Name { items }`; each item is one of
//! `context: Type;`, `events: Type;`, `entry: a, b;`, `exit: a, b;`,
//! `default(State);`, `terminate(Event);`, `on(trigger) => t1, t2;`,
//! `during: f(field, ...);` and `state Name { items }`. A trigger is
//! `after <expr>` or `every <expr>` (a duration), or an event variant `V`,
//! `V(a: T, ...)` or `V { a: T, ... }`. Types and duration expressions are
//! taken as token runs; their Rust syntax is not checked here.

use vstd::prelude::*;
use vstd::string::StringExecFns;
use crate::ir::{opt_text, during_view, durings_view, names_view};
use crate::intern::{clone_fields, fields_view};
use crate::parse_tree::{During, EventPayload, Handler, HandlerKind, PayloadField, PayloadKind, StateBody, StateDecl, StatechartInput, Trigger};

verus! {

/// How a group of tokens is delimited.
#[derive(Clone, Copy, Debug, PartialEq, Eq, Structural)]
pub enum Delim {
    Paren,
    Brace,
    Bracket,
    Invisible,
}

/// A token tree: an identifier (keywords included), a punctuation character
/// (`true` when it is joined to the next one, as in `=>` or `::`), a
/// literal's source text, or a delimited group.
#[derive(Debug)]
pub enum Tok {
    Ident(String),
    Punct(char, bool),
    Lit(String),
    Group(Delim, Vec<Tok>),
}

/// A token tree as plain values.
pub enum TokV {
    Ident(Seq<char>),
    Punct(char, bool),
    Lit(Seq<char>),
    Group(Delim, Seq<TokV>),
}

pub open spec fn tok_view(t: Tok) -> TokV
    decreases t,
{
    match t {
        Tok::Ident(s) => TokV::Ident(s@),
        Tok::Punct(c, j) => TokV::Punct(c, j),
        Tok::Lit(s) => TokV::Lit(s@),
        Tok::Group(d, v) => TokV::Group(
            d,
            Seq::new(v@.len(), |i: int| if 0 <= i < v@.len() { tok_view(v@[i]) } else { TokV::Punct(' ', false) }),
        ),
    }
}

pub open spec fn toks_view(v: Seq<Tok>) -> Seq<TokV> {
    Seq::new(v.len(), |i: int| tok_view(v[i]))
}

pub open spec fn open_text(d: Delim) -> Seq<char> {
    match d {
        Delim::Paren => "("@,
        Delim::Brace => "{"@,
        Delim::Bracket => "["@,
        Delim::Invisible => Seq::empty(),
    }
}

pub open spec fn close_text(d: Delim) -> Seq<char> {
    match d {
        Delim::Paren => ")"@,
        Delim::Brace => "}"@,
        Delim::Bracket => "]"@,
        Delim::Invisible => Seq::empty(),
    }
}

/// A token's text, with the tokens of a group separated by single spaces.
pub open spec fn tok_text(t: TokV) -> Seq<char>
    decreases t,
{
    match t {
        TokV::Ident(s) => s,
        TokV::Punct(c, _) => seq![c],
        TokV::Lit(s) => s,
        TokV::Group(d, v) => open_text(d) + toks_text(v) + close_text(d),
    }
}

/// Tokens' text, separated by single spaces.
pub open spec fn toks_text(v: Seq<TokV>) -> Seq<char>
    decreases v,
{
    if v.len() == 0 {
        Seq::empty()
    } else if v.len() == 1 {
        tok_text(v[0])
    } else {
        toks_text(v.subrange(0, v.len() - 1)) + " "@ + tok_text(v[v.len() - 1])
    }
}

pub open spec fn is_space(c: char) -> bool {
    c == ' ' || c == '\t' || c == '\n' || c == '\r' || c == '\x0B' || c == '\x0C'
}

/// The text without its whitespace.
pub open spec fn squeeze(s: Seq<char>) -> Seq<char>
    decreases s.len(),
{
    if s.len() == 0 {
        s
    } else if is_space(s.last()) {
        squeeze(s.drop_last())
    } else {
        squeeze(s.drop_last()).push(s.last())
    }
}

/// The parse tree's plain-value view.
pub struct BodyV {
    pub context: Option<Seq<char>>,
    pub events: Option<Seq<char>>,
    pub terminate: Option<Seq<char>>,
    pub default_child: Option<Seq<char>>,
    pub default_count: nat,
    pub terminate_count: nat,
    pub entries: Seq<Seq<char>>,
    pub exits: Seq<Seq<char>>,
    pub handlers: Seq<HandlerV>,
    pub children: Seq<(Seq<char>, BodyV)>,
    pub durings: Seq<(Seq<char>, Seq<Seq<char>>)>,
}

pub enum TriggerV {
    Event(Seq<char>, Option<(PayloadKind, Seq<(Seq<char>, Seq<char>)>)>),
    Duration(Seq<char>, Seq<char>, bool),
}

pub struct HandlerV {
    pub trigger: TriggerV,
    pub target: Seq<char>,
    pub decl_index: nat,
}

pub open spec fn trigger_view(t: Trigger) -> TriggerV {
    match t {
        Trigger::Event { variant, payload } => TriggerV::Event(
            variant@,
            match payload {
                Some(p) => Some((p.kind, fields_view(p.fields@))),
                None => None,
            },
        ),
        Trigger::Duration { expr, key, repeat } => TriggerV::Duration(expr@, key@, repeat),
    }
}

pub open spec fn handler_view(h: Handler) -> HandlerV {
    HandlerV {
        trigger: trigger_view(h.trigger),
        target: match h.kind {
            HandlerKind::Target(t) => t@,
        },
        decl_index: h.decl_index as nat,
    }
}

pub open spec fn empty_body() -> BodyV {
    BodyV {
        context: None,
        events: None,
        terminate: None,
        default_child: None,
        default_count: 0,
        terminate_count: 0,
        entries: Seq::empty(),
        exits: Seq::empty(),
        handlers: Seq::empty(),
        children: Seq::empty(),
        durings: Seq::empty(),
    }
}

pub open spec fn body_view(b: StateBody) -> BodyV
    decreases b,
{
    BodyV {
        context: opt_text(b.context_ty),
        events: opt_text(b.event_ty),
        terminate: opt_text(b.terminate),
        default_child: opt_text(b.default_child),
        default_count: b.default_count as nat,
        terminate_count: b.terminate_count as nat,
        entries: names_view(b.entries@),
        exits: names_view(b.exits@),
        handlers: b.handlers@.map_values(|h: Handler| handler_view(h)),
        children: Seq::new(
            b.children@.len(),
            |i: int|
                if 0 <= i < b.children@.len() {
                    (b.children@[i].name@, body_view(b.children@[i].body))
                } else {
                    (Seq::empty(), empty_body())
                },
        ),
        durings: durings_view(b.durings@),
    }
}

/// A token that a rule expected and did not find.
#[derive(Clone, Copy, Debug, PartialEq, Eq, Structural)]
pub enum Expect {
    Colon,
    Semicolon,
    Ident,
    ParenGroup,
    BraceGroup,
    FatArrow,
    Type,
    Expr,
}

/// Why tokens are not a chart.
#[derive(Debug)]
pub enum ParseError {
    /// The chart does not start with its name.
    ExpectedChartName,
    /// The chart's name is not followed by `{ ... }`.
    ExpectedChartBody,
    /// Tokens follow the chart's body.
    TrailingTokens,
    /// An item does not start with a keyword.
    ExpectedItem,
    /// An item starts with an unknown keyword.
    UnknownItem { name: String },
    /// A token is missing.
    Expected { what: Expect },
    /// `context:` below the root.
    ContextNotAtRoot,
    /// `events:` below the root.
    EventsNotAtRoot,
    /// A trigger is neither a duration nor an event variant.
    BadTrigger,
    /// An event variant is followed by something other than `(..)` or `{ .. }`.
    UnexpectedAfterVariant,
    /// Tokens follow a complete construct inside a group.
    UnexpectedTokens,
    /// A duration given as a bare number.
    BareNumericDuration,
}

/// A parse error as plain values.
pub enum PErr {
    ExpectedChartName,
    ExpectedChartBody,
    TrailingTokens,
    ExpectedItem,
    UnknownItem(Seq<char>),
    Expected(Expect),
    ContextNotAtRoot,
    EventsNotAtRoot,
    BadTrigger,
    UnexpectedAfterVariant,
    UnexpectedTokens,
    BareNumericDuration,
}

pub open spec fn perr_view(e: ParseError) -> PErr {
    match e {
        ParseError::ExpectedChartName => PErr::ExpectedChartName,
        ParseError::ExpectedChartBody => PErr::ExpectedChartBody,
        ParseError::TrailingTokens => PErr::TrailingTokens,
        ParseError::ExpectedItem => PErr::ExpectedItem,
        ParseError::UnknownItem { name } => PErr::UnknownItem(name@),
        ParseError::Expected { what } => PErr::Expected(what),
        ParseError::ContextNotAtRoot => PErr::ContextNotAtRoot,
        ParseError::EventsNotAtRoot => PErr::EventsNotAtRoot,
        ParseError::BadTrigger => PErr::BadTrigger,
        ParseError::UnexpectedAfterVariant => PErr::UnexpectedAfterVariant,
        ParseError::UnexpectedTokens => PErr::UnexpectedTokens,
        ParseError::BareNumericDuration => PErr::BareNumericDuration,
    }
}

pub open spec fn ident_at(ts: Seq<TokV>, i: int) -> Option<Seq<char>> {
    if 0 <= i < ts.len() {
        match ts[i] {
            TokV::Ident(s) => Some(s),
            _ => None,
        }
    } else {
        None
    }
}

pub open spec fn punct_at(ts: Seq<TokV>, i: int, c: char) -> bool {
    0 <= i < ts.len() && (ts[i] matches TokV::Punct(x, _) && x == c)
}

/// `=>`: a joined `=` then `>`.
pub open spec fn arrow_at(ts: Seq<TokV>, i: int) -> bool {
    0 <= i < ts.len() && ts[i] == TokV::Punct('=', true) && punct_at(ts, i + 1, '>')
}

/// `::`: a joined `:` then `:`.
pub open spec fn path_sep_at(ts: Seq<TokV>, i: int) -> bool {
    0 <= i < ts.len() && ts[i] == TokV::Punct(':', true) && punct_at(ts, i + 1, ':')
}

/// Position of the first `;` at or after `i`, or -1.
pub open spec fn semi_from(ts: Seq<TokV>, i: int) -> int
    decreases ts.len() - i,
{
    if i < 0 || i >= ts.len() {
        -1
    } else if punct_at(ts, i, ';') {
        i
    } else {
        semi_from(ts, i + 1)
    }
}

pub proof fn lemma_semi_from(ts: Seq<TokV>, i: int)
    ensures
        semi_from(ts, i) == -1 || (i <= semi_from(ts, i) < ts.len() && punct_at(ts, semi_from(ts, i), ';')),
    decreases ts.len() - i,
{
    if 0 <= i < ts.len() && !punct_at(ts, i, ';') {
        lemma_semi_from(ts, i + 1);
    }
}

pub proof fn lemma_ident_list(ts: Seq<TokV>, i: int, acc: Seq<Seq<char>>)
    ensures
        ident_list(ts, i, acc) matches Ok((ns, k)) ==> i < k <= ts.len() && ns.len() - acc.len() <= k - i,
    decreases ts.len() - i,
{
    if ident_at(ts, i) is Some && punct_at(ts, i + 1, ',') && i + 2 <= ts.len() {
        lemma_ident_list(ts, i + 2, acc.push(ident_at(ts, i)->0));
    }
}

/// `a, b, c` from position `i`, after the names `acc`: the names and the
/// position after the list.
pub open spec fn ident_list(ts: Seq<TokV>, i: int, acc: Seq<Seq<char>>) -> Result<(Seq<Seq<char>>, int), PErr>
    decreases ts.len() - i,
{
    match ident_at(ts, i) {
        None => Err(PErr::Expected(Expect::Ident)),
        Some(n) => if punct_at(ts, i + 1, ',') && i + 2 <= ts.len() {
            ident_list(ts, i + 2, acc.push(n))
        } else {
            Ok((acc.push(n), i + 1))
        },
    }
}

/// Where a type that starts at `k` ends: the first `,` outside angle
/// brackets, or the end.
pub open spec fn type_end(ts: Seq<TokV>, k: int, depth: nat) -> int
    decreases ts.len() - k,
{
    if k < 0 || k >= ts.len() {
        ts.len() as int
    } else if depth == 0 && punct_at(ts, k, ',') {
        k
    } else {
        let d2: nat = if punct_at(ts, k, '<') {
            depth + 1
        } else if punct_at(ts, k, '>') && depth > 0 && !(k > 0 && ts[k - 1] == TokV::Punct('-', true)) {
            (depth - 1) as nat
        } else {
            depth
        };
        type_end(ts, k + 1, d2)
    }
}

/// `name: Type, ...` from position `i`, after the bindings `acc`.
pub open spec fn typed_fields(ts: Seq<TokV>, i: int, acc: Seq<(Seq<char>, Seq<char>)>) -> Result<
    Seq<(Seq<char>, Seq<char>)>,
    PErr,
>
    decreases ts.len() - i,
{
    if i < 0 || i >= ts.len() {
        Ok(acc)
    } else {
        match ident_at(ts, i) {
            None => Err(PErr::Expected(Expect::Ident)),
            Some(n) => if !punct_at(ts, i + 1, ':') {
                Err(PErr::Expected(Expect::Colon))
            } else {
                let j = type_end(ts, i + 2, 0);
                if j <= i + 2 {
                    Err(PErr::Expected(Expect::Type))
                } else {
                    let acc2 = acc.push((n, toks_text(ts.subrange(i + 2, j))));
                    if j < ts.len() {
                        typed_fields(ts, j + 1, acc2)
                    } else {
                        Ok(acc2)
                    }
                }
            },
        }
    }
}

pub open spec fn is_digit(c: char) -> bool {
    '0' <= c && c <= '9'
}

/// The trigger of `on(...)`.
pub open spec fn trigger_of(ts: Seq<TokV>) -> Result<TriggerV, PErr> {
    let first = ident_at(ts, 0);
    if first == Some("every"@) || first == Some("after"@) {
        let rest = ts.subrange(1, ts.len() as int);
        if rest.len() == 0 {
            Err(PErr::Expected(Expect::Expr))
        } else if rest.len() == 1 && (rest[0] matches TokV::Lit(l) && l.len() > 0 && is_digit(l[0])) {
            Err(PErr::BareNumericDuration)
        } else {
            Ok(TriggerV::Duration(toks_text(rest), squeeze(toks_text(rest)), first == Some("every"@)))
        }
    } else if first is None || path_sep_at(ts, 1) {
        Err(PErr::BadTrigger)
    } else if ts.len() == 1 {
        Ok(TriggerV::Event(first->0, None))
    } else {
        match ts[1] {
            TokV::Group(d, f) => if d == Delim::Brace || d == Delim::Paren {
                if ts.len() > 2 {
                    Err(PErr::UnexpectedTokens)
                } else {
                    match typed_fields(f, 0, Seq::empty()) {
                        Err(e) => Err(e),
                        Ok(fs) => Ok(TriggerV::Event(
                            first->0,
                            Some((if d == Delim::Brace { PayloadKind::Struct } else { PayloadKind::Tuple }, fs)),
                        )),
                    }
                }
            } else {
                Err(PErr::UnexpectedAfterVariant)
            },
            _ => Err(PErr::UnexpectedAfterVariant),
        }
    }
}

/// The field names of `during: f(a, b)`, from position `i`, after `acc`.
pub open spec fn during_fields(ts: Seq<TokV>, i: int, acc: Seq<Seq<char>>) -> Result<Seq<Seq<char>>, PErr>
    decreases ts.len() - i,
{
    if i < 0 || i >= ts.len() {
        Ok(acc)
    } else {
        match ident_at(ts, i) {
            None => Err(PErr::Expected(Expect::Ident)),
            Some(n) => if punct_at(ts, i + 1, ',') {
                during_fields(ts, i + 2, acc.push(n))
            } else if i + 1 < ts.len() {
                Err(PErr::UnexpectedTokens)
            } else {
                Ok(acc.push(n))
            },
        }
    }
}

/// Handlers for the targets `ts` of one `on(...)`, numbered from `decl`.
pub open spec fn handlers_for(t: TriggerV, ts: Seq<Seq<char>>, decl: nat) -> Seq<HandlerV> {
    Seq::new(ts.len(), |k: int| HandlerV { trigger: t, target: ts[k], decl_index: decl + k as nat })
}

/// One item at position `i` (which must exist): the body after it, the
/// next handler number, and the position after the item.
pub open spec fn item_step(ts: Seq<TokV>, i: int, is_root: bool, acc: BodyV, decl: nat) -> Result<
    (BodyV, nat, int),
    PErr,
>
    decreases ts, 0int,
{
    if !(0 <= i < ts.len()) {
        Err(PErr::ExpectedItem)
    } else {
        match ts[i] {
            TokV::Ident(kw) => if kw == "context"@ || kw == "events"@ {
                if !punct_at(ts, i + 1, ':') {
                    Err(PErr::Expected(Expect::Colon))
                } else {
                    let j = semi_from(ts, i + 2);
                    if j < 0 {
                        Err(PErr::Expected(Expect::Semicolon))
                    } else if j == i + 2 {
                        Err(PErr::Expected(Expect::Type))
                    } else if !is_root {
                        Err(if kw == "context"@ { PErr::ContextNotAtRoot } else { PErr::EventsNotAtRoot })
                    } else {
                        let t = toks_text(ts.subrange(i + 2, j));
                        let acc2 = if kw == "context"@ { BodyV { context: Some(t), ..acc } } else { BodyV { events: Some(t), ..acc } };
                        Ok((acc2, decl, j + 1))
                    }
                }
            } else if kw == "entry"@ || kw == "exit"@ {
                if !punct_at(ts, i + 1, ':') {
                    Err(PErr::Expected(Expect::Colon))
                } else {
                    match ident_list(ts, i + 2, Seq::empty()) {
                        Err(e) => Err(e),
                        Ok((ns, k)) => if !punct_at(ts, k, ';') {
                            Err(PErr::Expected(Expect::Semicolon))
                        } else {
                            let acc2 = if kw == "entry"@ { BodyV { entries: acc.entries + ns, ..acc } } else { BodyV { exits: acc.exits + ns, ..acc } };
                            Ok((acc2, decl, k + 1))
                        },
                    }
                }
            } else if kw == "default"@ || kw == "terminate"@ {
                if !(i + 1 < ts.len() && (ts[i + 1] matches TokV::Group(Delim::Paren, _))) {
                    Err(PErr::Expected(Expect::ParenGroup))
                } else {
                    let inner = ts[i + 1]->Group_1;
                    match ident_at(inner, 0) {
                        None => Err(PErr::Expected(Expect::Ident)),
                        Some(x) => if inner.len() > 1 {
                            Err(PErr::UnexpectedTokens)
                        } else if !punct_at(ts, i + 2, ';') {
                            Err(PErr::Expected(Expect::Semicolon))
                        } else {
                            let acc2 = if kw == "default"@ {
                                BodyV {
                                    default_count: acc.default_count + 1,
                                    default_child: if acc.default_child is None { Some(x) } else { acc.default_child },
                                    ..acc
                                }
                            } else {
                                BodyV {
                                    terminate_count: acc.terminate_count + 1,
                                    terminate: if acc.terminate is None { Some(x) } else { acc.terminate },
                                    ..acc
                                }
                            };
                            Ok((acc2, decl, i + 3))
                        },
                    }
                }
            } else if kw == "on"@ {
                if !(i + 1 < ts.len() && (ts[i + 1] matches TokV::Group(Delim::Paren, _))) {
                    Err(PErr::Expected(Expect::ParenGroup))
                } else {
                    match trigger_of(ts[i + 1]->Group_1) {
                        Err(e) => Err(e),
                        Ok(t) => if !arrow_at(ts, i + 2) {
                            Err(PErr::Expected(Expect::FatArrow))
                        } else {
                            match ident_list(ts, i + 4, Seq::empty()) {
                                Err(e) => Err(e),
                                Ok((ns, k)) => if !punct_at(ts, k, ';') {
                                    Err(PErr::Expected(Expect::Semicolon))
                                } else {
                                    let acc2 = BodyV { handlers: acc.handlers + handlers_for(t, ns, decl), ..acc };
                                    Ok((acc2, decl + ns.len(), k + 1))
                                },
                            }
                        },
                    }
                }
            } else if kw == "during"@ {
                if !punct_at(ts, i + 1, ':') {
                    Err(PErr::Expected(Expect::Colon))
                } else {
                    match ident_at(ts, i + 2) {
                        None => Err(PErr::Expected(Expect::Ident)),
                        Some(f) => {
                            let has_fields = i + 3 < ts.len() && (ts[i + 3] matches TokV::Group(Delim::Paren, _));
                            let fields = if has_fields { during_fields(ts[i + 3]->Group_1, 0, Seq::empty()) } else { Ok(Seq::empty()) };
                            let next = if has_fields { i + 4 } else { i + 3 };
                            match fields {
                                Err(e) => Err(e),
                                Ok(fs) => if !punct_at(ts, next, ';') {
                                    Err(PErr::Expected(Expect::Semicolon))
                                } else {
                                    Ok((BodyV { durings: acc.durings.push((f, fs)), ..acc }, decl, next + 1))
                                },
                            }
                        },
                    }
                }
            } else if kw == "state"@ {
                match ident_at(ts, i + 1) {
                    None => Err(PErr::Expected(Expect::Ident)),
                    Some(n) => if !(i + 2 < ts.len() && (ts[i + 2] matches TokV::Group(Delim::Brace, _))) {
                        Err(PErr::Expected(Expect::BraceGroup))
                    } else {
                        match items(ts[i + 2]->Group_1, 0, false, empty_body(), 0) {
                            Err(e) => Err(e),
                            Ok(child) => Ok((BodyV { children: acc.children.push((n, child)), ..acc }, decl, i + 3)),
                        }
                    },
                }
            } else {
                Err(PErr::UnknownItem(kw))
            },
            _ => Err(PErr::ExpectedItem),
        }
    }
}

/// The items of a body from position `i`, after what `acc` holds; `decl`
/// numbers the next handler.
pub open spec fn items(ts: Seq<TokV>, i: int, is_root: bool, acc: BodyV, decl: nat) -> Result<BodyV, PErr>
    decreases ts, ts.len() - i + 1,
{
    if i < 0 || i >= ts.len() {
        Ok(acc)
    } else {
        match item_step(ts, i, is_root, acc, decl) {
            Err(e) => Err(e),
            Ok((a2, d2, j)) => if i < j <= ts.len() {
                items(ts, j, is_root, a2, d2)
            } else {
                Err(PErr::ExpectedItem)
            },
        }
    }
}

/// The chart `Name { items }`.
pub open spec fn chart_of(ts: Seq<TokV>) -> Result<(Seq<char>, BodyV), PErr> {
    match ident_at(ts, 0) {
        None => Err(PErr::ExpectedChartName),
        Some(n) => if !(1 < ts.len() && (ts[1] matches TokV::Group(Delim::Brace, _))) {
            Err(PErr::ExpectedChartBody)
        } else {
            match items(ts[1]->Group_1, 0, true, empty_body(), 0) {
                Err(e) => Err(e),
                Ok(b) => if ts.len() > 2 {
                    Err(PErr::TrailingTokens)
                } else {
                    Ok((n, b))
                },
            }
        },
    }
}

/// Calls `String::push`. Trusted: the character is appended, as its
/// documentation states.
#[verifier::external_body]
pub(crate) fn push_char(s: &mut String, c: char)
    ensures
        final(s)@ == old(s)@.push(c),
{
    s.push(c)
}

pub proof fn lemma_group_view(d: Delim, v: Vec<Tok>)
    ensures
        tok_view(Tok::Group(d, v)) == TokV::Group(d, toks_view(v@)),
{
    let a = tok_view(Tok::Group(d, v));
    assert(a is Group);
    assert(a->Group_0 == d);
    assert(a->Group_1 =~= toks_view(v@));
}

fn tok_text_exec(t: &Tok) -> (r: String)
    ensures
        r@ == tok_text(tok_view(*t)),
    decreases t, 1int,
{
    match t {
        Tok::Ident(s) => s.clone(),
        Tok::Punct(c, _) => {
            let mut r = String::new();
            push_char(&mut r, *c);
            proof {
                assert(r@ =~= seq![*c]);
            }
            r
        },
        Tok::Lit(s) => s.clone(),
        Tok::Group(d, v) => {
            proof {
                lemma_group_view(*d, *v);
            }
            let mut r = String::new();
            match d {
                Delim::Paren => r.append("("),
                Delim::Brace => r.append("{"),
                Delim::Bracket => r.append("["),
                Delim::Invisible => {},
            }
            let inner = toks_text_exec(v, 0, v.len());
            r.append(inner.as_str());
            match d {
                Delim::Paren => r.append(")"),
                Delim::Brace => r.append("}"),
                Delim::Bracket => r.append("]"),
                Delim::Invisible => {},
            }
            proof {
                assert(toks_view(v@).subrange(0, v@.len() as int) =~= toks_view(v@));
                assert(r@ =~= open_text(*d) + toks_text(toks_view(v@)) + close_text(*d));
            }
            r
        },
    }
}

/// The text of the tokens `lo..hi` of `v`, separated by single spaces.
fn toks_text_exec(v: &Vec<Tok>, lo: usize, hi: usize) -> (r: String)
    requires
        lo <= hi <= v@.len(),
    ensures
        r@ == toks_text(toks_view(v@).subrange(lo as int, hi as int)),
    decreases v, 0int,
{
    let ghost tv = toks_view(v@);
    let mut r = String::new();
    let mut k: usize = lo;
    proof {
        assert(tv.subrange(lo as int, lo as int) =~= Seq::<TokV>::empty());
    }
    while k < hi
        invariant
            lo <= k <= hi,
            hi <= v@.len(),
            tv == toks_view(v@),
            r@ == toks_text(tv.subrange(lo as int, k as int)),
        decreases hi - k,
    {
        let t = tok_text_exec(&v[k]);
        let ghost before = r@;
        if k > lo {
            r.append(" ");
        }
        r.append(t.as_str());
        proof {
            let x = tv.subrange(lo as int, k + 1);
            assert(x.subrange(0, x.len() - 1) =~= tv.subrange(lo as int, k as int));
            assert(x[x.len() - 1] == tok_view(v@[k as int]));
            if k == lo {
                assert(x.len() == 1);
                assert(x[0] == tok_view(v@[k as int]));
            }
            assert(r@ =~= toks_text(x));
        }
        k += 1;
    }
    r
}

/// The text without whitespace.
fn squeeze_exec(s: &String) -> (r: String)
    ensures
        r@ == squeeze(s@),
{
    let st = s.as_str();
    let n = st.unicode_len();
    let mut r = String::new();
    let mut i: usize = 0;
    proof {
        assert(s@.take(0) =~= Seq::<char>::empty());
    }
    while i < n
        invariant
            i <= n,
            n == s@.len(),
            st@ == s@,
            r@ == squeeze(s@.take(i as int)),
        decreases n - i,
    {
        let c = st.get_char(i);
        proof {
            assert(s@.take(i + 1).drop_last() =~= s@.take(i as int));
            assert(s@.take(i + 1).last() == c);
        }
        if !(c == ' ' || c == '\t' || c == '\n' || c == '\r' || c == '\x0B' || c == '\x0C') {
            push_char(&mut r, c);
        }
        i += 1;
    }
    proof {
        assert(s@.take(n as int) =~= s@);
    }
    r
}

fn ident_text(ts: &Vec<Tok>, i: usize) -> (r: Option<&String>)
    ensures
        match r {
            Some(s) => ident_at(toks_view(ts@), i as int) == Some(s@),
            None => ident_at(toks_view(ts@), i as int) is None,
        },
{
    if i < ts.len() {
        match &ts[i] {
            Tok::Ident(s) => Some(s),
            _ => None,
        }
    } else {
        None
    }
}

fn is_punct(ts: &Vec<Tok>, i: usize, c: char) -> (r: bool)
    ensures
        r == punct_at(toks_view(ts@), i as int, c),
{
    if i < ts.len() {
        match &ts[i] {
            Tok::Punct(x, _) => *x == c,
            _ => false,
        }
    } else {
        false
    }
}

fn is_joint(ts: &Vec<Tok>, i: usize, c: char) -> (r: bool)
    ensures
        r == (0 <= i < toks_view(ts@).len() && toks_view(ts@)[i as int] == TokV::Punct(c, true)),
{
    if i < ts.len() {
        match &ts[i] {
            Tok::Punct(x, j) => *x == c && *j,
            _ => false,
        }
    } else {
        false
    }
}

fn find_semi(ts: &Vec<Tok>, i: usize) -> (r: Option<usize>)
    ensures
        match r {
            Some(j) => semi_from(toks_view(ts@), i as int) == j as int,
            None => semi_from(toks_view(ts@), i as int) == -1,
        },
{
    let ghost tv = toks_view(ts@);
    let mut k = i;
    while k < ts.len()
        invariant
            i <= k,
            tv == toks_view(ts@),
            semi_from(tv, i as int) == semi_from(tv, k as int),
        decreases ts@.len() - k,
    {
        if is_punct(ts, k, ';') {
            return Some(k);
        }
        k += 1;
    }
    None
}

/// `a, b, c` from position `i`.
fn parse_ident_list(ts: &Vec<Tok>, i: usize) -> (r: Result<(Vec<String>, usize), ParseError>)
    ensures
        match ident_list(toks_view(ts@), i as int, Seq::empty()) {
            Ok((ns, k)) => r matches Ok((v, j)) && names_view(v@) == ns && j as int == k,
            Err(e) => r matches Err(x) && perr_view(x) == e,
        },
{
    let ghost tv = toks_view(ts@);
    let len = ts.len();
    if i >= len {
        return Err(ParseError::Expected { what: Expect::Ident });
    }
    let mut out: Vec<String> = Vec::new();
    let mut k = i;
    proof {
        assert(names_view(out@) =~= Seq::<Seq<char>>::empty());
    }
    loop
        invariant
            tv == toks_view(ts@),
            len == ts@.len(),
            i <= k,
            k <= ts@.len() + 1,
            ident_list(tv, i as int, Seq::empty()) == ident_list(tv, k as int, names_view(out@)),
        decreases ts@.len() + 2 - k,
    {
        match ident_text(ts, k) {
            None => {
                return Err(ParseError::Expected { what: Expect::Ident });
            },
            Some(n) => {
                let nm = n.clone();
                proof {
                    assert(tv.len() == ts@.len());
                    assert(k < ts@.len());
                    assert(names_view(out@.push(nm)) =~= names_view(out@).push(nm@));
                }
                out.push(nm);
                if k + 1 < len && is_punct(ts, k + 1, ',') {
                    k = k + 2;
                } else {
                    return Ok((out, k + 1));
                }
            },
        }
    }
}

/// Where a type that starts at `k` ends (see `type_end`).
fn find_type_end(ts: &Vec<Tok>, k: usize) -> (r: usize)
    ensures
        r as int == type_end(toks_view(ts@), k as int, 0),
        r <= ts@.len() || r == k,
{
    let ghost tv = toks_view(ts@);
    let len = ts.len();
    if k >= len {
        return len;
    }
    let mut depth: usize = 0;
    let mut j = k;
    while j < len
        invariant
            k <= j <= len,
            len == ts@.len(),
            tv == toks_view(ts@),
            depth <= j - k,
            type_end(tv, k as int, 0) == type_end(tv, j as int, depth as nat),
        decreases len - j,
    {
        if depth == 0 && is_punct(ts, j, ',') {
            return j;
        }
        if is_punct(ts, j, '<') {
            depth = depth + 1;
        } else if is_punct(ts, j, '>') && depth > 0 && !(j > 0 && is_joint(ts, j - 1, '-')) {
            depth = depth - 1;
        }
        j += 1;
    }
    len
}

/// `name: Type, ...` (see `typed_fields`).
fn parse_typed_fields(ts: &Vec<Tok>) -> (r: Result<Vec<PayloadField>, ParseError>)
    ensures
        match typed_fields(toks_view(ts@), 0, Seq::empty()) {
            Ok(fs) => r matches Ok(v) && fields_view(v@) == fs,
            Err(e) => r matches Err(x) && perr_view(x) == e,
        },
{
    let ghost tv = toks_view(ts@);
    let len = ts.len();
    let mut out: Vec<PayloadField> = Vec::new();
    let mut i: usize = 0;
    proof {
        assert(fields_view(out@) =~= Seq::<(Seq<char>, Seq<char>)>::empty());
    }
    while i < len
        invariant
            i <= len,
            len == ts@.len(),
            tv == toks_view(ts@),
            tv.len() == len,
            typed_fields(tv, 0, Seq::empty()) == typed_fields(tv, i as int, fields_view(out@)),
        decreases len - i,
    {
        let n = match ident_text(ts, i) {
            Some(n) => n,
            None => {
                return Err(ParseError::Expected { what: Expect::Ident });
            },
        };
        if !is_punct(ts, i + 1, ':') {
            return Err(ParseError::Expected { what: Expect::Colon });
        }
        let j = find_type_end(ts, i + 2);
        if j <= i + 2 {
            return Err(ParseError::Expected { what: Expect::Type });
        }
        let ty = toks_text_exec(ts, i + 2, j);
        let f = PayloadField { name: n.clone(), ty };
        proof {
            assert(fields_view(out@.push(f)) =~= fields_view(out@).push((n@, toks_text(tv.subrange(i + 2, j as int)))));
        }
        out.push(f);
        if j < len {
            i = j + 1;
        } else {
            return Ok(out);
        }
    }
    Ok(out)
}

/// The field names of `during: f(a, b)` (see `during_fields`).
fn parse_during_fields(ts: &Vec<Tok>) -> (r: Result<Vec<String>, ParseError>)
    ensures
        match during_fields(toks_view(ts@), 0, Seq::empty()) {
            Ok(fs) => r matches Ok(v) && names_view(v@) == fs,
            Err(e) => r matches Err(x) && perr_view(x) == e,
        },
{
    let ghost tv = toks_view(ts@);
    let len = ts.len();
    let mut out: Vec<String> = Vec::new();
    let mut i: usize = 0;
    proof {
        assert(names_view(out@) =~= Seq::<Seq<char>>::empty());
    }
    while i < len
        invariant
            len == ts@.len(),
            tv == toks_view(ts@),
            tv.len() == len,
            during_fields(tv, 0, Seq::empty()) == during_fields(tv, i as int, names_view(out@)),
        decreases len + 2 - i,
    {
        let n = match ident_text(ts, i) {
            Some(n) => n,
            None => {
                return Err(ParseError::Expected { what: Expect::Ident });
            },
        };
        let nm = n.clone();
        proof {
            assert(names_view(out@.push(nm)) =~= names_view(out@).push(nm@));
        }
        out.push(nm);
        if is_punct(ts, i + 1, ',') {
            i = i + 2;
        } else if i + 1 < len {
            return Err(ParseError::UnexpectedTokens);
        } else {
            return Ok(out);
        }
    }
    Ok(out)
}

/// The trigger of `on(...)` (see `trigger_of`).
fn parse_trigger(ts: &Vec<Tok>) -> (r: Result<Trigger, ParseError>)
    ensures
        match trigger_of(toks_view(ts@)) {
            Ok(t) => r matches Ok(x) && trigger_view(x) == t,
            Err(e) => r matches Err(x) && perr_view(x) == e,
        },
{
    let ghost tv = toks_view(ts@);
    let len = ts.len();
    let first = ident_text(ts, 0);
    let every = String::from_str("every");
    let after = String::from_str("after");
    let (is_every, is_after) = match first {
        Some(f) => (*f == every, *f == after),
        None => (false, false),
    };
    if is_every || is_after {
        if len == 1 {
            return Err(ParseError::Expected { what: Expect::Expr });
        }
        if len == 2 {
            match &ts[1] {
                Tok::Lit(l) => {
                    let ls = l.as_str();
                    if ls.unicode_len() > 0 {
                        let c = ls.get_char(0);
                        if '0' <= c && c <= '9' {
                            return Err(ParseError::BareNumericDuration);
                        }
                    }
                },
                _ => {},
            }
        }
        let expr = toks_text_exec(ts, 1, len);
        let key = squeeze_exec(&expr);
        return Ok(Trigger::Duration { expr, key, repeat: is_every });
    }
    match first {
        None => {
            return Err(ParseError::BadTrigger);
        },
        Some(v) => {
            if is_joint(ts, 1, ':') && is_punct(ts, 2, ':') {
                return Err(ParseError::BadTrigger);
            }
            if len == 1 {
                return Ok(Trigger::Event { variant: v.clone(), payload: None });
            }
            match &ts[1] {
                Tok::Group(d, f) => {
                    proof {
                        lemma_group_view(*d, *f);
                    }
                    if *d == Delim::Brace || *d == Delim::Paren {
                        if len > 2 {
                            return Err(ParseError::UnexpectedTokens);
                        }
                        match parse_typed_fields(f) {
                            Err(e) => Err(e),
                            Ok(fs) => Ok(
                                Trigger::Event {
                                    variant: v.clone(),
                                    payload: Some(
                                        EventPayload {
                                            kind: if *d == Delim::Brace { PayloadKind::Struct } else { PayloadKind::Tuple },
                                            fields: fs,
                                        },
                                    ),
                                },
                            ),
                        }
                    } else {
                        Err(ParseError::UnexpectedAfterVariant)
                    }
                },
                _ => Err(ParseError::UnexpectedAfterVariant),
            }
        },
    }
}

/// The declaration counters stay below the position, so they cannot overflow.
pub open spec fn counts_ok(b: StateBody, i: int) -> bool {
    b.default_count <= i && b.terminate_count <= i
}

/// The item keywords are distinct.
proof fn lemma_keywords()
    ensures
        "context"@ != "events"@,
        "context"@ != "entry"@ && "context"@ != "exit"@ && "events"@ != "entry"@ && "events"@ != "exit"@,
        "entry"@ != "exit"@,
        "default"@ != "context"@ && "default"@ != "events"@ && "default"@ != "entry"@ && "default"@ != "exit"@,
        "terminate"@ != "context"@ && "terminate"@ != "events"@ && "terminate"@ != "entry"@ && "terminate"@ != "exit"@,
        "default"@ != "terminate"@,
        "on"@ != "context"@ && "on"@ != "events"@ && "on"@ != "entry"@ && "on"@ != "exit"@ && "on"@ != "default"@
            && "on"@ != "terminate"@,
        "during"@ != "context"@ && "during"@ != "events"@ && "during"@ != "entry"@ && "during"@ != "exit"@ && "during"@
            != "default"@ && "during"@ != "terminate"@ && "during"@ != "on"@,
        "state"@ != "context"@ && "state"@ != "events"@ && "state"@ != "entry"@ && "state"@ != "exit"@ && "state"@
            != "default"@ && "state"@ != "terminate"@ && "state"@ != "on"@ && "state"@ != "during"@,
{
    reveal_strlit("context");
    reveal_strlit("events");
    reveal_strlit("entry");
    reveal_strlit("exit");
    reveal_strlit("default");
    reveal_strlit("terminate");
    reveal_strlit("on");
    reveal_strlit("during");
    reveal_strlit("state");
    assert("context"@[1] != "events"@[1]);
    assert("context"@.len() == 7 && "events"@.len() == 6 && "entry"@.len() == 5 && "exit"@.len() == 4);
    assert("default"@.len() == 7 && "terminate"@.len() == 9 && "on"@.len() == 2 && "during"@.len() == 6);
    assert("state"@.len() == 5);
    assert("default"@[0] != "context"@[0]);
    assert("during"@[0] != "events"@[0]);
    assert("state"@[0] != "entry"@[0]);
}

/// The body's view after a change to anything but its children.
proof fn lemma_body_view_same_children(a: StateBody, b: StateBody)
    requires
        a.children == b.children,
    ensures
        body_view(b).children == body_view(a).children,
{
}

/// `context: T;` or `events: T;` at position `i`.
fn parse_type_item(ts: &Vec<Tok>, i: usize, is_root: bool, is_context: bool, acc: &mut StateBody, Ghost(decl): Ghost<nat>) -> (r: Result<usize, ParseError>)
    requires
        counts_ok(*old(acc), i as int),
        i < ts@.len(),
        ident_at(toks_view(ts@), i as int) == Some(if is_context { "context"@ } else { "events"@ }),
    ensures
        match item_step(toks_view(ts@), i as int, is_root, body_view(*old(acc)), 0) {
            Ok((a, d, j)) => r matches Ok(x) && x as int == j && body_view(*final(acc)) == a,
            Err(e) => r matches Err(x) && perr_view(x) == e,
        },
        r matches Ok(x) ==> counts_ok(*final(acc), x as int) && x > i,
{
    let ghost tv = toks_view(ts@);
    let len = ts.len();
    proof {
        assert(tv[i as int] == tok_view(ts@[i as int]));
        assert(tv.len() == len);
        lemma_keywords();
    }
    if !is_punct(ts, i + 1, ':') {
        return Err(ParseError::Expected { what: Expect::Colon });
    }
    let j = match find_semi(ts, i + 2) {
        Some(j) => j,
        None => {
            return Err(ParseError::Expected { what: Expect::Semicolon });
        },
    };
    proof {
        lemma_semi_from(tv, i + 2);
    }
    if j == i + 2 {
        return Err(ParseError::Expected { what: Expect::Type });
    }
    if !is_root {
        if is_context {
            return Err(ParseError::ContextNotAtRoot);
        } else {
            return Err(ParseError::EventsNotAtRoot);
        }
    }
    let t = toks_text_exec(ts, i + 2, j);
    let ghost a0 = *acc;
    if is_context {
        acc.context_ty = Some(t);
    } else {
        acc.event_ty = Some(t);
    }
    proof {
        lemma_body_view_same_children(a0, *acc);
    }
    Ok(j + 1)
}

/// `entry: a, b;` or `exit: a, b;` at position `i`.
fn parse_list_item(ts: &Vec<Tok>, i: usize, is_root: bool, is_entry: bool, acc: &mut StateBody, Ghost(decl): Ghost<nat>) -> (r: Result<usize, ParseError>)
    requires
        counts_ok(*old(acc), i as int),
        i < ts@.len(),
        ident_at(toks_view(ts@), i as int) == Some(if is_entry { "entry"@ } else { "exit"@ }),
    ensures
        match item_step(toks_view(ts@), i as int, is_root, body_view(*old(acc)), 0) {
            Ok((a, d, j)) => r matches Ok(x) && x as int == j && body_view(*final(acc)) == a,
            Err(e) => r matches Err(x) && perr_view(x) == e,
        },
        r matches Ok(x) ==> counts_ok(*final(acc), x as int) && x > i,
{
    let ghost tv = toks_view(ts@);
    let len = ts.len();
    proof {
        assert(tv[i as int] == tok_view(ts@[i as int]));
        assert(tv.len() == len);
        lemma_keywords();
    }
    if !is_punct(ts, i + 1, ':') {
        return Err(ParseError::Expected { what: Expect::Colon });
    }
    let (mut ns, k) = match parse_ident_list(ts, i + 2) {
        Ok(x) => x,
        Err(e) => {
            return Err(e);
        },
    };
    proof {
        lemma_ident_list(tv, i + 2, Seq::empty());
    }
    if !is_punct(ts, k, ';') {
        return Err(ParseError::Expected { what: Expect::Semicolon });
    }
    let ghost a0 = *acc;
    let ghost nsv = names_view(ns@);
    if is_entry {
        let ghost e0 = acc.entries@;
        acc.entries.append(&mut ns);
        proof {
            assert(names_view(acc.entries@) =~= names_view(e0) + nsv);
        }
    } else {
        let ghost e0 = acc.exits@;
        acc.exits.append(&mut ns);
        proof {
            assert(names_view(acc.exits@) =~= names_view(e0) + nsv);
        }
    }
    proof {
        lemma_body_view_same_children(a0, *acc);
    }
    Ok(k + 1)
}

/// `default(S);` or `terminate(E);` at position `i`.
fn parse_paren_item(ts: &Vec<Tok>, i: usize, is_root: bool, is_default: bool, acc: &mut StateBody, Ghost(decl): Ghost<nat>) -> (r: Result<usize, ParseError>)
    requires
        counts_ok(*old(acc), i as int),
        i < ts@.len(),
        ident_at(toks_view(ts@), i as int) == Some(if is_default { "default"@ } else { "terminate"@ }),
    ensures
        match item_step(toks_view(ts@), i as int, is_root, body_view(*old(acc)), 0) {
            Ok((a, d, j)) => r matches Ok(x) && x as int == j && body_view(*final(acc)) == a,
            Err(e) => r matches Err(x) && perr_view(x) == e,
        },
        r matches Ok(x) ==> counts_ok(*final(acc), x as int) && x > i,
{
    let ghost tv = toks_view(ts@);
    let len = ts.len();
    proof {
        assert(tv[i as int] == tok_view(ts@[i as int]));
        assert(tv.len() == len);
        lemma_keywords();
    }
    if i + 1 >= len {
        return Err(ParseError::Expected { what: Expect::ParenGroup });
    }
    proof {
        assert(tv[i + 1] == tok_view(ts@[i + 1]));
    }
    let inner = match &ts[i + 1] {
        Tok::Group(Delim::Paren, inner) => inner,
        _ => {
            return Err(ParseError::Expected { what: Expect::ParenGroup });
        },
    };
    proof {
        lemma_group_view(Delim::Paren, *inner);
    }
    let x = match ident_text(inner, 0) {
        Some(x) => x,
        None => {
            return Err(ParseError::Expected { what: Expect::Ident });
        },
    };
    if inner.len() > 1 {
        return Err(ParseError::UnexpectedTokens);
    }
    if !is_punct(ts, i + 2, ';') {
        return Err(ParseError::Expected { what: Expect::Semicolon });
    }
    let ghost a0 = *acc;
    if is_default {
        acc.default_count = acc.default_count + 1;
        if acc.default_child.is_none() {
            acc.default_child = Some(x.clone());
        }
    } else {
        acc.terminate_count = acc.terminate_count + 1;
        if acc.terminate.is_none() {
            acc.terminate = Some(x.clone());
        }
    }
    proof {
        lemma_body_view_same_children(a0, *acc);
    }
    Ok(i + 3)
}

fn clone_trigger(t: &Trigger) -> (r: Trigger)
    ensures
        trigger_view(r) == trigger_view(*t),
{
    match t {
        Trigger::Event { variant, payload } => Trigger::Event {
            variant: variant.clone(),
            payload: match payload {
                Some(p) => Some(EventPayload { kind: p.kind, fields: clone_fields(&p.fields) }),
                None => None,
            },
        },
        Trigger::Duration { expr, key, repeat } => Trigger::Duration { expr: expr.clone(), key: key.clone(), repeat: *repeat },
    }
}

/// `on(trigger) => a, b;` at position `i`; `decl` numbers the next handler.
fn parse_on_item(ts: &Vec<Tok>, i: usize, is_root: bool, acc: &mut StateBody, decl: &mut usize) -> (r: Result<usize, ParseError>)
    requires
        counts_ok(*old(acc), i as int),
        *old(decl) <= i,
        i < ts@.len(),
        ident_at(toks_view(ts@), i as int) == Some("on"@),
    ensures
        match item_step(toks_view(ts@), i as int, is_root, body_view(*old(acc)), *old(decl) as nat) {
            Ok((a, d, j)) => r matches Ok(x) && x as int == j && body_view(*final(acc)) == a && *final(decl) as nat == d,
            Err(e) => r matches Err(x) && perr_view(x) == e,
        },
        r matches Ok(x) ==> counts_ok(*final(acc), x as int) && x > i && *final(decl) <= x,
{
    let ghost tv = toks_view(ts@);
    let len = ts.len();
    proof {
        assert(tv[i as int] == tok_view(ts@[i as int]));
        assert(tv.len() == len);
        lemma_keywords();
    }
    if i + 1 >= len {
        return Err(ParseError::Expected { what: Expect::ParenGroup });
    }
    proof {
        assert(tv[i + 1] == tok_view(ts@[i + 1]));
    }
    let inner = match &ts[i + 1] {
        Tok::Group(Delim::Paren, inner) => inner,
        _ => {
            return Err(ParseError::Expected { what: Expect::ParenGroup });
        },
    };
    proof {
        lemma_group_view(Delim::Paren, *inner);
    }
    let trig = match parse_trigger(inner) {
        Ok(t) => t,
        Err(e) => {
            return Err(e);
        },
    };
    if !(is_joint(ts, i + 2, '=') && is_punct(ts, i + 3, '>')) {
        return Err(ParseError::Expected { what: Expect::FatArrow });
    }
    let (ns, k) = match parse_ident_list(ts, i + 4) {
        Ok(x) => x,
        Err(e) => {
            return Err(e);
        },
    };
    proof {
        lemma_ident_list(tv, i + 4, Seq::empty());
    }
    if !is_punct(ts, k, ';') {
        return Err(ParseError::Expected { what: Expect::Semicolon });
    }
    let ghost a0 = *acc;
    let ghost h0 = acc.handlers@;
    let ghost d0 = *decl as nat;
    let ghost tview = trigger_view(trig);
    let ghost nsv = names_view(ns@);
    let m = ns.len();
    let mut q: usize = 0;
    while q < m
        invariant
            q <= m,
            m == ns@.len(),
            *decl as nat == d0 + q,
            d0 + m <= k,
            k < len,
            acc.children == a0.children,
            acc.entries == a0.entries,
            acc.exits == a0.exits,
            acc.durings == a0.durings,
            acc.context_ty == a0.context_ty,
            acc.event_ty == a0.event_ty,
            acc.terminate == a0.terminate,
            acc.default_child == a0.default_child,
            acc.default_count == a0.default_count,
            acc.terminate_count == a0.terminate_count,
            nsv == names_view(ns@),
            tview == trigger_view(trig),
            acc.handlers@.map_values(|h: Handler| handler_view(h)) == h0.map_values(|h: Handler| handler_view(h))
                + handlers_for(tview, nsv, d0).take(q as int),
        decreases m - q,
    {
        let h = Handler { trigger: clone_trigger(&trig), kind: HandlerKind::Target(ns[q].clone()), decl_index: *decl };
        let ghost before = acc.handlers@;
        acc.handlers.push(h);
        proof {
            assert(handler_view(h) == handlers_for(tview, nsv, d0)[q as int]);
            assert(handlers_for(tview, nsv, d0).take(q + 1) =~= handlers_for(tview, nsv, d0).take(q as int).push(
                handler_view(h),
            ));
            assert(acc.handlers@.map_values(|h: Handler| handler_view(h)) =~= before.map_values(|h: Handler| handler_view(h)).push(
                handler_view(h),
            ));
        }
        *decl = *decl + 1;
        q += 1;
    }
    proof {
        assert(handlers_for(tview, nsv, d0).take(m as int) =~= handlers_for(tview, nsv, d0));
        lemma_body_view_same_children(a0, *acc);
    }
    Ok(k + 1)
}

/// `during: f(a, b);` at position `i`.
fn parse_during_item(ts: &Vec<Tok>, i: usize, is_root: bool, acc: &mut StateBody, Ghost(decl): Ghost<nat>) -> (r: Result<usize, ParseError>)
    requires
        counts_ok(*old(acc), i as int),
        i < ts@.len(),
        ident_at(toks_view(ts@), i as int) == Some("during"@),
    ensures
        match item_step(toks_view(ts@), i as int, is_root, body_view(*old(acc)), 0) {
            Ok((a, d, j)) => r matches Ok(x) && x as int == j && body_view(*final(acc)) == a,
            Err(e) => r matches Err(x) && perr_view(x) == e,
        },
        r matches Ok(x) ==> counts_ok(*final(acc), x as int) && x > i,
{
    let ghost tv = toks_view(ts@);
    let len = ts.len();
    proof {
        assert(tv[i as int] == tok_view(ts@[i as int]));
        assert(tv.len() == len);
        lemma_keywords();
    }
    if !is_punct(ts, i + 1, ':') {
        return Err(ParseError::Expected { what: Expect::Colon });
    }
    let f = match ident_text(ts, i + 2) {
        Some(f) => f,
        None => {
            return Err(ParseError::Expected { what: Expect::Ident });
        },
    };
    let mut next = i + 3;
    let mut fields: Vec<String> = Vec::new();
    if i + 3 < len {
        proof {
            assert(tv[i + 3] == tok_view(ts@[i + 3]));
        }
        match &ts[i + 3] {
            Tok::Group(Delim::Paren, inner) => {
                proof {
                    lemma_group_view(Delim::Paren, *inner);
                }
                match parse_during_fields(inner) {
                    Ok(v) => {
                        fields = v;
                    },
                    Err(e) => {
                        return Err(e);
                    },
                }
                next = i + 4;
            },
            _ => {},
        }
    }
    proof {
        if next == i + 3 {
            assert(names_view(fields@) =~= Seq::<Seq<char>>::empty());
        }
    }
    if !is_punct(ts, next, ';') {
        return Err(ParseError::Expected { what: Expect::Semicolon });
    }
    let ghost a0 = *acc;
    let d = During { fn_name: f.clone(), fields };
    let ghost ds0 = acc.durings@;
    acc.durings.push(d);
    proof {
        assert(durings_view(acc.durings@) =~= durings_view(ds0).push(during_view(d)));
        lemma_body_view_same_children(a0, *acc);
    }
    Ok(next + 1)
}

fn new_body() -> (b: StateBody)
    ensures
        body_view(b) == empty_body(),
        counts_ok(b, 0),
{
    let b = StateBody {
        context_ty: None,
        event_ty: None,
        terminate: None,
        default_child: None,
        default_count: 0,
        terminate_count: 0,
        entries: Vec::new(),
        exits: Vec::new(),
        handlers: Vec::new(),
        children: Vec::new(),
        durings: Vec::new(),
    };
    proof {
        assert(body_view(b).entries =~= Seq::<Seq<char>>::empty());
        assert(body_view(b).exits =~= Seq::<Seq<char>>::empty());
        assert(body_view(b).handlers =~= Seq::<HandlerV>::empty());
        assert(body_view(b).children =~= Seq::<(Seq<char>, BodyV)>::empty());
        assert(body_view(b).durings =~= Seq::<(Seq<char>, Seq<Seq<char>>)>::empty());
    }
    b
}

/// `state Name { ... }` at position `i`.
fn parse_state_item(ts: &Vec<Tok>, i: usize, is_root: bool, acc: &mut StateBody, Ghost(decl): Ghost<nat>) -> (r: Result<usize, ParseError>)
    requires
        counts_ok(*old(acc), i as int),
        i < ts@.len(),
        ident_at(toks_view(ts@), i as int) == Some("state"@),
    ensures
        match item_step(toks_view(ts@), i as int, is_root, body_view(*old(acc)), 0) {
            Ok((a, d, j)) => r matches Ok(x) && x as int == j && body_view(*final(acc)) == a,
            Err(e) => r matches Err(x) && perr_view(x) == e,
        },
        r matches Ok(x) ==> counts_ok(*final(acc), x as int) && x > i,
    decreases ts@, 0int,
{
    let ghost tv = toks_view(ts@);
    let len = ts.len();
    proof {
        assert(tv[i as int] == tok_view(ts@[i as int]));
        assert(tv.len() == len);
        lemma_keywords();
    }
    let n = match ident_text(ts, i + 1) {
        Some(n) => n,
        None => {
            return Err(ParseError::Expected { what: Expect::Ident });
        },
    };
    if i + 2 >= len {
        return Err(ParseError::Expected { what: Expect::BraceGroup });
    }
    proof {
        assert(tv[i + 2] == tok_view(ts@[i + 2]));
    }
    let inner = match &ts[i + 2] {
        Tok::Group(Delim::Brace, inner) => inner,
        _ => {
            return Err(ParseError::Expected { what: Expect::BraceGroup });
        },
    };
    proof {
        lemma_group_view(Delim::Brace, *inner);
        assert(decreases_to!(ts@ => inner@));
    }
    let child = match parse_items(inner, false) {
        Ok(b) => b,
        Err(e) => {
            return Err(e);
        },
    };
    let ghost a0 = *acc;
    let ghost c0 = acc.children@;
    let decl = StateDecl { name: n.clone(), body: child };
    acc.children.push(decl);
    proof {
        assert(body_view(*acc).children =~= body_view(a0).children.push((n@, body_view(child))));
    }
    Ok(i + 3)
}

/// The items of a body (see `items`).
fn parse_items(ts: &Vec<Tok>, is_root: bool) -> (r: Result<StateBody, ParseError>)
    ensures
        match items(toks_view(ts@), 0, is_root, empty_body(), 0) {
            Ok(b) => r matches Ok(x) && body_view(x) == b,
            Err(e) => r matches Err(x) && perr_view(x) == e,
        },
    decreases ts@, 1int,
{
    let ghost tv = toks_view(ts@);
    let len = ts.len();
    let mut acc = new_body();
    let mut decl: usize = 0;
    let mut i: usize = 0;
    let context = String::from_str("context");
    let events = String::from_str("events");
    let entry = String::from_str("entry");
    let exit = String::from_str("exit");
    let default = String::from_str("default");
    let terminate = String::from_str("terminate");
    let on = String::from_str("on");
    let during = String::from_str("during");
    let state = String::from_str("state");
    while i < len
        invariant
            i <= len,
            len == ts@.len(),
            tv == toks_view(ts@),
            tv.len() == len,
            counts_ok(acc, i as int),
            decl <= i,
            context@ == "context"@,
            events@ == "events"@,
            entry@ == "entry"@,
            exit@ == "exit"@,
            default@ == "default"@,
            terminate@ == "terminate"@,
            on@ == "on"@,
            during@ == "during"@,
            state@ == "state"@,
            items(tv, 0, is_root, empty_body(), 0) == items(tv, i as int, is_root, body_view(acc), decl as nat),
        decreases len - i,
    {
        proof {
            assert(tv[i as int] == tok_view(ts@[i as int]));
        }
        let kw = match ident_text(ts, i) {
            Some(k) => k,
            None => {
                proof {
                    assert(item_step(tv, i as int, is_root, body_view(acc), decl as nat) == Err::<(BodyV, nat, int), PErr>(
                        PErr::ExpectedItem,
                    ));
                }
                return Err(ParseError::ExpectedItem);
            },
        };
        let step = if *kw == context || *kw == events {
            parse_type_item(ts, i, is_root, *kw == context, &mut acc, Ghost(decl as nat))
        } else if *kw == entry || *kw == exit {
            parse_list_item(ts, i, is_root, *kw == entry, &mut acc, Ghost(decl as nat))
        } else if *kw == default || *kw == terminate {
            parse_paren_item(ts, i, is_root, *kw == default, &mut acc, Ghost(decl as nat))
        } else if *kw == on {
            parse_on_item(ts, i, is_root, &mut acc, &mut decl)
        } else if *kw == during {
            parse_during_item(ts, i, is_root, &mut acc, Ghost(decl as nat))
        } else if *kw == state {
            parse_state_item(ts, i, is_root, &mut acc, Ghost(decl as nat))
        } else {
            proof {
                assert(item_step(tv, i as int, is_root, body_view(acc), decl as nat) == Err::<(BodyV, nat, int), PErr>(
                    PErr::UnknownItem(kw@),
                ));
            }
            return Err(ParseError::UnknownItem { name: kw.clone() });
        };
        match step {
            Ok(j) => {
                if j > len {
                    return Err(ParseError::ExpectedItem);
                }
                i = j;
            },
            Err(e) => {
                return Err(e);
            },
        }
    }
    Ok(acc)
}

/// Parse a chart, `Name { items }`, from its tokens.
pub fn parse_statechart(ts: &Vec<Tok>) -> (r: Result<StatechartInput, ParseError>)
    ensures
        match chart_of(toks_view(ts@)) {
            Ok((n, b)) => r matches Ok(x) && x.name@ == n && body_view(x.body) == b,
            Err(e) => r matches Err(x) && perr_view(x) == e,
        },
{
    let ghost tv = toks_view(ts@);
    let len = ts.len();
    proof {
        assert(tv.len() == len);
    }
    let name = match ident_text(ts, 0) {
        Some(n) => n,
        None => {
            return Err(ParseError::ExpectedChartName);
        },
    };
    if len < 2 {
        return Err(ParseError::ExpectedChartBody);
    }
    proof {
        assert(tv[1] == tok_view(ts@[1]));
    }
    let inner = match &ts[1] {
        Tok::Group(Delim::Brace, inner) => inner,
        _ => {
            return Err(ParseError::ExpectedChartBody);
        },
    };
    proof {
        lemma_group_view(Delim::Brace, *inner);
    }
    let body = match parse_items(inner, true) {
        Ok(b) => b,
        Err(e) => {
            return Err(e);
        },
    };
    if len > 2 {
        return Err(ParseError::TrailingTokens);
    }
    Ok(StatechartInput { name: name.clone(), body })
}

} // verus!
