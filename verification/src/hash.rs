//! The chart's structural fingerprint: FNV-1a (64-bit) over a byte stream
//! that lists every structural element of the lowered chart.

use vstd::prelude::*;
use crate::intern::{ActionIr, DurationTrigger, EventVariantIr, id16, to_id};
use crate::ir::{HandlerIr, HandlerKindIr, Ir, StateIr, TriggerIr};

verus! {

pub const FNV_OFFSET: u64 = 0xcbf2_9ce4_8422_2325;

pub const FNV_PRIME: u64 = 0x0000_0100_0000_01b3;

/// One FNV-1a step: mix in a byte, then multiply (wrapping).
pub open spec fn fnv_byte(h: u64, b: u8) -> u64 {
    vstd::wrapping::u64_specs::wrapping_mul(h ^ (b as u64), FNV_PRIME)
}

/// FNV-1a over the bytes `bs`, starting from `h`.
pub open spec fn fnv_bytes(h: u64, bs: Seq<u8>) -> u64
    decreases bs.len(),
{
    if bs.len() == 0 {
        h
    } else {
        fnv_byte(fnv_bytes(h, bs.drop_last()), bs.last())
    }
}

/// Feeding one chunk: its bytes, then the terminator `0xff`.
pub open spec fn fnv_chunk(h: u64, c: Seq<u8>) -> u64 {
    fnv_byte(fnv_bytes(h, c), 0xff)
}

/// Feeding the chunks `cs` in order, starting from `h`.
pub open spec fn fnv_chunks(h: u64, cs: Seq<Seq<u8>>) -> u64
    decreases cs.len(),
{
    if cs.len() == 0 {
        h
    } else {
        fnv_chunk(fnv_chunks(h, cs.drop_last()), cs.last())
    }
}

pub proof fn lemma_chunks_append(h: u64, a: Seq<Seq<u8>>, b: Seq<Seq<u8>>)
    ensures
        fnv_chunks(h, a + b) == fnv_chunks(fnv_chunks(h, a), b),
    decreases b.len(),
{
    if b.len() == 0 {
        assert(a + b =~= a);
    } else {
        assert((a + b).drop_last() =~= a + b.drop_last());
        lemma_chunks_append(h, a, b.drop_last());
    }
}

/// A 16-bit value in little-endian order.
pub open spec fn le16(x: u16) -> Seq<u8> {
    seq![(x % 256) as u8, (x / 256) as u8]
}

/// The UTF-8 bytes of a name.
pub open spec fn text(s: String) -> Seq<u8> {
    vstd::utf8::encode_utf8(s@)
}

/// An optional id, with `u16::MAX` for none.
pub open spec fn or_max(o: Option<u16>) -> u16 {
    match o {
        Some(x) => x,
        None => 0xFFFF,
    }
}

pub open spec fn ids_chunks(v: Seq<u16>) -> Seq<Seq<u8>> {
    v.map_values(|x: u16| le16(x))
}

pub open spec fn handler_chunks(h: HandlerIr) -> Seq<Seq<u8>> {
    (match h.trigger {
        TriggerIr::Event(id, n, _) => seq![seq![0x01u8], le16(id), text(n)],
        TriggerIr::Duration(id) => seq![seq![0x02u8], le16(id)],
    }) + (match h.kind {
        HandlerKindIr::Transition(n, slot) => seq![seq![0x10u8], text(n), le16(or_max(slot))],
        HandlerKindIr::Action(a, n) => seq![seq![0x11u8], le16(a), text(n)],
    })
}

pub open spec fn handlers_chunks(hs: Seq<HandlerIr>) -> Seq<Seq<u8>>
    decreases hs.len(),
{
    if hs.len() == 0 {
        Seq::empty()
    } else {
        handlers_chunks(hs.drop_last()) + handler_chunks(hs.last())
    }
}

/// What one state contributes: id, name, parent, depth, default, entries,
/// exits, handlers, timers and the number of durings, with separators.
pub open spec fn state_chunks(s: StateIr) -> Seq<Seq<u8>> {
    seq![le16(s.id), text(s.name), le16(or_max(s.parent)), seq![s.depth], le16(or_max(s.default_child))]
        + ids_chunks(s.entries@) + seq![seq![0xeeu8]] + ids_chunks(s.exits@) + seq![seq![0xffu8]]
        + handlers_chunks(s.handlers@) + seq![seq![0xfeu8]] + ids_chunks(s.owned_timers@) + seq![seq![0xfdu8]]
        + seq![le16(id16(s.durings@.len()))]
}

pub open spec fn states_chunks(ss: Seq<StateIr>) -> Seq<Seq<u8>>
    decreases ss.len(),
{
    if ss.len() == 0 {
        Seq::empty()
    } else {
        states_chunks(ss.drop_last()) + state_chunks(ss.last())
    }
}

pub open spec fn actions_chunks(a: Seq<ActionIr>) -> Seq<Seq<u8>>
    decreases a.len(),
{
    if a.len() == 0 {
        Seq::empty()
    } else {
        actions_chunks(a.drop_last()) + seq![text(a.last().name), le16(id16(a.last().params@.len()))]
    }
}

pub open spec fn events_chunks(e: Seq<EventVariantIr>) -> Seq<Seq<u8>> {
    e.map_values(|v: EventVariantIr| text(v.name))
}

pub open spec fn key_chunks(d: Seq<DurationTrigger>) -> Seq<Seq<u8>> {
    d.map_values(|t: DurationTrigger| text(t.key))
}

/// The duration triggers' full keys (expression and repeat flag), after a
/// separator; nothing for a chart without timers.
pub open spec fn durations_chunks(d: Seq<DurationTrigger>) -> Seq<Seq<u8>> {
    if d.len() == 0 {
        Seq::empty()
    } else {
        seq![seq![0xfau8]] + key_chunks(d)
    }
}

/// The byte chunks of a chart's fingerprint: its name, every state, the
/// actions (name and parameter count), the event variants' names and the
/// duration triggers' keys, with separators.
pub open spec fn hash_chunks(ir: Ir) -> Seq<Seq<u8>> {
    seq![text(ir.name)] + states_chunks(ir.states@) + seq![seq![0xfcu8]] + actions_chunks(ir.actions@) + seq![
        seq![0xfbu8],
    ] + events_chunks(ir.event_variants@) + durations_chunks(ir.duration_triggers@)
}

/// The chart hash.
pub open spec fn chart_hash_of(ir: Ir) -> u64 {
    fnv_chunks(FNV_OFFSET, hash_chunks(ir))
}

fn feed(h: u64, bytes: &[u8]) -> (r: u64)
    ensures
        r == fnv_chunks(h, seq![bytes@]),
{
    let mut x = h;
    let n = bytes.len();
    let mut i: usize = 0;
    while i < n
        invariant
            i <= n,
            n == bytes@.len(),
            x == fnv_bytes(h, bytes@.take(i as int)),
        decreases n - i,
    {
        proof {
            assert(bytes@.take(i + 1).drop_last() =~= bytes@.take(i as int));
        }
        x = (x ^ (bytes[i] as u64)).wrapping_mul(FNV_PRIME);
        i += 1;
    }
    proof {
        assert(bytes@.take(n as int) =~= bytes@);
        assert(seq![bytes@].drop_last() =~= Seq::<Seq<u8>>::empty());
        assert(seq![bytes@].last() == bytes@);
        assert(fnv_chunks(h, seq![bytes@].drop_last()) == h);
        assert((0xffu8 as u64) == 0xffu64);
    }
    let r = (x ^ 0xffu64).wrapping_mul(FNV_PRIME);
    proof {
        assert(r == fnv_byte(x, 0xffu8));
        assert(r == fnv_chunk(h, bytes@));
    }
    r
}

fn feed_str(h: u64, s: &String) -> (r: u64)
    ensures
        r == fnv_chunks(h, seq![text(*s)]),
{
    feed(h, s.as_str().as_bytes())
}

fn feed_u16(h: u64, x: u16) -> (r: u64)
    ensures
        r == fnv_chunks(h, seq![le16(x)]),
{
    let b = [(x % 256) as u8, (x / 256) as u8];
    let r = feed(h, &b);
    proof {
        assert(b@ =~= le16(x));
    }
    r
}

fn feed_byte(h: u64, x: u8) -> (r: u64)
    ensures
        r == fnv_chunks(h, seq![seq![x]]),
{
    let b = [x];
    let r = feed(h, &b);
    proof {
        assert(b@ =~= seq![x]);
    }
    r
}

proof fn lemma_push(h: u64, a: Seq<Seq<u8>>, c: Seq<u8>)
    ensures
        fnv_chunks(h, a.push(c)) == fnv_chunks(fnv_chunks(h, a), seq![c]),
{
    lemma_chunks_append(h, a, seq![c]);
    assert(a + seq![c] =~= a.push(c));
}

fn feed_ids(h: u64, v: &Vec<u16>) -> (r: u64)
    ensures
        r == fnv_chunks(h, ids_chunks(v@)),
{
    let mut x = h;
    let n = v.len();
    let mut i: usize = 0;
    while i < n
        invariant
            i <= n,
            n == v@.len(),
            x == fnv_chunks(h, ids_chunks(v@.take(i as int))),
        decreases n - i,
    {
        proof {
            assert(ids_chunks(v@.take(i + 1)) =~= ids_chunks(v@.take(i as int)).push(le16(v@[i as int])));
            lemma_push(h, ids_chunks(v@.take(i as int)), le16(v@[i as int]));
        }
        x = feed_u16(x, v[i]);
        i += 1;
    }
    proof {
        assert(v@.take(n as int) =~= v@);
    }
    x
}

fn feed_handler(h: u64, hd: &HandlerIr) -> (r: u64)
    ensures
        r == fnv_chunks(h, handler_chunks(*hd)),
{
    let mut x = h;
    let ghost mut acc: Seq<Seq<u8>> = Seq::empty();
    match &hd.trigger {
        TriggerIr::Event(id, n, _) => {
            x = feed_byte(x, 0x01);
            x = feed_u16(x, *id);
            x = feed_str(x, n);
            proof {
                acc = seq![seq![0x01u8], le16(*id), text(*n)];
                lemma_chunks_append(h, seq![seq![0x01u8]], seq![le16(*id)]);
                lemma_chunks_append(h, seq![seq![0x01u8]] + seq![le16(*id)], seq![text(*n)]);
                assert(seq![seq![0x01u8]] + seq![le16(*id)] + seq![text(*n)] =~= acc);
            }
        },
        TriggerIr::Duration(id) => {
            x = feed_byte(x, 0x02);
            x = feed_u16(x, *id);
            proof {
                acc = seq![seq![0x02u8], le16(*id)];
                lemma_chunks_append(h, seq![seq![0x02u8]], seq![le16(*id)]);
                assert(seq![seq![0x02u8]] + seq![le16(*id)] =~= acc);
            }
        },
    }
    let ghost x1 = x;
    let ghost mut acc2: Seq<Seq<u8>> = Seq::empty();
    match &hd.kind {
        HandlerKindIr::Transition(n, slot) => {
            x = feed_byte(x, 0x10);
            x = feed_str(x, n);
            let s: u16 = match slot {
                Some(t) => *t,
                None => 0xFFFF,
            };
            x = feed_u16(x, s);
            proof {
                acc2 = seq![seq![0x10u8], text(*n), le16(or_max(*slot))];
                lemma_chunks_append(x1, seq![seq![0x10u8]], seq![text(*n)]);
                lemma_chunks_append(x1, seq![seq![0x10u8]] + seq![text(*n)], seq![le16(s)]);
                assert(seq![seq![0x10u8]] + seq![text(*n)] + seq![le16(s)] =~= acc2);
            }
        },
        HandlerKindIr::Action(a, n) => {
            x = feed_byte(x, 0x11);
            x = feed_u16(x, *a);
            x = feed_str(x, n);
            proof {
                acc2 = seq![seq![0x11u8], le16(*a), text(*n)];
                lemma_chunks_append(x1, seq![seq![0x11u8]], seq![le16(*a)]);
                lemma_chunks_append(x1, seq![seq![0x11u8]] + seq![le16(*a)], seq![text(*n)]);
                assert(seq![seq![0x11u8]] + seq![le16(*a)] + seq![text(*n)] =~= acc2);
            }
        },
    }
    proof {
        lemma_chunks_append(h, acc, acc2);
        assert(acc + acc2 =~= handler_chunks(*hd));
    }
    x
}

fn feed_handlers(h: u64, hs: &Vec<HandlerIr>) -> (r: u64)
    ensures
        r == fnv_chunks(h, handlers_chunks(hs@)),
{
    let mut x = h;
    let n = hs.len();
    let mut i: usize = 0;
    proof {
        assert(hs@.take(0) =~= Seq::<HandlerIr>::empty());
    }
    while i < n
        invariant
            i <= n,
            n == hs@.len(),
            x == fnv_chunks(h, handlers_chunks(hs@.take(i as int))),
        decreases n - i,
    {
        proof {
            assert(hs@.take(i + 1).drop_last() =~= hs@.take(i as int));
            lemma_chunks_append(h, handlers_chunks(hs@.take(i as int)), handler_chunks(hs@[i as int]));
        }
        x = feed_handler(x, &hs[i]);
        i += 1;
    }
    proof {
        assert(hs@.take(n as int) =~= hs@);
    }
    x
}

fn feed_state(h: u64, s: &StateIr) -> (r: u64)
    ensures
        r == fnv_chunks(h, state_chunks(*s)),
{
    let mut x = h;
    let ghost mut acc: Seq<Seq<u8>> = Seq::empty();
    let ghost before = acc;
    x = feed_u16(x, s.id);
    proof {
        lemma_chunks_append(h, before, seq![le16(s.id)]);
        acc = before + seq![le16(s.id)];
    }
    let ghost before = acc;
    x = feed_str(x, &s.name);
    proof {
        lemma_chunks_append(h, before, seq![text(s.name)]);
        acc = before + seq![text(s.name)];
    }
    let ghost before = acc;
    x = feed_u16(x, match s.parent { Some(p) => p, None => 0xFFFF });
    proof {
        lemma_chunks_append(h, before, seq![le16(or_max(s.parent))]);
        acc = before + seq![le16(or_max(s.parent))];
    }
    let ghost before = acc;
    x = feed_byte(x, s.depth);
    proof {
        lemma_chunks_append(h, before, seq![seq![s.depth]]);
        acc = before + seq![seq![s.depth]];
    }
    let ghost before = acc;
    x = feed_u16(x, match s.default_child { Some(p) => p, None => 0xFFFF });
    proof {
        lemma_chunks_append(h, before, seq![le16(or_max(s.default_child))]);
        acc = before + seq![le16(or_max(s.default_child))];
    }
    let ghost before = acc;
    x = feed_ids(x, &s.entries);
    proof {
        lemma_chunks_append(h, before, ids_chunks(s.entries@));
        acc = before + ids_chunks(s.entries@);
    }
    let ghost before = acc;
    x = feed_byte(x, 0xee);
    proof {
        lemma_chunks_append(h, before, seq![seq![0xeeu8]]);
        acc = before + seq![seq![0xeeu8]];
    }
    let ghost before = acc;
    x = feed_ids(x, &s.exits);
    proof {
        lemma_chunks_append(h, before, ids_chunks(s.exits@));
        acc = before + ids_chunks(s.exits@);
    }
    let ghost before = acc;
    x = feed_byte(x, 0xff);
    proof {
        lemma_chunks_append(h, before, seq![seq![0xffu8]]);
        acc = before + seq![seq![0xffu8]];
    }
    let ghost before = acc;
    x = feed_handlers(x, &s.handlers);
    proof {
        lemma_chunks_append(h, before, handlers_chunks(s.handlers@));
        acc = before + handlers_chunks(s.handlers@);
    }
    let ghost before = acc;
    x = feed_byte(x, 0xfe);
    proof {
        lemma_chunks_append(h, before, seq![seq![0xfeu8]]);
        acc = before + seq![seq![0xfeu8]];
    }
    let ghost before = acc;
    x = feed_ids(x, &s.owned_timers);
    proof {
        lemma_chunks_append(h, before, ids_chunks(s.owned_timers@));
        acc = before + ids_chunks(s.owned_timers@);
    }
    let ghost before = acc;
    x = feed_byte(x, 0xfd);
    proof {
        lemma_chunks_append(h, before, seq![seq![0xfdu8]]);
        acc = before + seq![seq![0xfdu8]];
    }
    let ghost before = acc;
    x = feed_u16(x, to_id(s.durings.len()));
    proof {
        lemma_chunks_append(h, before, seq![le16(id16(s.durings@.len()))]);
        acc = before + seq![le16(id16(s.durings@.len()))];
    }
    proof {
        assert(acc =~= state_chunks(*s));
    }
    x
}

fn feed_states(h: u64, ss: &Vec<StateIr>) -> (r: u64)
    ensures
        r == fnv_chunks(h, states_chunks(ss@)),
{
    let mut x = h;
    let n = ss.len();
    let mut i: usize = 0;
    proof {
        assert(ss@.take(0) =~= Seq::<StateIr>::empty());
    }
    while i < n
        invariant
            i <= n,
            n == ss@.len(),
            x == fnv_chunks(h, states_chunks(ss@.take(i as int))),
        decreases n - i,
    {
        proof {
            assert(ss@.take(i + 1).drop_last() =~= ss@.take(i as int));
            lemma_chunks_append(h, states_chunks(ss@.take(i as int)), state_chunks(ss@[i as int]));
        }
        x = feed_state(x, &ss[i]);
        i += 1;
    }
    proof {
        assert(ss@.take(n as int) =~= ss@);
    }
    x
}

fn feed_actions(h: u64, a: &Vec<ActionIr>) -> (r: u64)
    ensures
        r == fnv_chunks(h, actions_chunks(a@)),
{
    let mut x = h;
    let n = a.len();
    let mut i: usize = 0;
    proof {
        assert(a@.take(0) =~= Seq::<ActionIr>::empty());
    }
    while i < n
        invariant
            i <= n,
            n == a@.len(),
            x == fnv_chunks(h, actions_chunks(a@.take(i as int))),
        decreases n - i,
    {
        let ghost prev = actions_chunks(a@.take(i as int));
        proof {
            assert(a@.take(i + 1).drop_last() =~= a@.take(i as int));
        }
        x = feed_str(x, &a[i].name);
        x = feed_u16(x, to_id(a[i].params.len()));
        proof {
            lemma_chunks_append(h, prev, seq![text(a@[i as int].name)]);
            lemma_chunks_append(h, prev + seq![text(a@[i as int].name)], seq![le16(id16(a@[i as int].params@.len()))]);
            assert(prev + seq![text(a@[i as int].name)] + seq![le16(id16(a@[i as int].params@.len()))] =~= prev + seq![
                text(a@[i as int].name),
                le16(id16(a@[i as int].params@.len())),
            ]);
        }
        i += 1;
    }
    proof {
        assert(a@.take(n as int) =~= a@);
    }
    x
}

fn feed_events(h: u64, e: &Vec<EventVariantIr>) -> (r: u64)
    ensures
        r == fnv_chunks(h, events_chunks(e@)),
{
    let mut x = h;
    let n = e.len();
    let mut i: usize = 0;
    while i < n
        invariant
            i <= n,
            n == e@.len(),
            x == fnv_chunks(h, events_chunks(e@.take(i as int))),
        decreases n - i,
    {
        proof {
            assert(events_chunks(e@.take(i + 1)) =~= events_chunks(e@.take(i as int)).push(text(e@[i as int].name)));
            lemma_push(h, events_chunks(e@.take(i as int)), text(e@[i as int].name));
        }
        x = feed_str(x, &e[i].name);
        i += 1;
    }
    proof {
        assert(e@.take(n as int) =~= e@);
    }
    x
}

fn feed_keys(h: u64, d: &Vec<DurationTrigger>) -> (r: u64)
    ensures
        r == fnv_chunks(h, key_chunks(d@)),
{
    let mut x = h;
    let n = d.len();
    let mut i: usize = 0;
    while i < n
        invariant
            i <= n,
            n == d@.len(),
            x == fnv_chunks(h, key_chunks(d@.take(i as int))),
        decreases n - i,
    {
        proof {
            assert(key_chunks(d@.take(i + 1)) =~= key_chunks(d@.take(i as int)).push(text(d@[i as int].key)));
            lemma_push(h, key_chunks(d@.take(i as int)), text(d@[i as int].key));
        }
        x = feed_str(x, &d[i].key);
        i += 1;
    }
    proof {
        assert(d@.take(n as int) =~= d@);
    }
    x
}

/// The chart's structural fingerprint (FNV-1a, 64-bit) over every state
/// name, action name, transition target, default, timer trigger (with its
/// duration expression) and event variant, so that a change to any of them
/// changes the bytes hashed (and, but for a 64-bit collision, the hash).
pub fn compute_chart_hash(ir: &Ir) -> (r: u64)
    ensures
        r == chart_hash_of(*ir),
{
    let h0 = FNV_OFFSET;
    let x1 = feed_str(h0, &ir.name);
    let x2 = feed_states(x1, &ir.states);
    let x3 = feed_byte(x2, 0xfc);
    let x4 = feed_actions(x3, &ir.actions);
    let x5 = feed_byte(x4, 0xfb);
    let x6 = feed_events(x5, &ir.event_variants);
    let x7 = if ir.duration_triggers.len() == 0 {
        x6
    } else {
        let y = feed_byte(x6, 0xfa);
        feed_keys(y, &ir.duration_triggers)
    };
    proof {
        let a1 = seq![text(ir.name)];
        let a2 = states_chunks(ir.states@);
        let a3: Seq<Seq<u8>> = seq![seq![0xfcu8]];
        let a4 = actions_chunks(ir.actions@);
        let a5: Seq<Seq<u8>> = seq![seq![0xfbu8]];
        let a6 = events_chunks(ir.event_variants@);
        lemma_chunks_append(h0, a1, a2);
        lemma_chunks_append(h0, a1 + a2, a3);
        lemma_chunks_append(h0, a1 + a2 + a3, a4);
        lemma_chunks_append(h0, a1 + a2 + a3 + a4, a5);
        lemma_chunks_append(h0, a1 + a2 + a3 + a4 + a5, a6);
        let a7 = durations_chunks(ir.duration_triggers@);
        if ir.duration_triggers@.len() > 0 {
            let b1: Seq<Seq<u8>> = seq![seq![0xfau8]];
            lemma_chunks_append(h0, a1 + a2 + a3 + a4 + a5 + a6, b1);
            lemma_chunks_append(h0, a1 + a2 + a3 + a4 + a5 + a6 + b1, key_chunks(ir.duration_triggers@));
            assert(a1 + a2 + a3 + a4 + a5 + a6 + b1 + key_chunks(ir.duration_triggers@) =~= hash_chunks(*ir));
        } else {
            assert(a1 + a2 + a3 + a4 + a5 + a6 =~= hash_chunks(*ir));
        }
    }
    x7
}

} // verus!
