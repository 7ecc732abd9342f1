use vstd::prelude::*;
use core::time::Duration;
use crate::duration::{duration_as_nanos, duration_nanos, duration_new, NANOS_PER_SEC};

verus! {

/// Remaining times below this many nanoseconds (2^64 whole seconds) keep
/// their exact value through `min_remaining`'s whole-seconds split.
pub const NANOS_LIMIT: u128 = 0x1_0000_0000_0000_0000u128 * 1_000_000_000u128;

/// One armed timer: the owning state, the trigger index and the time left.
#[derive(Clone, Copy, Debug, PartialEq, Eq, Structural)]
pub struct TimerEntry {
    pub state: u16,
    pub trigger: u16,
    pub remaining_ns: u128,
}

/// True when `e` is the timer of trigger `trigger` owned by `state`.
pub open spec fn has_key(e: TimerEntry, state: u16, trigger: u16) -> bool {
    e.state == state && e.trigger == trigger
}

/// Index of the first entry of `s` with the given key, or -1 when there is none.
pub open spec fn first_key_index(s: Seq<TimerEntry>, state: u16, trigger: u16) -> int
    decreases s.len(),
{
    if s.len() == 0 {
        -1
    } else if has_key(s[0], state, trigger) {
        0
    } else {
        let r = first_key_index(s.drop_first(), state, trigger);
        if r < 0 {
            -1
        } else {
            r + 1
        }
    }
}

/// The table after arming `(state, trigger)` for `ns` nanoseconds: an entry
/// already armed for that key is reset in place; otherwise a new entry is
/// appended when the table has room, and the table is left as it was when it
/// is full.
pub open spec fn spec_timer_start(s: Seq<TimerEntry>, cap: nat, state: u16, trigger: u16, ns: u128) -> Seq<TimerEntry> {
    let i = first_key_index(s, state, trigger);
    if i >= 0 {
        s.update(i, TimerEntry { state, trigger, remaining_ns: ns })
    } else if s.len() < cap {
        s.push(TimerEntry { state, trigger, remaining_ns: ns })
    } else {
        s
    }
}

/// The entries of `s` not owned by `state`, in their order.
pub open spec fn spec_cancel_state(s: Seq<TimerEntry>, state: u16) -> Seq<TimerEntry>
    decreases s.len(),
{
    if s.len() == 0 {
        s
    } else {
        let r = spec_cancel_state(s.drop_last(), state);
        if s.last().state != state {
            r.push(s.last())
        } else {
            r
        }
    }
}

/// The entries of `s` except those with key `(state, trigger)`, in their order.
pub open spec fn spec_cancel_one(s: Seq<TimerEntry>, state: u16, trigger: u16) -> Seq<TimerEntry>
    decreases s.len(),
{
    if s.len() == 0 {
        s
    } else {
        let r = spec_cancel_one(s.drop_last(), state, trigger);
        if !has_key(s.last(), state, trigger) {
            r.push(s.last())
        } else {
            r
        }
    }
}

/// `a - b`, or zero when `b` exceeds `a`.
pub open spec fn saturating_sub(a: u128, b: u128) -> u128 {
    if a >= b {
        (a - b) as u128
    } else {
        0
    }
}

/// Every entry with `ns` nanoseconds less left (never below zero).
pub open spec fn spec_decrement(s: Seq<TimerEntry>, ns: u128) -> Seq<TimerEntry> {
    Seq::new(
        s.len(),
        |i: int| TimerEntry { state: s[i].state, trigger: s[i].trigger, remaining_ns: saturating_sub(s[i].remaining_ns, ns) },
    )
}

/// Smallest remaining time among the entries, if there is any entry.
pub open spec fn spec_min_remaining(s: Seq<TimerEntry>) -> Option<u128>
    decreases s.len(),
{
    if s.len() == 0 {
        None
    } else {
        match spec_min_remaining(s.drop_last()) {
            None => Some(s.last().remaining_ns),
            Some(m) => Some(if s.last().remaining_ns < m { s.last().remaining_ns } else { m }),
        }
    }
}

/// The duration in nanoseconds that `min_remaining` builds for a remaining
/// time of `m` nanoseconds: whole seconds (as a `u64`) and the rest.
pub open spec fn spec_split_nanos(m: u128) -> int {
    ((m / NANOS_PER_SEC) as u64) * NANOS_PER_SEC + m % NANOS_PER_SEC
}

/// Every entry's state indexes into `depth`.
pub open spec fn depths_cover(s: Seq<TimerEntry>, depth: Seq<u8>) -> bool {
    forall|i: int| 0 <= i < s.len() && (#[trigger] s[i]).remaining_ns == 0 ==> s[i].state < depth.len()
}

/// `k` is the expired entry that `pop_expired` picks: among the expired
/// entries (zero time left) the one whose state is deepest, the earliest one
/// on a tie.
pub open spec fn is_chosen_expired(s: Seq<TimerEntry>, depth: Seq<u8>, k: int) -> bool {
    &&& 0 <= k < s.len()
    &&& s[k].remaining_ns == 0
    &&& forall|j: int|
        0 <= j < s.len() && (#[trigger] s[j]).remaining_ns == 0 ==> depth[s[j].state as int] <= depth[s[k].state as int]
    &&& forall|j: int|
        0 <= j < k && (#[trigger] s[j]).remaining_ns == 0 ==> depth[s[j].state as int] < depth[s[k].state as int]
}

/// True when some entry has expired.
pub open spec fn any_expired(s: Seq<TimerEntry>) -> bool {
    exists|j: int| 0 <= j < s.len() && (#[trigger] s[j]).remaining_ns == 0
}

/// Among the first `i` entries, `b` is the expired entry that a scan keeps:
/// the deepest, the earliest among the deepest.
pub open spec fn best_expired_in(s: Seq<TimerEntry>, depth: Seq<u8>, i: int, b: int) -> bool {
    &&& 0 <= b < i
    &&& s[b].remaining_ns == 0
    &&& forall|j: int| 0 <= j < i && (#[trigger] s[j]).remaining_ns == 0 ==> depth[s[j].state as int] <= depth[s[b].state as int]
    &&& forall|j: int| 0 <= j < b && (#[trigger] s[j]).remaining_ns == 0 ==> depth[s[j].state as int] < depth[s[b].state as int]
}

proof fn lemma_best_expired_prefix(s: Seq<TimerEntry>, depth: Seq<u8>, i: int) -> (b: int)
    requires
        0 <= i <= s.len(),
        exists|j: int| 0 <= j < i && (#[trigger] s[j]).remaining_ns == 0,
    ensures
        best_expired_in(s, depth, i, b),
    decreases i,
{
    if exists|j: int| 0 <= j < i - 1 && (#[trigger] s[j]).remaining_ns == 0 {
        let b0 = lemma_best_expired_prefix(s, depth, i - 1);
        if s[i - 1].remaining_ns == 0 && depth[s[i - 1].state as int] > depth[s[b0].state as int] {
            i - 1
        } else {
            b0
        }
    } else {
        assert(s[i - 1].remaining_ns == 0);
        i - 1
    }
}

/// When some timer has expired, one of them is the deepest (and, among the
/// deepest, the first in table order).
pub proof fn lemma_chosen_expired_exists(s: Seq<TimerEntry>, depth: Seq<u8>)
    requires
        any_expired(s),
    ensures
        exists|k: int| is_chosen_expired(s, depth, k),
{
    let b = lemma_best_expired_prefix(s, depth, s.len() as int);
    assert(is_chosen_expired(s, depth, b));
}

pub proof fn lemma_first_key_index_bounds(s: Seq<TimerEntry>, state: u16, trigger: u16)
    ensures
        -1 <= first_key_index(s, state, trigger) < s.len(),
        first_key_index(s, state, trigger) >= 0 ==> has_key(s[first_key_index(s, state, trigger)], state, trigger),
        first_key_index(s, state, trigger) < 0 ==> forall|j: int| 0 <= j < s.len() ==> !has_key(#[trigger] s[j], state, trigger),
    decreases s.len(),
{
    if s.len() > 0 && !has_key(s[0], state, trigger) {
        lemma_first_key_index_bounds(s.drop_first(), state, trigger);
        if first_key_index(s, state, trigger) < 0 {
            assert forall|j: int| 0 <= j < s.len() implies !has_key(#[trigger] s[j], state, trigger) by {
                if j > 0 {
                    assert(s[j] == s.drop_first()[j - 1]);
                }
            }
        }
    }
}

pub proof fn lemma_first_key_index_at(s: Seq<TimerEntry>, state: u16, trigger: u16, i: int)
    requires
        0 <= i < s.len(),
        has_key(s[i], state, trigger),
        forall|j: int| 0 <= j < i ==> !has_key(#[trigger] s[j], state, trigger),
    ensures
        first_key_index(s, state, trigger) == i,
    decreases i,
{
    if i > 0 {
        assert(!has_key(s[0], state, trigger));
        assert forall|j: int| 0 <= j < i - 1 implies !has_key(#[trigger] s.drop_first()[j], state, trigger) by {
            assert(s.drop_first()[j] == s[j + 1]);
        }
        lemma_first_key_index_at(s.drop_first(), state, trigger, i - 1);
    }
}

/// A fixed-capacity timer table of `(state, trigger, remaining)` entries.
pub struct TimerTable<const N: usize> {
    pub entries: Vec<TimerEntry>,
}

impl<const N: usize> Default for TimerTable<N> {
    fn default() -> (r: Self)
        ensures
            r.entries@ == Seq::<TimerEntry>::empty(),
    {
        Self::new()
    }
}

impl<const N: usize> TimerTable<N> {
    /// An empty table.
    pub fn new() -> (r: Self)
        ensures
            r.entries@ == Seq::<TimerEntry>::empty(),
    {
        TimerTable { entries: Vec::new() }
    }

    /// Arm the timer `(state, trigger)` for `duration`; an armed timer with
    /// the same key is reset instead.
    pub fn start(&mut self, state: u16, trigger: u16, duration: Duration)
        ensures
            final(self).entries@ == spec_timer_start(old(self).entries@, N as nat, state, trigger, duration_nanos(duration)),
    {
        let ns = duration_as_nanos(&duration);
        let len = self.entries.len();
        let mut i: usize = 0;
        while i < len
            invariant
                i <= len,
                len == self.entries@.len(),
                self.entries@ == old(self).entries@,
                ns == duration_nanos(duration),
                forall|j: int| 0 <= j < i ==> !has_key(#[trigger] self.entries@[j], state, trigger),
            decreases len - i,
        {
            if self.entries[i].state == state && self.entries[i].trigger == trigger {
                proof {
                    lemma_first_key_index_at(self.entries@, state, trigger, i as int);
                }
                let e = TimerEntry { state, trigger, remaining_ns: ns };
                self.entries.set(i, e);
                return;
            }
            i += 1;
        }
        proof {
            lemma_first_key_index_bounds(self.entries@, state, trigger);
        }
        if self.entries.len() < N {
            self.entries.push(TimerEntry { state, trigger, remaining_ns: ns });
        }
    }

    /// Disarm every timer owned by `state`.
    pub fn cancel_state(&mut self, state: u16)
        ensures
            final(self).entries@ == spec_cancel_state(old(self).entries@, state),
    {
        let mut kept: Vec<TimerEntry> = Vec::new();
        let len = self.entries.len();
        let mut i: usize = 0;
        while i < len
            invariant
                i <= len,
                len == self.entries@.len(),
                self.entries@ == old(self).entries@,
                kept@ == spec_cancel_state(self.entries@.take(i as int), state),
            decreases len - i,
        {
            let e = self.entries[i];
            if e.state != state {
                kept.push(e);
            }
            proof {
                assert(self.entries@.take(i + 1).drop_last() =~= self.entries@.take(i as int));
            }
            i += 1;
        }
        proof {
            assert(self.entries@.take(len as int) =~= self.entries@);
        }
        self.entries = kept;
    }

    /// Disarm the timer `(state, trigger)`.
    pub fn cancel_one(&mut self, state: u16, trigger: u16)
        ensures
            final(self).entries@ == spec_cancel_one(old(self).entries@, state, trigger),
    {
        let mut kept: Vec<TimerEntry> = Vec::new();
        let len = self.entries.len();
        let mut i: usize = 0;
        while i < len
            invariant
                i <= len,
                len == self.entries@.len(),
                self.entries@ == old(self).entries@,
                kept@ == spec_cancel_one(self.entries@.take(i as int), state, trigger),
            decreases len - i,
        {
            let e = self.entries[i];
            if !(e.state == state && e.trigger == trigger) {
                kept.push(e);
            }
            proof {
                assert(self.entries@.take(i + 1).drop_last() =~= self.entries@.take(i as int));
            }
            i += 1;
        }
        proof {
            assert(self.entries@.take(len as int) =~= self.entries@);
        }
        self.entries = kept;
    }

    /// Count every timer down by `elapsed`, stopping at zero.
    pub fn decrement(&mut self, elapsed: Duration)
        ensures
            final(self).entries@ == spec_decrement(old(self).entries@, duration_nanos(elapsed)),
    {
        let ns = duration_as_nanos(&elapsed);
        let len = self.entries.len();
        let mut i: usize = 0;
        while i < len
            invariant
                i <= len,
                len == self.entries@.len(),
                len == old(self).entries@.len(),
                forall|j: int| 0 <= j < i ==> self.entries@[j] == spec_decrement(old(self).entries@, ns)[j],
                forall|j: int| i <= j < len ==> self.entries@[j] == old(self).entries@[j],
            decreases len - i,
        {
            let e = self.entries[i];
            let r = if e.remaining_ns >= ns { e.remaining_ns - ns } else { 0 };
            self.entries.set(i, TimerEntry { state: e.state, trigger: e.trigger, remaining_ns: r });
            i += 1;
        }
        proof {
            assert(self.entries@ =~= spec_decrement(old(self).entries@, ns));
        }
    }

    /// Remove and return `(state, trigger)` of the expired timer whose state
    /// is deepest, ties broken by table order (the order timers were
    /// started in). The other entries keep their order.
    pub fn pop_expired(&mut self, depth: &[u8]) -> (r: Option<(u16, u16)>)
        requires
            depths_cover(old(self).entries@, depth@),
        ensures
            !any_expired(old(self).entries@) ==> r is None && final(self).entries@ == old(self).entries@,
            any_expired(old(self).entries@) ==> exists|k: int| {
                &&& is_chosen_expired(old(self).entries@, depth@, k)
                &&& r == Some((old(self).entries@[k].state, old(self).entries@[k].trigger))
                &&& final(self).entries@ == old(self).entries@.remove(k)
            },
    {
        let len = self.entries.len();
        let mut best: Option<usize> = None;
        let mut i: usize = 0;
        while i < len
            invariant
                i <= len,
                len == self.entries@.len(),
                self.entries@ == old(self).entries@,
                depths_cover(self.entries@, depth@),
                match best {
                    None => forall|j: int| 0 <= j < i ==> (#[trigger] self.entries@[j]).remaining_ns != 0,
                    Some(b) => {
                        &&& b < i
                        &&& self.entries@[b as int].remaining_ns == 0
                        &&& forall|j: int| 0 <= j < i && (#[trigger] self.entries@[j]).remaining_ns == 0
                            ==> depth@[self.entries@[j].state as int] <= depth@[self.entries@[b as int].state as int]
                        &&& forall|j: int| 0 <= j < b && (#[trigger] self.entries@[j]).remaining_ns == 0
                            ==> depth@[self.entries@[j].state as int] < depth@[self.entries@[b as int].state as int]
                    },
                },
            decreases len - i,
        {
            let e = self.entries[i];
            if e.remaining_ns == 0 {
                match best {
                    None => {
                        best = Some(i);
                    },
                    Some(bi) => {
                        let cur = depth[e.state as usize];
                        let prev = depth[self.entries[bi].state as usize];
                        if cur > prev {
                            best = Some(i);
                        }
                    },
                }
            }
            i += 1;
        }
        match best {
            Some(b) => {
                let e = self.entries.remove(b);
                proof {
                    assert(is_chosen_expired(old(self).entries@, depth@, b as int));
                }
                Some((e.state, e.trigger))
            },
            None => None,
        }
    }

    /// Time until the soonest timer expires, if any timer is armed.
    pub fn min_remaining(&self) -> (r: Option<Duration>)
        ensures
            spec_min_remaining(self.entries@) is None ==> r is None,
            spec_min_remaining(self.entries@) matches Some(m) ==> {
                &&& r is Some
                &&& duration_nanos(r->0) == spec_split_nanos(m)
                &&& m < NANOS_LIMIT ==> duration_nanos(r->0) == m
            },
    {
        let len = self.entries.len();
        let mut best: Option<u128> = None;
        let mut i: usize = 0;
        while i < len
            invariant
                i <= len,
                len == self.entries@.len(),
                best == spec_min_remaining(self.entries@.take(i as int)),
            decreases len - i,
        {
            let ns = self.entries[i].remaining_ns;
            proof {
                assert(self.entries@.take(i + 1).drop_last() =~= self.entries@.take(i as int));
            }
            best = match best {
                None => Some(ns),
                Some(m) => Some(if ns < m { ns } else { m }),
            };
            i += 1;
        }
        proof {
            assert(self.entries@.take(len as int) =~= self.entries@);
        }
        match best {
            None => None,
            Some(ns) => {
                let secs = (ns / 1_000_000_000) as u64;
                let rem = (ns % 1_000_000_000) as u32;
                let d = duration_new(secs, rem);
                proof {
                    if ns < NANOS_LIMIT {
                        assert((ns / NANOS_PER_SEC) < 0x1_0000_0000_0000_0000u128) by (nonlinear_arith)
                            requires ns < NANOS_LIMIT;
                        assert(ns == (ns / NANOS_PER_SEC) * NANOS_PER_SEC + ns % NANOS_PER_SEC) by (nonlinear_arith);
                    }
                }
                Some(d)
            },
        }
    }
}

} // verus!
