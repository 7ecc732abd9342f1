//! Executable chart tables, checked once when they are built.

use vstd::prelude::*;
use core::time::Duration;
use crate::duration::duration_nanos;
use crate::graph::{default_ranks, has_default_cycle, is_default_cycle, ranks_of};
use crate::semantics::{chart_wf, ChartModel, GroupModel, StateModel};

verus! {

/// Every handler declared in one state for one trigger.
#[derive(Debug, Clone)]
pub struct HandlerGroup {
    /// 0 for an event trigger, 1 for a timer trigger.
    pub trigger_kind: u8,
    /// Event index or timer index.
    pub trigger: u16,
    /// Action handlers, in declaration order.
    pub actions: Vec<u16>,
    /// The transition target, if one is declared.
    pub target: Option<u16>,
}

impl View for HandlerGroup {
    type V = GroupModel;

    open spec fn view(&self) -> GroupModel {
        GroupModel { trigger_kind: self.trigger_kind, trigger: self.trigger, actions: self.actions@, target: self.target }
    }
}

/// The table row of one state.
#[derive(Debug, Clone)]
pub struct StateDef {
    pub parent: Option<u16>,
    pub depth: u8,
    pub default_target: Option<u16>,
    pub entries: Vec<u16>,
    pub exits: Vec<u16>,
    pub groups: Vec<HandlerGroup>,
    pub timers: Vec<u16>,
    pub durings: u16,
}

impl View for StateDef {
    type V = StateModel;

    open spec fn view(&self) -> StateModel {
        StateModel {
            parent: self.parent,
            depth: self.depth,
            default_target: self.default_target,
            entries: self.entries@,
            exits: self.exits@,
            groups: self.groups@.map_values(|g: HandlerGroup| g@),
            timers: self.timers@,
            durings: self.durings,
        }
    }
}

/// Why a set of tables is not a chart.
#[derive(Debug, Clone)]
pub enum ChartError {
    /// There must be between 1 and 65536 states.
    StateCount,
    /// The timer durations and repeat flags differ in number.
    TimerTables,
    /// The root has a parent, or another state has none or a parent with a
    /// larger index.
    BadParent { state: u16 },
    /// A default or transition target of the state does not exist.
    BadTarget { state: u16 },
    /// A timer owned by the state does not exist.
    BadTimer { state: u16 },
    /// Following `default(...)` edges loops through these states.
    DefaultCycle(Vec<u16>),
}

/// The structural conditions on chart tables (everything but the absence of
/// default cycles).
pub open spec fn tables_ok(states: Seq<StateModel>, n_timers: nat, n_repeats: nat) -> bool {
    let n = states.len();
    &&& 1 <= n <= 0x10000
    &&& n_timers == n_repeats
    &&& states[0].parent is None
    &&& forall|s: int| 0 < s < n ==> ((#[trigger] states[s]).parent matches Some(p) && p < s)
    &&& forall|s: int| 0 <= s < n ==> ((#[trigger] states[s]).default_target matches Some(d) ==> d < n)
    &&& forall|s: int, g: int| 0 <= s < n && 0 <= g < states[s].groups.len() ==>
        ((#[trigger] states[s].groups[g]).target matches Some(t) ==> t < n)
    &&& forall|s: int, k: int| 0 <= s < n && 0 <= k < states[s].timers.len() ==>
        #[trigger] states[s].timers[k] < n_timers
}

/// The `default(...)` edges of the states.
pub open spec fn defaults_of(states: Seq<StateModel>) -> Seq<Option<u16>> {
    states.map_values(|s: StateModel| s.default_target)
}

/// The checked tables of a chart. State 0 is the root.
pub struct Chart {
    states: Vec<StateDef>,
    depths: Vec<u8>,
    timer_durations: Vec<Duration>,
    timer_repeats: Vec<bool>,
    terminate_event: Option<u16>,
    chart_hash: u64,
    rank: Ghost<Seq<nat>>,
}

impl View for Chart {
    type V = ChartModel;

    closed spec fn view(&self) -> ChartModel {
        ChartModel {
            states: self.states@.map_values(|s: StateDef| s@),
            timer_ns: self.timer_durations@.map_values(|d: Duration| duration_nanos(d)),
            timer_repeats: self.timer_repeats@,
            terminate_event: self.terminate_event,
            chart_hash: self.chart_hash,
            rank: self.rank@,
        }
    }
}

/// The depth column of the tables.
pub open spec fn depths_of(m: ChartModel) -> Seq<u8> {
    m.states.map_values(|s: StateModel| s.depth)
}

impl Chart {
    #[verifier::type_invariant]
    closed spec fn inv(self) -> bool {
        &&& chart_wf(self@)
        &&& self.depths@ == depths_of(self@)
    }

    /// Check the tables and build a chart from them: `Ok` exactly when the
    /// tables are structurally sound and no chain of `default(...)` edges loops.
    pub fn new(
        states: Vec<StateDef>,
        timer_durations: Vec<Duration>,
        timer_repeats: Vec<bool>,
        terminate_event: Option<u16>,
        chart_hash: u64,
    ) -> (r: Result<Chart, ChartError>)
        ensures
            r is Ok <==> tables_ok(states@.map_values(|s: StateDef| s@), timer_durations@.len(), timer_repeats@.len())
                && !has_default_cycle(defaults_of(states@.map_values(|s: StateDef| s@))),
            r matches Ok(c) ==> {
                &&& c@.states == states@.map_values(|s: StateDef| s@)
                &&& c@.timer_ns == timer_durations@.map_values(|d: Duration| duration_nanos(d))
                &&& c@.timer_repeats == timer_repeats@
                &&& c@.terminate_event == terminate_event
                &&& c@.chart_hash == chart_hash
            },
            r matches Err(ChartError::DefaultCycle(cycle)) ==> is_default_cycle(defaults_of(states@.map_values(|s: StateDef| s@)), cycle@),
    {
        let ghost sm = states@.map_values(|s: StateDef| s@);
        let n = states.len();
        if n == 0 || n > 0x10000 {
            return Err(ChartError::StateCount);
        }
        if timer_durations.len() != timer_repeats.len() {
            return Err(ChartError::TimerTables);
        }
        let nt = timer_durations.len();
        let mut defaults: Vec<Option<u16>> = Vec::new();
        let mut depths: Vec<u8> = Vec::new();
        let mut s: usize = 0;
        while s < n
            invariant
                s <= n,
                n == states@.len(),
                n <= 0x10000,
                nt == timer_durations@.len(),
                sm == states@.map_values(|s: StateDef| s@),
                defaults@ == defaults_of(sm).take(s as int),
                depths@ == depths_of(ChartModel { states: sm, timer_ns: Seq::empty(), timer_repeats: Seq::empty(), terminate_event: None, chart_hash: 0, rank: Seq::empty() }).take(s as int),
                sm[0].parent is None || s == 0,
                forall|t: int| 0 < t < s ==> ((#[trigger] sm[t]).parent matches Some(p) && p < t),
                forall|t: int| 0 <= t < s ==> ((#[trigger] sm[t]).default_target matches Some(d) ==> d < n),
                forall|t: int, g: int| 0 <= t < s && 0 <= g < sm[t].groups.len() ==>
                    ((#[trigger] sm[t].groups[g]).target matches Some(x) ==> x < n),
                forall|t: int, k: int| 0 <= t < s && 0 <= k < sm[t].timers.len() ==>
                    #[trigger] sm[t].timers[k] < nt,
            decreases n - s,
        {
            let st = &states[s];
            let ghost stm = sm[s as int];
            assert(stm == st@);
            let parent_ok = if s == 0 {
                st.parent.is_none()
            } else {
                match st.parent {
                    Some(p) => (p as usize) < s,
                    None => false,
                }
            };
            if !parent_ok {
                return Err(ChartError::BadParent { state: s as u16 });
            }
            match st.default_target {
                Some(d) => {
                    if d as usize >= n {
                        return Err(ChartError::BadTarget { state: s as u16 });
                    }
                },
                None => {},
            }
            let ng = st.groups.len();
            let mut g: usize = 0;
            while g < ng
                invariant
                    g <= ng,
                    ng == st.groups@.len(),
                    stm == st@,
                    stm == sm[s as int],
                    n == states@.len(),
                    (s as int) < n <= 0x10000,
                    sm == states@.map_values(|s: StateDef| s@),
                    forall|h: int| 0 <= h < g ==> ((#[trigger] stm.groups[h]).target matches Some(x) ==> x < n),
                decreases ng - g,
            {
                proof {
                    assert(stm.groups[g as int] == st.groups@[g as int]@);
                }
                match st.groups[g].target {
                    Some(x) => {
                        if x as usize >= n {
                            return Err(ChartError::BadTarget { state: s as u16 });
                        }
                    },
                    None => {},
                }
                g += 1;
            }
            let nk = st.timers.len();
            let mut k: usize = 0;
            while k < nk
                invariant
                    k <= nk,
                    nk == st.timers@.len(),
                    stm == st@,
                    stm == sm[s as int],
                    n == states@.len(),
                    (s as int) < n <= 0x10000,
                    nt == timer_durations@.len(),
                    sm == states@.map_values(|s: StateDef| s@),
                    forall|j: int| 0 <= j < k ==> #[trigger] stm.timers[j] < nt,
                decreases nk - k,
            {
                if st.timers[k] as usize >= nt {
                    proof {
                        assert(sm[s as int].timers[k as int] >= nt);
                    }
                    return Err(ChartError::BadTimer { state: s as u16 });
                }
                k += 1;
            }
            defaults.push(st.default_target);
            depths.push(st.depth);
            proof {
                assert(defaults_of(sm).take(s + 1) =~= defaults_of(sm).take(s as int).push(stm.default_target));
            }
            s += 1;
        }
        proof {
            assert(defaults@ =~= defaults_of(sm));
            assert(tables_ok(sm, timer_durations@.len(), timer_repeats@.len()));
        }
        match default_ranks(&defaults) {
            Err(cycle) => Err(ChartError::DefaultCycle(cycle)),
            Ok(rank) => {
                let ghost rk = ranks_of(rank@);
                proof {
                    let model = ChartModel {
                        states: sm,
                        timer_ns: timer_durations@.map_values(|d: Duration| duration_nanos(d)),
                        timer_repeats: timer_repeats@,
                        terminate_event,
                        chart_hash,
                        rank: rk,
                    };
                    assert(depths@ =~= depths_of(model));
                    assert forall|t: int| 0 <= t < model.states.len() implies ((#[trigger] model.states[t]).default_target matches Some(d) ==> d < model.states.len() && model.rank[d as int] < model.rank[t]) by {
                        assert(defaults@[t] == sm[t].default_target);
                    }
                    assert(chart_wf(model));
                }
                let c = Chart {
                    states,
                    depths,
                    timer_durations,
                    timer_repeats,
                    terminate_event,
                    chart_hash,
                    rank: Ghost(rk),
                };
                Ok(c)
            },
        }
    }

    /// The tables are well formed (the chart's invariant).
    pub fn valid(&self)
        ensures
            chart_wf(self@),
            self@.states.len() == self.n_states_spec(),
    {
        proof {
            use_type_invariant(self);
        }
    }

    pub closed spec fn n_states_spec(&self) -> nat {
        self.states@.len()
    }

    /// Number of states.
    pub fn n_states(&self) -> (n: usize)
        ensures
            n == self@.states.len(),
    {
        self.states.len()
    }

    /// The table row of state `s`.
    pub fn state(&self, s: u16) -> (r: &StateDef)
        requires
            (s as int) < self@.states.len(),
        ensures
            r@ == self@.states[s as int],
    {
        &self.states[s as usize]
    }

    /// The depth column, indexed by state.
    pub fn depths(&self) -> (r: &[u8])
        ensures
            r@ == depths_of(self@),
    {
        proof {
            use_type_invariant(self);
        }
        self.depths.as_slice()
    }

    /// Duration of timer `t`.
    pub fn timer_duration(&self, t: u16) -> (d: Duration)
        requires
            (t as int) < self@.timer_ns.len(),
        ensures
            duration_nanos(d) == self@.timer_ns[t as int],
    {
        self.timer_durations[t as usize]
    }

    /// Whether timer `t` re-arms when it fires.
    pub fn timer_repeats(&self, t: u16) -> (b: bool)
        requires
            (t as int) < self@.timer_repeats.len(),
        ensures
            b == self@.timer_repeats[t as int],
    {
        self.timer_repeats[t as usize]
    }

    /// Index of the event that terminates the machine, if the chart has one.
    pub fn terminate_event(&self) -> (r: Option<u16>)
        ensures
            r == self@.terminate_event,
    {
        self.terminate_event
    }

    /// The chart's structural fingerprint.
    pub fn chart_hash(&self) -> (r: u64)
        ensures
            r == self@.chart_hash,
    {
        self.chart_hash
    }
}

} // verus!
