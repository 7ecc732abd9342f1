use vstd::prelude::*;
use crate::seqs::{index_of, lemma_index_of, lemma_index_of_at};

verus! {

/// Every `default(...)` edge points at an existing state.
pub open spec fn targets_in_range(defaults: Seq<Option<u16>>) -> bool {
    forall|i: int| 0 <= i < defaults.len() ==> (#[trigger] defaults[i] matches Some(d) ==> d < defaults.len())
}

/// `cycle` lists states that follow one another along `default(...)` edges
/// and lead back to the first one.
pub open spec fn is_default_cycle(defaults: Seq<Option<u16>>, cycle: Seq<u16>) -> bool {
    &&& cycle.len() > 0
    &&& forall|i: int| 0 <= i < cycle.len() ==> (#[trigger] cycle[i]) < defaults.len()
    &&& forall|i: int| 0 <= i < cycle.len() - 1 ==> defaults[(#[trigger] cycle[i]) as int] == Some(cycle[i + 1])
    &&& defaults[cycle.last() as int] == Some(cycle[0])
}

/// Following `default(...)` edges can loop.
pub open spec fn has_default_cycle(defaults: Seq<Option<u16>>) -> bool {
    exists|cycle: Seq<u16>| is_default_cycle(defaults, cycle)
}

/// `rank` strictly decreases along every `default(...)` edge, which shows
/// that every chain of defaults ends.
pub open spec fn is_default_rank(defaults: Seq<Option<u16>>, rank: Seq<nat>) -> bool {
    &&& rank.len() == defaults.len()
    &&& forall|i: int| 0 <= i < defaults.len() ==> (#[trigger] defaults[i] matches Some(d) ==> d < defaults.len() && rank[d as int] < rank[i])
}

/// The ranks as mathematical integers.
pub open spec fn ranks_of(r: Seq<usize>) -> Seq<nat> {
    r.map_values(|x: usize| x as nat)
}

proof fn lemma_rank_along_cycle(defaults: Seq<Option<u16>>, rank: Seq<nat>, cycle: Seq<u16>, k: int)
    requires
        is_default_rank(defaults, rank),
        is_default_cycle(defaults, cycle),
        0 <= k < cycle.len(),
    ensures
        rank[cycle[k] as int] + k <= rank[cycle[0] as int],
    decreases k,
{
    if k > 0 {
        lemma_rank_along_cycle(defaults, rank, cycle, k - 1);
        assert(defaults[cycle[k - 1] as int] == Some(cycle[k]));
    }
}

/// A graph with a decreasing rank has no default cycle.
pub proof fn lemma_rank_excludes_cycle(defaults: Seq<Option<u16>>, rank: Seq<nat>)
    requires
        is_default_rank(defaults, rank),
    ensures
        !has_default_cycle(defaults),
{
    if has_default_cycle(defaults) {
        let cycle = choose|cycle: Seq<u16>| is_default_cycle(defaults, cycle);
        lemma_rank_along_cycle(defaults, rank, cycle, cycle.len() - 1);
        assert(defaults[cycle.last() as int] == Some(cycle[0]));
    }
}

/// Walking `default(...)` edges from `cur`, having visited `seen`: the loop
/// met when the walk first comes back to a state it visited, listed from
/// that state; `None` when the walk ends first (or after `fuel` more steps).
pub open spec fn walk_cycle(defaults: Seq<Option<u16>>, seen: Seq<u16>, cur: u16, fuel: nat) -> Option<Seq<u16>>
    decreases fuel,
{
    if seen.contains(cur) {
        Some(seen.subrange(index_of(seen, cur), seen.len() as int))
    } else if fuel == 0 {
        None
    } else {
        match defaults[cur as int] {
            None => None,
            Some(next) => walk_cycle(defaults, seen.push(cur), next, (fuel - 1) as nat),
        }
    }
}

/// The loop met by the walk from the first state, from `s` on in index
/// order, whose chain of defaults loops.
pub open spec fn first_cycle(defaults: Seq<Option<u16>>, s: nat) -> Option<Seq<u16>>
    decreases defaults.len() - s,
{
    if s >= defaults.len() {
        None
    } else {
        match walk_cycle(defaults, Seq::empty(), s as u16, defaults.len()) {
            Some(c) => Some(c),
            None => first_cycle(defaults, s + 1),
        }
    }
}

/// Number of zero entries.
spec fn count_zero(s: Seq<u8>) -> nat
    decreases s.len(),
{
    if s.len() == 0 {
        0
    } else {
        count_zero(s.drop_last()) + if s.last() == 0 { 1nat } else { 0nat }
    }
}

proof fn lemma_count_zero_bound(s: Seq<u8>)
    ensures
        count_zero(s) <= s.len(),
    decreases s.len(),
{
    if s.len() > 0 {
        lemma_count_zero_bound(s.drop_last());
    }
}

proof fn lemma_count_zero_update(s: Seq<u8>, i: int, v: u8)
    requires
        0 <= i < s.len(),
    ensures
        s[i] == 0 && v != 0 ==> count_zero(s.update(i, v)) + 1 == count_zero(s),
        s[i] != 0 && v != 0 ==> count_zero(s.update(i, v)) == count_zero(s),
    decreases s.len(),
{
    let t = s.update(i, v);
    if i == s.len() - 1 {
        assert(t.drop_last() =~= s.drop_last());
    } else {
        assert(t.drop_last() =~= s.drop_last().update(i, v));
        lemma_count_zero_update(s.drop_last(), i, v);
    }
}

proof fn lemma_count_zero_all(s: Seq<u8>)
    requires
        count_zero(s) == 0,
    ensures
        forall|i: int| 0 <= i < s.len() ==> s[i] != 0,
    decreases s.len(),
{
    if s.len() > 0 {
        lemma_count_zero_all(s.drop_last());
        assert forall|i: int| 0 <= i < s.len() implies s[i] != 0 by {
            if i < s.len() - 1 {
                assert(s[i] == s.drop_last()[i]);
            }
        }
    }
}

/// Black (finished) nodes: their default, if any, is black with a smaller rank,
/// and every rank is below the number of colored nodes.
spec fn black_ok(defaults: Seq<Option<u16>>, color: Seq<u8>, rank: Seq<usize>) -> bool {
    forall|s: int|
        0 <= s < defaults.len() && #[trigger] color[s] == 2 ==> {
            &&& (rank[s] as int) < defaults.len() - count_zero(color)
            &&& (defaults[s] matches Some(d) ==> color[d as int] == 2 && rank[d as int] < rank[s])
        }
}

/// A walk that reaches a finished (black) state ends without a loop: from
/// there on it only meets black states of smaller and smaller rank.
proof fn lemma_black_walk(
    defaults: Seq<Option<u16>>,
    color: Seq<u8>,
    rank: Seq<usize>,
    seen: Seq<u16>,
    cur: u16,
    fuel: nat,
)
    requires
        black_ok(defaults, color, rank),
        targets_in_range(defaults),
        color.len() == defaults.len(),
        rank.len() == defaults.len(),
        (cur as int) < defaults.len(),
        color[cur as int] == 2,
        forall|k: int| 0 <= k < seen.len() ==> ((seen[k] as int) < defaults.len() && color[#[trigger] seen[k] as int] == 2 ==> rank[seen[k] as int] > rank[cur as int]),
        forall|k: int| 0 <= k < seen.len() ==> (#[trigger] seen[k] as int) < defaults.len(),
    ensures
        walk_cycle(defaults, seen, cur, fuel) is None,
    decreases fuel,
{
    if seen.contains(cur) {
        let k = choose|k: int| 0 <= k < seen.len() && seen[k] == cur;
        assert(color[seen[k] as int] == 2);
    }
    if fuel > 0 {
        if let Some(next) = defaults[cur as int] {
            let s2 = seen.push(cur);
            assert forall|k: int| 0 <= k < s2.len() implies ((s2[k] as int) < defaults.len() && color[#[trigger] s2[k] as int] == 2 ==> rank[s2[k] as int] > rank[next as int]) by {
                if k < seen.len() {
                    assert(s2[k] == seen[k]);
                }
            }
            assert forall|k: int| 0 <= k < s2.len() implies (#[trigger] s2[k] as int) < defaults.len() by {
                if k < seen.len() {
                    assert(s2[k] == seen[k]);
                }
            }
            lemma_black_walk(defaults, color, rank, s2, next, (fuel - 1) as nat);
        }
    }
}

/// The part of a walked chain that starts where the walk re-entered it.
fn extract_cycle(chain: &Vec<u16>, cur: u16, Ghost(defaults): Ghost<Seq<Option<u16>>>) -> (cycle: Vec<u16>)
    requires
        chain@.contains(cur),
        chain@.len() > 0,
        forall|k: int| 0 <= k < chain@.len() ==> (#[trigger] chain@[k]) < defaults.len(),
        forall|k: int| 0 <= k < chain@.len() - 1 ==> defaults[(#[trigger] chain@[k]) as int] == Some(chain@[k + 1]),
        defaults[chain@.last() as int] == Some(cur),
    ensures
        is_default_cycle(defaults, cycle@),
        cycle@ == chain@.subrange(index_of(chain@, cur), chain@.len() as int),
{
    let len = chain.len();
    let mut p: usize = 0;
    while p < len && chain[p] != cur
        invariant
            p <= len,
            len == chain@.len(),
            chain@.contains(cur),
            forall|k: int| 0 <= k < p ==> chain@[k] != cur,
        decreases len - p,
    {
        p += 1;
    }
    let ghost pos = p;
    assert(p < len && chain@[p as int] == cur);
    proof {
        lemma_index_of_at(chain@, cur, pos as int);
    }
    let mut cycle: Vec<u16> = Vec::new();
    let mut q: usize = p;
    while q < len
        invariant
            pos <= q <= len,
            len == chain@.len(),
            cycle@ =~= chain@.subrange(pos as int, q as int),
        decreases len - q,
    {
        cycle.push(chain[q]);
        q += 1;
    }
    proof {
        assert(cycle@ =~= chain@.subrange(pos as int, len as int));
        assert forall|k: int| 0 <= k < cycle@.len() - 1 implies defaults[(#[trigger] cycle@[k]) as int] == Some(cycle@[k + 1]) by {
            assert(cycle@[k] == chain@[pos + k]);
            assert(cycle@[k + 1] == chain@[pos + k + 1]);
        }
    }
    cycle
}

/// Walk every chain of `default(...)` edges. Returns a rank for every state
/// that strictly decreases along each edge, or the first cycle met, listed
/// from the state where the walk re-entered its own chain.
#[verifier::rlimit(40)]
pub fn default_ranks(defaults: &Vec<Option<u16>>) -> (r: Result<Vec<usize>, Vec<u16>>)
    requires
        targets_in_range(defaults@),
        defaults@.len() <= 0x10000,
    ensures
        r matches Ok(rank) ==> is_default_rank(defaults@, ranks_of(rank@)),
        r matches Err(cycle) ==> is_default_cycle(defaults@, cycle@),
        r is Ok <==> !has_default_cycle(defaults@),
        r matches Err(cycle) ==> first_cycle(defaults@, 0) == Some(cycle@),
        r is Ok ==> first_cycle(defaults@, 0) is None,
{
    let n = defaults.len();
    let mut color: Vec<u8> = Vec::new();
    let mut rank: Vec<usize> = Vec::new();
    let mut i: usize = 0;
    while i < n
        invariant
            i <= n,
            n == defaults@.len(),
            color@.len() == i,
            rank@.len() == i,
            forall|j: int| 0 <= j < i ==> color@[j] == 0 && rank@[j] == 0,
            count_zero(color@) == i,
        decreases n - i,
    {
        let ghost prev = color@;
        color.push(0);
        rank.push(0);
        proof {
            assert(color@.drop_last() =~= prev);
        }
        i += 1;
    }
    let mut start: usize = 0;
    while start < n
        invariant
            start <= n,
            n == defaults@.len(),
            n <= 0x10000,
            targets_in_range(defaults@),
            color@.len() == n,
            rank@.len() == n,
            forall|j: int| 0 <= j < n ==> (#[trigger] color@[j] == 0 || color@[j] == 2),
            forall|j: int| 0 <= j < start ==> #[trigger] color@[j] == 2,
            black_ok(defaults@, color@, rank@),
            first_cycle(defaults@, 0) == first_cycle(defaults@, start as nat),
        decreases n - start,
    {
        if color[start] != 0 {
            proof {
                lemma_black_walk(defaults@, color@, rank@, Seq::empty(), start as u16, n as nat);
            }
            start += 1;
            continue;
        }
        let ghost colored0: int = n - count_zero(color@);
        let mut chain: Vec<u16> = Vec::new();
        let mut cur: u16 = start as u16;
        let mut base: usize = 0;
        proof {
            lemma_count_zero_bound(color@);
        }
        loop
            invariant_except_break
                chain@.len() > 0 ==> defaults@[chain@.last() as int] == Some(cur),
                chain@.len() <= n,
                walk_cycle(defaults@, Seq::empty(), start as u16, n as nat) == walk_cycle(
                    defaults@,
                    chain@,
                    cur,
                    (n - chain@.len()) as nat,
                ),
            invariant
                n == defaults@.len(),
                n <= 0x10000,
                targets_in_range(defaults@),
                color@.len() == n,
                rank@.len() == n,
                (cur as int) < n,
                start < n,
                forall|j: int| 0 <= j < start ==> #[trigger] color@[j] == 2,
                forall|j: int| 0 <= j < n ==> (#[trigger] color@[j] == 0 || color@[j] == 1 || color@[j] == 2),
                forall|j: int| 0 <= j < n && #[trigger] color@[j] == 1 ==> chain@.contains(j as u16),
                forall|k: int| 0 <= k < chain@.len() ==> (#[trigger] chain@[k]) < n && color@[chain@[k] as int] == 1,
                forall|k: int| 0 <= k < chain@.len() - 1 ==> defaults@[(#[trigger] chain@[k]) as int] == Some(chain@[k + 1]),
                chain@.len() == 0 ==> cur as int == start as int && color@[start as int] == 0,
                chain@.len() > 0 ==> chain@[0] as int == start as int,
                forall|t: int| 0 <= t < n && #[trigger] color@[t] == 2 ==> (rank@[t] as int) < colored0,
                chain@.len() == n - count_zero(color@) - colored0,
                0 <= colored0 <= n,
                black_ok(defaults@, color@, rank@),
                first_cycle(defaults@, 0) == first_cycle(defaults@, start as nat),
            ensures
                walk_cycle(defaults@, Seq::empty(), start as u16, n as nat) is None,
                forall|j: int| 0 <= j < n ==> (#[trigger] color@[j] == 0 || color@[j] == 1 || color@[j] == 2),
                chain@.len() > 0,
                chain@[0] as int == start as int,
                (base as int) <= colored0,
                chain@.last() < n,
                defaults@[chain@.last() as int] matches Some(d) ==> color@[d as int] == 2 && base == rank@[d as int] + 1,
                defaults@[chain@.last() as int] is None ==> base == 0,
            decreases count_zero(color@),
        {
            if color[cur as usize] == 2 {
                proof {
                    assert(color@[cur as int] == 2);
                    assert(chain@.len() > 0);
                    lemma_black_walk(defaults@, color@, rank@, chain@, cur, (n - chain@.len()) as nat);
                }
                base = rank[cur as usize] + 1;
                break;
            }
            if color[cur as usize] == 1 {
                // The walk came back to its own chain: report the cycle.
                proof {
                    assert(color@[cur as int] == 1);
                    assert(chain@.contains(cur));
                }
                let cycle = extract_cycle(&chain, cur, Ghost(defaults@));
                proof {
                    assert(first_cycle(defaults@, start as nat) == Some(cycle@));
                }
                return Err(cycle);
            }
            proof {
                lemma_count_zero_update(color@, cur as int, 1);
                if chain@.contains(cur) {
                    let k = choose|k: int| 0 <= k < chain@.len() && chain@[k] == cur;
                    assert(color@[chain@[k] as int] == 1);
                }
            }
            let ghost prev_color = color@;
            let ghost prev_chain = chain@;
            proof {
                assert(!chain@.contains(cur)) by {
                    if chain@.contains(cur) {
                        let k = choose|k: int| 0 <= k < chain@.len() && chain@[k] == cur;
                        assert(color@[chain@[k] as int] == 1);
                    }
                }
                assert(chain@.len() < n);
            }
            color.set(cur as usize, 1);
            chain.push(cur);
            proof {
                assert forall|j: int| 0 <= j < n && #[trigger] color@[j] == 1 implies chain@.contains(j as u16) by {
                    if j == cur as int {
                        assert(chain@[chain@.len() - 1] == cur);
                    } else {
                        assert(prev_color[j] == 1);
                        assert(prev_chain.contains(j as u16));
                        let k = choose|k: int| 0 <= k < prev_chain.len() && prev_chain[k] == j as u16;
                        assert(chain@[k] == j as u16);
                    }
                }
                assert(black_ok(defaults@, color@, rank@)) by {
                    assert forall|s: int| 0 <= s < defaults@.len() && #[trigger] color@[s] == 2 implies {
                        &&& (rank@[s] as int) < defaults@.len() - count_zero(color@)
                        &&& (defaults@[s] matches Some(d) ==> color@[d as int] == 2 && rank@[d as int] < rank@[s])
                    } by {
                        assert(color@[s] == prev_color[s]);
                    }
                }
            }
            match defaults[cur as usize] {
                Some(next) => {
                    cur = next;
                },
                None => {
                    base = 0;
                    break;
                },
            }
        }
        // Finish the chain from its end: each state ranks one above its default.
        let len = chain.len();
        let ghost colored1: int = n - count_zero(color@);
        let mut k: usize = len;
        proof {
            assert(chain@.subrange(0, len as int) =~= chain@);
        }
        while k > 0
            invariant
                k <= len,
                len == chain@.len(),
                len > 0,
                n == defaults@.len(),
                n <= 0x10000,
                targets_in_range(defaults@),
                color@.len() == n,
                rank@.len() == n,
                forall|j: int| 0 <= j < start ==> #[trigger] color@[j] == 2,
                forall|j: int| 0 <= j < n ==> (#[trigger] color@[j] == 0 || color@[j] == 1 || color@[j] == 2),
                forall|j: int| 0 <= j < n && #[trigger] color@[j] == 1 ==> chain@.subrange(0, k as int).contains(j as u16),
                forall|q: int| 0 <= q < k ==> (#[trigger] chain@[q]) < n && color@[chain@[q] as int] == 1,
                forall|q: int| k <= q < len ==> (#[trigger] chain@[q]) < n && color@[chain@[q] as int] == 2
                    && rank@[chain@[q] as int] == base + (len - 1 - q),
                forall|q: int| 0 <= q < len - 1 ==> defaults@[(#[trigger] chain@[q]) as int] == Some(chain@[q + 1]),
                chain@[0] as int == start as int,
                chain@.len() == colored1 - colored0,
                colored1 == n - count_zero(color@),
                0 <= colored0 <= colored1 <= n,
                (base as int) <= colored0,
                defaults@[chain@.last() as int] matches Some(d) ==> color@[d as int] == 2 && base == rank@[d as int] + 1,
                defaults@[chain@.last() as int] is None ==> base == 0,
                black_ok(defaults@, color@, rank@),
                first_cycle(defaults@, 0) == first_cycle(defaults@, start as nat),
                walk_cycle(defaults@, Seq::empty(), start as u16, n as nat) is None,
            decreases k,
        {
            k -= 1;
            let s = chain[k] as usize;
            let rk = base + (len - 1 - k);
            proof {
                lemma_count_zero_update(color@, s as int, 2);
                assert forall|q: int| 0 <= q < len && q != k implies chain@[q] != chain@[k as int] by {
                    if q < k {
                        assert(color@[chain@[q] as int] == 1);
                    } else {
                        assert(color@[chain@[q] as int] == 2);
                    }
                }
            }
            color.set(s, 2);
            rank.set(s, rk);
            proof {
                assert forall|j: int| 0 <= j < n && #[trigger] color@[j] == 1 implies chain@.subrange(0, k as int).contains(j as u16) by {
                    let prev = chain@.subrange(0, (k + 1) as int);
                    assert(prev.contains(j as u16));
                    let q = choose|q: int| 0 <= q < prev.len() && prev[q] == j as u16;
                    assert(q != k);
                    assert(chain@.subrange(0, k as int)[q] == j as u16);
                }
                assert forall|q: int| k <= q < len implies (#[trigger] chain@[q]) < n && color@[chain@[q] as int] == 2
                    && rank@[chain@[q] as int] == base + (len - 1 - q) by {
                    if q != k {
                        assert(chain@[q] != chain@[k as int]);
                    }
                }
                assert(black_ok(defaults@, color@, rank@)) by {
                    assert forall|t: int| 0 <= t < defaults@.len() && #[trigger] color@[t] == 2 implies {
                        &&& (rank@[t] as int) < defaults@.len() - count_zero(color@)
                        &&& (defaults@[t] matches Some(d) ==> color@[d as int] == 2 && rank@[d as int] < rank@[t])
                    } by {
                        if t == s {
                            if k + 1 < len {
                                assert(defaults@[chain@[k as int] as int] == Some(chain@[k + 1]));
                            }
                        }
                    }
                }
            }
        }
        proof {
            assert forall|j: int| 0 <= j < n implies (#[trigger] color@[j] == 0 || color@[j] == 2) by {
                if color@[j] == 1 {
                    assert(chain@.subrange(0, 0).contains(j as u16));
                }
            }
            assert(color@[start as int] == 2) by {
                if chain@[0] != start as u16 {
                }
            }
            assert(first_cycle(defaults@, start as nat) == first_cycle(defaults@, (start + 1) as nat));
        }
        start += 1;
    }
    proof {
        assert forall|i: int| 0 <= i < defaults@.len() implies (#[trigger] defaults@[i] matches Some(d) ==> d < defaults@.len() && ranks_of(rank@)[d as int] < ranks_of(rank@)[i]) by {
            assert(color@[i] == 2);
        }
        assert(is_default_rank(defaults@, ranks_of(rank@)));
        lemma_rank_excludes_cycle(defaults@, ranks_of(rank@));
        assert(first_cycle(defaults@, n as nat) is None);
    }
    Ok(rank)
}

} // verus!
