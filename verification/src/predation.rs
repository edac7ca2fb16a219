//! Predation on contact: where two agents touch and one hunts the other, the
//! hunted one dies and the hunter is rewarded with energy.
//!
//! The pass first scans, then removes: every pair of agents is judged once, on
//! the agents as they stand before the pass, and no agent leaves before every
//! pair was judged. An agent that is doomed in one encounter may still win
//! another.

use vstd::prelude::*;
use crate::agents::all_valid;
use crate::agents::live;
use crate::agents::Agent;
use crate::agents::AgentStore;
use crate::fixed::is_within;
use crate::fixed::within;
use crate::forces::neighbour;
use crate::grid::is_answer;
use crate::grid::AgentId;
use crate::grid::HashGrid;
use crate::lifecycle::index_current;
use crate::lifecycle::lemma_current_index_finds;
use crate::lifecycle::EnergyChange;
use crate::species::FactorInfo;
use crate::species::Factors;
use crate::species::Features;
use crate::tables::Cell;

verus! {

/// Energy that a kill earns, in millionths.
pub const KILL_REWARD: i64 = 4_000_000;

/// How an encounter of two agents ends.
#[derive(Clone, Copy, Debug, PartialEq, Eq, Structural)]
pub enum Outcome {
    /// The first agent kills the second.
    FirstWins,
    /// The second agent kills the first.
    SecondWins,
    /// Nobody dies.
    Neither,
}

/// The two agents touch: their distance is at most the sum of their sizes.
pub open spec fn touching(a: Agent, fa: Factors, b: Agent, fb: Factors) -> bool {
    within(a.position, b.position, fa.size + fb.size)
}

/// How the encounter of `a` and `b` ends. Where they touch, the hunter kills
/// the hunted; where each hunts the other, the one with strictly more energy
/// kills, and nobody dies at equal energy.
pub open spec fn encounter(a: Agent, fa: Factors, b: Agent, fb: Factors) -> Outcome {
    if !touching(a, fa, b, fb) {
        Outcome::Neither
    } else if fa.hunts(b.species) && fb.hunts(a.species) {
        if a.energy.0 > b.energy.0 {
            Outcome::FirstWins
        } else if b.energy.0 > a.energy.0 {
            Outcome::SecondWins
        } else {
            Outcome::Neither
        }
    } else if fa.hunts(b.species) {
        Outcome::FirstWins
    } else if fb.hunts(a.species) {
        Outcome::SecondWins
    } else {
        Outcome::Neither
    }
}

/// Judges the encounter of `a` and `b`.
pub fn judge(a: &Agent, fa: &Factors, b: &Agent, fb: &Factors) -> (outcome: Outcome)
    ensures
        outcome == encounter(*a, *fa, *b, *fb),
{
    if !is_within(a.position, b.position, fa.size as i64 + fb.size as i64) {
        return Outcome::Neither;
    }
    let a_hunts = fa.preys_on(b.species);
    let b_hunts = fb.preys_on(a.species);
    if a_hunts && b_hunts {
        if a.energy.0 > b.energy.0 {
            Outcome::FirstWins
        } else if b.energy.0 > a.energy.0 {
            Outcome::SecondWins
        } else {
            Outcome::Neither
        }
    } else if a_hunts {
        Outcome::FirstWins
    } else if b_hunts {
        Outcome::SecondWins
    } else {
        Outcome::Neither
    }
}

/// The reward of a kill for agent `id`.
pub open spec fn reward(id: AgentId) -> EnergyChange {
    EnergyChange { agent: id, change: KILL_REWARD }
}

/// The largest size of a species of the table; the least number where the
/// table is empty.
pub open spec fn largest_size(table: Seq<Factors>) -> int
    decreases table.len(),
{
    if table.len() == 0 {
        i32::MIN as int
    } else if table.last().size > largest_size(table.drop_last()) {
        table.last().size as int
    } else {
        largest_size(table.drop_last())
    }
}

/// The radius of the query of an agent of size `size`: far enough to find
/// whatever agent of the table it may touch.
pub open spec fn hunt_reach(size: i32, table: Seq<Factors>) -> int {
    size + largest_size(table)
}

/// The doomed agents and the rewards after agent `id` met the candidate. Every
/// pair is judged once, in the scan of the agent in the lower slot: a candidate
/// in a lower slot, the agent itself and a candidate that is no live agent are
/// passed over.
pub open spec fn met(
    agents: Seq<Option<Agent>>,
    table: Seq<Factors>,
    state: (Seq<bool>, Seq<EnergyChange>),
    id: AgentId,
    candidate: AgentId,
) -> (Seq<bool>, Seq<EnergyChange>) {
    match neighbour(agents, id, candidate) {
        Some(b) => {
            let a = agents[id as int].unwrap();
            if candidate < id {
                state
            } else {
                match encounter(a, table[a.species.0 as int], b, table[b.species.0 as int]) {
                    Outcome::FirstWins => (
                        state.0.update(candidate as int, true),
                        state.1.push(reward(id)),
                    ),
                    Outcome::SecondWins => (
                        state.0.update(id as int, true),
                        state.1.push(reward(candidate)),
                    ),
                    Outcome::Neither => state,
                }
            }
        },
        None => state,
    }
}

/// The doomed agents and the rewards after agent `id` met the candidates, in
/// their order.
pub open spec fn hunted(
    agents: Seq<Option<Agent>>,
    table: Seq<Factors>,
    state: (Seq<bool>, Seq<EnergyChange>),
    id: AgentId,
    candidates: Seq<AgentId>,
) -> (Seq<bool>, Seq<EnergyChange>)
    decreases candidates.len(),
{
    if candidates.len() == 0 {
        state
    } else {
        met(
            agents,
            table,
            hunted(agents, table, state, id, candidates.drop_last()),
            id,
            candidates.last(),
        )
    }
}

/// The doomed agents and the rewards after the live agents in slots below
/// `upto` met their candidates, in the order of the slots.
pub open spec fn hunt(
    agents: Seq<Option<Agent>>,
    table: Seq<Factors>,
    candidates: Seq<Seq<AgentId>>,
    upto: int,
) -> (Seq<bool>, Seq<EnergyChange>)
    decreases upto,
{
    if upto <= 0 {
        (Seq::new(agents.len(), |k: int| false), Seq::empty())
    } else if live(agents, upto - 1) {
        hunted(
            agents,
            table,
            hunt(agents, table, candidates, upto - 1),
            (upto - 1) as usize,
            candidates[upto - 1],
        )
    } else {
        hunt(agents, table, candidates, upto - 1)
    }
}

/// The agents without the doomed ones.
pub open spec fn culled(agents: Seq<Option<Agent>>, doomed: Seq<bool>) -> Seq<Option<Agent>> {
    Seq::new(
        agents.len(),
        |k: int|
            if doomed[k] {
                None
            } else {
                agents[k]
            },
    )
}

/// The identifiers that are marked.
pub open spec fn marked(doomed: Seq<bool>) -> Set<AgentId> {
    Set::new(|id: AgentId| id < doomed.len() && doomed[id as int])
}

/// `after`, `records_after` and `rewards` are what a predation pass makes of
/// `before` and `records`, for some answers that the spatial index may give to
/// the queries of the agents: the doomed agents have left the store and the
/// index, and the killers' rewards are queued. Nothing changes where killing
/// is switched off.
pub open spec fn hunted_pass(
    before: Seq<Option<Agent>>,
    records: Map<AgentId, Cell>,
    table: Seq<Factors>,
    features: Features,
    after: Seq<Option<Agent>>,
    records_after: Map<AgentId, Cell>,
    rewards: Seq<EnergyChange>,
) -> bool {
    if features.killing {
        exists|candidates: Seq<Seq<AgentId>>|
            candidates.len() == before.len() && (forall|id: int|
                live(before, id) ==> is_answer(
                    records,
                    before[id].unwrap().position,
                    hunt_reach(table[before[id].unwrap().species.0 as int].size, table),
                    #[trigger] candidates[id],
                )) && rewards == hunt(before, table, candidates, before.len() as int).1 && after
                == culled(before, hunt(before, table, candidates, before.len() as int).0)
                && records_after == records.remove_keys(
                marked(hunt(before, table, candidates, before.len() as int).0),
            )
    } else {
        rewards.len() == 0 && after == before && records_after == records
    }
}

/// Lets agent `id` meet the candidates that the spatial index returned for it,
/// marks who is doomed and queues the rewards.
pub fn predation_scan(
    agents: &AgentStore,
    table: &FactorInfo,
    id: AgentId,
    candidates: &Vec<AgentId>,
    doomed: &mut Vec<bool>,
    rewards: &mut Vec<EnergyChange>,
)
    requires
        live(agents@, id as int),
        all_valid(agents@, table.factors@),
        old(doomed)@.len() == agents@.len(),
    ensures
        (final(doomed)@, final(rewards)@) == hunted(
            agents@,
            table.factors@,
            (old(doomed)@, old(rewards)@),
            id,
            candidates@,
        ),
        final(doomed)@.len() == agents@.len(),
{
    let a: Agent = agents.slots[id].unwrap();
    let fa = table.get(a.species);
    let mut i: usize = 0;
    while i < candidates.len()
        invariant
            i <= candidates.len(),
            live(agents@, id as int),
            all_valid(agents@, table.factors@),
            a == agents@[id as int].unwrap(),
            *fa == table.factors@[a.species.0 as int],
            doomed@.len() == agents@.len(),
            (doomed@, rewards@) == hunted(
                agents@,
                table.factors@,
                (old(doomed)@, old(rewards)@),
                id,
                candidates@.take(i as int),
            ),
        decreases candidates.len() - i,
    {
        let candidate = candidates[i];
        proof {
            assert(candidates@.take(i + 1).drop_last() =~= candidates@.take(i as int));
        }
        let found: Option<Agent> = if candidate > id {
            agents.get(candidate)
        } else {
            None
        };
        match found {
            Some(b) => {
                {
                    let fb = table.get(b.species);
                    match judge(&a, fa, &b, fb) {
                        Outcome::FirstWins => {
                            doomed[candidate] = true;
                            rewards.push(EnergyChange { agent: id, change: KILL_REWARD });
                        },
                        Outcome::SecondWins => {
                            doomed[id] = true;
                            rewards.push(EnergyChange { agent: candidate, change: KILL_REWARD });
                        },
                        Outcome::Neither => {},
                    }
                }
            },
            None => {},
        }
        i = i + 1;
    }
    assert(candidates@.take(i as int) =~= candidates@);
}

/// The largest size of a species of the table.
pub fn largest_size_of(table: &FactorInfo) -> (size: i32)
    ensures
        size == largest_size(table.factors@),
{
    let mut size: i32 = i32::MIN;
    let mut k: usize = 0;
    assert(table.factors@.take(0) =~= Seq::<Factors>::empty());
    while k < table.factors.len()
        invariant
            k <= table.factors.len(),
            size == largest_size(table.factors@.take(k as int)),
        decreases table.factors.len() - k,
    {
        proof {
            assert(table.factors@.take(k + 1).drop_last() =~= table.factors@.take(k as int));
        }
        if table.factors[k].size > size {
            size = table.factors[k].size;
        }
        k = k + 1;
    }
    assert(table.factors@.take(k as int) =~= table.factors@);
    size
}

/// The predation pass. Every live agent, in the order of the slots, meets what
/// the spatial index returns around its position within its own size and the
/// largest size of the table, so that it finds every agent that it touches;
/// then the doomed agents leave the store and the spatial index. The result
/// holds the rewards of the killers, to be applied later. Nothing happens where
/// killing is switched off.
///
/// The order of an answer of the spatial index is not fixed; the pass is that
/// of some order.
pub fn kill_pass(
    agents: &mut AgentStore,
    grid: &mut HashGrid,
    table: &FactorInfo,
    features: &Features,
) -> (rewards: Vec<EnergyChange>)
    requires
        old(grid).wf(),
        all_valid(old(agents)@, table.factors@),
    ensures
        final(grid).wf(),
        all_valid(final(agents)@, table.factors@),
        final(agents)@.len() == old(agents)@.len(),
        hunted_pass(
            old(agents)@,
            old(grid)@,
            table.factors@,
            *features,
            final(agents)@,
            final(grid)@,
            rewards@,
        ),
{
    let mut rewards: Vec<EnergyChange> = Vec::new();
    if !features.killing {
        return rewards;
    }
    let n = agents.len();
    let largest = largest_size_of(table);
    let mut doomed: Vec<bool> = Vec::new();
    while doomed.len() < n
        invariant
            doomed@.len() <= n,
            forall|k: int| 0 <= k < doomed@.len() ==> !doomed@[k],
        decreases n - doomed@.len(),
    {
        doomed.push(false);
    }
    let ghost mut chosen: Seq<Seq<AgentId>> = Seq::new(
        agents@.len(),
        |k: int| Seq::<AgentId>::empty(),
    );
    let mut id: usize = 0;
    while id < n
        invariant
            id <= n,
            n == agents@.len(),
            agents@ == old(agents)@,
            grid@ == old(grid)@,
            grid.wf(),
            all_valid(agents@, table.factors@),
            chosen.len() == n,
            doomed@.len() == n,
            largest == largest_size(table.factors@),
            forall|k: int|
                0 <= k < id && live(agents@, k) ==> is_answer(
                    grid@,
                    agents@[k].unwrap().position,
                    hunt_reach(table.factors@[agents@[k].unwrap().species.0 as int].size, table.factors@),
                    #[trigger] chosen[k],
                ),
            (doomed@, rewards@) == hunt(agents@, table.factors@, chosen, id as int),
        decreases n - id,
    {
        let ghost before = chosen;
        match agents.get(id) {
            Some(a) => {
                let candidates = grid.get_nearby_entities(
                    a.position,
                    table.get(a.species).size as i64 + largest as i64,
                );
                proof {
                    chosen = chosen.update(id as int, candidates@);
                    lemma_hunt_agrees(agents@, table.factors@, before, chosen, id as int);
                }
                predation_scan(agents, table, id, &candidates, &mut doomed, &mut rewards);
            },
            None => {},
        }
        id = id + 1;
    }
    let ghost verdict = doomed@;
    let mut k: usize = 0;
    while k < n
        invariant
            k <= n,
            n == agents@.len(),
            n == old(agents)@.len(),
            doomed@ == verdict,
            verdict.len() == n,
            grid.wf(),
            all_valid(old(agents)@, table.factors@),
            forall|j: int| k <= j < n ==> agents@[j] == old(agents)@[j],
            forall|j: int|
                0 <= j < k ==> #[trigger] agents@[j] == (if verdict[j] {
                    None
                } else {
                    old(agents)@[j]
                }),
            grid@ == old(grid)@.remove_keys(marked(verdict.take(k as int))),
        decreases n - k,
    {
        if doomed[k] {
            agents.remove(k);
            grid.remove_entity(k);
        }
        k = k + 1;
    }
    proof {
        assert(verdict.take(n as int) =~= verdict);
        assert(agents@ =~= culled(old(agents)@, verdict));
        assert forall|j: int| #[trigger] live(agents@, j) implies agents@[j].unwrap().valid(
            table.factors@,
        ) by {
            assert(live(old(agents)@, j));
        }
    }
    rewards
}

/// A hunt over the slots below `upto` depends on the candidates of those slots
/// only.
proof fn lemma_hunt_agrees(
    agents: Seq<Option<Agent>>,
    table: Seq<Factors>,
    c1: Seq<Seq<AgentId>>,
    c2: Seq<Seq<AgentId>>,
    upto: int,
)
    requires
        forall|id: int| 0 <= id < upto ==> c1[id] == c2[id],
    ensures
        hunt(agents, table, c1, upto) == hunt(agents, table, c2, upto),
    decreases upto,
{
    if upto > 0 {
        lemma_hunt_agrees(agents, table, c1, c2, upto - 1);
    }
}

/// No species of the table is larger than the largest.
proof fn lemma_largest_size(table: Seq<Factors>, k: int)
    requires
        0 <= k < table.len(),
    ensures
        table[k].size <= largest_size(table),
    decreases table.len(),
{
    if k < table.len() - 1 {
        lemma_largest_size(table.drop_last(), k);
    }
}

/// The query of the predation pass finds every agent that the scanning agent
/// touches: where the index is current, an agent `other` that touches agent
/// `id` is among the candidates of `id`, whatever answer the index gives.
pub proof fn lemma_touching_pair_is_found(
    records: Map<AgentId, Cell>,
    agents: Seq<Option<Agent>>,
    table: Seq<Factors>,
    id: AgentId,
    other: AgentId,
    candidates: Seq<AgentId>,
)
    requires
        index_current(records, agents),
        all_valid(agents, table),
        live(agents, id as int),
        live(agents, other as int),
        touching(
            agents[id as int].unwrap(),
            table[agents[id as int].unwrap().species.0 as int],
            agents[other as int].unwrap(),
            table[agents[other as int].unwrap().species.0 as int],
        ),
        is_answer(
            records,
            agents[id as int].unwrap().position,
            hunt_reach(table[agents[id as int].unwrap().species.0 as int].size, table),
            candidates,
        ),
    ensures
        candidates.contains(other),
{
    let a = agents[id as int].unwrap();
    let b = agents[other as int].unwrap();
    let fa = table[a.species.0 as int];
    let fb = table[b.species.0 as int];
    lemma_largest_size(table, b.species.0 as int);
    let near = fa.size + fb.size;
    let far = hunt_reach(fa.size, table);
    assert(near * near <= far * far) by (nonlinear_arith)
        requires
            0 <= near <= far,
    ;
    lemma_current_index_finds(records, agents, other, a.position, far);
    assert(candidates.to_set().contains(other));
}

/// A state of the pass in which every doomed agent was alive and every reward
/// goes to an agent that was alive.
pub open spec fn fair(agents: Seq<Option<Agent>>, state: (Seq<bool>, Seq<EnergyChange>)) -> bool {
    &&& state.0.len() == agents.len()
    &&& forall|k: int| 0 <= k < state.0.len() && #[trigger] state.0[k] ==> live(agents, k)
    &&& forall|k: int|
        0 <= k < state.1.len() ==> live(agents, (#[trigger] state.1[k]).agent as int)
            && state.1[k].change == KILL_REWARD
}

/// One scan keeps the state of the pass fair.
proof fn lemma_hunted_fair(
    agents: Seq<Option<Agent>>,
    table: Seq<Factors>,
    state: (Seq<bool>, Seq<EnergyChange>),
    id: AgentId,
    candidates: Seq<AgentId>,
)
    requires
        fair(agents, state),
        live(agents, id as int),
    ensures
        fair(agents, hunted(agents, table, state, id, candidates)),
    decreases candidates.len(),
{
    if candidates.len() > 0 {
        lemma_hunted_fair(agents, table, state, id, candidates.drop_last());
    }
}

/// Whatever the spatial index answers, every agent that a predation pass dooms
/// was alive, and every reward is the reward of a kill and goes to an agent
/// that was alive.
pub proof fn lemma_pass_is_fair(
    agents: Seq<Option<Agent>>,
    table: Seq<Factors>,
    candidates: Seq<Seq<AgentId>>,
    upto: int,
)
    requires
        agents.len() <= usize::MAX,
    ensures
        fair(agents, hunt(agents, table, candidates, upto)),
    decreases upto,
{
    if upto > 0 {
        lemma_pass_is_fair(agents, table, candidates, upto - 1);
        if live(agents, upto - 1) {
            lemma_hunted_fair(
                agents,
                table,
                hunt(agents, table, candidates, upto - 1),
                (upto - 1) as usize,
                candidates[upto - 1],
            );
        }
    }
}

/// Agent `winner` kills agent `loser` where the two meet: both are alive, they
/// touch, and `winner` hunts `loser` and, where each hunts the other, has more
/// energy.
pub open spec fn beats(
    agents: Seq<Option<Agent>>,
    table: Seq<Factors>,
    winner: int,
    loser: int,
) -> bool {
    &&& winner != loser
    &&& live(agents, winner)
    &&& live(agents, loser)
    &&& encounter(
        agents[winner].unwrap(),
        table[agents[winner].unwrap().species.0 as int],
        agents[loser].unwrap(),
        table[agents[loser].unwrap().species.0 as int],
    ) == Outcome::FirstWins
}

/// An encounter ends the same way from whichever side it is judged.
pub proof fn lemma_encounter_mirrors(a: Agent, fa: Factors, b: Agent, fb: Factors)
    ensures
        encounter(a, fa, b, fb) == Outcome::SecondWins <==> encounter(b, fb, a, fa)
            == Outcome::FirstWins,
        encounter(a, fa, b, fb) == Outcome::FirstWins <==> encounter(b, fb, a, fa)
            == Outcome::SecondWins,
{
    let dx = a.position.x - b.position.x;
    let dy = a.position.y - b.position.y;
    assert(dx * dx == (-dx) * (-dx) && dy * dy == (-dy) * (-dy)) by (nonlinear_arith);
    assert(crate::fixed::dist2(a.position, b.position) == crate::fixed::dist2(
        b.position,
        a.position,
    ));
}

/// Agent `id` loses to one of the candidates that it judges.
pub open spec fn loses_to_one(
    agents: Seq<Option<Agent>>,
    table: Seq<Factors>,
    id: AgentId,
    candidates: Seq<AgentId>,
) -> bool
    decreases candidates.len(),
{
    if candidates.len() == 0 {
        false
    } else {
        loses_to_one(agents, table, id, candidates.drop_last()) || (candidates.last() > id
            && beats(agents, table, candidates.last() as int, id as int))
    }
}

/// Agent `x` loses to an agent in a slot below `upto` and below its own that
/// has it among its candidates.
pub open spec fn killed_from_below(
    agents: Seq<Option<Agent>>,
    table: Seq<Factors>,
    candidates: Seq<Seq<AgentId>>,
    x: AgentId,
    upto: int,
) -> bool
    decreases upto,
{
    if upto <= 0 {
        false
    } else {
        killed_from_below(agents, table, candidates, x, upto - 1) || (upto - 1 < x && candidates[upto
            - 1].contains(x) && beats(agents, table, upto - 1, x as int))
    }
}

/// Who is doomed after one scan: who was doomed before, the candidates in
/// higher slots that the scanning agent kills, and the scanning agent itself
/// where one of them kills it.
proof fn lemma_hunted_dooms(
    agents: Seq<Option<Agent>>,
    table: Seq<Factors>,
    state: (Seq<bool>, Seq<EnergyChange>),
    id: AgentId,
    candidates: Seq<AgentId>,
)
    requires
        agents.len() <= usize::MAX,
        state.0.len() == agents.len(),
        live(agents, id as int),
    ensures
        hunted(agents, table, state, id, candidates).0.len() == agents.len(),
        forall|x: int|
            0 <= x < agents.len() ==> (#[trigger] hunted(agents, table, state, id, candidates).0[x]
                <==> state.0[x] || (x > id && candidates.contains(x as usize) && beats(
                agents,
                table,
                id as int,
                x,
            )) || (x == id && loses_to_one(agents, table, id, candidates))),
    decreases candidates.len(),
{
    if candidates.len() > 0 {
        let front = candidates.drop_last();
        let last = candidates.last();
        lemma_hunted_dooms(agents, table, state, id, front);
        let before = hunted(agents, table, state, id, front);
        let after = hunted(agents, table, state, id, candidates);
        assert(after == met(agents, table, before, id, last));
        if live(agents, last as int) && last != id {
            lemma_encounter_mirrors(
                agents[id as int].unwrap(),
                table[agents[id as int].unwrap().species.0 as int],
                agents[last as int].unwrap(),
                table[agents[last as int].unwrap().species.0 as int],
            );
        }
        assert forall|x: int| 0 <= x < agents.len() implies (#[trigger] after.0[x] <==> state.0[x]
            || (x > id && candidates.contains(x as usize) && beats(agents, table, id as int, x))
            || (x == id && loses_to_one(agents, table, id, candidates))) by {
            assert(candidates.contains(x as usize) <==> front.contains(x as usize) || last == x) by {
                if front.contains(x as usize) {
                    let k = choose|k: int| 0 <= k < front.len() && front[k] == x as usize;
                    assert(candidates[k] == x as usize);
                }
                if last == x {
                    assert(candidates[candidates.len() - 1] == x as usize);
                }
                if candidates.contains(x as usize) {
                    let k = choose|k: int| 0 <= k < candidates.len() && candidates[k] == x as usize;
                    if k < front.len() {
                        assert(front[k] == x as usize);
                    }
                }
            }
            assert(before.0[x] <==> state.0[x] || (x > id && front.contains(x as usize) && beats(
                agents,
                table,
                id as int,
                x,
            )) || (x == id && loses_to_one(agents, table, id, front)));
        }
    }
}

/// Who is doomed after the scans of the slots below `upto`.
proof fn lemma_hunt_dooms(
    agents: Seq<Option<Agent>>,
    table: Seq<Factors>,
    candidates: Seq<Seq<AgentId>>,
    upto: int,
)
    requires
        agents.len() <= usize::MAX,
        upto <= agents.len(),
    ensures
        hunt(agents, table, candidates, upto).0.len() == agents.len(),
        forall|x: int|
            0 <= x < agents.len() ==> (#[trigger] hunt(agents, table, candidates, upto).0[x]
                <==> killed_from_below(agents, table, candidates, x as usize, upto) || (x < upto
                && live(agents, x) && loses_to_one(agents, table, x as usize, candidates[x]))),
    decreases upto,
{
    if upto > 0 {
        lemma_hunt_dooms(agents, table, candidates, upto - 1);
        let before = hunt(agents, table, candidates, upto - 1);
        if live(agents, upto - 1) {
            lemma_hunted_dooms(agents, table, before, (upto - 1) as usize, candidates[upto - 1]);
        }
        assert forall|x: int| 0 <= x < agents.len() implies (#[trigger] hunt(
            agents,
            table,
            candidates,
            upto,
        ).0[x] <==> killed_from_below(agents, table, candidates, x as usize, upto) || (x < upto
            && live(agents, x) && loses_to_one(agents, table, x as usize, candidates[x]))) by {
            assert(before.0[x] <==> killed_from_below(
                agents,
                table,
                candidates,
                x as usize,
                upto - 1,
            ) || (x < upto - 1 && live(agents, x) && loses_to_one(
                agents,
                table,
                x as usize,
                candidates[x],
            )));
        }
    }
}

/// Whoever loses to one of its candidates is beaten by an agent, and whoever
/// is beaten by a candidate in a higher slot loses to one.
proof fn lemma_loses_to_one(
    agents: Seq<Option<Agent>>,
    table: Seq<Factors>,
    id: AgentId,
    candidates: Seq<AgentId>,
)
    ensures
        loses_to_one(agents, table, id, candidates) <==> exists|k: int|
            0 <= k < candidates.len() && #[trigger] candidates[k] > id && beats(
                agents,
                table,
                candidates[k] as int,
                id as int,
            ),
    decreases candidates.len(),
{
    if candidates.len() > 0 {
        let front = candidates.drop_last();
        lemma_loses_to_one(agents, table, id, front);
        if loses_to_one(agents, table, id, candidates) {
            if loses_to_one(agents, table, id, front) {
                let k = choose|k: int|
                    0 <= k < front.len() && #[trigger] front[k] > id && beats(
                        agents,
                        table,
                        front[k] as int,
                        id as int,
                    );
                assert(candidates[k] == front[k]);
            } else {
                assert(candidates[candidates.len() - 1] == candidates.last());
            }
        }
        if exists|k: int|
            0 <= k < candidates.len() && #[trigger] candidates[k] > id && beats(
                agents,
                table,
                candidates[k] as int,
                id as int,
            ) {
            let k = choose|k: int|
                0 <= k < candidates.len() && #[trigger] candidates[k] > id && beats(
                    agents,
                    table,
                    candidates[k] as int,
                    id as int,
                );
            if k < front.len() {
                assert(front[k] == candidates[k]);
            }
        }
    }
}

/// Whoever is killed from below is beaten by an agent in a lower slot that has
/// it among its candidates, and the other way round.
proof fn lemma_killed_from_below(
    agents: Seq<Option<Agent>>,
    table: Seq<Factors>,
    candidates: Seq<Seq<AgentId>>,
    x: AgentId,
    upto: int,
)
    ensures
        killed_from_below(agents, table, candidates, x, upto) <==> exists|lower: int|
            0 <= lower < upto && lower < x && candidates[lower].contains(x) && #[trigger] beats(
                agents,
                table,
                lower,
                x as int,
            ),
    decreases upto,
{
    if upto > 0 {
        lemma_killed_from_below(agents, table, candidates, x, upto - 1);
    }
}

/// Who dies: where the index is current, an agent is doomed by the predation
/// pass if and only if some agent beats it, whatever the spatial index
/// answers and whatever the order of the slots.
pub proof fn lemma_who_dies(
    records: Map<AgentId, Cell>,
    agents: Seq<Option<Agent>>,
    table: Seq<Factors>,
    candidates: Seq<Seq<AgentId>>,
    x: int,
)
    requires
        agents.len() <= usize::MAX,
        index_current(records, agents),
        all_valid(agents, table),
        candidates.len() == agents.len(),
        forall|id: int|
            live(agents, id) ==> is_answer(
                records,
                agents[id].unwrap().position,
                hunt_reach(table[agents[id].unwrap().species.0 as int].size, table),
                #[trigger] candidates[id],
            ),
        0 <= x < agents.len(),
    ensures
        hunt(agents, table, candidates, agents.len() as int).0[x] <==> exists|y: int| #[trigger]
            beats(agents, table, y, x),
{
    let n = agents.len() as int;
    lemma_hunt_dooms(agents, table, candidates, n);
    lemma_killed_from_below(agents, table, candidates, x as usize, n);
    lemma_loses_to_one(agents, table, x as usize, candidates[x]);
    if exists|y: int| #[trigger] beats(agents, table, y, x) {
        let y = choose|y: int| #[trigger] beats(agents, table, y, x);
        lemma_encounter_mirrors(
            agents[y].unwrap(),
            table[agents[y].unwrap().species.0 as int],
            agents[x].unwrap(),
            table[agents[x].unwrap().species.0 as int],
        );
        if y < x {
            lemma_touching_pair_is_found(records, agents, table, y as usize, x as usize, candidates[y]);
        } else {
            lemma_touching_pair_is_found(records, agents, table, x as usize, y as usize, candidates[x]);
            let k = choose|k: int| 0 <= k < candidates[x].len() && candidates[x][k] == y as usize;
            assert(candidates[x][k] > x as usize);
        }
    }
}

/// The candidate changes nothing in the scan of agent `id`: it stands in no
/// higher slot, or is no live agent, or nobody dies where the two meet.
pub open spec fn idle(
    agents: Seq<Option<Agent>>,
    table: Seq<Factors>,
    id: AgentId,
    candidate: AgentId,
) -> bool {
    candidate <= id || !live(agents, candidate as int) || encounter(
        agents[id as int].unwrap(),
        table[agents[id as int].unwrap().species.0 as int],
        agents[candidate as int].unwrap(),
        table[agents[candidate as int].unwrap().species.0 as int],
    ) == Outcome::Neither
}

/// A scan of idle candidates changes nothing.
proof fn lemma_idle_scan(
    agents: Seq<Option<Agent>>,
    table: Seq<Factors>,
    state: (Seq<bool>, Seq<EnergyChange>),
    id: AgentId,
    candidates: Seq<AgentId>,
)
    requires
        forall|k: int| 0 <= k < candidates.len() ==> idle(agents, table, id, #[trigger] candidates[k]),
    ensures
        hunted(agents, table, state, id, candidates) == state,
    decreases candidates.len(),
{
    if candidates.len() > 0 {
        let front = candidates.drop_last();
        assert forall|k: int| 0 <= k < front.len() implies idle(
            agents,
            table,
            id,
            #[trigger] front[k],
        ) by {
            assert(front[k] == candidates[k]);
        }
        lemma_idle_scan(agents, table, state, id, front);
        assert(idle(agents, table, id, candidates[candidates.len() - 1]));
    }
}

/// A scan in which one candidate alone is not idle is the meeting with that
/// candidate.
proof fn lemma_single_meeting(
    agents: Seq<Option<Agent>>,
    table: Seq<Factors>,
    state: (Seq<bool>, Seq<EnergyChange>),
    id: AgentId,
    candidates: Seq<AgentId>,
    other: AgentId,
)
    requires
        candidates.no_duplicates(),
        candidates.contains(other),
        forall|k: int|
            0 <= k < candidates.len() && candidates[k] != other ==> idle(
                agents,
                table,
                id,
                #[trigger] candidates[k],
            ),
    ensures
        hunted(agents, table, state, id, candidates) == met(agents, table, state, id, other),
    decreases candidates.len(),
{
    let front = candidates.drop_last();
    let last = candidates.last();
    assert forall|k: int| 0 <= k < front.len() implies front[k] == candidates[k] by {}
    if last == other {
        assert forall|k: int| 0 <= k < front.len() implies idle(
            agents,
            table,
            id,
            #[trigger] front[k],
        ) by {
            assert(candidates[k] != candidates[candidates.len() - 1]);
        }
        lemma_idle_scan(agents, table, state, id, front);
    } else {
        let k = choose|k: int| 0 <= k < candidates.len() && candidates[k] == other;
        assert(front[k] == other);
        lemma_single_meeting(agents, table, state, id, front, other);
        assert(idle(agents, table, id, candidates[candidates.len() - 1]));
    }
}

/// The doomed agents and the rewards where nobody has met anybody.
pub open spec fn nothing_yet(agents: Seq<Option<Agent>>) -> (Seq<bool>, Seq<EnergyChange>) {
    (Seq::new(agents.len(), |k: int| false), Seq::empty())
}

/// The scans of the slots below `upto`, where the pair of `lower` and `higher`
/// are the only agents alive: nothing happens before the scan of `lower`, which
/// is the meeting of the two, and nothing after it.
proof fn lemma_hunt_of_a_pair(
    agents: Seq<Option<Agent>>,
    table: Seq<Factors>,
    candidates: Seq<Seq<AgentId>>,
    lower: AgentId,
    higher: AgentId,
    upto: int,
)
    requires
        agents.len() <= usize::MAX,
        0 <= upto <= agents.len(),
        lower < higher,
        live(agents, lower as int),
        live(agents, higher as int),
        forall|id: int| live(agents, id) ==> id == lower || id == higher,
        candidates[lower as int].no_duplicates(),
        candidates[lower as int].contains(higher),
    ensures
        hunt(agents, table, candidates, upto) == (if upto <= lower {
            nothing_yet(agents)
        } else {
            met(agents, table, nothing_yet(agents), lower, higher)
        }),
    decreases upto,
{
    if upto > 0 {
        lemma_hunt_of_a_pair(agents, table, candidates, lower, higher, upto - 1);
        let before = hunt(agents, table, candidates, upto - 1);
        if upto - 1 == lower {
            lemma_single_meeting(agents, table, before, lower, candidates[lower as int], higher);
        } else if upto - 1 == higher {
            lemma_idle_scan(agents, table, before, higher, candidates[higher as int]);
        }
    }
}

/// The lone pair: where a hunter and its prey are the only agents alive and
/// touch, and the index is current, the predation pass dooms the prey and
/// nobody else, and queues one reward, for the hunter, whatever the spatial
/// index answers and whichever of the two stands in the lower slot.
pub proof fn lemma_lone_pair(
    records: Map<AgentId, Cell>,
    agents: Seq<Option<Agent>>,
    table: Seq<Factors>,
    candidates: Seq<Seq<AgentId>>,
    hunter: AgentId,
    prey: AgentId,
)
    requires
        agents.len() <= usize::MAX,
        index_current(records, agents),
        all_valid(agents, table),
        candidates.len() == agents.len(),
        forall|id: int|
            live(agents, id) ==> is_answer(
                records,
                agents[id].unwrap().position,
                hunt_reach(table[agents[id].unwrap().species.0 as int].size, table),
                #[trigger] candidates[id],
            ),
        beats(agents, table, hunter as int, prey as int),
        forall|id: int| live(agents, id) ==> id == hunter || id == prey,
    ensures
        hunt(agents, table, candidates, agents.len() as int).1 == seq![reward(hunter)],
        hunt(agents, table, candidates, agents.len() as int).0 == Seq::new(
            agents.len(),
            |k: int| k == prey,
        ),
{
    let n = agents.len() as int;
    let a = agents[hunter as int].unwrap();
    let b = agents[prey as int].unwrap();
    lemma_encounter_mirrors(
        a,
        table[a.species.0 as int],
        b,
        table[b.species.0 as int],
    );
    let lower = if hunter < prey {
        hunter
    } else {
        prey
    };
    let higher = if hunter < prey {
        prey
    } else {
        hunter
    };
    lemma_touching_pair_is_found(records, agents, table, lower, higher, candidates[lower as int]);
    lemma_hunt_of_a_pair(agents, table, candidates, lower, higher, n);
    let end = hunt(agents, table, candidates, n);
    assert(end.1 =~= seq![reward(hunter)]);
    assert(end.0 =~= Seq::new(agents.len(), |k: int| k == prey));
}

} // verus!
