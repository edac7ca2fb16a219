//! Reproduction: a fertile agent that finds a mate nearby has offspring, pays
//! for it with energy, and both wait out a cooldown.
//!
//! The pass first scans, then acts: offspring appear and timers move only after
//! every agent has looked for a mate, and nobody reproduces twice in one pass.

use vstd::prelude::*;
use crate::agents::all_valid;
use crate::agents::live;
use crate::agents::Agent;
use crate::agents::AgentStore;
use crate::agents::Fertility;
use crate::fixed::clamped;
use crate::fixed::is_within;
use crate::fixed::within;
use crate::forces::neighbour;
use crate::grid::is_answer;
use crate::grid::AgentId;
use crate::grid::HashGrid;
use crate::lifecycle::index_current;
use crate::lifecycle::lemma_current_index_finds;
use crate::lifecycle::newborn;
use crate::lifecycle::spawn_in_square;
use crate::lifecycle::EnergyChange;
use crate::species::FactorInfo;
use crate::species::Factors;
use crate::species::Features;
use crate::tables::id_set_members;
use crate::tables::Cell;
use crate::tables::IdSet;

verus! {

/// Energy that reproducing costs, in millionths.
pub const REPRODUCTION_COST: i64 = 15_000_000;

/// How far from its parent an offspring may appear along either axis, in
/// thousandths of a world unit.
pub const OFFSPRING_RADIUS: i32 = 15_000;

/// The agent's countdown has run out.
pub open spec fn fertile(a: Agent) -> bool {
    a.fertility.time_till_fertile <= 0
}

/// The radius of the query for mates: twice the size.
pub open spec fn mate_reach(size: i32) -> int {
    2 * size
}

/// The radius of the query for mates.
pub fn reach_of(size: i32) -> (reach: i64)
    ensures
        reach == mate_reach(size),
{
    2 * (size as i64)
}

/// `b` is of the species of `a` and within twice its size.
pub open spec fn mates(a: Agent, fa: Factors, b: Agent) -> bool {
    b.species == a.species && within(a.position, b.position, 2 * fa.size)
}

/// Who has reproduced, and the parents in the order in which they did, after
/// agent `id` looked at the candidate. A fertile agent takes the candidate as
/// its mate where neither has reproduced in this pass; both count as having
/// reproduced then, and the agent becomes a parent.
pub open spec fn courted(
    agents: Seq<Option<Agent>>,
    table: Seq<Factors>,
    state: (Set<AgentId>, Seq<AgentId>),
    id: AgentId,
    candidate: AgentId,
) -> (Set<AgentId>, Seq<AgentId>) {
    match neighbour(agents, id, candidate) {
        Some(b) => {
            let a = agents[id as int].unwrap();
            if fertile(a) && mates(a, table[a.species.0 as int], b) && !state.0.contains(id)
                && !state.0.contains(candidate) {
                (state.0.insert(id).insert(candidate), state.1.push(id))
            } else {
                state
            }
        },
        None => state,
    }
}

/// The state after agent `id` looked at the candidates, in their order.
pub open spec fn courtship(
    agents: Seq<Option<Agent>>,
    table: Seq<Factors>,
    state: (Set<AgentId>, Seq<AgentId>),
    id: AgentId,
    candidates: Seq<AgentId>,
) -> (Set<AgentId>, Seq<AgentId>)
    decreases candidates.len(),
{
    if candidates.len() == 0 {
        state
    } else {
        courted(
            agents,
            table,
            courtship(agents, table, state, id, candidates.drop_last()),
            id,
            candidates.last(),
        )
    }
}

/// The state after the live agents in slots below `upto` looked at their
/// candidates, in the order of the slots.
pub open spec fn pairing(
    agents: Seq<Option<Agent>>,
    table: Seq<Factors>,
    candidates: Seq<Seq<AgentId>>,
    upto: int,
) -> (Set<AgentId>, Seq<AgentId>)
    decreases upto,
{
    if upto <= 0 {
        (Set::empty(), Seq::empty())
    } else if live(agents, upto - 1) {
        courtship(
            agents,
            table,
            pairing(agents, table, candidates, upto - 1),
            (upto - 1) as usize,
            candidates[upto - 1],
        )
    } else {
        pairing(agents, table, candidates, upto - 1)
    }
}

/// A pairing over the slots below `upto` depends on the candidates of those
/// slots only.
proof fn lemma_pairing_agrees(
    agents: Seq<Option<Agent>>,
    table: Seq<Factors>,
    c1: Seq<Seq<AgentId>>,
    c2: Seq<Seq<AgentId>>,
    upto: int,
)
    requires
        forall|id: int| 0 <= id < upto ==> c1[id] == c2[id],
    ensures
        pairing(agents, table, c1, upto) == pairing(agents, table, c2, upto),
    decreases upto,
{
    if upto > 0 {
        lemma_pairing_agrees(agents, table, c1, c2, upto - 1);
    }
}

/// Lets agent `id` look for a mate among the candidates that the spatial index
/// returned for it.
pub fn reproduction_scan(
    agents: &AgentStore,
    table: &FactorInfo,
    id: AgentId,
    candidates: &Vec<AgentId>,
    reproduced: &mut IdSet,
    parents: &mut Vec<AgentId>,
)
    requires
        live(agents@, id as int),
        all_valid(agents@, table.factors@),
        forall|k: int| 0 <= k < old(parents)@.len() ==> live(agents@, #[trigger] old(parents)@[k] as int),
    ensures
        (id_set_members(*final(reproduced)), final(parents)@) == courtship(
            agents@,
            table.factors@,
            (id_set_members(*old(reproduced)), old(parents)@),
            id,
            candidates@,
        ),
        forall|k: int| 0 <= k < final(parents)@.len() ==> live(agents@, #[trigger] final(parents)@[k] as int),
{
    let a: Agent = agents.slots[id].unwrap();
    let fa = table.get(a.species);
    let mut i: usize = 0;
    while i < candidates.len()
        invariant
            i <= candidates.len(),
            live(agents@, id as int),
            all_valid(agents@, table.factors@),
            a == agents@[id as int].unwrap(),
            *fa == table.factors@[a.species.0 as int],
            forall|k: int| 0 <= k < parents@.len() ==> live(agents@, #[trigger] parents@[k] as int),
            (id_set_members(*reproduced), parents@) == courtship(
                agents@,
                table.factors@,
                (id_set_members(*old(reproduced)), old(parents)@),
                id,
                candidates@.take(i as int),
            ),
        decreases candidates.len() - i,
    {
        let candidate = candidates[i];
        proof {
            assert(candidates@.take(i + 1).drop_last() =~= candidates@.take(i as int));
        }
        let found: Option<Agent> = if candidate != id {
            agents.get(candidate)
        } else {
            None
        };
        match found {
            Some(b) => {
                if a.fertility.time_till_fertile <= 0 && b.species.0 == a.species.0 && is_within(
                    a.position,
                    b.position,
                    2 * (fa.size as i64),
                ) && !reproduced.holds(id) && !reproduced.holds(candidate) {
                    reproduced.put(id);
                    reproduced.put(candidate);
                    parents.push(id);
                }
            },
            None => {},
        }
        i = i + 1;
    }
    assert(candidates@.take(i as int) =~= candidates@);
}

/// An agent's countdown after a pass over the time `dt`: a whole cooldown where
/// it has reproduced, else `dt` less than before, but not less than zero.
pub open spec fn timer_after(a: Agent, table: Seq<Factors>, reproduced: bool, dt: u32) -> int {
    if reproduced {
        table[a.species.0 as int].fertility_cooldown as int
    } else if a.fertility.time_till_fertile - dt <= 0 {
        0
    } else {
        a.fertility.time_till_fertile - dt
    }
}

/// A slot after the countdowns have moved.
pub open spec fn aged_slot(slot: Option<Agent>, table: Seq<Factors>, reproduced: bool, dt: u32) -> Option<
    Agent,
> {
    match slot {
        Some(a) => Some(
            Agent {
                fertility: Fertility {
                    time_till_fertile: timer_after(a, table, reproduced, dt) as i64,
                    amount: a.fertility.amount,
                },
                ..a
            },
        ),
        None => None,
    }
}

/// Moves the countdowns of all agents over the time `dt`.
pub fn advance_fertility(agents: &mut AgentStore, table: &FactorInfo, reproduced: &IdSet, dt: u32)
    requires
        all_valid(old(agents)@, table.factors@),
    ensures
        final(agents)@.len() == old(agents)@.len(),
        forall|id: int|
            0 <= id < final(agents)@.len() ==> #[trigger] final(agents)@[id] == aged_slot(
                old(agents)@[id],
                table.factors@,
                id_set_members(*reproduced).contains(id as usize),
                dt,
            ),
        all_valid(final(agents)@, table.factors@),
{
    let n = agents.len();
    let mut id: usize = 0;
    while id < n
        invariant
            id <= n,
            n == agents@.len(),
            n == old(agents)@.len(),
            all_valid(old(agents)@, table.factors@),
            forall|k: int| id <= k < n ==> agents@[k] == old(agents)@[k],
            forall|k: int|
                0 <= k < id ==> #[trigger] agents@[k] == aged_slot(
                    old(agents)@[k],
                    table.factors@,
                    id_set_members(*reproduced).contains(k as usize),
                    dt,
                ),
        decreases n - id,
    {
        match agents.get(id) {
            Some(a) => {
                assert(live(old(agents)@, id as int));
                let timer: i64 = if reproduced.holds(id) {
                    table.get(a.species).fertility_cooldown
                } else {
                    let left: i128 = a.fertility.time_till_fertile as i128 - dt as i128;
                    if left <= 0 {
                        0
                    } else {
                        left as i64
                    }
                };
                agents.replace(
                    id,
                    Agent {
                        fertility: Fertility {
                            time_till_fertile: timer,
                            amount: a.fertility.amount,
                        },
                        ..a
                    },
                );
            },
            None => {},
        }
        id = id + 1;
    }
    proof {
        assert forall|k: int| #[trigger] live(agents@, k) implies agents@[k].unwrap().valid(
            table.factors@,
        ) by {
            assert(live(old(agents)@, k));
        }
    }
}

/// The price that every parent pays, in the order of the parents.
pub open spec fn costs(parents: Seq<AgentId>) -> Seq<EnergyChange> {
    Seq::new(
        parents.len(),
        |k: int| EnergyChange { agent: parents[k], change: (-REPRODUCTION_COST) as i64 },
    )
}

/// `kids` are the offspring of the parents, in the order of the parents: for
/// each parent as many as its fertility says, of its species, spawned within
/// `OFFSPRING_RADIUS` of it along both axes.
pub open spec fn offspring_of(
    kids: Seq<Option<Agent>>,
    agents: Seq<Option<Agent>>,
    table: Seq<Factors>,
    parents: Seq<AgentId>,
) -> bool
    decreases parents.len(),
{
    if parents.len() == 0 {
        kids.len() == 0
    } else {
        let parent = agents[parents.last() as int].unwrap();
        let amount = parent.fertility.amount as int;
        &&& kids.len() >= amount
        &&& offspring_of(kids.take(kids.len() - amount), agents, table, parents.drop_last())
        &&& forall|k: int|
            kids.len() - amount <= k < kids.len() ==> (#[trigger] kids[k]) is Some
                && is_offspring(kids[k].unwrap(), parent, table)
    }
}

/// `kid` is an agent as it is spawned, of the species of `parent` and within
/// `OFFSPRING_RADIUS` of it along both axes.
pub open spec fn is_offspring(kid: Agent, parent: Agent, table: Seq<Factors>) -> bool {
    &&& kid == newborn(table, kid.position, kid.heading, parent.species)
    &&& kid.heading.is_unit()
    &&& clamped(parent.position.x - OFFSPRING_RADIUS) <= kid.position.x <= clamped(
        parent.position.x + OFFSPRING_RADIUS,
    )
    &&& clamped(parent.position.y - OFFSPRING_RADIUS) <= kid.position.y <= clamped(
        parent.position.y + OFFSPRING_RADIUS,
    )
}

/// Spawns the offspring of the parents, in their order, behind the agents that
/// are there, and returns the price that the parents pay.
fn bear_offspring(
    agents: &mut AgentStore,
    table: &FactorInfo,
    parents: &Vec<AgentId>,
    Ghost(parents_then): Ghost<Seq<Option<Agent>>>,
) -> (prices: Vec<EnergyChange>)
    requires
        table.wf(),
        all_valid(old(agents)@, table.factors@),
        parents_then.len() == old(agents)@.len(),
        forall|k: int|
            0 <= k < parents@.len() ==> live(old(agents)@, #[trigger] parents@[k] as int) && live(
                parents_then,
                parents@[k] as int,
            ) && old(agents)@[parents@[k] as int].unwrap().position
                == parents_then[parents@[k] as int].unwrap().position && old(
                agents,
            )@[parents@[k] as int].unwrap().species
                == parents_then[parents@[k] as int].unwrap().species && old(
                agents,
            )@[parents@[k] as int].unwrap().fertility.amount
                == parents_then[parents@[k] as int].unwrap().fertility.amount,
    ensures
        prices@ == costs(parents@),
        final(agents)@.len() >= old(agents)@.len(),
        final(agents)@.subrange(0, old(agents)@.len() as int) == old(agents)@,
        offspring_of(
            final(agents)@.subrange(old(agents)@.len() as int, final(agents)@.len() as int),
            parents_then,
            table.factors@,
            parents@,
        ),
        all_valid(final(agents)@, table.factors@),
{
    let mut prices: Vec<EnergyChange> = Vec::new();
    let ghost n = agents@.len() as int;
    let mut i: usize = 0;
    while i < parents.len()
        invariant
            i <= parents.len(),
            n == old(agents)@.len(),
            table.wf(),
            all_valid(agents@, table.factors@),
            parents_then.len() == n,
            agents@.len() >= n,
            agents@.subrange(0, n) == old(agents)@,
            forall|k: int|
                0 <= k < parents@.len() ==> live(old(agents)@, #[trigger] parents@[k] as int)
                    && live(parents_then, parents@[k] as int) && old(
                    agents,
                )@[parents@[k] as int].unwrap().position
                    == parents_then[parents@[k] as int].unwrap().position && old(
                    agents,
                )@[parents@[k] as int].unwrap().species
                    == parents_then[parents@[k] as int].unwrap().species && old(
                    agents,
                )@[parents@[k] as int].unwrap().fertility.amount
                    == parents_then[parents@[k] as int].unwrap().fertility.amount,
            prices@ == costs(parents@.take(i as int)),
            offspring_of(
                agents@.subrange(n, agents@.len() as int),
                parents_then,
                table.factors@,
                parents@.take(i as int),
            ),
        decreases parents.len() - i,
    {
        let id = parents[i];
        let parent: Agent = agents.slots[id].unwrap();
        let ghost before = agents@;
        assert(live(agents@, id as int));
        spawn_in_square(
            agents,
            table,
            parent.species,
            parent.position,
            OFFSPRING_RADIUS,
            parent.fertility.amount,
        );
        prices.push(EnergyChange { agent: id, change: -REPRODUCTION_COST });
        proof {
            let kids = agents@.subrange(n, agents@.len() as int);
            let amount = parent.fertility.amount as int;
            assert(parents@.take(i + 1).drop_last() =~= parents@.take(i as int));
            assert(kids.take(kids.len() - amount) =~= before.subrange(n, before.len() as int));
        }
        i = i + 1;
    }
    assert(parents@.take(i as int) =~= parents@);
    prices
}

/// `after` and `prices` are what a reproduction pass over the time `dt` makes
/// of `before` where the agents scan the candidates given: the countdowns have
/// moved, the offspring stand behind the agents that were there, and the
/// parents' prices are queued.
pub open spec fn reproduced_with(
    before: Seq<Option<Agent>>,
    after: Seq<Option<Agent>>,
    table: Seq<Factors>,
    candidates: Seq<Seq<AgentId>>,
    dt: u32,
    prices: Seq<EnergyChange>,
) -> bool {
    let n = before.len() as int;
    let paired = pairing(before, table, candidates, n);
    &&& prices == costs(paired.1)
    &&& after.len() >= n
    &&& forall|id: int|
        0 <= id < n ==> #[trigger] after[id] == aged_slot(
            before[id],
            table,
            paired.0.contains(id as usize),
            dt,
        )
    &&& offspring_of(after.subrange(n, after.len() as int), before, table, paired.1)
}

/// `after` and `prices` are what a reproduction pass over the time `dt` makes
/// of `before`, for some answers that the spatial index may give to the queries
/// of the agents. Nothing changes where reproduction is switched off.
pub open spec fn bred(
    before: Seq<Option<Agent>>,
    records: Map<AgentId, Cell>,
    table: Seq<Factors>,
    features: Features,
    dt: u32,
    after: Seq<Option<Agent>>,
    prices: Seq<EnergyChange>,
) -> bool {
    if features.reproduction {
        exists|candidates: Seq<Seq<AgentId>>|
            candidates.len() == before.len() && (forall|id: int|
                live(before, id) ==> is_answer(
                    records,
                    before[id].unwrap().position,
                    mate_reach(table[before[id].unwrap().species.0 as int].size),
                    #[trigger] candidates[id],
                )) && reproduced_with(before, after, table, candidates, dt, prices)
    } else {
        prices.len() == 0 && after == before
    }
}

/// The reproduction pass. Every live agent, in the order of the slots, looks
/// for a mate in what the spatial index returns around its position for twice
/// its size. Then the countdowns move, the offspring are spawned, and the
/// result holds the prices that the parents pay, to be applied later. Nothing
/// happens where reproduction is switched off.
///
/// The order of an answer of the spatial index is not fixed, and where the
/// offspring appear is left to chance; the pass is that of some order.
pub fn reproduction_pass(
    agents: &mut AgentStore,
    grid: &HashGrid,
    table: &FactorInfo,
    features: &Features,
    dt: u32,
) -> (prices: Vec<EnergyChange>)
    requires
        grid.wf(),
        table.wf(),
        all_valid(old(agents)@, table.factors@),
    ensures
        all_valid(final(agents)@, table.factors@),
        final(agents)@.len() >= old(agents)@.len(),
        bred(
            old(agents)@,
            grid@,
            table.factors@,
            *features,
            dt,
            final(agents)@,
            prices@,
        ),
{
    if !features.reproduction {
        return Vec::new();
    }
    let n = agents.len();
    let mut reproduced = IdSet::new();
    let mut parents: Vec<AgentId> = Vec::new();
    let ghost mut chosen: Seq<Seq<AgentId>> = Seq::new(
        agents@.len(),
        |k: int| Seq::<AgentId>::empty(),
    );
    let mut id: usize = 0;
    while id < n
        invariant
            id <= n,
            n == agents@.len(),
            agents@ == old(agents)@,
            grid.wf(),
            all_valid(agents@, table.factors@),
            chosen.len() == n,
            forall|k: int| 0 <= k < parents@.len() ==> live(agents@, #[trigger] parents@[k] as int),
            forall|k: int|
                0 <= k < id && live(agents@, k) ==> is_answer(
                    grid@,
                    agents@[k].unwrap().position,
                    mate_reach(table.factors@[agents@[k].unwrap().species.0 as int].size),
                    #[trigger] chosen[k],
                ),
            (id_set_members(reproduced), parents@) == pairing(
                agents@,
                table.factors@,
                chosen,
                id as int,
            ),
        decreases n - id,
    {
        let ghost before = chosen;
        match agents.get(id) {
            Some(a) => {
                let candidates = grid.get_nearby_entities(
                    a.position,
                    reach_of(table.get(a.species).size),
                );
                proof {
                    chosen = chosen.update(id as int, candidates@);
                    lemma_pairing_agrees(agents@, table.factors@, before, chosen, id as int);
                }
                reproduction_scan(agents, table, id, &candidates, &mut reproduced, &mut parents);
            },
            None => {},
        }
        id = id + 1;
    }
    advance_fertility(agents, table, &reproduced, dt);
    let prices = bear_offspring(agents, table, &parents, Ghost(old(agents)@));
    proof {
        assert forall|k: int| 0 <= k < n implies #[trigger] agents@[k] == aged_slot(
            old(agents)@[k],
            table.factors@,
            id_set_members(reproduced).contains(k as usize),
            dt,
        ) by {
            assert(agents@[k] == agents@.subrange(0, n as int)[k]);
        }
    }
    prices
}

/// A state of the pass in which every parent was alive, counts as having
/// reproduced, and stands once among the parents.
pub open spec fn orderly(agents: Seq<Option<Agent>>, state: (Set<AgentId>, Seq<AgentId>)) -> bool {
    &&& state.1.no_duplicates()
    &&& forall|k: int|
        0 <= k < state.1.len() ==> live(agents, (#[trigger] state.1[k]) as int)
            && state.0.contains(state.1[k])
}

/// One scan keeps the state of the pass orderly.
proof fn lemma_courtship_orderly(
    agents: Seq<Option<Agent>>,
    table: Seq<Factors>,
    state: (Set<AgentId>, Seq<AgentId>),
    id: AgentId,
    candidates: Seq<AgentId>,
)
    requires
        orderly(agents, state),
        live(agents, id as int),
    ensures
        orderly(agents, courtship(agents, table, state, id, candidates)),
    decreases candidates.len(),
{
    if candidates.len() > 0 {
        lemma_courtship_orderly(agents, table, state, id, candidates.drop_last());
    }
}

/// Nobody reproduces twice in one pass: whatever the spatial index answers,
/// every parent was alive and stands once among the parents.
pub proof fn lemma_parents_once(
    agents: Seq<Option<Agent>>,
    table: Seq<Factors>,
    candidates: Seq<Seq<AgentId>>,
    upto: int,
)
    requires
        agents.len() <= usize::MAX,
    ensures
        orderly(agents, pairing(agents, table, candidates, upto)),
    decreases upto,
{
    if upto > 0 {
        lemma_parents_once(agents, table, candidates, upto - 1);
        if live(agents, upto - 1) {
            lemma_courtship_orderly(
                agents,
                table,
                pairing(agents, table, candidates, upto - 1),
                (upto - 1) as usize,
                candidates[upto - 1],
            );
        }
    }
}

/// A scan of candidates that are the agent itself or no live agents changes
/// nothing.
proof fn lemma_no_mates(
    agents: Seq<Option<Agent>>,
    table: Seq<Factors>,
    state: (Set<AgentId>, Seq<AgentId>),
    id: AgentId,
    candidates: Seq<AgentId>,
)
    requires
        forall|k: int|
            0 <= k < candidates.len() ==> neighbour(agents, id, #[trigger] candidates[k]) is None,
    ensures
        courtship(agents, table, state, id, candidates) == state,
    decreases candidates.len(),
{
    if candidates.len() > 0 {
        let front = candidates.drop_last();
        assert forall|k: int| 0 <= k < front.len() implies neighbour(
            agents,
            id,
            #[trigger] front[k],
        ) is None by {
            assert(front[k] == candidates[k]);
        }
        lemma_no_mates(agents, table, state, id, front);
        assert(neighbour(agents, id, candidates[candidates.len() - 1]) is None);
    }
}

/// A scan in which one candidate alone is a live agent other than the scanning
/// one is the courting of that candidate.
proof fn lemma_single_courting(
    agents: Seq<Option<Agent>>,
    table: Seq<Factors>,
    state: (Set<AgentId>, Seq<AgentId>),
    id: AgentId,
    candidates: Seq<AgentId>,
    other: AgentId,
)
    requires
        candidates.no_duplicates(),
        candidates.contains(other),
        forall|k: int|
            0 <= k < candidates.len() && candidates[k] != other ==> neighbour(
                agents,
                id,
                #[trigger] candidates[k],
            ) is None,
    ensures
        courtship(agents, table, state, id, candidates) == courted(agents, table, state, id, other),
    decreases candidates.len(),
{
    let front = candidates.drop_last();
    let last = candidates.last();
    assert forall|k: int| 0 <= k < front.len() implies front[k] == candidates[k] by {}
    if last == other {
        assert forall|k: int| 0 <= k < front.len() implies neighbour(
            agents,
            id,
            #[trigger] front[k],
        ) is None by {
            assert(candidates[k] != candidates[candidates.len() - 1]);
        }
        lemma_no_mates(agents, table, state, id, front);
    } else {
        let k = choose|k: int| 0 <= k < candidates.len() && candidates[k] == other;
        assert(front[k] == other);
        lemma_single_courting(agents, table, state, id, front, other);
        assert(neighbour(agents, id, candidates[candidates.len() - 1]) is None);
    }
}

/// The scans of the slots below `upto`, where the mates `lower` and `higher`
/// are the only agents alive and both are fertile: nothing happens before the
/// scan of `lower`, which takes `higher` as its mate, and nothing after it.
proof fn lemma_pairing_of_a_pair(
    agents: Seq<Option<Agent>>,
    table: Seq<Factors>,
    candidates: Seq<Seq<AgentId>>,
    lower: AgentId,
    higher: AgentId,
    upto: int,
)
    requires
        agents.len() <= usize::MAX,
        0 <= upto <= agents.len(),
        lower < higher,
        live(agents, lower as int),
        live(agents, higher as int),
        forall|id: int| live(agents, id) ==> id == lower || id == higher,
        fertile(agents[lower as int].unwrap()),
        mates(
            agents[lower as int].unwrap(),
            table[agents[lower as int].unwrap().species.0 as int],
            agents[higher as int].unwrap(),
        ),
        candidates[lower as int].no_duplicates(),
        candidates[lower as int].contains(higher),
        candidates[higher as int].no_duplicates(),
    ensures
        pairing(agents, table, candidates, upto) == (if upto <= lower {
            (Set::<AgentId>::empty(), Seq::<AgentId>::empty())
        } else {
            (Set::<AgentId>::empty().insert(lower).insert(higher), seq![lower])
        }),
    decreases upto,
{
    if upto > 0 {
        lemma_pairing_of_a_pair(agents, table, candidates, lower, higher, upto - 1);
        let before = pairing(agents, table, candidates, upto - 1);
        if upto - 1 == lower {
            lemma_single_courting(agents, table, before, lower, candidates[lower as int], higher);
            assert(before.1.push(lower) =~= seq![lower]);
        } else if upto - 1 == higher {
            let list = candidates[higher as int];
            if list.contains(lower) {
                lemma_single_courting(agents, table, before, higher, list, lower);
            } else {
                lemma_no_mates(agents, table, before, higher, list);
            }
        }
    }
}

/// The lone pair: where two fertile agents of one species are the only agents
/// alive and lie within twice their size of each other, and the index is
/// current, the one in the lower slot becomes a parent once, both count as
/// having reproduced, and so both carry the cooldown of their species after the
/// pass, whatever the spatial index answers.
pub proof fn lemma_lone_mates(
    records: Map<AgentId, Cell>,
    agents: Seq<Option<Agent>>,
    table: Seq<Factors>,
    candidates: Seq<Seq<AgentId>>,
    lower: AgentId,
    higher: AgentId,
    dt: u32,
)
    requires
        agents.len() <= usize::MAX,
        index_current(records, agents),
        all_valid(agents, table),
        candidates.len() == agents.len(),
        forall|id: int|
            live(agents, id) ==> is_answer(
                records,
                agents[id].unwrap().position,
                mate_reach(table[agents[id].unwrap().species.0 as int].size),
                #[trigger] candidates[id],
            ),
        lower < higher,
        live(agents, lower as int),
        live(agents, higher as int),
        forall|id: int| live(agents, id) ==> id == lower || id == higher,
        fertile(agents[lower as int].unwrap()),
        mates(
            agents[lower as int].unwrap(),
            table[agents[lower as int].unwrap().species.0 as int],
            agents[higher as int].unwrap(),
        ),
    ensures
        pairing(agents, table, candidates, agents.len() as int) == (
            Set::<AgentId>::empty().insert(lower).insert(higher),
            seq![lower],
        ),
        timer_after(agents[lower as int].unwrap(), table, true, dt)
            == table[agents[lower as int].unwrap().species.0 as int].fertility_cooldown,
        timer_after(agents[higher as int].unwrap(), table, true, dt)
            == table[agents[lower as int].unwrap().species.0 as int].fertility_cooldown,
{
    let a = agents[lower as int].unwrap();
    lemma_current_index_finds(
        records,
        agents,
        higher,
        a.position,
        mate_reach(table[a.species.0 as int].size),
    );
    assert(candidates[lower as int].to_set().contains(higher));
    lemma_pairing_of_a_pair(agents, table, candidates, lower, higher, agents.len() as int);
}

} // verus!
