//! Birth and death by command and by energy: spawning, despawning by area, the
//! energy drain and the application of energy changes, and the refresh of the
//! spatial index.
//!
//! An agent that leaves the store leaves the spatial index in the same call.

use vstd::prelude::*;
use crate::agents::all_valid;
use crate::agents::live;
use crate::agents::Agent;
use crate::agents::AgentStore;
use crate::agents::Energy;
use crate::agents::Fertility;
use crate::chance::random_between;
use crate::fixed::clamped;
use crate::fixed::is_within;
use crate::fixed::normalize;
use crate::fixed::normalized;
use crate::fixed::within;
use crate::fixed::Vec2;
use crate::fixed::UNIT;
use crate::grid::cell_at;
use crate::grid::AgentId;
use crate::grid::HashGrid;
use crate::species::renumbered;
use crate::species::CreatureType;
use crate::species::DespawnProperties;
use crate::species::FactorInfo;
use crate::species::Factors;
use crate::species::Features;
use crate::species::SpawnProperties;
use crate::tables::Cell;

verus! {

/// Energy that an agent burns, in millionths per microsecond.
pub const BURN_RATE: i64 = 2;

/// A change of one agent's energy, in millionths, to be applied later.
#[derive(Clone, Copy, Debug, PartialEq, Eq, Structural)]
pub struct EnergyChange {
    pub agent: AgentId,
    pub change: i64,
}

/// An agent as it is spawned: with the full energy of its species and a whole
/// cooldown before it is fertile.
pub open spec fn newborn(table: Seq<Factors>, position: Vec2, heading: Vec2, t: CreatureType) -> Agent {
    Agent {
        position,
        heading,
        species: t,
        energy: Energy(table[t.0 as int].max_energy),
        fertility: Fertility {
            time_till_fertile: table[t.0 as int].fertility_cooldown,
            amount: 1,
        },
    }
}

/// The heading along `(rx, ry)`; along the zero vector, the heading along the
/// first axis.
pub open spec fn heading_from(rx: int, ry: int) -> Vec2 {
    match normalized(rx, ry) {
        Some(v) => v,
        None => Vec2 { x: UNIT, y: 0 },
    }
}

/// Spawns an agent of species `creature_type` at `(x, y)` with the heading
/// `direction_vector` and returns its identifier.
pub fn spawn_creature(
    agents: &mut AgentStore,
    table: &FactorInfo,
    x: i32,
    y: i32,
    direction_vector: Vec2,
    creature_type: CreatureType,
) -> (id: AgentId)
    requires
        table.knows(creature_type),
    ensures
        id == old(agents)@.len(),
        final(agents)@ == old(agents)@.push(
            Some(newborn(table.factors@, Vec2 { x, y }, direction_vector, creature_type)),
        ),
        table.wf() && direction_vector.is_unit() && all_valid(old(agents)@, table.factors@)
            ==> all_valid(final(agents)@, table.factors@),
{
    let factors = table.get(creature_type);
    let agent = Agent {
        position: Vec2 { x, y },
        heading: direction_vector,
        species: creature_type,
        energy: Energy(factors.max_energy),
        fertility: Fertility { time_till_fertile: factors.fertility_cooldown, amount: 1 },
    };
    let id = agents.insert(agent);
    proof {
        if table.wf() && direction_vector.is_unit() && all_valid(old(agents)@, table.factors@) {
            assert forall|k: int| #[trigger] live(agents@, k) implies agents@[k].unwrap().valid(
                table.factors@,
            ) by {
                if k < old(agents)@.len() {
                    assert(live(old(agents)@, k));
                }
            }
        }
    }
    id
}

/// Spawns an agent of species `creature_type` at the drawn position `(x, y)`
/// with the heading along the drawn vector `(rx, ry)`.
pub fn place_creature(
    agents: &mut AgentStore,
    table: &FactorInfo,
    creature_type: CreatureType,
    x: i32,
    y: i32,
    rx: i32,
    ry: i32,
) -> (id: AgentId)
    requires
        table.knows(creature_type),
    ensures
        id == old(agents)@.len(),
        final(agents)@ == old(agents)@.push(
            Some(
                newborn(
                    table.factors@,
                    Vec2 { x, y },
                    heading_from(rx as int, ry as int),
                    creature_type,
                ),
            ),
        ),
        heading_from(rx as int, ry as int).is_unit(),
        table.wf() && all_valid(old(agents)@, table.factors@) ==> all_valid(
            final(agents)@,
            table.factors@,
        ),
{
    let heading = match normalize(rx as i64, ry as i64) {
        Some(v) => v,
        None => {
            assert(UNIT * UNIT == 1_000_000_000_000) by (nonlinear_arith);
            Vec2 { x: UNIT, y: 0 }
        },
    };
    spawn_creature(agents, table, x, y, heading, creature_type)
}

/// `after` is `before` and one more agent, of species `t`, spawned somewhere in
/// the box with some heading of length `UNIT` up to rounding.
pub open spec fn spawned_in_box(
    before: Seq<Option<Agent>>,
    after: Seq<Option<Agent>>,
    table: Seq<Factors>,
    t: CreatureType,
    min_x: i32,
    max_x: i32,
    min_y: i32,
    max_y: i32,
) -> bool {
    &&& after.len() == before.len() + 1
    &&& after.drop_last() == before
    &&& after.last() is Some
    &&& after.last().unwrap() == newborn(
        table,
        after.last().unwrap().position,
        after.last().unwrap().heading,
        t,
    )
    &&& min_x <= after.last().unwrap().position.x <= max_x
    &&& min_y <= after.last().unwrap().position.y <= max_y
    &&& after.last().unwrap().heading.is_unit()
}

/// Spawns an agent of species `creature_type` at a random position of the box
/// from `(min_x, min_y)` to `(max_x, max_y)`, with a random heading.
pub fn spawn_creature_randomly(
    agents: &mut AgentStore,
    table: &FactorInfo,
    creature_type: CreatureType,
    min_x: i32,
    max_x: i32,
    min_y: i32,
    max_y: i32,
) -> (id: AgentId)
    requires
        table.knows(creature_type),
        min_x <= max_x,
        min_y <= max_y,
    ensures
        id == old(agents)@.len(),
        spawned_in_box(
            old(agents)@,
            final(agents)@,
            table.factors@,
            creature_type,
            min_x,
            max_x,
            min_y,
            max_y,
        ),
        table.wf() && all_valid(old(agents)@, table.factors@) ==> all_valid(
            final(agents)@,
            table.factors@,
        ),
{
    let x = random_between(min_x, max_x);
    let y = random_between(min_y, max_y);
    let rx = random_between(-UNIT, UNIT);
    let ry = random_between(-UNIT, UNIT);
    let id = place_creature(agents, table, creature_type, x, y, rx, ry);
    assert(agents@.drop_last() =~= old(agents)@);
    id
}

/// Spawns an agent of species `creature_type` at a random position of a screen
/// of the given width and height, centred on the origin.
pub fn spawn_creature_randomly_on_screen(
    agents: &mut AgentStore,
    table: &FactorInfo,
    creature_type: CreatureType,
    screen_width: i32,
    screen_height: i32,
) -> (id: AgentId)
    requires
        table.knows(creature_type),
        screen_width >= 0,
        screen_height >= 0,
    ensures
        id == old(agents)@.len(),
        spawned_in_box(
            old(agents)@,
            final(agents)@,
            table.factors@,
            creature_type,
            (-(screen_width as int / 2)) as i32,
            (screen_width as int / 2) as i32,
            (-(screen_height as int / 2)) as i32,
            (screen_height as int / 2) as i32,
        ),
        table.wf() && all_valid(old(agents)@, table.factors@) ==> all_valid(
            final(agents)@,
            table.factors@,
        ),
{
    spawn_creature_randomly(
        agents,
        table,
        creature_type,
        -(screen_width / 2),
        screen_width / 2,
        -(screen_height / 2),
        screen_height / 2,
    )
}

/// `after` is `before` and `count` more agents, each of species `t` and spawned
/// in the box.
pub open spec fn grown_in_box(
    before: Seq<Option<Agent>>,
    after: Seq<Option<Agent>>,
    table: Seq<Factors>,
    t: CreatureType,
    count: int,
    min_x: i32,
    max_x: i32,
    min_y: i32,
    max_y: i32,
) -> bool {
    &&& after.len() == before.len() + count
    &&& after.subrange(0, before.len() as int) == before
    &&& forall|k: int|
        before.len() <= k < after.len() ==> (#[trigger] after[k]) is Some && after[k].unwrap()
            == newborn(table, after[k].unwrap().position, after[k].unwrap().heading, t) && min_x
            <= after[k].unwrap().position.x <= max_x && min_y <= after[k].unwrap().position.y
            <= max_y && after[k].unwrap().heading.is_unit()
}

/// One coordinate of a box around `c`, held to the range of a coordinate.
pub fn box_edge(c: i32, offset: i32) -> (e: i32)
    ensures
        e == clamped(c + offset),
{
    let v: i64 = c as i64 + offset as i64;
    if v < -0x8000_0000 {
        -0x8000_0000
    } else if v > 0x7fff_ffff {
        0x7fff_ffff
    } else {
        v as i32
    }
}

/// Spawns `count` agents of species `creature_type`, each at a random position
/// of the box from `(min_x, min_y)` to `(max_x, max_y)`.
pub fn spawn_in_box(
    agents: &mut AgentStore,
    table: &FactorInfo,
    creature_type: CreatureType,
    min_x: i32,
    max_x: i32,
    min_y: i32,
    max_y: i32,
    count: usize,
)
    requires
        table.knows(creature_type),
        min_x <= max_x,
        min_y <= max_y,
    ensures
        grown_in_box(
            old(agents)@,
            final(agents)@,
            table.factors@,
            creature_type,
            count as int,
            min_x,
            max_x,
            min_y,
            max_y,
        ),
        table.wf() && all_valid(old(agents)@, table.factors@) ==> all_valid(
            final(agents)@,
            table.factors@,
        ),
{
    let mut done: usize = 0;
    assert(agents@.subrange(0, old(agents)@.len() as int) =~= old(agents)@);
    while done < count
        invariant
            done <= count,
            table.knows(creature_type),
            min_x <= max_x,
            min_y <= max_y,
            grown_in_box(
                old(agents)@,
                agents@,
                table.factors@,
                creature_type,
                done as int,
                min_x,
                max_x,
                min_y,
                max_y,
            ),
            table.wf() && all_valid(old(agents)@, table.factors@) ==> all_valid(
                agents@,
                table.factors@,
            ),
        decreases count - done,
    {
        let ghost before = agents@;
        spawn_creature_randomly(agents, table, creature_type, min_x, max_x, min_y, max_y);
        proof {
            assert(agents@.subrange(0, old(agents)@.len() as int) =~= before.subrange(
                0,
                old(agents)@.len() as int,
            ));
            assert forall|k: int| old(agents)@.len() <= k < agents@.len() implies (
            #[trigger] agents@[k]) is Some && agents@[k].unwrap() == newborn(
                table.factors@,
                agents@[k].unwrap().position,
                agents@[k].unwrap().heading,
                creature_type,
            ) && min_x <= agents@[k].unwrap().position.x <= max_x && min_y
                <= agents@[k].unwrap().position.y <= max_y
                && agents@[k].unwrap().heading.is_unit() by {
                if k < before.len() {
                    assert(agents@[k] == before[k]);
                }
            }
        }
        done = done + 1;
    }
}

/// Spawns `count` agents of species `creature_type`, each at a random position
/// of the square that reaches `reach` from `center` along both axes.
pub fn spawn_in_square(
    agents: &mut AgentStore,
    table: &FactorInfo,
    creature_type: CreatureType,
    center: Vec2,
    reach: i32,
    count: usize,
)
    requires
        table.knows(creature_type),
        reach >= 0,
    ensures
        grown_in_box(
            old(agents)@,
            final(agents)@,
            table.factors@,
            creature_type,
            count as int,
            clamped(center.x - reach) as i32,
            clamped(center.x + reach) as i32,
            clamped(center.y - reach) as i32,
            clamped(center.y + reach) as i32,
        ),
        table.wf() && all_valid(old(agents)@, table.factors@) ==> all_valid(
            final(agents)@,
            table.factors@,
        ),
{
    let min_x = box_edge(center.x, -reach);
    let max_x = box_edge(center.x, reach);
    let min_y = box_edge(center.y, -reach);
    let max_y = box_edge(center.y, reach);
    spawn_in_box(agents, table, creature_type, min_x, max_x, min_y, max_y, count)
}

/// How often a position is drawn for a disc before the centre is taken.
pub const MAX_DRAWS: usize = 32;

/// A random position within `radius` of `center`: `MAX_DRAWS` positions are
/// drawn from the square around the disc, and `settle_in_disc` settles on one.
pub fn draw_in_disc(center: Vec2, radius: i32) -> (position: Vec2)
    requires
        radius >= 0,
    ensures
        within(center, position, radius as int),
{
    let min_x = box_edge(center.x, -radius);
    let max_x = box_edge(center.x, radius);
    let min_y = box_edge(center.y, -radius);
    let max_y = box_edge(center.y, radius);
    let mut draws: Vec<Vec2> = Vec::new();
    while draws.len() < MAX_DRAWS
        invariant
            min_x <= max_x,
            min_y <= max_y,
            draws@.len() <= MAX_DRAWS,
        decreases MAX_DRAWS - draws@.len(),
    {
        draws.push(Vec2 { x: random_between(min_x, max_x), y: random_between(min_y, max_y) });
    }
    settle_in_disc(center, radius, &draws)
}

/// The first of the draws that lies within `radius` of `center`, if one does.
pub open spec fn first_in_disc(center: Vec2, radius: i32, draws: Seq<Vec2>) -> Option<Vec2>
    decreases draws.len(),
{
    if draws.len() == 0 {
        None
    } else {
        match first_in_disc(center, radius, draws.drop_last()) {
            Some(p) => Some(p),
            None => if within(center, draws.last(), radius as int) {
                Some(draws.last())
            } else {
                None
            },
        }
    }
}

/// The position that the draws settle on: the first that lies within `radius`
/// of `center`, or the centre where none does.
pub open spec fn settled(center: Vec2, radius: i32, draws: Seq<Vec2>) -> Vec2 {
    match first_in_disc(center, radius, draws) {
        Some(p) => p,
        None => center,
    }
}

/// Settles on one of the positions drawn for a disc: the first that lies in
/// the disc, or the centre where none does.
pub fn settle_in_disc(center: Vec2, radius: i32, draws: &Vec<Vec2>) -> (position: Vec2)
    ensures
        position == settled(center, radius, draws@),
        radius >= 0 ==> within(center, position, radius as int),
{
    let mut k: usize = 0;
    assert(draws@.take(0) =~= Seq::<Vec2>::empty());
    while k < draws.len()
        invariant
            k <= draws.len(),
            first_in_disc(center, radius, draws@.take(k as int)) is None,
        decreases draws.len() - k,
    {
        proof {
            assert(draws@.take(k + 1).drop_last() =~= draws@.take(k as int));
            lemma_first_stays(center, radius, draws@, k + 1);
        }
        if is_within(center, draws[k], radius as i64) {
            return draws[k];
        }
        k = k + 1;
    }
    assert(draws@.take(k as int) =~= draws@);
    if radius >= 0 {
        assert(within(center, center, radius as int)) by (nonlinear_arith)
            requires
                radius >= 0,
                crate::fixed::dist2(center, center) == 0,
        ;
    }
    center
}

/// Once a draw lies in the disc, later draws do not change what is settled on.
proof fn lemma_first_stays(center: Vec2, radius: i32, draws: Seq<Vec2>, k: int)
    requires
        0 <= k <= draws.len(),
    ensures
        first_in_disc(center, radius, draws.take(k)) is Some ==> first_in_disc(
            center,
            radius,
            draws,
        ) == first_in_disc(center, radius, draws.take(k)),
    decreases draws.len() - k,
{
    if k < draws.len() {
        assert(draws.take(k + 1).drop_last() =~= draws.take(k));
        lemma_first_stays(center, radius, draws, k + 1);
    } else {
        assert(draws.take(k) =~= draws);
    }
}

/// `after` is `before` and `count` more agents, each of species `t` and spawned
/// within `radius` of `center` with some heading of length `UNIT` up to
/// rounding.
pub open spec fn grown_around(
    before: Seq<Option<Agent>>,
    after: Seq<Option<Agent>>,
    table: Seq<Factors>,
    t: CreatureType,
    count: int,
    center: Vec2,
    radius: i32,
) -> bool {
    &&& after.len() == before.len() + count
    &&& after.subrange(0, before.len() as int) == before
    &&& forall|k: int|
        before.len() <= k < after.len() ==> (#[trigger] after[k]) is Some && after[k].unwrap()
            == newborn(table, after[k].unwrap().position, after[k].unwrap().heading, t)
            && within(center, after[k].unwrap().position, radius as int)
            && after[k].unwrap().heading.is_unit()
}

/// Spawns `count` agents of species `creature_type`, each at a random position
/// within `radius` of `center`, with a random heading.
pub fn spawn_around(
    agents: &mut AgentStore,
    table: &FactorInfo,
    creature_type: CreatureType,
    center: Vec2,
    radius: i32,
    count: usize,
)
    requires
        table.knows(creature_type),
        radius >= 0,
    ensures
        grown_around(
            old(agents)@,
            final(agents)@,
            table.factors@,
            creature_type,
            count as int,
            center,
            radius,
        ),
        table.wf() && all_valid(old(agents)@, table.factors@) ==> all_valid(
            final(agents)@,
            table.factors@,
        ),
{
    let mut done: usize = 0;
    assert(agents@.subrange(0, old(agents)@.len() as int) =~= old(agents)@);
    while done < count
        invariant
            done <= count,
            table.knows(creature_type),
            radius >= 0,
            grown_around(
                old(agents)@,
                agents@,
                table.factors@,
                creature_type,
                done as int,
                center,
                radius,
            ),
            table.wf() && all_valid(old(agents)@, table.factors@) ==> all_valid(
                agents@,
                table.factors@,
            ),
        decreases count - done,
    {
        let ghost before = agents@;
        let position = draw_in_disc(center, radius);
        let rx = random_between(-UNIT, UNIT);
        let ry = random_between(-UNIT, UNIT);
        place_creature(agents, table, creature_type, position.x, position.y, rx, ry);
        proof {
            assert(agents@.subrange(0, old(agents)@.len() as int) =~= before.subrange(
                0,
                old(agents)@.len() as int,
            ));
        }
        done = done + 1;
    }
}

/// Carries out a spawn command: `properties.amount` agents of the selected
/// species within `properties.radius` of the cursor.
pub fn spawn_burst(
    agents: &mut AgentStore,
    table: &FactorInfo,
    selected: CreatureType,
    cursor: Vec2,
    properties: &SpawnProperties,
)
    requires
        table.knows(selected),
        properties.radius >= 0,
    ensures
        grown_around(
            old(agents)@,
            final(agents)@,
            table.factors@,
            selected,
            properties.amount as int,
            cursor,
            properties.radius,
        ),
        table.wf() && all_valid(old(agents)@, table.factors@) ==> all_valid(
            final(agents)@,
            table.factors@,
        ),
{
    spawn_around(agents, table, selected, cursor, properties.radius, properties.amount)
}

/// No false negatives for a current index: an agent that lives within `radius`
/// of `position` is among the agents that a query around `position` with
/// `radius` returns.
pub proof fn lemma_current_index_finds(
    records: Map<AgentId, Cell>,
    agents: Seq<Option<Agent>>,
    id: AgentId,
    position: Vec2,
    radius: int,
)
    requires
        index_current(records, agents),
        live(agents, id as int),
        within(position, agents[id as int].unwrap().position, radius),
    ensures
        crate::grid::nearby(records, position, radius).contains(id),
{
    crate::grid::lemma_no_false_negatives(
        records,
        id,
        agents[id as int].unwrap().position,
        position,
        radius,
    );
}

/// Carries out a despawn command: removes every agent of the selected species
/// within `properties.radius` of the cursor.
pub fn despawn_burst(
    agents: &mut AgentStore,
    grid: &mut HashGrid,
    selected: CreatureType,
    cursor: Vec2,
    properties: &DespawnProperties,
)
    requires
        old(grid).wf(),
    ensures
        final(grid).wf(),
        final(agents)@.len() == old(agents)@.len(),
        forall|id: int|
            0 <= id < final(agents)@.len() ==> #[trigger] final(agents)@[id] == cleared_slot(
                old(agents)@[id],
                cursor,
                properties.radius,
                seq![selected],
            ),
        final(grid)@ == old(grid)@.remove_keys(
            departed(old(agents)@, final(agents)@, old(agents)@.len() as int),
        ),
{
    let mut filter: Vec<CreatureType> = Vec::new();
    filter.push(selected);
    despawn_area(agents, grid, cursor, properties.radius, &filter)
}

/// Every live agent is recorded in the cell of its position.
pub open spec fn index_current(records: Map<AgentId, Cell>, agents: Seq<Option<Agent>>) -> bool {
    forall|id: int| #[trigger]
        live(agents, id) ==> records.dom().contains(id as usize) && records[id as usize]
            == cell_at(agents[id].unwrap().position)
}

/// The records after the index was refreshed for the agents in slots below
/// `upto`.
pub open spec fn refreshed(records: Map<AgentId, Cell>, agents: Seq<Option<Agent>>, upto: int) -> Map<
    AgentId,
    Cell,
>
    decreases upto,
{
    if upto <= 0 {
        records
    } else if live(agents, upto - 1) {
        refreshed(records, agents, upto - 1).insert(
            (upto - 1) as usize,
            cell_at(agents[upto - 1].unwrap().position),
        )
    } else {
        refreshed(records, agents, upto - 1)
    }
}

/// Brings the spatial index up to date with the positions of the agents. The
/// records of other identifiers stay.
pub fn refresh_index(grid: &mut HashGrid, agents: &AgentStore)
    requires
        old(grid).wf(),
    ensures
        final(grid).wf(),
        final(grid)@ == refreshed(old(grid)@, agents@, agents@.len() as int),
        index_current(final(grid)@, agents@),
        forall|id: AgentId|
            !live(agents@, id as int) ==> (#[trigger] final(grid)@.dom().contains(id))
                == old(grid)@.dom().contains(id),
        forall|id: AgentId|
            !live(agents@, id as int) && #[trigger] final(grid)@.dom().contains(id)
                ==> final(grid)@[id] == old(grid)@[id],
{
    let n = agents.len();
    let mut id: usize = 0;
    while id < n
        invariant
            id <= n,
            n == agents@.len(),
            grid.wf(),
            grid@ == refreshed(old(grid)@, agents@, id as int),
            forall|k: int|
                0 <= k < id && #[trigger] live(agents@, k) ==> grid@.dom().contains(k as usize)
                    && grid@[k as usize] == cell_at(agents@[k].unwrap().position),
            forall|k: AgentId|
                !live(agents@, k as int) || k >= id ==> (#[trigger] grid@.dom().contains(k))
                    == old(grid)@.dom().contains(k),
            forall|k: AgentId|
                (!live(agents@, k as int) || k >= id) && #[trigger] grid@.dom().contains(k)
                    ==> grid@[k] == old(grid)@[k],
        decreases n - id,
    {
        match agents.get(id) {
            Some(a) => {
                grid.update_entity(id, a.position);
            },
            None => {},
        }
        id = id + 1;
    }
}

/// Whether `t` is one of the species listed.
pub fn species_listed(filter: &Vec<CreatureType>, t: CreatureType) -> (listed: bool)
    ensures
        listed == filter@.contains(t),
{
    let mut i: usize = 0;
    while i < filter.len()
        invariant
            i <= filter.len(),
            forall|k: int| 0 <= k < i ==> filter@[k] != t,
        decreases filter.len() - i,
    {
        if filter[i].0 == t.0 {
            return true;
        }
        i = i + 1;
    }
    false
}

/// A despawn command around `center` with `radius` for the species in `filter`
/// takes this agent.
pub open spec fn in_area(a: Agent, center: Vec2, radius: i32, filter: Seq<CreatureType>) -> bool {
    filter.contains(a.species) && within(center, a.position, radius as int)
}

/// The slot of an agent after a despawn command.
pub open spec fn cleared_slot(
    slot: Option<Agent>,
    center: Vec2,
    radius: i32,
    filter: Seq<CreatureType>,
) -> Option<Agent> {
    match slot {
        Some(a) => if in_area(a, center, radius, filter) {
            None
        } else {
            slot
        },
        None => None,
    }
}

/// The identifiers below `upto` of the agents that are alive in `before` and
/// not in `after`.
pub open spec fn departed(before: Seq<Option<Agent>>, after: Seq<Option<Agent>>, upto: int) -> Set<
    AgentId,
> {
    Set::new(|id: AgentId| id < upto && live(before, id as int) && !live(after, id as int))
}

/// Carries out a despawn command: removes every agent that lies within
/// `radius` of `center` and whose species is listed in `filter`, from the store
/// and from the spatial index.
pub fn despawn_area(
    agents: &mut AgentStore,
    grid: &mut HashGrid,
    center: Vec2,
    radius: i32,
    filter: &Vec<CreatureType>,
)
    requires
        old(grid).wf(),
    ensures
        final(grid).wf(),
        final(agents)@.len() == old(agents)@.len(),
        forall|id: int|
            0 <= id < final(agents)@.len() ==> #[trigger] final(agents)@[id] == cleared_slot(
                old(agents)@[id],
                center,
                radius,
                filter@,
            ),
        final(grid)@ == old(grid)@.remove_keys(
            departed(old(agents)@, final(agents)@, old(agents)@.len() as int),
        ),
{
    let n = agents.len();
    let mut id: usize = 0;
    while id < n
        invariant
            id <= n,
            n == agents@.len(),
            n == old(agents)@.len(),
            grid.wf(),
            forall|k: int| id <= k < n ==> agents@[k] == old(agents)@[k],
            forall|k: int|
                0 <= k < id ==> #[trigger] agents@[k] == cleared_slot(
                    old(agents)@[k],
                    center,
                    radius,
                    filter@,
                ),
            grid@ == old(grid)@.remove_keys(departed(old(agents)@, agents@, id as int)),
        decreases n - id,
    {
        match agents.get(id) {
            Some(a) => {
                if species_listed(filter, a.species) && is_within(
                    center,
                    a.position,
                    radius as i64,
                ) {
                    agents.remove(id);
                    grid.remove_entity(id);
                }
            },
            None => {},
        }
        id = id + 1;
    }
}

/// The changes by which the agents in slots below `upto` burn energy over the
/// time `dt`, in the order of the slots.
pub open spec fn drained(agents: Seq<Option<Agent>>, dt: u32, upto: int) -> Seq<EnergyChange>
    decreases upto,
{
    if upto <= 0 {
        Seq::empty()
    } else if live(agents, upto - 1) {
        drained(agents, dt, upto - 1).push(
            EnergyChange { agent: (upto - 1) as usize, change: (-(BURN_RATE * dt)) as i64 },
        )
    } else {
        drained(agents, dt, upto - 1)
    }
}

/// The changes by which all agents burn energy over the time `dt`; none where
/// the drain is switched off.
pub open spec fn drain_of(agents: Seq<Option<Agent>>, features: Features, dt: u32) -> Seq<
    EnergyChange,
> {
    if features.energy_draining {
        drained(agents, dt, agents.len() as int)
    } else {
        Seq::empty()
    }
}

/// The energy that every agent burns over the time `dt`, as changes to be
/// applied later; none where the drain is switched off.
pub fn energy_drain(agents: &AgentStore, features: &Features, dt: u32) -> (changes: Vec<
    EnergyChange,
>)
    ensures
        changes@ == drain_of(agents@, *features, dt),
{
    let mut changes: Vec<EnergyChange> = Vec::new();
    if !features.energy_draining {
        return changes;
    }
    let n = agents.len();
    let mut id: usize = 0;
    while id < n
        invariant
            id <= n,
            n == agents@.len(),
            changes@ == drained(agents@, dt, id as int),
        decreases n - id,
    {
        match agents.get(id) {
            Some(_) => {
                changes.push(EnergyChange { agent: id, change: -(BURN_RATE * (dt as i64)) });
            },
            None => {},
        }
        id = id + 1;
    }
    changes
}

/// An energy after a change, held between zero and the maximum.
pub open spec fn energy_after(energy: i64, change: i64, max: i64) -> int {
    if energy + change <= 0 {
        0
    } else if energy + change >= max {
        max as int
    } else {
        energy + change
    }
}

/// The agents after one change of energy: its agent, if it is alive, takes the
/// change, and leaves if its energy is then zero.
pub open spec fn energized_one(agents: Seq<Option<Agent>>, table: Seq<Factors>, c: EnergyChange) -> Seq<
    Option<Agent>,
> {
    if live(agents, c.agent as int) {
        let a = agents[c.agent as int].unwrap();
        let e = energy_after(a.energy.0, c.change, table[a.species.0 as int].max_energy);
        if e <= 0 {
            agents.update(c.agent as int, None)
        } else {
            agents.update(c.agent as int, Some(Agent { energy: Energy(e as i64), ..a }))
        }
    } else {
        agents
    }
}

/// The agents after the changes of energy were applied one after the other.
pub open spec fn energized(
    agents: Seq<Option<Agent>>,
    table: Seq<Factors>,
    changes: Seq<EnergyChange>,
) -> Seq<Option<Agent>>
    decreases changes.len(),
{
    if changes.len() == 0 {
        agents
    } else {
        energized_one(energized(agents, table, changes.drop_last()), table, changes.last())
    }
}

/// One energy after a change.
pub fn change_energy(energy: i64, change: i64, max: i64) -> (e: i64)
    requires
        max >= 0,
    ensures
        e == energy_after(energy, change, max),
        0 <= e <= max,
{
    let sum: i128 = energy as i128 + change as i128;
    if sum <= 0 {
        0
    } else if sum >= max as i128 {
        max
    } else {
        sum as i64
    }
}

/// Applies the changes of energy, one after the other in the order given. Each
/// energy stays between zero and the maximum of its species, and an agent whose
/// energy reaches zero leaves the store and the spatial index. A change for an
/// agent that is no longer alive is dropped.
pub fn apply_energy_changes(
    agents: &mut AgentStore,
    grid: &mut HashGrid,
    table: &FactorInfo,
    changes: &Vec<EnergyChange>,
)
    requires
        old(grid).wf(),
        table.wf(),
        all_valid(old(agents)@, table.factors@),
    ensures
        final(grid).wf(),
        final(agents)@ == energized(old(agents)@, table.factors@, changes@),
        final(agents)@.len() == old(agents)@.len(),
        all_valid(final(agents)@, table.factors@),
        forall|k: int|
            0 <= k < changes@.len() && live(final(agents)@, (#[trigger] changes@[k]).agent as int)
                ==> final(agents)@[changes@[k].agent as int].unwrap().energy.0 > 0,
        final(grid)@ == old(grid)@.remove_keys(
            departed(old(agents)@, final(agents)@, old(agents)@.len() as int),
        ),
{
    let ghost n = agents@.len() as int;
    let mut i: usize = 0;
    while i < changes.len()
        invariant
            i <= changes.len(),
            n == old(agents)@.len(),
            n == agents@.len(),
            grid.wf(),
            table.wf(),
            all_valid(agents@, table.factors@),
            agents@ == energized(old(agents)@, table.factors@, changes@.take(i as int)),
            forall|id: int| live(agents@, id) ==> #[trigger] live(old(agents)@, id),
            forall|k: int|
                0 <= k < i && live(agents@, (#[trigger] changes@[k]).agent as int)
                    ==> agents@[changes@[k].agent as int].unwrap().energy.0 > 0,
            grid@ == old(grid)@.remove_keys(departed(old(agents)@, agents@, n)),
        decreases changes.len() - i,
    {
        let c = changes[i];
        proof {
            assert(changes@.take(i + 1).drop_last() =~= changes@.take(i as int));
        }
        let ghost before = agents@;
        match agents.get(c.agent) {
            Some(a) => {
                let max = table.get(a.species).max_energy;
                let e = change_energy(a.energy.0, c.change, max);
                if e <= 0 {
                    agents.remove(c.agent);
                    grid.remove_entity(c.agent);
                    proof {
                        assert forall|id: int| #[trigger]
                            live(agents@, id) implies agents@[id].unwrap().valid(
                            table.factors@,
                        ) by {
                            assert(live(before, id));
                        }
                    }
                } else {
                    agents.replace(c.agent, Agent { energy: Energy(e), ..a });
                    proof {
                        assert forall|id: int| #[trigger]
                            live(agents@, id) implies agents@[id].unwrap().valid(
                            table.factors@,
                        ) by {
                            assert(live(before, id));
                        }
                    }
                }
            },
            None => {},
        }
        i = i + 1;
    }
    assert(changes@.take(i as int) =~= changes@);
}

/// The populations with which a simulation starts, by species.
pub const INITIAL_POPULATIONS: [usize; 3] = [1000, 200, 300];

/// `after` is `before` and, behind it, one block of agents for each species
/// below `species`, in the order of the species: as many as `populations` says,
/// each spawned on a screen of the given width and height.
pub open spec fn seeded(
    before: Seq<Option<Agent>>,
    after: Seq<Option<Agent>>,
    table: Seq<Factors>,
    populations: Seq<usize>,
    species: int,
    width: i32,
    height: i32,
) -> bool
    decreases species,
{
    if species <= 0 {
        after == before
    } else {
        let count = populations[species - 1] as int;
        &&& after.len() >= count
        &&& seeded(
            before,
            after.take(after.len() - count),
            table,
            populations,
            species - 1,
            width,
            height,
        )
        &&& grown_in_box(
            after.take(after.len() - count),
            after,
            table,
            CreatureType((species - 1) as usize),
            count,
            (-(width as int / 2)) as i32,
            (width as int / 2) as i32,
            (-(height as int / 2)) as i32,
            (height as int / 2) as i32,
        )
    }
}

/// Seeds the simulation: for each species, in the order of the table, as many
/// agents as `populations` says, each at a random position of a screen of the
/// given width and height.
pub fn setup_creatures(
    agents: &mut AgentStore,
    table: &FactorInfo,
    populations: &Vec<usize>,
    width: i32,
    height: i32,
)
    requires
        populations@.len() <= table.factors@.len(),
        width >= 0,
        height >= 0,
    ensures
        seeded(
            old(agents)@,
            final(agents)@,
            table.factors@,
            populations@,
            populations@.len() as int,
            width,
            height,
        ),
        table.wf() && all_valid(old(agents)@, table.factors@) ==> all_valid(
            final(agents)@,
            table.factors@,
        ),
{
    let mut index: usize = 0;
    while index < populations.len()
        invariant
            index <= populations.len(),
            populations@.len() <= table.factors@.len(),
            width >= 0,
            height >= 0,
            seeded(
                old(agents)@,
                agents@,
                table.factors@,
                populations@,
                index as int,
                width,
                height,
            ),
            table.wf() && all_valid(old(agents)@, table.factors@) ==> all_valid(
                agents@,
                table.factors@,
            ),
        decreases populations.len() - index,
    {
        spawn_in_box(
            agents,
            table,
            CreatureType(index),
            -(width / 2),
            width / 2,
            -(height / 2),
            height / 2,
            populations[index],
        );
        index = index + 1;
    }
}

/// The number of live agents of species `t` in the slots below `upto`.
pub open spec fn census(agents: Seq<Option<Agent>>, t: int, upto: int) -> nat
    decreases upto,
{
    if upto <= 0 {
        0
    } else if live(agents, upto - 1) && agents[upto - 1].unwrap().species.0 == t {
        census(agents, t, upto - 1) + 1
    } else {
        census(agents, t, upto - 1)
    }
}

/// No more agents are counted than there are slots.
proof fn lemma_census_bounded(agents: Seq<Option<Agent>>, t: int, upto: int)
    requires
        0 <= upto,
    ensures
        census(agents, t, upto) <= upto,
    decreases upto,
{
    if upto > 0 {
        lemma_census_bounded(agents, t, upto - 1);
    }
}

/// The number of live agents of each species of the table.
pub fn population_counts(agents: &AgentStore, table: &FactorInfo) -> (counts: Vec<usize>)
    requires
        all_valid(agents@, table.factors@),
    ensures
        counts@.len() == table.factors@.len(),
        forall|t: int|
            0 <= t < counts@.len() ==> #[trigger] counts@[t] == census(
                agents@,
                t,
                agents@.len() as int,
            ),
{
    let species = table.len();
    let mut counts: Vec<usize> = Vec::new();
    while counts.len() < species
        invariant
            counts@.len() <= species,
            forall|t: int| 0 <= t < counts@.len() ==> counts@[t] == 0,
        decreases species - counts@.len(),
    {
        counts.push(0);
    }
    let n = agents.len();
    let mut id: usize = 0;
    while id < n
        invariant
            id <= n,
            n == agents@.len(),
            species == table.factors@.len(),
            counts@.len() == species,
            all_valid(agents@, table.factors@),
            forall|t: int|
                0 <= t < counts@.len() ==> #[trigger] counts@[t] == census(agents@, t, id as int),
        decreases n - id,
    {
        match agents.get(id) {
            Some(a) => {
                proof {
                    lemma_census_bounded(agents@, a.species.0 as int, id as int);
                }
                counts[a.species.0] = counts[a.species.0] + 1;
            },
            None => {},
        }
        id = id + 1;
    }
    counts
}

/// A slot after species `removed` has left the table: its agents are gone, and
/// the agents of the species above it carry a number that is one lower.
pub open spec fn forgotten_slot(slot: Option<Agent>, removed: CreatureType) -> Option<Agent> {
    match slot {
        Some(a) => if a.species == removed {
            None
        } else {
            Some(Agent { species: CreatureType(renumbered(a.species.0, removed.0)), ..a })
        },
        None => None,
    }
}

/// Removes the agents of species `removed` from the store and from the spatial
/// index, and renumbers the species of the others for a table that this species
/// has left.
pub fn forget_species(agents: &mut AgentStore, grid: &mut HashGrid, removed: CreatureType)
    requires
        old(grid).wf(),
    ensures
        final(grid).wf(),
        final(agents)@.len() == old(agents)@.len(),
        forall|id: int|
            0 <= id < final(agents)@.len() ==> #[trigger] final(agents)@[id] == forgotten_slot(
                old(agents)@[id],
                removed,
            ),
        final(grid)@ == old(grid)@.remove_keys(
            departed(old(agents)@, final(agents)@, old(agents)@.len() as int),
        ),
{
    let n = agents.len();
    let mut id: usize = 0;
    while id < n
        invariant
            id <= n,
            n == agents@.len(),
            n == old(agents)@.len(),
            grid.wf(),
            forall|k: int| id <= k < n ==> agents@[k] == old(agents)@[k],
            forall|k: int|
                0 <= k < id ==> #[trigger] agents@[k] == forgotten_slot(old(agents)@[k], removed),
            grid@ == old(grid)@.remove_keys(departed(old(agents)@, agents@, id as int)),
        decreases n - id,
    {
        match agents.get(id) {
            Some(a) => {
                if a.species.0 == removed.0 {
                    agents.remove(id);
                    grid.remove_entity(id);
                } else {
                    if a.species.0 > removed.0 {
                        agents.replace(id, Agent { species: CreatureType(a.species.0 - 1), ..a });
                    }
                }
            },
            None => {},
        }
        id = id + 1;
    }
}

} // verus!
