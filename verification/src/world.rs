//! The simulation as a whole: the species table, the agents, the spatial index
//! and the switches, and the tick that runs the phases in their order.
//!
//! Within a tick the spatial index is read by the scans and changed only where
//! an agent leaves; it is brought up to date with the new positions at the end
//! of the tick, so that the scans of a tick see the positions of the tick
//! before.

use vstd::prelude::*;
use crate::agents::all_sound;
use crate::agents::all_valid;
use crate::agents::live;
use crate::agents::Agent;
use crate::agents::AgentStore;
use crate::agents::Energy;
use crate::fixed::Vec2;
use crate::forces::compute_forces;
use crate::forces::intents_valid;
use crate::forces::scanned;
use crate::forces::ForceIntent;
use crate::grid::AgentId;
use crate::grid::HashGrid;
use crate::integrator::applied;
use crate::integrator::apply_forces;
use crate::integrator::contained;
use crate::integrator::directions_unit;
use crate::integrator::move_agents;
use crate::integrator::moved;
use crate::integrator::wrap_borders;
use crate::integrator::wrapped_all;
use crate::integrator::WRAP_MARGIN;
use crate::lifecycle::apply_energy_changes;
use crate::lifecycle::departed;
use crate::lifecycle::despawn_area;
use crate::lifecycle::drain_of;
use crate::lifecycle::energized;
use crate::lifecycle::energy_drain;
use crate::lifecycle::forget_species;
use crate::lifecycle::index_current;
use crate::lifecycle::refresh_index;
use crate::lifecycle::refreshed;
use crate::lifecycle::spawn_around;
use crate::lifecycle::EnergyChange;
use crate::predation::hunted_pass;
use crate::predation::kill_pass;
use crate::reproduction::bred;
use crate::reproduction::reproduction_pass;
use crate::tables::Cell;
use crate::species::Color;
use crate::species::CreatureType;
use crate::species::FactorInfo;
use crate::species::Factors;
use crate::species::Features;
use crate::species::SimState;

verus! {

/// Queues the changes of `more` behind those of `all`.
fn queue_changes(all: &mut Vec<EnergyChange>, more: &Vec<EnergyChange>)
    ensures
        final(all)@ == old(all)@ + more@,
{
    let mut i: usize = 0;
    while i < more.len()
        invariant
            i <= more.len(),
            all@ == old(all)@ + more@.take(i as int),
        decreases more.len() - i,
    {
        all.push(more[i]);
        i = i + 1;
    }
}

/// `after` and `records_after` are what the rest of a tick makes of `before`
/// and `records`, where the reproduction pass has made `born` of the agents and
/// queued `prices`: the intents are applied to the headings; the rewards, the
/// drain and the prices are applied to the energies, in this order; the agents
/// move and are wrapped; and the index is refreshed.
pub open spec fn settled(
    before: Seq<Option<Agent>>,
    records: Map<AgentId, Cell>,
    table: Seq<Factors>,
    features: Features,
    rewards: Seq<EnergyChange>,
    intents: Seq<ForceIntent>,
    dt: u32,
    width: i32,
    height: i32,
    born: Seq<Option<Agent>>,
    prices: Seq<EnergyChange>,
    after: Seq<Option<Agent>>,
    records_after: Map<AgentId, Cell>,
) -> bool {
    let steered = applied(born, intents, dt);
    let fed = energized(steered, table, rewards + drain_of(before, features, dt) + prices);
    &&& bred(before, records, table, features, dt, born, prices)
    &&& after == wrapped_all(moved(fed, table, dt), width, height)
    &&& records_after == refreshed(
        records.remove_keys(departed(steered, fed, steered.len() as int)),
        after,
        after.len() as int,
    )
}

/// `after` and `records_after` are what the rest of a tick makes of `before`
/// and `records`, for some outcome of the reproduction pass.
pub open spec fn integrated(
    before: Seq<Option<Agent>>,
    records: Map<AgentId, Cell>,
    table: Seq<Factors>,
    features: Features,
    rewards: Seq<EnergyChange>,
    intents: Seq<ForceIntent>,
    dt: u32,
    width: i32,
    height: i32,
    after: Seq<Option<Agent>>,
    records_after: Map<AgentId, Cell>,
) -> bool {
    exists|born: Seq<Option<Agent>>, prices: Seq<EnergyChange>| #[trigger]
        settled(
            before,
            records,
            table,
            features,
            rewards,
            intents,
            dt,
            width,
            height,
            born,
            prices,
            after,
            records_after,
        )
}

/// `after` is what a tick of a running simulation makes of `before`, where the
/// predation pass has left the agents `hunted` with the records `records` and
/// queued `rewards`, and the steering scan has given `intents`.
pub open spec fn ran(
    before: Simulation,
    hunted: Seq<Option<Agent>>,
    records: Map<AgentId, Cell>,
    rewards: Seq<EnergyChange>,
    intents: Seq<ForceIntent>,
    after: Simulation,
    dt: u32,
    width: i32,
    height: i32,
) -> bool {
    let table = before.species.factors@;
    &&& hunted_pass(
        before.agents@,
        before.grid@,
        table,
        before.features,
        hunted,
        records,
        rewards,
    )
    &&& scanned(hunted, table, before.features, records, 0, hunted.len() as int, intents)
    &&& integrated(
        hunted,
        records,
        table,
        before.features,
        rewards,
        intents,
        dt,
        width,
        height,
        after.agents@,
        after.grid@,
    )
}

/// `after` is what a tick over the time `dt` makes of `before`, for some
/// outcome of what the spatial index and chance leave open. A paused simulation
/// keeps its agents and has its index refreshed; a running one goes through the
/// predation pass, the steering scan and the rest of the tick.
pub open spec fn ticked(before: Simulation, after: Simulation, dt: u32, width: i32, height: i32) -> bool {
    match before.state {
        SimState::Paused => after.agents@ == before.agents@ && after.grid@ == refreshed(
            before.grid@,
            before.agents@,
            before.agents@.len() as int,
        ),
        SimState::Running => exists|
            hunted: Seq<Option<Agent>>,
            records: Map<AgentId, Cell>,
            rewards: Seq<EnergyChange>,
            intents: Seq<ForceIntent>,
        | #[trigger]
            ran(before, hunted, records, rewards, intents, after, dt, width, height),
    }
}

/// A slot after the energies were brought back under the maxima.
pub open spec fn clamped_slot(slot: Option<Agent>, table: Seq<Factors>) -> Option<Agent> {
    match slot {
        Some(a) => if a.energy.0 > table[a.species.0 as int].max_energy {
            Some(Agent { energy: Energy(table[a.species.0 as int].max_energy), ..a })
        } else {
            slot
        },
        None => None,
    }
}

/// What there is to draw of one agent.
#[derive(Clone, Copy, Debug, PartialEq, Eq, Structural)]
pub struct Drawable {
    pub id: AgentId,
    pub position: Vec2,
    pub heading: Vec2,
    pub color: Color,
    pub size: i32,
}

/// What there is to draw of agent `id`.
pub open spec fn drawable_of(a: Agent, table: Seq<Factors>, id: AgentId) -> Drawable {
    Drawable {
        id,
        position: a.position,
        heading: a.heading,
        color: table[a.species.0 as int].color,
        size: table[a.species.0 as int].size,
    }
}

/// What there is to draw of the live agents in slots below `upto`, in the order
/// of the slots.
pub open spec fn drawn(agents: Seq<Option<Agent>>, table: Seq<Factors>, upto: int) -> Seq<Drawable>
    decreases upto,
{
    if upto <= 0 {
        Seq::empty()
    } else if live(agents, upto - 1) {
        drawn(agents, table, upto - 1).push(
            drawable_of(agents[upto - 1].unwrap(), table, (upto - 1) as usize),
        )
    } else {
        drawn(agents, table, upto - 1)
    }
}

/// A simulation.
#[derive(Debug)]
pub struct Simulation {
    pub species: FactorInfo,
    pub agents: AgentStore,
    pub grid: HashGrid,
    pub features: Features,
    pub state: SimState,
}

impl Simulation {
    /// The species table and the spatial index are well formed, and every agent
    /// is valid for the table.
    pub open spec fn wf(&self) -> bool {
        &&& self.species.wf()
        &&& self.grid.wf()
        &&& all_valid(self.agents@, self.species.factors@)
    }

    /// A running simulation of the given species, without agents, with the
    /// switches at their defaults.
    pub fn new(species: FactorInfo) -> (sim: Simulation)
        requires
            species.wf(),
        ensures
            sim.wf(),
            sim.species == species,
            sim.agents@.len() == 0,
            sim.grid@ == Map::<usize, (i32, i32)>::empty(),
            sim.state == SimState::Running,
            sim.features == (Features {
                chasing: true,
                running: true,
                killing: false,
                flocking: true,
                reproduction: false,
                energy_draining: false,
            }),
    {
        Simulation {
            species,
            agents: AgentStore::new(),
            grid: HashGrid::new(),
            features: Features::default(),
            state: SimState::default(),
        }
    }

    /// Pauses a running simulation and resumes a paused one.
    pub fn toggle_pause(&mut self)
        ensures
            final(self).state == old(self).state.flipped(),
            final(self).species == old(self).species,
            final(self).agents == old(self).agents,
            final(self).grid == old(self).grid,
            final(self).features == old(self).features,
    {
        self.state = self.state.toggled();
    }

    /// The predation pass of a tick. The result holds the rewards of the
    /// killers, to be handed to `integrate`.
    ///
    /// `hunt`, `scan` and `integrate` are the three parts of the tick of a
    /// running simulation, for a caller that hands the scan out to several
    /// workers; they do not look at the pause, which `tick` does.
    pub fn hunt(&mut self) -> (rewards: Vec<EnergyChange>)
        requires
            old(self).wf(),
        ensures
            final(self).wf(),
            final(self).species == old(self).species,
            final(self).features == old(self).features,
            final(self).state == old(self).state,
            final(self).agents@.len() == old(self).agents@.len(),
            hunted_pass(
                old(self).agents@,
                old(self).grid@,
                old(self).species.factors@,
                old(self).features,
                final(self).agents@,
                final(self).grid@,
                rewards@,
            ),
    {
        kill_pass(&mut self.agents, &mut self.grid, &self.species, &self.features)
    }

    /// The steering scan of a tick, for all agents. The result is to be handed
    /// to `integrate`.
    pub fn scan(&self) -> (intents: Vec<ForceIntent>)
        requires
            self.wf(),
        ensures
            intents_valid(intents@, self.agents@),
            scanned(
                self.agents@,
                self.species.factors@,
                self.features,
                self.grid@,
                0,
                self.agents@.len() as int,
                intents@,
            ),
    {
        compute_forces(&self.agents, &self.species, &self.features, &self.grid)
    }

    /// The rest of a tick, once the rewards of the predation pass and the
    /// steering intents are there: the energy drain, the reproduction pass, the
    /// application of the intents and of the energy changes, the move, the wrap
    /// at the borders and the refresh of the spatial index.
    pub fn integrate(
        &mut self,
        rewards: &Vec<EnergyChange>,
        intents: &Vec<ForceIntent>,
        dt: u32,
        width: i32,
        height: i32,
    )
        requires
            old(self).wf(),
            directions_unit(intents@),
            width >= 0,
            height >= 0,
        ensures
            final(self).wf(),
            final(self).species == old(self).species,
            final(self).features == old(self).features,
            final(self).state == old(self).state,
            final(self).agents@.len() >= old(self).agents@.len(),
            integrated(
                old(self).agents@,
                old(self).grid@,
                old(self).species.factors@,
                old(self).features,
                rewards@,
                intents@,
                dt,
                width,
                height,
                final(self).agents@,
                final(self).grid@,
            ),
            index_current(final(self).grid@, final(self).agents@),
            width >= WRAP_MARGIN && height >= WRAP_MARGIN ==> forall|id: int| #[trigger]
                live(final(self).agents@, id) ==> contained(
                    final(self).agents@[id].unwrap().position,
                    width,
                    height,
                ),
    {
        let drains = energy_drain(&self.agents, &self.features, dt);
        let prices = reproduction_pass(
            &mut self.agents,
            &self.grid,
            &self.species,
            &self.features,
            dt,
        );
        let ghost born = self.agents@;
        apply_forces(&mut self.agents, intents, dt);
        let mut changes: Vec<EnergyChange> = Vec::new();
        queue_changes(&mut changes, rewards);
        queue_changes(&mut changes, &drains);
        queue_changes(&mut changes, &prices);
        apply_energy_changes(&mut self.agents, &mut self.grid, &self.species, &changes);
        move_agents(&mut self.agents, &self.species, dt);
        wrap_borders(&mut self.agents, width, height);
        refresh_index(&mut self.grid, &self.agents);
        proof {
            assert(settled(
                old(self).agents@,
                old(self).grid@,
                old(self).species.factors@,
                old(self).features,
                rewards@,
                intents@,
                dt,
                width,
                height,
                born,
                prices@,
                self.agents@,
                self.grid@,
            ));
        }
    }

    /// Advances the simulation by the time `dt`, in microseconds, in a world of
    /// the given width and height.
    ///
    /// A paused simulation keeps its agents as they are. A running one goes
    /// through the predation pass, the steering scan, the energy drain, the
    /// reproduction pass, the application of the steering intents and of the
    /// energy changes, the move and the wrap at the borders. Either way the
    /// spatial index is brought up to date at the end.
    pub fn tick(&mut self, dt: u32, width: i32, height: i32)
        requires
            old(self).wf(),
            width >= 0,
            height >= 0,
        ensures
            final(self).wf(),
            final(self).species == old(self).species,
            final(self).features == old(self).features,
            final(self).state == old(self).state,
            ticked(*old(self), *final(self), dt, width, height),
            index_current(final(self).grid@, final(self).agents@),
            final(self).agents@.len() >= old(self).agents@.len(),
            old(self).state == SimState::Running && width >= WRAP_MARGIN && height >= WRAP_MARGIN
                ==> forall|id: int| #[trigger]
                live(final(self).agents@, id) ==> contained(
                    final(self).agents@[id].unwrap().position,
                    width,
                    height,
                ),
    {
        match self.state {
            SimState::Paused => {
                refresh_index(&mut self.grid, &self.agents);
            },
            SimState::Running => {
                let rewards = self.hunt();
                let ghost hunted = self.agents@;
                let ghost records = self.grid@;
                let intents = self.scan();
                self.integrate(&rewards, &intents, dt, width, height);
                proof {
                    assert(ran(
                        *old(self),
                        hunted,
                        records,
                        rewards@,
                        intents@,
                        *self,
                        dt,
                        width,
                        height,
                    ));
                }
            },
        }
    }

    /// What there is to draw: for every live agent, in the order of the slots,
    /// its position and heading and the colour and size of its species.
    pub fn drawables(&self) -> (list: Vec<Drawable>)
        requires
            self.wf(),
        ensures
            list@ == drawn(self.agents@, self.species.factors@, self.agents@.len() as int),
    {
        let mut list: Vec<Drawable> = Vec::new();
        let n = self.agents.len();
        let mut id: usize = 0;
        while id < n
            invariant
                id <= n,
                n == self.agents@.len(),
                self.wf(),
                list@ == drawn(self.agents@, self.species.factors@, id as int),
            decreases n - id,
        {
            match self.agents.get(id) {
                Some(a) => {
                    let factors = self.species.get(a.species);
                    list.push(
                        Drawable {
                            id,
                            position: a.position,
                            heading: a.heading,
                            color: factors.color,
                            size: factors.size,
                        },
                    );
                },
                None => {},
            }
            id = id + 1;
        }
        list
    }

    /// Carries out a spawn command: `amount` agents of species `t`, each
    /// within `radius` of `point`.
    pub fn spawn(&mut self, t: CreatureType, point: Vec2, radius: i32, amount: usize)
        requires
            old(self).wf(),
            old(self).species.knows(t),
            radius >= 0,
        ensures
            final(self).wf(),
            final(self).species == old(self).species,
            final(self).grid == old(self).grid,
            final(self).features == old(self).features,
            final(self).state == old(self).state,
            crate::lifecycle::grown_around(
                old(self).agents@,
                final(self).agents@,
                final(self).species.factors@,
                t,
                amount as int,
                point,
                radius,
            ),
    {
        spawn_around(&mut self.agents, &self.species, t, point, radius, amount);
    }

    /// Carries out a despawn command: removes every agent within `radius` of
    /// `point` whose species is listed in `filter`.
    pub fn despawn(&mut self, point: Vec2, radius: i32, filter: &Vec<CreatureType>)
        requires
            old(self).wf(),
        ensures
            final(self).wf(),
            final(self).species == old(self).species,
            final(self).features == old(self).features,
            final(self).state == old(self).state,
            final(self).agents@.len() == old(self).agents@.len(),
            forall|id: int|
                0 <= id < final(self).agents@.len() ==> #[trigger] final(self).agents@[id]
                    == crate::lifecycle::cleared_slot(
                    old(self).agents@[id],
                    point,
                    radius,
                    filter@,
                ),
            final(self).grid@ == old(self).grid@.remove_keys(
                crate::lifecycle::departed(
                    old(self).agents@,
                    final(self).agents@,
                    old(self).agents@.len() as int,
                ),
            ),
    {
        despawn_area(&mut self.agents, &mut self.grid, point, radius, filter);
        proof {
            let table = self.species.factors@;
            assert forall|id: int| #[trigger]
                live(self.agents@, id) implies self.agents@[id].unwrap().valid(table) by {
                assert(live(old(self).agents@, id));
            }
        }
    }

    /// Brings the energies back under the maxima of the species, after the
    /// parameters of a species were edited: an energy above the maximum of its
    /// species comes down to it, and nothing else changes.
    pub fn clamp_energies(&mut self)
        requires
            old(self).species.wf(),
            old(self).grid.wf(),
            all_sound(old(self).agents@, old(self).species.factors@),
        ensures
            final(self).wf(),
            final(self).species == old(self).species,
            final(self).grid == old(self).grid,
            final(self).features == old(self).features,
            final(self).state == old(self).state,
            final(self).agents@.len() == old(self).agents@.len(),
            forall|id: int|
                0 <= id < final(self).agents@.len() ==> #[trigger] final(self).agents@[id]
                    == clamped_slot(old(self).agents@[id], old(self).species.factors@),
    {
        let n = self.agents.len();
        let mut id: usize = 0;
        while id < n
            invariant
                id <= n,
                n == self.agents@.len(),
                n == old(self).agents@.len(),
                self.species == old(self).species,
                self.grid == old(self).grid,
                self.features == old(self).features,
                self.state == old(self).state,
                self.species.wf(),
                all_sound(old(self).agents@, self.species.factors@),
                forall|k: int| id <= k < n ==> self.agents@[k] == old(self).agents@[k],
                forall|k: int|
                    0 <= k < id ==> #[trigger] self.agents@[k] == clamped_slot(
                        old(self).agents@[k],
                        self.species.factors@,
                    ),
            decreases n - id,
        {
            match self.agents.get(id) {
                Some(a) => {
                    assert(live(old(self).agents@, id as int));
                    let max = self.species.get(a.species).max_energy;
                    if a.energy.0 > max {
                        self.agents.replace(id, Agent { energy: Energy(max), ..a });
                    }
                },
                None => {},
            }
            id = id + 1;
        }
        proof {
            let table = self.species.factors@;
            assert forall|k: int| #[trigger]
                live(self.agents@, k) implies self.agents@[k].unwrap().valid(table) by {
                assert(live(old(self).agents@, k));
            }
        }
    }

    /// Adds a species with the given parameters and returns its number.
    pub fn add_species(&mut self, factors: Factors) -> (t: CreatureType)
        requires
            old(self).wf(),
            factors.wf(),
        ensures
            final(self).wf(),
            t.0 == old(self).species.factors@.len(),
            final(self).species.factors@ == old(self).species.factors@.push(factors),
            final(self).agents == old(self).agents,
            final(self).grid == old(self).grid,
            final(self).features == old(self).features,
            final(self).state == old(self).state,
    {
        let t = self.species.add_species(factors);
        t
    }

    /// Removes species `removed` in one step: its agents leave the store and
    /// the spatial index, it leaves the table, and the species numbers of the
    /// remaining agents and of the hunted species in the table move down to
    /// match.
    pub fn remove_species(&mut self, removed: CreatureType)
        requires
            old(self).wf(),
            old(self).species.knows(removed),
        ensures
            final(self).wf(),
            final(self).features == old(self).features,
            final(self).state == old(self).state,
            final(self).species.factors@.len() == old(self).species.factors@.len() - 1,
            forall|k: int|
                0 <= k < final(self).species.factors@.len() ==> (
                #[trigger] final(self).species.factors@[k]).same_traits(
                    &old(self).species.factors@[crate::species::place_before(
                        k,
                        removed.0 as int,
                    )],
                ) && final(self).species.factors@[k].prey() == crate::species::renumbered_set(
                    old(self).species.factors@[crate::species::place_before(
                        k,
                        removed.0 as int,
                    )].prey(),
                    removed.0,
                ),
            final(self).agents@.len() == old(self).agents@.len(),
            forall|id: int|
                0 <= id < final(self).agents@.len() ==> #[trigger] final(self).agents@[id]
                    == crate::lifecycle::forgotten_slot(old(self).agents@[id], removed),
            final(self).grid@ == old(self).grid@.remove_keys(
                crate::lifecycle::departed(
                    old(self).agents@,
                    final(self).agents@,
                    old(self).agents@.len() as int,
                ),
            ),
    {
        forget_species(&mut self.agents, &mut self.grid, removed);
        self.species.remove_species(removed);
        proof {
            let table = self.species.factors@;
            assert forall|id: int| #[trigger]
                live(self.agents@, id) implies self.agents@[id].unwrap().valid(table) by {
                assert(live(old(self).agents@, id));
            }
        }
    }
}

} // verus!
