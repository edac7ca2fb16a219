//! The agents and the store that holds them.
//!
//! An agent keeps its slot for as long as it lives; the slot of a removed agent
//! stays empty, so that no identifier ever names two agents.

use vstd::prelude::*;
use crate::fixed::Vec2;
use crate::grid::AgentId;
use crate::species::CreatureType;
use crate::species::Factors;

verus! {

/// The countdown to an agent's next reproduction, in microseconds, and the
/// number of offspring it then has.
#[derive(Clone, Copy, Debug, PartialEq, Eq, Structural)]
pub struct Fertility {
    pub time_till_fertile: i64,
    pub amount: usize,
}

/// An agent's energy, in millionths.
#[derive(Clone, Copy, Debug, PartialEq, Eq, Structural)]
pub struct Energy(pub i64);

/// One simulated individual.
#[derive(Clone, Copy, Debug, PartialEq, Eq, Structural)]
pub struct Agent {
    pub position: Vec2,
    pub heading: Vec2,
    pub species: CreatureType,
    pub energy: Energy,
    pub fertility: Fertility,
}

impl Agent {
    /// The agent's species stands in the table, its heading has length `UNIT`
    /// up to rounding, and its energy lies between zero and its species'
    /// maximum.
    pub open spec fn valid(self, table: Seq<Factors>) -> bool {
        &&& self.heading.is_unit()
        &&& self.species.0 < table.len()
        &&& 0 <= self.energy.0 <= table[self.species.0 as int].max_energy
    }
}

/// Whether slot `id` holds an agent.
pub open spec fn live(agents: Seq<Option<Agent>>, id: int) -> bool {
    0 <= id < agents.len() && agents[id] is Some
}

/// Every agent is valid for the species table.
pub open spec fn all_valid(agents: Seq<Option<Agent>>, table: Seq<Factors>) -> bool {
    forall|id: int| #[trigger] live(agents, id) ==> agents[id].unwrap().valid(table)
}

/// Every agent is valid for the species table but for its energy, which may
/// lie above the maximum of its species.
pub open spec fn all_sound(agents: Seq<Option<Agent>>, table: Seq<Factors>) -> bool {
    forall|id: int| #[trigger]
        live(agents, id) ==> agents[id].unwrap().heading.is_unit()
            && agents[id].unwrap().species.0 < table.len() && agents[id].unwrap().energy.0 >= 0
}

/// The agents, each in the slot that its identifier names.
#[derive(Clone, Debug)]
pub struct AgentStore {
    pub slots: Vec<Option<Agent>>,
}

impl View for AgentStore {
    type V = Seq<Option<Agent>>;

    /// The slots in their order: an agent, or nothing where an agent has left.
    open spec fn view(&self) -> Seq<Option<Agent>> {
        self.slots@
    }
}

impl AgentStore {
    /// A store without agents.
    pub fn new() -> (store: AgentStore)
        ensures
            store@.len() == 0,
    {
        AgentStore { slots: Vec::new() }
    }

    /// The number of slots, empty ones included.
    pub fn len(&self) -> (n: usize)
        ensures
            n == self@.len(),
    {
        self.slots.len()
    }

    /// The agent in slot `id`, if the slot exists and is not empty.
    pub fn get(&self, id: AgentId) -> (agent: Option<Agent>)
        ensures
            agent == (if live(self@, id as int) {
                self@[id as int]
            } else {
                None
            }),
    {
        if id < self.slots.len() {
            self.slots[id]
        } else {
            None
        }
    }

    /// Puts an agent into a new slot at the end and returns its identifier.
    pub fn insert(&mut self, agent: Agent) -> (id: AgentId)
        ensures
            id == old(self)@.len(),
            final(self)@ == old(self)@.push(Some(agent)),
    {
        let id = self.slots.len();
        self.slots.push(Some(agent));
        id
    }

    /// Replaces the agent in slot `id`.
    pub fn replace(&mut self, id: AgentId, agent: Agent)
        requires
            live(old(self)@, id as int),
        ensures
            final(self)@ == old(self)@.update(id as int, Some(agent)),
    {
        self.slots[id] = Some(agent);
    }

    /// Empties slot `id`. Nothing changes where the slot does not exist.
    pub fn remove(&mut self, id: AgentId)
        ensures
            final(self)@ == (if id < old(self)@.len() {
                old(self)@.update(id as int, None)
            } else {
                old(self)@
            }),
    {
        if id < self.slots.len() {
            self.slots[id] = None;
        }
    }
}

/// Every live agent's heading has length `UNIT` up to rounding.
pub open spec fn headings_unit(agents: Seq<Option<Agent>>) -> bool {
    forall|id: int| #[trigger] live(agents, id) ==> agents[id].unwrap().heading.is_unit()
}

/// The same slots are live in both.
pub open spec fn same_slots(before: Seq<Option<Agent>>, after: Seq<Option<Agent>>) -> bool {
    &&& before.len() == after.len()
    &&& forall|id: int| #[trigger] live(after, id) == live(before, id)
}

} // verus!
