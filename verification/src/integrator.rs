//! The integrator: turns the queued steering intents into new headings, moves
//! the agents along their headings and wraps them at the borders of the world.

use vstd::prelude::*;
use vstd::arithmetic::div_mod::lemma_div_is_ordered;
use vstd::arithmetic::div_mod::lemma_div_pos_is_pos;
use crate::agents::all_valid;
use crate::agents::headings_unit;
use crate::agents::live;
use crate::agents::same_slots;
use crate::agents::Agent;
use crate::agents::AgentStore;
use crate::fixed::clamped;
use crate::fixed::div_toward_zero;
use crate::fixed::steer;
use crate::fixed::steered;
use crate::fixed::trunc_div;
use crate::fixed::Vec2;
use crate::fixed::UNIT;
use crate::forces::ForceIntent;
use crate::grid::AgentId;
use crate::species::FactorInfo;
use crate::species::Factors;

verus! {

/// How far inside the opposite border a wrapped agent is set down, so that it
/// is not wrapped back at once.
pub const WRAP_MARGIN: i32 = 1_000;

/// A heading of length `UNIT` at a speed in thousandths of a world unit per
/// second over a time in microseconds covers this many thousandths of a world
/// unit, once divided by this.
pub const TRAVEL_ONE: i64 = 1_000_000_000_000;

/// The blend factor of an intent, in billionths: its weight in thousandths
/// times the tick's time in microseconds.
pub open spec fn blend_factor(weight: i32, dt: u32) -> int {
    weight * dt
}

/// The direction of every intent has length `UNIT` up to rounding.
pub open spec fn directions_unit(intents: Seq<ForceIntent>) -> bool {
    forall|k: int| 0 <= k < intents.len() ==> (#[trigger] intents[k]).direction.is_unit()
}

/// Whether the direction of every intent has length `UNIT` up to rounding.
pub fn all_directions_unit(intents: &Vec<ForceIntent>) -> (ok: bool)
    ensures
        ok == directions_unit(intents@),
{
    let mut i: usize = 0;
    while i < intents.len()
        invariant
            i <= intents.len(),
            forall|k: int| 0 <= k < i ==> (#[trigger] intents@[k]).direction.is_unit(),
        decreases intents.len() - i,
    {
        if !intents[i].direction.has_unit_length() {
            return false;
        }
        i = i + 1;
    }
    true
}

/// The agents after one intent was applied: its agent, if it is alive, steers
/// toward the intent's direction.
pub open spec fn applied_one(agents: Seq<Option<Agent>>, intent: ForceIntent, dt: u32) -> Seq<
    Option<Agent>,
> {
    if live(agents, intent.agent as int) {
        let a = agents[intent.agent as int].unwrap();
        agents.update(
            intent.agent as int,
            Some(
                Agent {
                    heading: steered(
                        a.heading,
                        intent.direction,
                        blend_factor(intent.weight, dt),
                    ),
                    ..a
                },
            ),
        )
    } else {
        agents
    }
}

/// The agents after the intents were applied one after the other, in their
/// order.
pub open spec fn applied(agents: Seq<Option<Agent>>, intents: Seq<ForceIntent>, dt: u32) -> Seq<
    Option<Agent>,
>
    decreases intents.len(),
{
    if intents.len() == 0 {
        agents
    } else {
        applied_one(applied(agents, intents.drop_last(), dt), intents.last(), dt)
    }
}

/// The two differ in the headings of their agents at most.
pub open spec fn same_but_headings(before: Seq<Option<Agent>>, after: Seq<Option<Agent>>) -> bool {
    &&& same_slots(before, after)
    &&& forall|id: int| #[trigger]
        live(after, id) ==> after[id].unwrap() == (Agent {
            heading: after[id].unwrap().heading,
            ..before[id].unwrap()
        })
}

/// The two differ in the positions of their agents at most.
pub open spec fn same_but_positions(before: Seq<Option<Agent>>, after: Seq<Option<Agent>>) -> bool {
    &&& same_slots(before, after)
    &&& forall|id: int| #[trigger]
        live(after, id) ==> after[id].unwrap() == (Agent {
            position: after[id].unwrap().position,
            ..before[id].unwrap()
        })
}

/// Applies the intents to the headings of their agents, one after the other in
/// the order given. An intent for an agent that is no longer alive is dropped.
/// Every heading keeps length `UNIT` up to rounding.
pub fn apply_forces(agents: &mut AgentStore, intents: &Vec<ForceIntent>, dt: u32)
    requires
        headings_unit(old(agents)@),
        directions_unit(intents@),
    ensures
        final(agents)@ == applied(old(agents)@, intents@, dt),
        same_but_headings(old(agents)@, final(agents)@),
        headings_unit(final(agents)@),
{
    let mut i: usize = 0;
    while i < intents.len()
        invariant
            i <= intents.len(),
            directions_unit(intents@),
            agents@ == applied(old(agents)@, intents@.take(i as int), dt),
            same_but_headings(old(agents)@, agents@),
            headings_unit(agents@),
        decreases intents.len() - i,
    {
        let intent = intents[i];
        proof {
            assert(intents@.take(i + 1).drop_last() =~= intents@.take(i as int));
        }
        let ghost before = agents@;
        match agents.get(intent.agent) {
            Some(a) => {
                assert(-0x8000_0000 * 0xffff_ffff <= intent.weight * dt <= 0x7fff_ffff
                    * 0xffff_ffff) by (nonlinear_arith)
                    requires
                        -0x8000_0000 <= intent.weight <= 0x7fff_ffff,
                        0 <= dt <= 0xffff_ffff,
                ;
                let t: i64 = (intent.weight as i64) * (dt as i64);
                let heading = steer(a.heading, intent.direction, t);
                agents.replace(intent.agent, Agent { heading, ..a });
                proof {
                    assert forall|id: int| #[trigger] live(agents@, id) == live(before, id) by {}
                }
            },
            None => {},
        }
        i = i + 1;
    }
    assert(intents@.take(i as int) =~= intents@);
}

/// The way that a heading component `h` covers at `speed` in the time `dt`,
/// rounded toward zero.
pub open spec fn travel(h: int, speed: int, dt: int) -> int {
    trunc_div(h * speed * dt, TRAVEL_ONE as int)
}

/// The position that an agent reaches from `position` along `heading` at
/// `speed` in the time `dt`.
pub open spec fn advanced(position: Vec2, heading: Vec2, speed: i32, dt: u32) -> Vec2 {
    Vec2 {
        x: clamped(position.x + travel(heading.x as int, speed as int, dt as int)) as i32,
        y: clamped(position.y + travel(heading.y as int, speed as int, dt as int)) as i32,
    }
}

/// An agent after it has moved for the time `dt`.
pub open spec fn moved_agent(a: Agent, table: Seq<Factors>, dt: u32) -> Agent {
    Agent {
        position: advanced(a.position, a.heading, table[a.species.0 as int].speed, dt),
        ..a
    }
}

/// The agents after they have moved for the time `dt`.
pub open spec fn moved(agents: Seq<Option<Agent>>, table: Seq<Factors>, dt: u32) -> Seq<
    Option<Agent>,
> {
    Seq::new(
        agents.len(),
        |id: int|
            match agents[id] {
                Some(a) => Some(moved_agent(a, table, dt)),
                None => None,
            },
    )
}

/// One coordinate of a move.
pub fn advance(c: i32, h: i32, speed: i32, dt: u32) -> (r: i32)
    requires
        -UNIT <= h <= UNIT,
    ensures
        r == clamped(c + travel(h as int, speed as int, dt as int)),
{
    assert(-1_000_000 * 0x8000_0000 <= h * speed <= 1_000_000 * 0x8000_0000) by (nonlinear_arith)
        requires
            -1_000_000 <= h <= 1_000_000,
            -0x8000_0000 <= speed <= 0x8000_0000,
    ;
    let hs: i128 = (h as i128) * (speed as i128);
    assert(-1_000_000 * 0x8000_0000 * 0x1_0000_0000 <= hs * dt <= 1_000_000 * 0x8000_0000
        * 0x1_0000_0000) by (nonlinear_arith)
        requires
            -1_000_000 * 0x8000_0000 <= hs <= 1_000_000 * 0x8000_0000,
            0 <= dt <= 0x1_0000_0000,
    ;
    let p: i128 = hs * (dt as i128);
    let d: i128 = div_toward_zero(p, TRAVEL_ONE as i128);
    proof {
        let bound = 1_000_000int * 0x8000_0000int * 0x1_0000_0000int;
        if p >= 0 {
            lemma_div_is_ordered(p as int, bound, TRAVEL_ONE as int);
            lemma_div_pos_is_pos(p as int, TRAVEL_ONE as int);
        } else {
            lemma_div_is_ordered(-p as int, bound, TRAVEL_ONE as int);
            lemma_div_pos_is_pos(-p as int, TRAVEL_ONE as int);
        }
    }
    let v: i128 = c as i128 + d;
    if v < -0x8000_0000 {
        -0x8000_0000
    } else if v > 0x7fff_ffff {
        0x7fff_ffff
    } else {
        v as i32
    }
}

/// Moves every agent along its heading at the speed of its species for the
/// time `dt`. A coordinate that would leave the range of coordinates stops at
/// its end.
pub fn move_agents(agents: &mut AgentStore, table: &FactorInfo, dt: u32)
    requires
        all_valid(old(agents)@, table.factors@),
    ensures
        final(agents)@ == moved(old(agents)@, table.factors@, dt),
        same_but_positions(old(agents)@, final(agents)@),
        all_valid(final(agents)@, table.factors@),
{
    let n = agents.len();
    let mut id: usize = 0;
    while id < n
        invariant
            id <= n,
            n == agents@.len(),
            n == old(agents)@.len(),
            all_valid(old(agents)@, table.factors@),
            forall|k: int| id <= k < n ==> agents@[k] == old(agents)@[k],
            forall|k: int|
                0 <= k < id ==> #[trigger] agents@[k] == (match old(agents)@[k] {
                    Some(a) => Some(moved_agent(a, table.factors@, dt)),
                    None => None,
                }),
        decreases n - id,
    {
        match agents.get(id) {
            Some(a) => {
                assert(live(old(agents)@, id as int));
                let speed = table.get(a.species).speed;
                let position = Vec2 {
                    x: advance(a.position.x, a.heading.x, speed, dt),
                    y: advance(a.position.y, a.heading.y, speed, dt),
                };
                agents.replace(id, Agent { position, ..a });
            },
            None => {},
        }
        id = id + 1;
    }
}

/// A coordinate after the wrap: past the border on one side it is set down
/// `WRAP_MARGIN` inside the border on the other side.
pub open spec fn wrapped_coordinate(c: int, extent: int) -> int {
    if c > extent {
        -extent + WRAP_MARGIN
    } else if c < -extent {
        extent - WRAP_MARGIN
    } else {
        c
    }
}

/// A position after the wrap in a world of the given width and height, centred
/// on the origin.
pub open spec fn wrapped(position: Vec2, width: i32, height: i32) -> Vec2 {
    Vec2 {
        x: wrapped_coordinate(position.x as int, width as int / 2) as i32,
        y: wrapped_coordinate(position.y as int, height as int / 2) as i32,
    }
}

/// The agents after the wrap.
pub open spec fn wrapped_all(agents: Seq<Option<Agent>>, width: i32, height: i32) -> Seq<
    Option<Agent>,
> {
    Seq::new(
        agents.len(),
        |id: int|
            match agents[id] {
                Some(a) => Some(Agent { position: wrapped(a.position, width, height), ..a }),
                None => None,
            },
    )
}

/// Whether a position lies in a world of the given width and height, borders
/// included.
pub open spec fn contained(position: Vec2, width: i32, height: i32) -> bool {
    &&& -(width as int / 2) <= position.x <= width as int / 2
    &&& -(height as int / 2) <= position.y <= height as int / 2
}

/// One coordinate of the wrap.
pub fn wrap_coordinate(c: i32, extent: i32) -> (r: i32)
    requires
        extent >= 0,
    ensures
        r == wrapped_coordinate(c as int, extent as int),
{
    if c > extent {
        -extent + WRAP_MARGIN
    } else if c < -extent {
        extent - WRAP_MARGIN
    } else {
        c
    }
}

/// Boundary containment: in a world that is at least `WRAP_MARGIN` wide, a
/// wrapped coordinate lies between the borders.
pub proof fn lemma_wrap_contains(c: int, size: int)
    requires
        size >= WRAP_MARGIN,
    ensures
        -(size / 2) <= wrapped_coordinate(c, size / 2) <= size / 2,
{
}

/// Wraps every agent at the borders of a world of the given width and height,
/// centred on the origin. Where both are at least `WRAP_MARGIN`, every agent
/// lies in the world afterwards.
pub fn wrap_borders(agents: &mut AgentStore, width: i32, height: i32)
    requires
        width >= 0,
        height >= 0,
    ensures
        final(agents)@ == wrapped_all(old(agents)@, width, height),
        same_but_positions(old(agents)@, final(agents)@),
        width >= WRAP_MARGIN && height >= WRAP_MARGIN ==> forall|id: int| #[trigger]
            live(final(agents)@, id) ==> contained(
                final(agents)@[id].unwrap().position,
                width,
                height,
            ),
{
    let n = agents.len();
    let extent_x = width / 2;
    let extent_y = height / 2;
    let mut id: usize = 0;
    while id < n
        invariant
            id <= n,
            n == agents@.len(),
            n == old(agents)@.len(),
            extent_x == width as int / 2,
            extent_y == height as int / 2,
            extent_x >= 0,
            extent_y >= 0,
            forall|k: int| id <= k < n ==> agents@[k] == old(agents)@[k],
            forall|k: int|
                0 <= k < id ==> #[trigger] agents@[k] == (match old(agents)@[k] {
                    Some(a) => Some(Agent { position: wrapped(a.position, width, height), ..a }),
                    None => None,
                }),
        decreases n - id,
    {
        match agents.get(id) {
            Some(a) => {
                let position = Vec2 {
                    x: wrap_coordinate(a.position.x, extent_x),
                    y: wrap_coordinate(a.position.y, extent_y),
                };
                agents.replace(id, Agent { position, ..a });
            },
            None => {},
        }
        id = id + 1;
    }
}

/// The intents of agent `id`, in their order.
pub open spec fn intents_for(intents: Seq<ForceIntent>, id: AgentId) -> Seq<ForceIntent>
    decreases intents.len(),
{
    if intents.len() == 0 {
        Seq::empty()
    } else if intents.last().agent == id {
        intents_for(intents.drop_last(), id).push(intents.last())
    } else {
        intents_for(intents.drop_last(), id)
    }
}

/// An agent after it has steered by each of the intents, in their order.
pub open spec fn steered_by(a: Agent, intents: Seq<ForceIntent>, dt: u32) -> Agent
    decreases intents.len(),
{
    if intents.len() == 0 {
        a
    } else {
        let before = steered_by(a, intents.drop_last(), dt);
        Agent {
            heading: steered(
                before.heading,
                intents.last().direction,
                blend_factor(intents.last().weight, dt),
            ),
            ..before
        }
    }
}

/// Applying the intents leaves every slot as its own intents leave it: an
/// agent steers by the intents that name it, in their order, and by no others.
pub proof fn lemma_applied_by_agent(agents: Seq<Option<Agent>>, intents: Seq<ForceIntent>, dt: u32)
    requires
        agents.len() <= usize::MAX,
    ensures
        applied(agents, intents, dt).len() == agents.len(),
        forall|id: int|
            0 <= id < agents.len() ==> #[trigger] applied(agents, intents, dt)[id]
                == (match agents[id] {
                Some(a) => Some(steered_by(a, intents_for(intents, id as usize), dt)),
                None => None,
            }),
    decreases intents.len(),
{
    if intents.len() > 0 {
        let front = intents.drop_last();
        let last = intents.last();
        lemma_applied_by_agent(agents, front, dt);
        let before = applied(agents, front, dt);
        assert forall|id: int| 0 <= id < agents.len() implies #[trigger] applied(
            agents,
            intents,
            dt,
        )[id] == (match agents[id] {
            Some(a) => Some(steered_by(a, intents_for(intents, id as usize), dt)),
            None => None,
        }) by {
            assert(before[id] == (match agents[id] {
                Some(a) => Some(steered_by(a, intents_for(front, id as usize), dt)),
                None => None,
            }));
            if last.agent == id as usize {
                let mine = intents_for(front, id as usize);
                assert(intents_for(intents, id as usize) == mine.push(last));
                assert(mine.push(last).drop_last() =~= mine);
                assert(mine.push(last).last() == last);
            }
        }
    }
}

/// How the intents of different agents interleave does not matter: two queues
/// that hold, for every agent, the same intents in the same order leave the
/// agents the same. Only the order among the intents of one agent counts.
pub proof fn lemma_interleaving_is_free(
    agents: Seq<Option<Agent>>,
    first: Seq<ForceIntent>,
    second: Seq<ForceIntent>,
    dt: u32,
)
    requires
        agents.len() <= usize::MAX,
        forall|id: AgentId| #[trigger] intents_for(first, id) == intents_for(second, id),
    ensures
        applied(agents, first, dt) == applied(agents, second, dt),
{
    lemma_applied_by_agent(agents, first, dt);
    lemma_applied_by_agent(agents, second, dt);
    assert forall|id: int| 0 <= id < agents.len() implies applied(agents, first, dt)[id]
        == applied(agents, second, dt)[id] by {
        assert(intents_for(first, id as usize) == intents_for(second, id as usize));
    }
    assert(applied(agents, first, dt) =~= applied(agents, second, dt));
}

} // verus!
