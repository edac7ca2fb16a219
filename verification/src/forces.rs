//! The steering scan: what one agent's neighbours make it want to do.
//!
//! One pass over the candidates that the spatial index hands out serves every
//! feature. Flock mates are gathered for cohesion, alignment and separation,
//! the nearest prey is tracked for the chase, and crowding and threats answer
//! at once with an intent to move away. A direction of length zero gives no
//! intent.

use vstd::prelude::*;
use vstd::arithmetic::div_mod::lemma_fundamental_div_mod;
use crate::agents::all_valid;
use crate::agents::live;
use crate::agents::Agent;
use crate::agents::AgentStore;
use crate::fixed::dist2;
use crate::fixed::distance_squared;
use crate::fixed::is_within;
use crate::fixed::is_within_half;
use crate::fixed::normalize_wide;
use crate::fixed::normalized_wide;
use crate::fixed::within;
use crate::fixed::within_half;
use crate::fixed::Vec2;
use crate::grid::is_answer;
use crate::grid::AgentId;
use crate::grid::HashGrid;
use crate::lifecycle::index_current;
use crate::lifecycle::lemma_current_index_finds;
use crate::tables::Cell;
use crate::species::FactorInfo;
use crate::species::Factors;
use crate::species::Features;

verus! {

/// A wish of one agent to turn toward a direction, with the weight of the wish.
#[derive(Clone, Copy, Debug, PartialEq, Eq, Structural)]
pub struct ForceIntent {
    pub agent: AgentId,
    pub direction: Vec2,
    pub weight: i32,
}

/// What is gathered from flock mates.
#[derive(Clone, Copy, Debug, PartialEq, Eq, Structural)]
pub enum Gather {
    /// The positions of the mates within the vision radius.
    Positions,
    /// The headings of the mates within the vision radius.
    Headings,
    /// The positions of the mates within half the vision radius.
    ClosePositions,
}

/// The agent behind a candidate: none for the scanning agent itself and for an
/// identifier that names no live agent.
pub open spec fn neighbour(agents: Seq<Option<Agent>>, id: AgentId, candidate: AgentId) -> Option<
    Agent,
> {
    if candidate != id && live(agents, candidate as int) {
        agents[candidate as int]
    } else {
        None
    }
}

/// `b` is of the species of `a` and within its vision radius.
pub open spec fn flock_mate(a: Agent, fa: Factors, b: Agent) -> bool {
    b.species == a.species && within(a.position, b.position, fa.vision as int)
}

/// `b` is of the species of `a` and within half its vision radius.
pub open spec fn close_mate(a: Agent, fa: Factors, b: Agent) -> bool {
    b.species == a.species && within_half(a.position, b.position, fa.vision as int)
}

/// `b`, of whatever species, is within twice the size of `a`.
pub open spec fn crowds(a: Agent, fa: Factors, b: Agent) -> bool {
    within(a.position, b.position, 2 * fa.size)
}

/// `a` hunts the species of `b`, and `b` is within its vision radius.
pub open spec fn is_target(a: Agent, fa: Factors, b: Agent) -> bool {
    fa.hunts(b.species) && within(a.position, b.position, fa.vision as int)
}

/// The species of `b` hunts that of `a`, and `b` is within the vision radius of
/// `a`.
pub open spec fn is_threat(a: Agent, fa: Factors, b: Agent, fb: Factors) -> bool {
    fb.hunts(a.species) && within(a.position, b.position, fa.vision as int)
}

/// What `b` adds to a gathering of `a`, if anything.
pub open spec fn gathered(kind: Gather, a: Agent, fa: Factors, b: Agent) -> Option<Vec2> {
    match kind {
        Gather::Positions => if flock_mate(a, fa, b) {
            Some(b.position)
        } else {
            None
        },
        Gather::Headings => if flock_mate(a, fa, b) {
            Some(b.heading)
        } else {
            None
        },
        Gather::ClosePositions => if close_mate(a, fa, b) {
            Some(b.position)
        } else {
            None
        },
    }
}

/// A tally after one more candidate.
pub open spec fn stepped(t: (int, int, int), v: Option<Vec2>) -> (int, int, int) {
    match v {
        Some(v) => (t.0 + v.x, t.1 + v.y, t.2 + 1),
        None => t,
    }
}

/// A tally after it has taken in the candidate.
pub open spec fn counted(
    agents: Seq<Option<Agent>>,
    table: Seq<Factors>,
    id: AgentId,
    t: (int, int, int),
    candidate: AgentId,
    kind: Gather,
) -> (int, int, int) {
    let a = agents[id as int].unwrap();
    match neighbour(agents, id, candidate) {
        Some(b) => stepped(t, gathered(kind, a, table[a.species.0 as int], b)),
        None => t,
    }
}

/// The sum of what the candidates add to a gathering, by component, and the
/// number of candidates that add to it.
pub open spec fn tally(
    agents: Seq<Option<Agent>>,
    table: Seq<Factors>,
    id: AgentId,
    candidates: Seq<AgentId>,
    kind: Gather,
) -> (int, int, int)
    decreases candidates.len(),
{
    if candidates.len() == 0 {
        (0, 0, 0)
    } else {
        counted(
            agents,
            table,
            id,
            tally(agents, table, id, candidates.drop_last(), kind),
            candidates.last(),
            kind,
        )
    }
}

/// An intent of agent `id` along `(x, y)`; none where that is the zero vector.
pub open spec fn intent_along(id: AgentId, x: int, y: int, weight: i32) -> Seq<ForceIntent> {
    match normalized_wide(x, y) {
        Some(direction) => seq![ForceIntent { agent: id, direction, weight }],
        None => Seq::empty(),
    }
}

/// What agent `a` answers to neighbour `b` at once: away from it where it
/// crowds, then away from it where it is a threat.
pub open spec fn reaction(
    features: Features,
    id: AgentId,
    a: Agent,
    fa: Factors,
    b: Agent,
    fb: Factors,
) -> Seq<ForceIntent> {
    let away_x = a.position.x - b.position.x;
    let away_y = a.position.y - b.position.y;
    (if features.flocking && crowds(a, fa, b) {
        intent_along(id, away_x, away_y, fa.collision_avoidance)
    } else {
        Seq::empty()
    }) + (if features.running && is_threat(a, fa, b, fb) {
        intent_along(id, away_x, away_y, fa.scare)
    } else {
        Seq::empty()
    })
}

/// The answers to all candidates, in their order.
pub open spec fn reactions(
    agents: Seq<Option<Agent>>,
    table: Seq<Factors>,
    features: Features,
    id: AgentId,
    candidates: Seq<AgentId>,
) -> Seq<ForceIntent>
    decreases candidates.len(),
{
    if candidates.len() == 0 {
        Seq::empty()
    } else {
        let rest = reactions(agents, table, features, id, candidates.drop_last());
        let a = agents[id as int].unwrap();
        match neighbour(agents, id, candidates.last()) {
            Some(b) => rest + reaction(
                features,
                id,
                a,
                table[a.species.0 as int],
                b,
                table[b.species.0 as int],
            ),
            None => rest,
        }
    }
}

/// The candidate is a live agent other than agent `id` and a target of its
/// chase.
pub open spec fn targeted(
    agents: Seq<Option<Agent>>,
    table: Seq<Factors>,
    id: AgentId,
    candidate: AgentId,
) -> bool {
    let a = agents[id as int].unwrap();
    match neighbour(agents, id, candidate) {
        Some(b) => is_target(a, table[a.species.0 as int], b),
        None => false,
    }
}

/// The position of the nearest target among the candidates; of several at one
/// distance, the first.
pub open spec fn nearest_target(
    agents: Seq<Option<Agent>>,
    table: Seq<Factors>,
    id: AgentId,
    candidates: Seq<AgentId>,
) -> Option<Vec2>
    decreases candidates.len(),
{
    if candidates.len() == 0 {
        None
    } else {
        let rest = nearest_target(agents, table, id, candidates.drop_last());
        let a = agents[id as int].unwrap();
        match neighbour(agents, id, candidates.last()) {
            Some(b) => if is_target(a, table[a.species.0 as int], b) {
                match rest {
                    Some(p) => if dist2(a.position, b.position) < dist2(a.position, p) {
                        Some(b.position)
                    } else {
                        rest
                    },
                    None => Some(b.position),
                }
            } else {
                rest
            },
            None => rest,
        }
    }
}

/// Cohesion and alignment, where there are flock mates. Cohesion points from
/// the agent to the mean position of its mates, alignment along their mean
/// heading. A direction is that of the mean times the count, so that no mean
/// is rounded: it is taken along the sum of the vectors, less the agent's
/// position as often as there are vectors.
pub open spec fn flock_intents(
    features: Features,
    id: AgentId,
    a: Agent,
    fa: Factors,
    positions: (int, int, int),
    headings: (int, int, int),
) -> Seq<ForceIntent> {
    if features.flocking && positions.2 > 0 {
        intent_along(
            id,
            positions.0 - positions.2 * a.position.x,
            positions.1 - positions.2 * a.position.y,
            fa.cohesion,
        ) + intent_along(id, headings.0, headings.1, fa.alignment)
    } else {
        Seq::empty()
    }
}

/// Separation, where some flock mates are close: from their mean position to
/// the agent, taken along the agent's position as often as there are close
/// mates, less the sum of their positions.
pub open spec fn separation_intents(
    features: Features,
    id: AgentId,
    a: Agent,
    fa: Factors,
    close: (int, int, int),
) -> Seq<ForceIntent> {
    if features.flocking && close.2 > 0 {
        intent_along(
            id,
            close.2 * a.position.x - close.0,
            close.2 * a.position.y - close.1,
            fa.separation,
        )
    } else {
        Seq::empty()
    }
}

/// The chase, where there is a target: from the agent to the target.
pub open spec fn chase_intents(
    features: Features,
    id: AgentId,
    a: Agent,
    fa: Factors,
    target: Option<Vec2>,
) -> Seq<ForceIntent> {
    match target {
        Some(p) => if features.chasing {
            intent_along(id, p.x - a.position.x, p.y - a.position.y, fa.chase)
        } else {
            Seq::empty()
        },
        None => Seq::empty(),
    }
}

/// The intents that close a scan with the given gatherings and target:
/// cohesion and alignment, then separation, then the chase.
pub open spec fn closing(
    features: Features,
    id: AgentId,
    a: Agent,
    fa: Factors,
    positions: (int, int, int),
    headings: (int, int, int),
    close: (int, int, int),
    target: Option<Vec2>,
) -> Seq<ForceIntent> {
    flock_intents(features, id, a, fa, positions, headings) + separation_intents(
        features,
        id,
        a,
        fa,
        close,
    ) + chase_intents(features, id, a, fa, target)
}

/// The intents that close the scan of the candidates.
pub open spec fn conclusions(
    agents: Seq<Option<Agent>>,
    table: Seq<Factors>,
    features: Features,
    id: AgentId,
    candidates: Seq<AgentId>,
) -> Seq<ForceIntent> {
    let a = agents[id as int].unwrap();
    closing(
        features,
        id,
        a,
        table[a.species.0 as int],
        tally(agents, table, id, candidates, Gather::Positions),
        tally(agents, table, id, candidates, Gather::Headings),
        tally(agents, table, id, candidates, Gather::ClosePositions),
        nearest_target(agents, table, id, candidates),
    )
}

/// All intents of agent `id` for the candidates given: its answers to each, in
/// their order, then the conclusions of the scan.
pub open spec fn steering(
    agents: Seq<Option<Agent>>,
    table: Seq<Factors>,
    features: Features,
    id: AgentId,
    candidates: Seq<AgentId>,
) -> Seq<ForceIntent> {
    reactions(agents, table, features, id, candidates) + conclusions(
        agents,
        table,
        features,
        id,
        candidates,
    )
}

/// Every intent belongs to agent `id` and has a direction of length `UNIT` up to
/// rounding.
pub open spec fn intents_of(intents: Seq<ForceIntent>, id: AgentId) -> bool {
    forall|k: int|
        0 <= k < intents.len() ==> (#[trigger] intents[k]).agent == id
            && intents[k].direction.is_unit()
}

/// A running sum of vectors.
struct Sum {
    x: i128,
    y: i128,
    count: usize,
}

impl Sum {
    /// The sum is that of `count` vectors with 32-bit components.
    spec fn bounded(self) -> bool {
        &&& -0x8000_0000 * self.count <= self.x <= 0x7fff_ffff * self.count
        &&& -0x8000_0000 * self.count <= self.y <= 0x7fff_ffff * self.count
    }

    /// The sum by component, and the number of vectors in it.
    spec fn as_tally(self) -> (int, int, int) {
        (self.x as int, self.y as int, self.count as int)
    }

    /// The sum of no vectors.
    fn zero() -> (s: Sum)
        ensures
            s.bounded(),
            s.as_tally() == (0int, 0int, 0int),
    {
        Sum { x: 0, y: 0, count: 0 }
    }

    /// Adds one vector.
    fn take_in(&mut self, v: Vec2)
        requires
            old(self).bounded(),
            old(self).count < usize::MAX,
        ensures
            final(self).bounded(),
            final(self).as_tally() == (
                old(self).x + v.x,
                old(self).y + v.y,
                old(self).count + 1,
            ),
    {
        self.x = self.x + v.x as i128;
        self.y = self.y + v.y as i128;
        self.count = self.count + 1;
    }

    /// The sum less `p` as often as there are vectors in it: the way from `p`
    /// to the mean of the vectors, times their number.
    fn less(&self, p: Vec2) -> (v: (i128, i128))
        requires
            self.bounded(),
        ensures
            v.0 == self.x - self.count * p.x,
            v.1 == self.y - self.count * p.y,
            -0x1_0000_0000 * self.count <= v.0 <= 0x1_0000_0000 * self.count,
            -0x1_0000_0000 * self.count <= v.1 <= 0x1_0000_0000 * self.count,
    {
        let n: i128 = self.count as i128;
        assert(-0x8000_0000 * n <= n * p.x <= 0x7fff_ffff * n && -0x8000_0000 * n <= n * p.y
            <= 0x7fff_ffff * n && 0 <= 0x1_0000_0000 * n <= 0x1_0000_0000
            * 0x1_0000_0000_0000_0000) by (nonlinear_arith)
            requires
                0 <= n <= 0x1_0000_0000_0000_0000,
                -0x8000_0000 <= p.x <= 0x7fff_ffff,
                -0x8000_0000 <= p.y <= 0x7fff_ffff,
        ;
        (self.x - n * (p.x as i128), self.y - n * (p.y as i128))
    }
}

/// The sum of as many vectors as a list can hold fits the arithmetic of
/// `normalize_wide`.
proof fn lemma_sum_fits(count: int)
    requires
        0 <= count <= usize::MAX,
    ensures
        0x1_0000_0000 * count <= 0x1_0000_0000_0000_0000_0000_0000,
{
}

/// Appends to `intents` the intent of agent `id` along `(x, y)`, if that is not
/// the zero vector.
fn push_intent(intents: &mut Vec<ForceIntent>, id: AgentId, x: i128, y: i128, weight: i32)
    requires
        -0x1_0000_0000_0000_0000_0000_0000 <= x <= 0x1_0000_0000_0000_0000_0000_0000,
        -0x1_0000_0000_0000_0000_0000_0000 <= y <= 0x1_0000_0000_0000_0000_0000_0000,
    ensures
        final(intents)@ == old(intents)@ + intent_along(id, x as int, y as int, weight),
        intents_of(old(intents)@, id) ==> intents_of(final(intents)@, id),
{
    match normalize_wide(x, y) {
        Some(direction) => {
            intents.push(ForceIntent { agent: id, direction, weight });
        },
        None => {},
    }
}

/// The state of one agent's scan.
struct Scan {
    positions: Sum,
    headings: Sum,
    close: Sum,
    target: Option<(u128, Vec2)>,
    intents: Vec<ForceIntent>,
}

impl Scan {
    /// The state is that of agent `id` after it has scanned `seen`.
    spec fn after(
        self,
        agents: Seq<Option<Agent>>,
        table: Seq<Factors>,
        features: Features,
        id: AgentId,
        seen: Seq<AgentId>,
    ) -> bool {
        let a = agents[id as int].unwrap();
        &&& self.positions.bounded()
        &&& self.headings.bounded()
        &&& self.close.bounded()
        &&& self.positions.count <= seen.len()
        &&& self.close.count <= seen.len()
        &&& self.headings.count == self.positions.count
        &&& self.positions.as_tally() == tally(agents, table, id, seen, Gather::Positions)
        &&& self.headings.as_tally() == tally(agents, table, id, seen, Gather::Headings)
        &&& self.close.as_tally() == tally(agents, table, id, seen, Gather::ClosePositions)
        &&& self.intents@ == reactions(agents, table, features, id, seen)
        &&& intents_of(self.intents@, id)
        &&& match self.target {
            Some((d, p)) => nearest_target(agents, table, id, seen) == Some(p) && d == dist2(
                a.position,
                p,
            ),
            None => nearest_target(agents, table, id, seen) is None,
        }
    }

    /// Takes neighbour `b` into the gatherings.
    fn gather(&mut self, a: Agent, fa: &Factors, b: Agent)
        requires
            old(self).positions.bounded(),
            old(self).headings.bounded(),
            old(self).close.bounded(),
            old(self).positions.count < usize::MAX,
            old(self).headings.count < usize::MAX,
            old(self).close.count < usize::MAX,
        ensures
            final(self).positions.bounded(),
            final(self).headings.bounded(),
            final(self).close.bounded(),
            final(self).target == old(self).target,
            final(self).intents == old(self).intents,
            final(self).positions.as_tally() == stepped(
                old(self).positions.as_tally(),
                gathered(Gather::Positions, a, *fa, b),
            ),
            final(self).headings.as_tally() == stepped(
                old(self).headings.as_tally(),
                gathered(Gather::Headings, a, *fa, b),
            ),
            final(self).close.as_tally() == stepped(
                old(self).close.as_tally(),
                gathered(Gather::ClosePositions, a, *fa, b),
            ),
    {
        if b.species.0 == a.species.0 {
            if is_within(a.position, b.position, fa.vision as i64) {
                self.positions.take_in(b.position);
                self.headings.take_in(b.heading);
            }
            if is_within_half(a.position, b.position, fa.vision as i64) {
                self.close.take_in(b.position);
            }
        }
    }

    /// Tracks neighbour `b` as the target of the chase where it is one and is
    /// nearer than the target so far.
    fn track(&mut self, a: Agent, fa: &Factors, b: Agent)
        requires
            old(self).target matches Some((d, p)) ==> d == dist2(a.position, p),
        ensures
            final(self).positions == old(self).positions,
            final(self).headings == old(self).headings,
            final(self).close == old(self).close,
            final(self).intents == old(self).intents,
            final(self).target matches Some((d, p)) ==> d == dist2(a.position, p),
            tracked_position(final(self).target) == (if is_target(a, *fa, b) {
                match tracked_position(old(self).target) {
                    Some(p) => if dist2(a.position, b.position) < dist2(a.position, p) {
                        Some(b.position)
                    } else {
                        Some(p)
                    },
                    None => Some(b.position),
                }
            } else {
                tracked_position(old(self).target)
            }),
    {
        if is_within(a.position, b.position, fa.vision as i64) && fa.preys_on(b.species) {
            let d: u128 = distance_squared(a.position, b.position);
            self.target = match self.target {
                None => Some((d, b.position)),
                Some((old_d, old_p)) => if d < old_d {
                    Some((d, b.position))
                } else {
                    Some((old_d, old_p))
                },
            };
        }
    }

    /// Answers neighbour `b` at once where it crowds or threatens.
    fn react(&mut self, features: &Features, id: AgentId, a: Agent, fa: &Factors, b: Agent, fb: &Factors)
        ensures
            final(self).positions == old(self).positions,
            final(self).headings == old(self).headings,
            final(self).close == old(self).close,
            final(self).target == old(self).target,
            final(self).intents@ == old(self).intents@ + reaction(*features, id, a, *fa, b, *fb),
            intents_of(old(self).intents@, id) ==> intents_of(final(self).intents@, id),
    {
        let away_x: i128 = a.position.x as i128 - b.position.x as i128;
        let away_y: i128 = a.position.y as i128 - b.position.y as i128;
        if features.flocking && is_within(a.position, b.position, 2 * (fa.size as i64)) {
            push_intent(&mut self.intents, id, away_x, away_y, fa.collision_avoidance);
        }
        if features.running && is_within(a.position, b.position, fa.vision as i64) && fb.preys_on(
            a.species,
        ) {
            push_intent(&mut self.intents, id, away_x, away_y, fa.scare);
        }
    }

    /// Closes the scan: the answers given so far, then the conclusions.
    fn conclude(self, features: &Features, id: AgentId, a: Agent, fa: &Factors) -> (intents: Vec<
        ForceIntent,
    >)
        requires
            self.positions.bounded(),
            self.headings.bounded(),
            self.close.bounded(),
            self.headings.count == self.positions.count,
            intents_of(self.intents@, id),
        ensures
            intents@ == self.intents@ + closing(
                *features,
                id,
                a,
                *fa,
                self.positions.as_tally(),
                self.headings.as_tally(),
                self.close.as_tally(),
                tracked_position(self.target),
            ),
            intents_of(intents@, id),
    {
        let mut intents = self.intents;
        let ghost start = intents@;
        proof {
            lemma_sum_fits(self.positions.count as int);
            lemma_sum_fits(self.close.count as int);
        }
        if features.flocking && self.positions.count > 0 {
            let toward = self.positions.less(a.position);
            push_intent(&mut intents, id, toward.0, toward.1, fa.cohesion);
            push_intent(&mut intents, id, self.headings.x, self.headings.y, fa.alignment);
        }
        let ghost flock = flock_intents(
            *features,
            id,
            a,
            *fa,
            self.positions.as_tally(),
            self.headings.as_tally(),
        );
        assert(intents@ =~= start + flock);
        if features.flocking && self.close.count > 0 {
            let toward = self.close.less(a.position);
            push_intent(&mut intents, id, -toward.0, -toward.1, fa.separation);
        }
        let ghost apart = separation_intents(*features, id, a, *fa, self.close.as_tally());
        assert(intents@ =~= start + flock + apart);
        match self.target {
            Some((_, p)) => {
                if features.chasing {
                    push_intent(
                        &mut intents,
                        id,
                        p.x as i128 - a.position.x as i128,
                        p.y as i128 - a.position.y as i128,
                        fa.chase,
                    );
                }
            },
            None => {},
        }
        let ghost chase = chase_intents(*features, id, a, *fa, tracked_position(self.target));
        assert(intents@ =~= start + flock + apart + chase);
        assert(start + flock + apart + chase =~= start + (flock + apart + chase));
        intents
    }
}

/// The position of a tracked target.
spec fn tracked_position(target: Option<(u128, Vec2)>) -> Option<Vec2> {
    match target {
        Some((_, p)) => Some(p),
        None => None,
    }
}

/// The steering intents of agent `id`, given the candidates that the spatial
/// index returned for it. Candidates that name the agent itself or no live
/// agent are passed over.
pub fn scan_agent(
    agents: &AgentStore,
    table: &FactorInfo,
    features: &Features,
    id: AgentId,
    candidates: &Vec<AgentId>,
) -> (intents: Vec<ForceIntent>)
    requires
        live(agents@, id as int),
        all_valid(agents@, table.factors@),
    ensures
        intents@ == steering(agents@, table.factors@, *features, id, candidates@),
        intents_of(intents@, id),
{
    let a: Agent = agents.slots[id].unwrap();
    let fa: &Factors = table.get(a.species);
    let mut scan = Scan {
        positions: Sum::zero(),
        headings: Sum::zero(),
        close: Sum::zero(),
        target: None,
        intents: Vec::new(),
    };
    let mut i: usize = 0;
    while i < candidates.len()
        invariant
            i <= candidates.len(),
            live(agents@, id as int),
            all_valid(agents@, table.factors@),
            a == agents@[id as int].unwrap(),
            *fa == table.factors@[a.species.0 as int],
            scan.after(agents@, table.factors@, *features, id, candidates@.take(i as int)),
        decreases candidates.len() - i,
    {
        let candidate = candidates[i];
        proof {
            assert(candidates@.take(i + 1).drop_last() =~= candidates@.take(i as int));
        }
        let found: Option<Agent> = if candidate != id {
            agents.get(candidate)
        } else {
            None
        };
        match found {
            Some(b) => {
                let fb: &Factors = table.get(b.species);
                scan.gather(a, fa, b);
                scan.track(a, fa, b);
                scan.react(features, id, a, fa, b, fb);
            },
            None => {},
        }
        i = i + 1;
    }
    assert(candidates@.take(i as int) =~= candidates@);
    scan.conclude(features, id, a, fa)
}

/// `candidates` is an answer that the spatial index may give to the query of
/// agent `id`: the agents recorded in the cells around it, each once, in some
/// order.
pub open spec fn candidates_for(
    agents: Seq<Option<Agent>>,
    table: Seq<Factors>,
    records: Map<AgentId, Cell>,
    id: int,
    candidates: Seq<AgentId>,
) -> bool {
    let a = agents[id].unwrap();
    is_answer(records, a.position, table[a.species.0 as int].vision as int, candidates)
}

/// The intents of the live agents in slots `from` up to `to`, in the order of
/// the slots, where agent `id` scans the candidates `candidates[id]`.
pub open spec fn forces(
    agents: Seq<Option<Agent>>,
    table: Seq<Factors>,
    features: Features,
    candidates: Seq<Seq<AgentId>>,
    from: int,
    to: int,
) -> Seq<ForceIntent>
    decreases to - from,
{
    if to <= from {
        Seq::empty()
    } else {
        forces(agents, table, features, candidates, from, to - 1) + (if live(agents, to - 1) {
            steering(agents, table, features, (to - 1) as usize, candidates[to - 1])
        } else {
            Seq::empty()
        })
    }
}

/// `candidates` holds, for each live agent in slots `from` up to `to`, an answer
/// that the spatial index may give to its query.
pub open spec fn answers(
    agents: Seq<Option<Agent>>,
    table: Seq<Factors>,
    records: Map<AgentId, Cell>,
    from: int,
    to: int,
    candidates: Seq<Seq<AgentId>>,
) -> bool {
    &&& candidates.len() == agents.len()
    &&& forall|id: int|
        from <= id < to && live(agents, id) ==> candidates_for(
            agents,
            table,
            records,
            id,
            #[trigger] candidates[id],
        )
}

/// `intents` are the steering intents of the live agents in slots `from` up to
/// `to`, in the order of the slots, for some answers that the spatial index may
/// give to their queries.
pub open spec fn scanned(
    agents: Seq<Option<Agent>>,
    table: Seq<Factors>,
    features: Features,
    records: Map<AgentId, Cell>,
    from: int,
    to: int,
    intents: Seq<ForceIntent>,
) -> bool {
    exists|candidates: Seq<Seq<AgentId>>|
        #[trigger] answers(agents, table, records, from, to, candidates) && intents == forces(
            agents,
            table,
            features,
            candidates,
            from,
            to,
        )
}

/// Every intent belongs to a live agent and has a direction of length `UNIT` up
/// to rounding.
pub open spec fn intents_valid(intents: Seq<ForceIntent>, agents: Seq<Option<Agent>>) -> bool {
    forall|k: int|
        0 <= k < intents.len() ==> live(agents, (#[trigger] intents[k]).agent as int)
            && intents[k].direction.is_unit()
}

/// The intents of a range of slots depend on the candidates of those slots
/// only.
proof fn lemma_forces_agree(
    agents: Seq<Option<Agent>>,
    table: Seq<Factors>,
    features: Features,
    c1: Seq<Seq<AgentId>>,
    c2: Seq<Seq<AgentId>>,
    from: int,
    to: int,
)
    requires
        forall|id: int| from <= id < to ==> c1[id] == c2[id],
    ensures
        forces(agents, table, features, c1, from, to) == forces(
            agents,
            table,
            features,
            c2,
            from,
            to,
        ),
    decreases to - from,
{
    if to > from {
        lemma_forces_agree(agents, table, features, c1, c2, from, to - 1);
    }
}

/// The intents of two adjoining ranges of slots, one after the other, are the
/// intents of the whole range: chunks that are scanned apart can be joined in
/// the order of the slots.
pub proof fn lemma_forces_join(
    agents: Seq<Option<Agent>>,
    table: Seq<Factors>,
    features: Features,
    candidates: Seq<Seq<AgentId>>,
    from: int,
    mid: int,
    to: int,
)
    requires
        from <= mid <= to,
    ensures
        forces(agents, table, features, candidates, from, mid) + forces(
            agents,
            table,
            features,
            candidates,
            mid,
            to,
        ) == forces(agents, table, features, candidates, from, to),
    decreases to - mid,
{
    if to > mid {
        lemma_forces_join(agents, table, features, candidates, from, mid, to - 1);
    }
}

/// Chunks that are scanned apart can be joined: the intents of two adjoining
/// ranges of slots, one after the other, are intents of the whole range.
pub proof fn lemma_scanned_join(
    agents: Seq<Option<Agent>>,
    table: Seq<Factors>,
    features: Features,
    records: Map<AgentId, Cell>,
    from: int,
    mid: int,
    to: int,
    first: Seq<ForceIntent>,
    second: Seq<ForceIntent>,
)
    requires
        0 <= from <= mid <= to <= agents.len(),
        scanned(agents, table, features, records, from, mid, first),
        scanned(agents, table, features, records, mid, to, second),
    ensures
        scanned(agents, table, features, records, from, to, first + second),
{
    let c1 = choose|c: Seq<Seq<AgentId>>|
        #[trigger] answers(agents, table, records, from, mid, c) && first == forces(
            agents,
            table,
            features,
            c,
            from,
            mid,
        );
    let c2 = choose|c: Seq<Seq<AgentId>>|
        #[trigger] answers(agents, table, records, mid, to, c) && second == forces(
            agents,
            table,
            features,
            c,
            mid,
            to,
        );
    let c = Seq::new(
        agents.len(),
        |k: int|
            if k < mid {
                c1[k]
            } else {
                c2[k]
            },
    );
    lemma_forces_agree(agents, table, features, c, c1, from, mid);
    lemma_forces_agree(agents, table, features, c, c2, mid, to);
    lemma_forces_join(agents, table, features, c, from, mid, to);
    assert(answers(agents, table, records, from, to, c));
}

/// The steering intents of the live agents in slots `from` up to `to`, in the
/// order of the slots. Each agent scans what the spatial index returns around
/// its position for its vision radius; the order of that answer is not fixed,
/// and the intents are those of some order.
pub fn scan_chunk(
    agents: &AgentStore,
    table: &FactorInfo,
    features: &Features,
    grid: &HashGrid,
    from: usize,
    to: usize,
) -> (intents: Vec<ForceIntent>)
    requires
        all_valid(agents@, table.factors@),
        grid.wf(),
        from <= to <= agents@.len(),
    ensures
        intents_valid(intents@, agents@),
        scanned(agents@, table.factors@, *features, grid@, from as int, to as int, intents@),
{
    let mut intents: Vec<ForceIntent> = Vec::new();
    let ghost mut chosen: Seq<Seq<AgentId>> = Seq::new(
        agents@.len(),
        |k: int| Seq::<AgentId>::empty(),
    );
    let mut id: usize = from;
    while id < to
        invariant
            from <= id <= to <= agents@.len(),
            all_valid(agents@, table.factors@),
            grid.wf(),
            chosen.len() == agents@.len(),
            intents_valid(intents@, agents@),
            forall|k: int|
                from <= k < id && live(agents@, k) ==> candidates_for(
                    agents@,
                    table.factors@,
                    grid@,
                    k,
                    #[trigger] chosen[k],
                ),
            intents@ == forces(
                agents@,
                table.factors@,
                *features,
                chosen,
                from as int,
                id as int,
            ),
        decreases to - id,
    {
        let ghost before = chosen;
        match agents.get(id) {
            Some(a) => {
                let fa = table.get(a.species);
                let candidates = grid.get_nearby_entities(a.position, fa.vision as i64);
                let mut part = scan_agent(agents, table, features, id, &candidates);
                proof {
                    chosen = chosen.update(id as int, candidates@);
                }
                intents.append(&mut part);
            },
            None => {},
        }
        proof {
            lemma_forces_agree(
                agents@,
                table.factors@,
                *features,
                before,
                chosen,
                from as int,
                id as int,
            );
        }
        id = id + 1;
    }
    assert(answers(agents@, table.factors@, grid@, from as int, to as int, chosen));
    intents
}

/// The steering intents of all live agents, in the order of their slots.
pub fn compute_forces(
    agents: &AgentStore,
    table: &FactorInfo,
    features: &Features,
    grid: &HashGrid,
) -> (intents: Vec<ForceIntent>)
    requires
        all_valid(agents@, table.factors@),
        grid.wf(),
    ensures
        intents_valid(intents@, agents@),
        scanned(
            agents@,
            table.factors@,
            *features,
            grid@,
            0,
            agents@.len() as int,
            intents@,
        ),
{
    scan_chunk(agents, table, features, grid, 0, agents.len())
}

/// The number of slots that each of `workers` workers scans, but for the last:
/// the slots divided by the workers, rounded up.
pub open spec fn chunk_size(n: int, workers: int) -> int {
    if workers <= 1 {
        n
    } else if n % workers == 0 {
        n / workers
    } else {
        n / workers + 1
    }
}

/// The end of the chunk that starts at `start`.
pub open spec fn chunk_end(start: int, size: int, n: int) -> int {
    if n - start > size {
        start + size
    } else {
        n
    }
}

/// Splits the slots `0` up to `n` into chunks for `workers` workers: ranges of
/// `chunk_size` slots each, the last one shorter where the slots run out, that
/// follow one another and cover every slot. There are at most as many chunks as
/// workers, and none is empty.
pub fn partition(n: usize, workers: usize) -> (chunks: Vec<(usize, usize)>)
    ensures
        forall|k: int|
            0 <= k < chunks@.len() ==> (#[trigger] chunks@[k]).0 == k * chunk_size(
                n as int,
                workers as int,
            ) && chunks@[k].1 == chunk_end(
                chunks@[k].0 as int,
                chunk_size(n as int, workers as int),
                n as int,
            ) && chunks@[k].0 < chunks@[k].1,
        forall|k: int| 0 < k < chunks@.len() ==> (#[trigger] chunks@[k]).0 == chunks@[k - 1].1,
        n > 0 ==> chunks@.len() > 0 && chunks@[0].0 == 0 && chunks@.last().1 == n,
        n == 0 ==> chunks@.len() == 0,
        workers > 0 ==> chunks@.len() <= workers,
{
    proof {
        if workers > 1 {
            lemma_fundamental_div_mod(n as int, workers as int);
            assert((n as int) / (workers as int) < n || n == 0) by (nonlinear_arith)
                requires
                    n == workers * ((n as int) / (workers as int)) + (n as int) % (workers as int),
                    0 <= (n as int) % (workers as int),
                    n >= 0,
                    workers > 1,
            ;
        }
    }
    let size: usize = if workers <= 1 {
        n
    } else if n % workers == 0 {
        n / workers
    } else {
        n / workers + 1
    };
    proof {
        if workers > 1 {
            assert(workers * size >= n && (n > 0 ==> size > 0)) by (nonlinear_arith)
                requires
                    n == workers * ((n as int) / (workers as int)) + (n as int) % (workers as int),
                    0 <= (n as int) % (workers as int) < workers,
                    size == (if (n as int) % (workers as int) == 0 {
                        (n as int) / (workers as int)
                    } else {
                        (n as int) / (workers as int) + 1
                    }),
                    n >= 0,
                    workers > 1,
            ;
        }
    }
    let mut chunks: Vec<(usize, usize)> = Vec::new();
    let mut start: usize = 0;
    while start < n
        invariant
            size == chunk_size(n as int, workers as int),
            n > 0 ==> size > 0,
            start <= n,
            start == n || start == chunks@.len() * size,
            chunks@.len() > 0 ==> chunks@.last().1 == start && chunks@[0].0 == 0,
            chunks@.len() == 0 ==> start == 0,
            forall|k: int|
                0 <= k < chunks@.len() ==> (#[trigger] chunks@[k]).0 == k * size && chunks@[k].1
                    == chunk_end(chunks@[k].0 as int, size as int, n as int) && chunks@[k].0
                    < chunks@[k].1,
            forall|k: int| 0 < k < chunks@.len() ==> (#[trigger] chunks@[k]).0 == chunks@[k - 1].1,
            chunks@.len() > 0 ==> (chunks@.len() - 1) * size < n,
        decreases n - start,
    {
        let end: usize = if n - start > size {
            start + size
        } else {
            n
        };
        let ghost k = chunks@.len() as int;
        assert((k + 1) * size == k * size + size && k * size < n) by (nonlinear_arith)
            requires
                start == k * size,
                start < n,
        ;
        chunks.push((start, end));
        start = end;
    }
    proof {
        let count = chunks@.len() as int;
        if workers > 1 && count > 0 {
            assert(count <= workers) by (nonlinear_arith)
                requires
                    (count - 1) * size < n,
                    workers * size >= n,
                    size > 0,
            ;
        }
        if workers == 1 && count > 1 {
            assert((count - 1) * size >= size) by (nonlinear_arith)
                requires
                    count > 1,
                    size >= 0,
            ;
        }
    }
    chunks
}

/// A tally does not depend on where a candidate stands in the list: moving the
/// candidate at `j` to the end leaves the tally as it is.
proof fn lemma_tally_moves_last(
    agents: Seq<Option<Agent>>,
    table: Seq<Factors>,
    id: AgentId,
    candidates: Seq<AgentId>,
    j: int,
    kind: Gather,
)
    requires
        0 <= j < candidates.len(),
    ensures
        tally(agents, table, id, candidates, kind) == tally(
            agents,
            table,
            id,
            candidates.remove(j).push(candidates[j]),
            kind,
        ),
    decreases candidates.len(),
{
    let moved = candidates.remove(j).push(candidates[j]);
    if j == candidates.len() - 1 {
        assert(moved =~= candidates);
    } else {
        let front = candidates.drop_last();
        let last = candidates.last();
        lemma_tally_moves_last(agents, table, id, front, j, kind);
        let inner = front.remove(j);
        let swapped = inner.push(front[j]);
        // By induction the tally of `front` is that of `inner`, then
        // `front[j]`; the tally of `moved` is that of `inner`, then `last`,
        // then `front[j]`; and the two candidates may change places.
        assert(swapped.drop_last() =~= inner);
        assert(inner.push(last).drop_last() =~= inner);
        assert(moved.drop_last() =~= inner.push(last));
        assert(tally(agents, table, id, moved, kind) == counted(
            agents,
            table,
            id,
            tally(agents, table, id, inner.push(last), kind),
            front[j],
            kind,
        ));
    }
}

/// The gatherings of a scan do not depend on the order in which the spatial
/// index hands out the candidates: two lists that hold the same candidates,
/// each as often in one as in the other, give the same tally.
pub proof fn lemma_tally_needs_no_order(
    agents: Seq<Option<Agent>>,
    table: Seq<Factors>,
    id: AgentId,
    first: Seq<AgentId>,
    second: Seq<AgentId>,
    kind: Gather,
)
    requires
        first.to_multiset() == second.to_multiset(),
    ensures
        tally(agents, table, id, first, kind) == tally(agents, table, id, second, kind),
    decreases first.len(),
{
    first.to_multiset_ensures();
    second.to_multiset_ensures();
    if first.len() > 0 {
        let x = first.last();
        let front = first.drop_last();
        assert(first =~= front.push(x));
        front.to_multiset_ensures();
        assert(first.to_multiset().count(x) > 0);
        let j = choose|j: int| 0 <= j < second.len() && second[j] == x;
        let rest = second.remove(j);
        assert(front.to_multiset() =~= first.to_multiset().remove(x));
        lemma_tally_needs_no_order(agents, table, id, front, rest, kind);
        lemma_tally_moves_last(agents, table, id, second, j, kind);
        assert(rest.push(x).drop_last() =~= rest);
    }
}

/// The conclusions of a scan depend on the order of the candidates only
/// through the target of the chase: two lists that hold the same candidates and
/// give the same target give the same conclusions.
pub proof fn lemma_conclusions_need_no_order(
    agents: Seq<Option<Agent>>,
    table: Seq<Factors>,
    features: Features,
    id: AgentId,
    first: Seq<AgentId>,
    second: Seq<AgentId>,
)
    requires
        first.to_multiset() == second.to_multiset(),
        nearest_target(agents, table, id, first) == nearest_target(agents, table, id, second),
    ensures
        conclusions(agents, table, features, id, first) == conclusions(
            agents,
            table,
            features,
            id,
            second,
        ),
{
    lemma_tally_needs_no_order(agents, table, id, first, second, Gather::Positions);
    lemma_tally_needs_no_order(agents, table, id, first, second, Gather::Headings);
    lemma_tally_needs_no_order(agents, table, id, first, second, Gather::ClosePositions);
}

/// Whatever answer the spatial index gives to a query, the gatherings of the
/// scan are the same: two answers to one query give the same tally.
pub proof fn lemma_tally_of_any_answer(
    agents: Seq<Option<Agent>>,
    table: Seq<Factors>,
    id: AgentId,
    records: Map<AgentId, Cell>,
    position: Vec2,
    radius: int,
    first: Seq<AgentId>,
    second: Seq<AgentId>,
    kind: Gather,
)
    requires
        is_answer(records, position, radius, first),
        is_answer(records, position, radius, second),
    ensures
        tally(agents, table, id, first, kind) == tally(agents, table, id, second, kind),
{
    first.to_multiset_ensures();
    second.to_multiset_ensures();
    first.lemma_multiset_has_no_duplicates();
    second.lemma_multiset_has_no_duplicates();
    assert forall|x: AgentId| first.to_multiset().count(x) == second.to_multiset().count(x) by {
        assert(second.contains(x) == second.to_set().contains(x));
    }
    assert(first.to_multiset() =~= second.to_multiset());
    lemma_tally_needs_no_order(agents, table, id, first, second, kind);
}

/// The chase goes for a nearest target: the position that `nearest_target`
/// gives is that of a target among the candidates, and no target among them is
/// nearer; it gives none exactly where no candidate is a target.
pub proof fn lemma_nearest_target_is_nearest(
    agents: Seq<Option<Agent>>,
    table: Seq<Factors>,
    id: AgentId,
    candidates: Seq<AgentId>,
)
    ensures
        forall|k: int|
            0 <= k < candidates.len() && #[trigger] targeted(agents, table, id, candidates[k])
                ==> nearest_target(agents, table, id, candidates) is Some && dist2(
                agents[id as int].unwrap().position,
                nearest_target(agents, table, id, candidates).unwrap(),
            ) <= dist2(
                agents[id as int].unwrap().position,
                agents[candidates[k] as int].unwrap().position,
            ),
        nearest_target(agents, table, id, candidates) is Some ==> exists|k: int|
            0 <= k < candidates.len() && #[trigger] targeted(agents, table, id, candidates[k])
                && agents[candidates[k] as int].unwrap().position == nearest_target(
                agents,
                table,
                id,
                candidates,
            ).unwrap(),
    decreases candidates.len(),
{
    if candidates.len() > 0 {
        let front = candidates.drop_last();
        lemma_nearest_target_is_nearest(agents, table, id, front);
        assert forall|k: int|
            0 <= k < candidates.len() && #[trigger] targeted(
                agents,
                table,
                id,
                candidates[k],
            ) implies nearest_target(agents, table, id, candidates) is Some && dist2(
            agents[id as int].unwrap().position,
            nearest_target(agents, table, id, candidates).unwrap(),
        ) <= dist2(
            agents[id as int].unwrap().position,
            agents[candidates[k] as int].unwrap().position,
        ) by {
            if k < front.len() {
                assert(front[k] == candidates[k]);
            }
        }
        if nearest_target(agents, table, id, candidates) is Some {
            if targeted(agents, table, id, candidates.last()) && agents[candidates.last() as int].unwrap().position
                == nearest_target(agents, table, id, candidates).unwrap() {
                assert(targeted(agents, table, id, candidates[candidates.len() - 1]));
            } else {
                let k = choose|k: int|
                    0 <= k < front.len() && #[trigger] targeted(agents, table, id, front[k])
                        && agents[front[k] as int].unwrap().position == nearest_target(
                        agents,
                        table,
                        id,
                        front,
                    ).unwrap();
                assert(candidates[k] == front[k]);
            }
        }
    }
}

/// Candidates that are the agent itself or no live agents add nothing to a
/// gathering.
proof fn lemma_tally_of_none(
    agents: Seq<Option<Agent>>,
    table: Seq<Factors>,
    id: AgentId,
    candidates: Seq<AgentId>,
    kind: Gather,
)
    requires
        forall|k: int|
            0 <= k < candidates.len() ==> neighbour(agents, id, #[trigger] candidates[k]) is None,
    ensures
        tally(agents, table, id, candidates, kind) == (0int, 0int, 0int),
    decreases candidates.len(),
{
    if candidates.len() > 0 {
        let front = candidates.drop_last();
        assert forall|k: int| 0 <= k < front.len() implies neighbour(
            agents,
            id,
            #[trigger] front[k],
        ) is None by {
            assert(front[k] == candidates[k]);
        }
        lemma_tally_of_none(agents, table, id, front, kind);
        assert(neighbour(agents, id, candidates[candidates.len() - 1]) is None);
    }
}

/// Where one candidate alone is a live agent other than the scanning one, the
/// gathering holds what that candidate adds.
proof fn lemma_tally_of_one(
    agents: Seq<Option<Agent>>,
    table: Seq<Factors>,
    id: AgentId,
    candidates: Seq<AgentId>,
    kind: Gather,
    other: AgentId,
)
    requires
        candidates.no_duplicates(),
        candidates.contains(other),
        forall|k: int|
            0 <= k < candidates.len() && candidates[k] != other ==> neighbour(
                agents,
                id,
                #[trigger] candidates[k],
            ) is None,
    ensures
        tally(agents, table, id, candidates, kind) == counted(
            agents,
            table,
            id,
            (0int, 0int, 0int),
            other,
            kind,
        ),
    decreases candidates.len(),
{
    let front = candidates.drop_last();
    let last = candidates.last();
    assert forall|k: int| 0 <= k < front.len() implies front[k] == candidates[k] by {}
    if last == other {
        assert forall|k: int| 0 <= k < front.len() implies neighbour(
            agents,
            id,
            #[trigger] front[k],
        ) is None by {
            assert(candidates[k] != candidates[candidates.len() - 1]);
        }
        lemma_tally_of_none(agents, table, id, front, kind);
    } else {
        let k = choose|k: int| 0 <= k < candidates.len() && candidates[k] == other;
        assert(front[k] == other);
        lemma_tally_of_one(agents, table, id, front, kind, other);
        assert(neighbour(agents, id, candidates[candidates.len() - 1]) is None);
    }
}

/// Where two candidates alone are live agents other than the scanning one, the
/// gathering holds what the two add.
proof fn lemma_tally_of_two(
    agents: Seq<Option<Agent>>,
    table: Seq<Factors>,
    id: AgentId,
    candidates: Seq<AgentId>,
    kind: Gather,
    first: AgentId,
    second: AgentId,
)
    requires
        candidates.no_duplicates(),
        first != second,
        candidates.contains(first),
        candidates.contains(second),
        forall|k: int|
            0 <= k < candidates.len() && candidates[k] != first && candidates[k] != second
                ==> neighbour(agents, id, #[trigger] candidates[k]) is None,
    ensures
        tally(agents, table, id, candidates, kind) == counted(
            agents,
            table,
            id,
            counted(agents, table, id, (0int, 0int, 0int), first, kind),
            second,
            kind,
        ),
    decreases candidates.len(),
{
    let front = candidates.drop_last();
    let last = candidates.last();
    assert forall|k: int| 0 <= k < front.len() implies front[k] == candidates[k] by {}
    if last == first || last == second {
        let left = if last == first {
            second
        } else {
            first
        };
        let k = choose|k: int| 0 <= k < candidates.len() && candidates[k] == left;
        assert(front[k] == left);
        assert forall|j: int| 0 <= j < front.len() && front[j] != left implies neighbour(
            agents,
            id,
            #[trigger] front[j],
        ) is None by {
            assert(candidates[j] != candidates[candidates.len() - 1]);
        }
        lemma_tally_of_one(agents, table, id, front, kind, left);
    } else {
        let k1 = choose|k: int| 0 <= k < candidates.len() && candidates[k] == first;
        let k2 = choose|k: int| 0 <= k < candidates.len() && candidates[k] == second;
        assert(front[k1] == first);
        assert(front[k2] == second);
        lemma_tally_of_two(agents, table, id, front, kind, first, second);
        assert(neighbour(agents, id, candidates[candidates.len() - 1]) is None);
    }
}

/// The flock of three: where three agents of one species are the only agents
/// alive, the two others lie within the vision radius of agent `id`, and the
/// index is current, the scan of `id` gathers the positions and the headings of
/// exactly the two others, whatever the spatial index answers. Its alignment
/// intent then goes along the sum of their headings and its cohesion intent to
/// the mean of their positions.
pub proof fn lemma_flock_of_three(
    records: Map<AgentId, Cell>,
    agents: Seq<Option<Agent>>,
    table: Seq<Factors>,
    id: AgentId,
    first: AgentId,
    second: AgentId,
    candidates: Seq<AgentId>,
)
    requires
        index_current(records, agents),
        all_valid(agents, table),
        live(agents, id as int),
        live(agents, first as int),
        live(agents, second as int),
        id != first,
        id != second,
        first != second,
        forall|k: int| live(agents, k) ==> k == id || k == first || k == second,
        flock_mate(
            agents[id as int].unwrap(),
            table[agents[id as int].unwrap().species.0 as int],
            agents[first as int].unwrap(),
        ),
        flock_mate(
            agents[id as int].unwrap(),
            table[agents[id as int].unwrap().species.0 as int],
            agents[second as int].unwrap(),
        ),
        candidates_for(agents, table, records, id as int, candidates),
    ensures
        tally(agents, table, id, candidates, Gather::Headings) == (
            agents[first as int].unwrap().heading.x + agents[second as int].unwrap().heading.x,
            agents[first as int].unwrap().heading.y + agents[second as int].unwrap().heading.y,
            2int,
        ),
        tally(agents, table, id, candidates, Gather::Positions) == (
            agents[first as int].unwrap().position.x + agents[second as int].unwrap().position.x,
            agents[first as int].unwrap().position.y + agents[second as int].unwrap().position.y,
            2int,
        ),
{
    let a = agents[id as int].unwrap();
    let vision = table[a.species.0 as int].vision as int;
    lemma_current_index_finds(records, agents, first, a.position, vision);
    lemma_current_index_finds(records, agents, second, a.position, vision);
    assert(candidates.to_set().contains(first));
    assert(candidates.to_set().contains(second));
    lemma_tally_of_two(agents, table, id, candidates, Gather::Headings, first, second);
    lemma_tally_of_two(agents, table, id, candidates, Gather::Positions, first, second);
}

} // verus!
