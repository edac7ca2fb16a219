//! Species: the parameters that the agents of one kind share, and the table that
//! holds them by species number.
//!
//! Speeds count thousandths of a world unit per second, lengths thousandths of a
//! world unit, steering weights thousandths, energies millionths and times
//! microseconds.

use vstd::prelude::*;
use vstd::string::StringExecFns;
use crate::tables::id_set_members;
use crate::tables::IdSet;

verus! {

/// The number of a species: its place in the species table.
#[derive(Clone, Copy, Debug, PartialEq, Eq, Hash, Structural)]
pub struct CreatureType(pub usize);

/// The character of a decimal digit.
pub open spec fn digit_char(d: int) -> char {
    if d == 0 {
        '0'
    } else if d == 1 {
        '1'
    } else if d == 2 {
        '2'
    } else if d == 3 {
        '3'
    } else if d == 4 {
        '4'
    } else if d == 5 {
        '5'
    } else if d == 6 {
        '6'
    } else if d == 7 {
        '7'
    } else if d == 8 {
        '8'
    } else {
        '9'
    }
}

/// A number in decimal digits, without leading zeros.
pub open spec fn decimal(n: nat) -> Seq<char>
    decreases n,
{
    if n < 10 {
        seq![digit_char(n as int)]
    } else {
        decimal(n / 10).push(digit_char((n % 10) as int))
    }
}

/// The name under which a species is shown: the word `Type`, a space, and its
/// number.
pub open spec fn type_label(n: nat) -> Seq<char> {
    seq!['T', 'y', 'p', 'e', ' '] + decimal(n)
}

/// A decimal digit as text.
fn digit_text(d: usize) -> (s: &'static str)
    requires
        d < 10,
    ensures
        s@ == seq![digit_char(d as int)],
{
    proof {
        reveal_strlit("0");
        reveal_strlit("1");
        reveal_strlit("2");
        reveal_strlit("3");
        reveal_strlit("4");
        reveal_strlit("5");
        reveal_strlit("6");
        reveal_strlit("7");
        reveal_strlit("8");
        reveal_strlit("9");
    }
    let s = if d == 0 {
        "0"
    } else if d == 1 {
        "1"
    } else if d == 2 {
        "2"
    } else if d == 3 {
        "3"
    } else if d == 4 {
        "4"
    } else if d == 5 {
        "5"
    } else if d == 6 {
        "6"
    } else if d == 7 {
        "7"
    } else if d == 8 {
        "8"
    } else {
        "9"
    };
    s
}

/// Appends a number in decimal digits.
fn append_decimal(text: &mut String, n: usize)
    ensures
        final(text)@ == old(text)@ + decimal(n as nat),
    decreases n,
{
    if n >= 10 {
        append_decimal(text, n / 10);
    }
    text.append(digit_text(n % 10));
}

impl CreatureType {
    /// The name under which the species is shown.
    pub fn to_string(&self) -> (s: String)
        ensures
            s@ == type_label(self.0 as nat),
    {
        proof {
            reveal_strlit("Type ");
        }
        let mut s = String::from_str("Type ");
        append_decimal(&mut s, self.0);
        s
    }
}

impl From<usize> for CreatureType {
    fn from(val: usize) -> (t: CreatureType) {
        CreatureType(val)
    }
}

impl vstd::std_specs::convert::FromSpecImpl<usize> for CreatureType {
    open spec fn obeys_from_spec() -> bool {
        true
    }

    open spec fn from_spec(val: usize) -> CreatureType {
        CreatureType(val)
    }
}

impl Default for CreatureType {
    fn default() -> (t: CreatureType)
        ensures
            t == CreatureType(0),
    {
        CreatureType(0)
    }
}

/// Which parts of a tick are switched on.
#[derive(Clone, Copy, Debug, PartialEq, Eq, Hash, Structural)]
pub struct Features {
    pub chasing: bool,
    pub running: bool,
    pub killing: bool,
    pub flocking: bool,
    pub reproduction: bool,
    pub energy_draining: bool,
}

impl Default for Features {
    /// Steering is on; predation kills, reproduction and the energy drain are
    /// off.
    fn default() -> (f: Features)
        ensures
            f == (Features {
                chasing: true,
                running: true,
                killing: false,
                flocking: true,
                reproduction: false,
                energy_draining: false,
            }),
    {
        Features {
            chasing: true,
            running: true,
            flocking: true,
            killing: false,
            reproduction: false,
            energy_draining: false,
        }
    }
}

/// Whether the simulation advances.
#[derive(Clone, Copy, Debug, PartialEq, Eq, Hash, Structural)]
pub enum SimState {
    Running,
    Paused,
}

impl Default for SimState {
    fn default() -> (s: SimState)
        ensures
            s == SimState::Running,
    {
        SimState::Running
    }
}

impl SimState {
    /// The other state.
    pub open spec fn flipped(self) -> SimState {
        match self {
            SimState::Running => SimState::Paused,
            SimState::Paused => SimState::Running,
        }
    }

    /// The state after the pause key was pressed.
    pub fn toggled(self) -> (s: SimState)
        ensures
            s == self.flipped(),
    {
        match self {
            SimState::Running => SimState::Paused,
            SimState::Paused => SimState::Running,
        }
    }
}

/// How many agents a spawn command places, and how far from its centre.
#[derive(Clone, Copy, Debug, PartialEq, Eq, Structural)]
pub struct SpawnProperties {
    pub amount: usize,
    pub radius: i32,
}

impl Default for SpawnProperties {
    fn default() -> (p: SpawnProperties)
        ensures
            p == (SpawnProperties { amount: 10, radius: 10_000 }),
    {
        SpawnProperties { amount: 10, radius: 10_000 }
    }
}

/// How far from its centre a despawn command reaches.
#[derive(Clone, Copy, Debug, PartialEq, Eq, Structural)]
pub struct DespawnProperties {
    pub radius: i32,
}

impl Default for DespawnProperties {
    fn default() -> (p: DespawnProperties)
        ensures
            p == (DespawnProperties { radius: 100_000 }),
    {
        DespawnProperties { radius: 100_000 }
    }
}

/// The colour in which a species is drawn. No rule of the simulation reads it.
#[derive(Clone, Copy, Debug, PartialEq, Eq, Structural)]
pub struct Color {
    pub r: u8,
    pub g: u8,
    pub b: u8,
}

/// The parameters of one species.
#[derive(Debug)]
pub struct Factors {
    pub color: Color,
    pub speed: i32,
    pub vision: i32,
    pub size: i32,
    pub cohesion: i32,
    pub separation: i32,
    pub alignment: i32,
    pub collision_avoidance: i32,
    pub scare: i32,
    pub chase: i32,
    pub max_energy: i64,
    pub fertility_cooldown: i64,
    pub predator_of: IdSet,
}

/// The species number of `p` once species `removed` has left the table.
pub open spec fn renumbered(p: usize, removed: usize) -> usize {
    if p > removed {
        (p - 1) as usize
    } else {
        p
    }
}

/// The place in the old table of the species that stands at `k` once species
/// `removed` has left.
pub open spec fn place_before(k: int, removed: int) -> int {
    if k < removed {
        k
    } else {
        k + 1
    }
}

/// A set of species numbers once species `removed` has left the table: it
/// leaves the set, and the numbers above it move down by one.
pub open spec fn renumbered_set(s: Set<usize>, removed: usize) -> Set<usize> {
    Set::new(
        |p: usize|
            if p < removed {
                s.contains(p)
            } else {
                p < usize::MAX && s.contains((p + 1) as usize)
            },
    )
}

impl Factors {
    /// The species that this one hunts, by number.
    pub open spec fn prey(&self) -> Set<usize> {
        id_set_members(self.predator_of)
    }

    /// Whether this species hunts species `t`.
    pub open spec fn hunts(&self, t: CreatureType) -> bool {
        self.prey().contains(t.0)
    }

    /// The two agree in everything but the species they hunt.
    pub open spec fn same_traits(&self, other: &Factors) -> bool {
        &&& self.color == other.color
        &&& self.speed == other.speed
        &&& self.vision == other.vision
        &&& self.size == other.size
        &&& self.cohesion == other.cohesion
        &&& self.separation == other.separation
        &&& self.alignment == other.alignment
        &&& self.collision_avoidance == other.collision_avoidance
        &&& self.scare == other.scare
        &&& self.chase == other.chase
        &&& self.max_energy == other.max_energy
        &&& self.fertility_cooldown == other.fertility_cooldown
    }

    /// An energy can lie between zero and the maximum.
    pub open spec fn wf(&self) -> bool {
        self.max_energy >= 0
    }

    /// Whether this species hunts species `t`.
    pub fn preys_on(&self, t: CreatureType) -> (b: bool)
        ensures
            b == self.hunts(t),
    {
        self.predator_of.contains(t.0)
    }

    /// Makes this species hunt species `t`, or stop hunting it.
    pub fn set_predator(&mut self, t: CreatureType, on: bool)
        ensures
            final(self).same_traits(old(self)),
            final(self).prey() == (if on {
                old(self).prey().insert(t.0)
            } else {
                old(self).prey().remove(t.0)
            }),
    {
        if on {
            self.predator_of.insert(t.0);
        } else {
            self.predator_of.remove(t.0);
        }
    }

    /// The species that this one hunts, each once, in an order that is not
    /// fixed.
    pub fn prey_list(&self) -> (list: Vec<usize>)
        ensures
            list@.no_duplicates(),
            list@.to_set() == self.prey(),
    {
        self.predator_of.to_vec()
    }

    /// Renumbers the hunted species after species `removed` has left the table.
    pub fn forget_species(&mut self, removed: CreatureType)
        ensures
            final(self).same_traits(old(self)),
            final(self).prey() == renumbered_set(old(self).prey(), removed.0),
    {
        let ids = self.predator_of.to_vec();
        let mut kept = IdSet::empty();
        let mut i: usize = 0;
        while i < ids.len()
            invariant
                i <= ids.len(),
                ids@.to_set() == old(self).prey(),
                forall|p: usize|
                    id_set_members(kept).contains(p) <==> exists|j: int|
                        0 <= j < i && #[trigger] ids[j] != removed.0 && renumbered(
                            ids[j],
                            removed.0,
                        ) == p,
            decreases ids.len() - i,
        {
            let p = ids[i];
            if p > removed.0 {
                kept.insert(p - 1);
            } else if p < removed.0 {
                kept.insert(p);
            }
            i = i + 1;
        }
        self.predator_of = kept;
    }
}

impl Default for Factors {
    /// The parameters that a species added to the table starts with: it hunts
    /// nothing.
    fn default() -> (f: Factors)
        ensures
            f.color == (Color { r: 255, g: 20, b: 147 }),
            f.speed == 70_000,
            f.vision == 15_000,
            f.size == 6_000,
            f.cohesion == 1_000,
            f.separation == 1_000,
            f.alignment == 3_000,
            f.collision_avoidance == 4_000,
            f.scare == 5_000,
            f.chase == 5_000,
            f.max_energy == 100_000_000,
            f.fertility_cooldown == 15_000_000,
            f.prey() == Set::<usize>::empty(),
    {
        Factors {
            color: Color { r: 255, g: 20, b: 147 },
            speed: 70_000,
            vision: 15_000,
            size: 6_000,
            cohesion: 1_000,
            separation: 1_000,
            alignment: 3_000,
            collision_avoidance: 4_000,
            scare: 5_000,
            chase: 5_000,
            max_energy: 100_000_000,
            fertility_cooldown: 15_000_000,
            predator_of: IdSet::empty(),
        }
    }
}

/// The parameters of the first species of the starting table, whatever it
/// hunts.
pub open spec fn initial_prey() -> Factors {
    Factors {
        color: Color { r: 0, g: 255, b: 255 },
        speed: 70_000,
        vision: 20_000,
        size: 1_000,
        cohesion: 1_000,
        separation: 1_000,
        alignment: 3_000,
        collision_avoidance: 3_500,
        scare: 10_000,
        chase: 0,
        max_energy: 50_000_000,
        fertility_cooldown: 10_000_000,
        predator_of: arbitrary(),
    }
}

/// The parameters of the second species of the starting table, whatever it
/// hunts.
pub open spec fn initial_hunter() -> Factors {
    Factors {
        color: Color { r: 255, g: 0, b: 0 },
        speed: 60_000,
        vision: 30_000,
        size: 3_000,
        cohesion: 500,
        separation: 500,
        alignment: 2_000,
        collision_avoidance: 2_000,
        scare: 0,
        chase: 2_000,
        max_energy: 35_000_000,
        fertility_cooldown: 20_000_000,
        predator_of: arbitrary(),
    }
}

/// The parameters of the third species of the starting table, whatever it
/// hunts.
pub open spec fn initial_stalker() -> Factors {
    Factors {
        color: Color { r: 255, g: 255, b: 255 },
        speed: 65_000,
        vision: 25_000,
        size: 2_000,
        cohesion: 750,
        separation: 750,
        alignment: 2_500,
        collision_avoidance: 3_000,
        scare: 5_000,
        chase: 1_000,
        max_energy: 50_000_000,
        fertility_cooldown: 15_000_000,
        predator_of: arbitrary(),
    }
}

/// The species table: the parameters of each species, by number.
#[derive(Debug)]
pub struct FactorInfo {
    pub factors: Vec<Factors>,
}

impl FactorInfo {
    /// The parameters of every species are well formed.
    pub open spec fn wf(&self) -> bool {
        forall|k: int| 0 <= k < self.factors.len() ==> (#[trigger] self.factors[k]).wf()
    }

    /// Whether the table holds species `t`.
    pub open spec fn knows(&self, t: CreatureType) -> bool {
        t.0 < self.factors.len()
    }

    /// A table without species.
    pub fn new() -> (table: FactorInfo)
        ensures
            table.factors@.len() == 0,
            table.wf(),
    {
        FactorInfo { factors: Vec::new() }
    }

    /// The table with which a simulation starts: a fast prey species, a hunter
    /// of both others, and a hunter of the first.
    pub fn initial() -> (table: FactorInfo)
        ensures
            table.wf(),
            table.factors@.len() == 3,
            table.factors@[0].same_traits(&initial_prey()),
            table.factors@[0].prey() == Set::<usize>::empty(),
            table.factors@[1].same_traits(&initial_hunter()),
            table.factors@[1].prey() == Set::<usize>::empty().insert(0).insert(2),
            table.factors@[2].same_traits(&initial_stalker()),
            table.factors@[2].prey() == Set::<usize>::empty().insert(0),
    {
        let mut hunter_prey = IdSet::empty();
        hunter_prey.insert(0);
        hunter_prey.insert(2);
        let mut stalker_prey = IdSet::empty();
        stalker_prey.insert(0);
        let mut factors: Vec<Factors> = Vec::new();
        factors.push(
            Factors {
                color: Color { r: 0, g: 255, b: 255 },
                speed: 70_000,
                vision: 20_000,
                size: 1_000,
                cohesion: 1_000,
                separation: 1_000,
                alignment: 3_000,
                collision_avoidance: 3_500,
                scare: 10_000,
                chase: 0,
                max_energy: 50_000_000,
                fertility_cooldown: 10_000_000,
                predator_of: IdSet::empty(),
            },
        );
        factors.push(
            Factors {
                color: Color { r: 255, g: 0, b: 0 },
                speed: 60_000,
                vision: 30_000,
                size: 3_000,
                cohesion: 500,
                separation: 500,
                alignment: 2_000,
                collision_avoidance: 2_000,
                scare: 0,
                chase: 2_000,
                max_energy: 35_000_000,
                fertility_cooldown: 20_000_000,
                predator_of: hunter_prey,
            },
        );
        factors.push(
            Factors {
                color: Color { r: 255, g: 255, b: 255 },
                speed: 65_000,
                vision: 25_000,
                size: 2_000,
                cohesion: 750,
                separation: 750,
                alignment: 2_500,
                collision_avoidance: 3_000,
                scare: 5_000,
                chase: 1_000,
                max_energy: 50_000_000,
                fertility_cooldown: 15_000_000,
                predator_of: stalker_prey,
            },
        );
        FactorInfo { factors }
    }

    /// The number of species.
    pub fn len(&self) -> (n: usize)
        ensures
            n == self.factors.len(),
    {
        self.factors.len()
    }

    /// The parameters of species `t`.
    pub fn get(&self, t: CreatureType) -> (f: &Factors)
        requires
            self.knows(t),
        ensures
            *f == self.factors[t.0 as int],
    {
        &self.factors[t.0]
    }

    /// Adds a species with the given parameters at the end of the table and
    /// returns its number.
    pub fn add_species(&mut self, factors: Factors) -> (t: CreatureType)
        ensures
            t.0 == old(self).factors.len(),
            final(self).factors@ == old(self).factors@.push(factors),
    {
        let t = CreatureType(self.factors.len());
        self.factors.push(factors);
        t
    }

    /// Takes species `removed` out of the table. The species above it move down
    /// by one, and the hunted species of every remaining one are renumbered to
    /// match.
    pub fn remove_species(&mut self, removed: CreatureType)
        requires
            old(self).knows(removed),
        ensures
            final(self).factors.len() == old(self).factors.len() - 1,
            forall|k: int|
                0 <= k < final(self).factors.len() ==> (#[trigger] final(self).factors[k]).same_traits(
                    &old(self).factors[place_before(k, removed.0 as int)],
                ),
            forall|k: int|
                0 <= k < final(self).factors.len() ==> (#[trigger] final(self).factors[k]).prey()
                    == renumbered_set(
                    old(self).factors[place_before(k, removed.0 as int)].prey(),
                    removed.0,
                ),
            old(self).wf() ==> final(self).wf(),
    {
        self.factors.remove(removed.0);
        let ghost shifted = self.factors@;
        let n = self.factors.len();
        let mut k: usize = 0;
        while k < n
            invariant
                k <= n,
                n == self.factors.len(),
                n == shifted.len(),
                forall|m: int|
                    0 <= m < k ==> (#[trigger] self.factors[m]).same_traits(&shifted[m])
                        && self.factors[m].prey() == renumbered_set(shifted[m].prey(), removed.0),
                forall|m: int| k <= m < n ==> #[trigger] self.factors[m] == shifted[m],
            decreases n - k,
        {
            self.factors[k].forget_species(removed);
            k = k + 1;
        }
    }
}

} // verus!
