use boids::agents::Agent;
use boids::agents::AgentStore;
use boids::agents::Energy;
use boids::agents::Fertility;
use boids::fixed::Vec2;
use boids::fixed::UNIT;
use boids::forces::compute_forces;
use boids::forces::partition;
use boids::forces::scan_agent;
use boids::forces::scan_chunk;
use boids::forces::ForceIntent;
use boids::grid::HashGrid;
use boids::lifecycle::refresh_index;
use boids::species::CreatureType;
use boids::species::FactorInfo;
use boids::species::Features;

fn agent(x: i32, y: i32, hx: i32, hy: i32, species: usize) -> Agent {
    Agent {
        position: Vec2::new(x, y),
        heading: Vec2::new(hx, hy),
        species: CreatureType(species),
        energy: Energy(10_000_000),
        fertility: Fertility { time_till_fertile: 5_000_000, amount: 1 },
    }
}

fn store(agents: &[Agent]) -> AgentStore {
    let mut store = AgentStore::new();
    for a in agents.iter() {
        store.insert(*a);
    }
    store
}

fn intent(agent: usize, x: i32, y: i32, weight: i32) -> ForceIntent {
    ForceIntent { agent, direction: Vec2::new(x, y), weight }
}

fn all_on() -> Features {
    Features {
        chasing: true,
        running: true,
        killing: false,
        flocking: true,
        reproduction: false,
        energy_draining: false,
    }
}

#[test]
fn flock_mate_gives_cohesion_alignment_and_separation() {
    let table = FactorInfo::initial();
    let agents = store(&[agent(0, 0, UNIT, 0, 0), agent(3_000, 4_000, 0, UNIT, 0)]);
    let intents = scan_agent(&agents, &table, &all_on(), 0, &vec![1]);
    assert_eq!(
        intents,
        vec![
            intent(0, 600_000, 800_000, 1_000),
            intent(0, 0, 1_000_000, 3_000),
            intent(0, -600_000, -800_000, 1_000),
        ]
    );
}

#[test]
fn mate_beyond_half_vision_gives_no_separation() {
    let table = FactorInfo::initial();
    let agents = store(&[agent(0, 0, UNIT, 0, 0), agent(9_000, 12_000, 0, UNIT, 0)]);
    let intents = scan_agent(&agents, &table, &all_on(), 0, &vec![1]);
    assert_eq!(intents, vec![intent(0, 600_000, 800_000, 1_000), intent(0, 0, 1_000_000, 3_000)]);
}

#[test]
fn mate_at_half_vision_counts_as_close() {
    let table = FactorInfo::initial();
    let agents = store(&[agent(0, 0, UNIT, 0, 0), agent(6_000, 8_000, 0, UNIT, 0)]);
    let intents = scan_agent(&agents, &table, &all_on(), 0, &vec![1]);
    assert_eq!(intents.len(), 3);
    assert_eq!(intents[2], intent(0, -600_000, -800_000, 1_000));
}

#[test]
fn mate_beyond_vision_gives_nothing() {
    let table = FactorInfo::initial();
    let agents = store(&[agent(0, 0, UNIT, 0, 0), agent(12_000, 16_001, 0, UNIT, 0)]);
    assert!(scan_agent(&agents, &table, &all_on(), 0, &vec![1]).is_empty());
    let agents = store(&[agent(0, 0, UNIT, 0, 0), agent(12_000, 16_000, 0, UNIT, 0)]);
    assert_eq!(scan_agent(&agents, &table, &all_on(), 0, &vec![1]).len(), 2);
}

#[test]
fn crowding_answers_first_and_for_any_species() {
    let table = FactorInfo::initial();
    let agents = store(&[agent(0, 0, UNIT, 0, 0), agent(600, 800, 0, UNIT, 0)]);
    let intents = scan_agent(&agents, &table, &all_on(), 0, &vec![1]);
    assert_eq!(
        intents,
        vec![
            intent(0, -600_000, -800_000, 3_500),
            intent(0, 600_000, 800_000, 1_000),
            intent(0, 0, 1_000_000, 3_000),
            intent(0, -600_000, -800_000, 1_000),
        ]
    );
    // The third species hunts the first; the first does not hunt the third.
    let mut table = FactorInfo::initial();
    table.factors[2].set_predator(CreatureType(0), false);
    let agents = store(&[agent(0, 0, UNIT, 0, 0), agent(1_200, 1_600, 0, UNIT, 2)]);
    let intents = scan_agent(&agents, &table, &all_on(), 0, &vec![1]);
    assert_eq!(intents, vec![intent(0, -600_000, -800_000, 3_500)]);
    let agents = store(&[agent(0, 0, UNIT, 0, 0), agent(1_200, 1_601, 0, UNIT, 2)]);
    assert!(scan_agent(&agents, &table, &all_on(), 0, &vec![1]).is_empty());
}

#[test]
fn hunter_chases_and_prey_flees() {
    let table = FactorInfo::initial();
    let agents = store(&[agent(0, 0, UNIT, 0, 1), agent(0, 10_000, UNIT, 0, 0)]);
    let hunter = scan_agent(&agents, &table, &all_on(), 0, &vec![1]);
    assert_eq!(hunter, vec![intent(0, 0, 1_000_000, 2_000)]);
    let prey = scan_agent(&agents, &table, &all_on(), 1, &vec![0]);
    assert_eq!(prey, vec![intent(1, 0, 1_000_000, 10_000)]);
}

#[test]
fn prey_outside_its_own_vision_does_not_flee() {
    let table = FactorInfo::initial();
    // The hunter sees 30 units, the prey 20.
    let agents = store(&[agent(0, 0, UNIT, 0, 1), agent(0, 25_000, UNIT, 0, 0)]);
    assert_eq!(scan_agent(&agents, &table, &all_on(), 0, &vec![1]).len(), 1);
    assert!(scan_agent(&agents, &table, &all_on(), 1, &vec![0]).is_empty());
}

#[test]
fn chase_goes_for_the_nearest_target() {
    let table = FactorInfo::initial();
    let agents = store(&[
        agent(0, 0, UNIT, 0, 1),
        agent(0, 10_000, UNIT, 0, 0),
        agent(-7_000, 0, UNIT, 0, 2),
        agent(20_000, 0, UNIT, 0, 0),
    ]);
    let intents = scan_agent(&agents, &table, &all_on(), 0, &vec![1, 2, 3]);
    assert_eq!(intents, vec![intent(0, -1_000_000, 0, 2_000)]);
    let intents = scan_agent(&agents, &table, &all_on(), 0, &vec![3, 2, 1]);
    assert_eq!(intents, vec![intent(0, -1_000_000, 0, 2_000)]);
}

#[test]
fn of_targets_at_one_distance_the_first_seen_is_chased() {
    let table = FactorInfo::initial();
    let agents = store(&[
        agent(0, 0, UNIT, 0, 1),
        agent(0, 10_000, UNIT, 0, 0),
        agent(10_000, 0, UNIT, 0, 0),
    ]);
    let intents = scan_agent(&agents, &table, &all_on(), 0, &vec![1, 2]);
    assert_eq!(intents, vec![intent(0, 0, 1_000_000, 2_000)]);
    let intents = scan_agent(&agents, &table, &all_on(), 0, &vec![2, 1]);
    assert_eq!(intents, vec![intent(0, 1_000_000, 0, 2_000)]);
}

#[test]
fn coincident_mate_gives_alignment_only() {
    let table = FactorInfo::initial();
    let agents = store(&[agent(500, 500, UNIT, 0, 0), agent(500, 500, 0, -UNIT, 0)]);
    let intents = scan_agent(&agents, &table, &all_on(), 0, &vec![1]);
    assert_eq!(intents, vec![intent(0, 0, -1_000_000, 3_000)]);
}

#[test]
fn opposed_headings_give_no_alignment() {
    let table = FactorInfo::initial();
    let agents = store(&[
        agent(0, 0, UNIT, 0, 0),
        agent(9_000, 12_000, 0, UNIT, 0),
        agent(-9_000, -12_000, 0, -UNIT, 0),
    ]);
    let intents = scan_agent(&agents, &table, &all_on(), 0, &vec![1, 2]);
    assert!(intents.is_empty());
}

#[test]
fn directions_follow_the_sum_and_no_mean_is_rounded() {
    let table = FactorInfo::initial();
    let agents = store(&[
        agent(0, 0, UNIT, 0, 0),
        agent(-11_000, 0, 0, UNIT, 0),
        agent(-11_003, 1, 0, UNIT, 0),
        agent(-11_000, 0, 0, UNIT, 0),
    ]);
    // The positions sum to (-33003, 1), the headings to (0, 3 * UNIT).
    let intents = scan_agent(&agents, &table, &all_on(), 0, &vec![1, 2, 3]);
    assert_eq!(intents, vec![intent(0, -999_999, 30, 1_000), intent(0, 0, 1_000_000, 3_000)]);
}

#[test]
fn a_sum_smaller_than_the_count_still_steers() {
    let table = FactorInfo::initial();
    let agents = store(&[
        agent(5_000, 5_000, UNIT, 0, 0),
        agent(15_000, 5_000, 1, 0, 0),
        agent(-5_000, 5_001, -1, 1, 0),
    ]);
    // The mates' positions sum to (10000, 10001), twice the agent's position and
    // (0, 1); their headings sum to (0, 1). Only the first mate is close.
    let intents = scan_agent(&agents, &table, &all_on(), 0, &vec![1, 2]);
    assert_eq!(
        intents,
        vec![
            intent(0, 0, 1_000_000, 1_000),
            intent(0, 0, 1_000_000, 3_000),
            intent(0, -1_000_000, 0, 1_000),
        ]
    );
}

#[test]
fn alignment_goes_along_the_sum_of_the_headings() {
    let table = FactorInfo::initial();
    let agents = store(&[
        agent(0, 0, UNIT, 0, 0),
        agent(12_000, 0, 600_000, 800_000, 0),
        agent(-12_000, 0, 0, UNIT, 0),
    ]);
    let intents = scan_agent(&agents, &table, &all_on(), 0, &vec![2, 1]);
    assert_eq!(intents, vec![intent(0, 316_227, 948_683, 3_000)]);
}

#[test]
fn switched_off_features_emit_nothing() {
    let table = FactorInfo::initial();
    let agents = store(&[
        agent(0, 0, UNIT, 0, 2),
        agent(600, 800, 0, UNIT, 2),
        agent(0, 5_000, UNIT, 0, 0),
        agent(5_000, 0, UNIT, 0, 1),
    ]);
    let candidates = vec![1, 2, 3];
    let full = scan_agent(&agents, &table, &all_on(), 0, &candidates);
    assert_eq!(
        full,
        vec![
            intent(0, -600_000, -800_000, 3_000),
            intent(0, -1_000_000, 0, 5_000),
            intent(0, 600_000, 800_000, 750),
            intent(0, 0, 1_000_000, 2_500),
            intent(0, -600_000, -800_000, 750),
            intent(0, 0, 1_000_000, 1_000),
        ]
    );
    let mut features = all_on();
    features.flocking = false;
    assert_eq!(
        scan_agent(&agents, &table, &features, 0, &candidates),
        vec![intent(0, -1_000_000, 0, 5_000), intent(0, 0, 1_000_000, 1_000)]
    );
    let mut features = all_on();
    features.running = false;
    assert_eq!(scan_agent(&agents, &table, &features, 0, &candidates).len(), 5);
    let mut features = all_on();
    features.chasing = false;
    assert_eq!(scan_agent(&agents, &table, &features, 0, &candidates).len(), 5);
    features.flocking = false;
    features.running = false;
    assert!(scan_agent(&agents, &table, &features, 0, &candidates).is_empty());
}

#[test]
fn stale_candidates_are_passed_over() {
    let table = FactorInfo::initial();
    let mut agents = store(&[
        agent(0, 0, UNIT, 0, 0),
        agent(3_000, 4_000, 0, UNIT, 0),
        agent(3_000, 4_000, 0, UNIT, 0),
    ]);
    agents.remove(2);
    let intents = scan_agent(&agents, &table, &all_on(), 0, &vec![0, 2, 99, 1, 0]);
    assert_eq!(intents.len(), 3);
    assert_eq!(intents[0], intent(0, 600_000, 800_000, 1_000));
}

#[test]
fn forces_come_in_the_order_of_the_slots() {
    let table = FactorInfo::initial();
    let agents = store(&[
        agent(0, 0, UNIT, 0, 1),
        agent(0, 10_000, UNIT, 0, 0),
        agent(200_000, 200_000, UNIT, 0, 0),
    ]);
    let mut grid = HashGrid::new();
    refresh_index(&mut grid, &agents);
    let intents = compute_forces(&agents, &table, &all_on(), &grid);
    assert_eq!(intents, vec![intent(0, 0, 1_000_000, 2_000), intent(1, 0, 1_000_000, 10_000)]);
}

#[test]
fn forces_use_the_index_as_it_stands() {
    let table = FactorInfo::initial();
    let mut agents = store(&[agent(0, 0, UNIT, 0, 1), agent(0, 10_000, UNIT, 0, 0)]);
    let mut grid = HashGrid::new();
    refresh_index(&mut grid, &agents);
    // The prey jumps far away; the index still lists it near the hunter, and the
    // exact distance rules it out.
    agents.replace(1, agent(0, 500_000, UNIT, 0, 0));
    assert!(compute_forces(&agents, &table, &all_on(), &grid).is_empty());
    // An index without records finds nobody.
    agents.replace(1, agent(0, 10_000, UNIT, 0, 0));
    let empty = HashGrid::new();
    assert!(compute_forces(&agents, &table, &all_on(), &empty).is_empty());
}

#[test]
fn chunks_joined_in_order_are_the_whole_scan() {
    let table = FactorInfo::initial();
    let mut list: Vec<Agent> = Vec::new();
    for k in 0..23i32 {
        list.push(agent(k * 1_500 - 15_000, (k % 5) * 2_000, UNIT, 0, (k % 3) as usize));
    }
    let agents = store(&list);
    let mut grid = HashGrid::new();
    refresh_index(&mut grid, &agents);
    let mut features = all_on();
    // Crowding and flight answer in the order of the candidates, which the index
    // does not fix: compare what does not depend on it.
    features.running = false;
    let mut table = table;
    for t in 0..3usize {
        table.factors[t].size = 0;
    }
    let whole = compute_forces(&agents, &table, &features, &grid);
    for workers in [1usize, 2, 4, 7, 23, 40] {
        let mut joined: Vec<ForceIntent> = Vec::new();
        for (from, to) in partition(agents.len(), workers) {
            joined.extend(scan_chunk(&agents, &table, &features, &grid, from, to));
        }
        assert_eq!(joined, whole);
    }
}

#[test]
fn partition_covers_the_slots_in_equal_chunks() {
    assert_eq!(partition(10, 3), vec![(0, 4), (4, 8), (8, 10)]);
    assert_eq!(partition(10, 1), vec![(0, 10)]);
    assert_eq!(partition(10, 0), vec![(0, 10)]);
    assert_eq!(partition(3, 8), vec![(0, 1), (1, 2), (2, 3)]);
    assert_eq!(partition(12, 4), vec![(0, 3), (3, 6), (6, 9), (9, 12)]);
    assert_eq!(partition(0, 4), Vec::<(usize, usize)>::new());
    assert_eq!(partition(1, 4), vec![(0, 1)]);
}
