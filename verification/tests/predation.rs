use boids::agents::Agent;
use boids::agents::AgentStore;
use boids::agents::Energy;
use boids::agents::Fertility;
use boids::fixed::Vec2;
use boids::fixed::UNIT;
use boids::grid::HashGrid;
use boids::lifecycle::apply_energy_changes;
use boids::lifecycle::refresh_index;
use boids::lifecycle::EnergyChange;
use boids::predation::judge;
use boids::predation::kill_pass;
use boids::predation::predation_scan;
use boids::predation::Outcome;
use boids::species::CreatureType;
use boids::species::FactorInfo;
use boids::species::Features;

fn agent(x: i32, y: i32, species: usize, energy: i64) -> Agent {
    Agent {
        position: Vec2::new(x, y),
        heading: Vec2::new(UNIT, 0),
        species: CreatureType(species),
        energy: Energy(energy),
        fertility: Fertility { time_till_fertile: 5_000_000, amount: 1 },
    }
}

fn store(agents: &[Agent]) -> AgentStore {
    let mut store = AgentStore::new();
    for a in agents.iter() {
        store.insert(*a);
    }
    store
}

fn indexed(agents: &AgentStore) -> HashGrid {
    let mut grid = HashGrid::new();
    refresh_index(&mut grid, agents);
    grid
}

fn killing() -> Features {
    let mut features = Features::default();
    features.killing = true;
    features
}

#[test]
fn hunter_wins_on_contact() {
    let table = FactorInfo::initial();
    let hunter = agent(0, 0, 1, 10);
    let prey = agent(2_400, 3_200, 0, 999);
    let f_hunter = table.get(CreatureType(1));
    let f_prey = table.get(CreatureType(0));
    assert_eq!(judge(&hunter, f_hunter, &prey, f_prey), Outcome::FirstWins);
    assert_eq!(judge(&prey, f_prey, &hunter, f_hunter), Outcome::SecondWins);
    let far = agent(2_400, 3_201, 0, 999);
    assert_eq!(judge(&hunter, f_hunter, &far, f_prey), Outcome::Neither);
}

#[test]
fn strangers_do_not_fight() {
    let table = FactorInfo::initial();
    let a = agent(0, 0, 0, 10);
    let b = agent(0, 0, 0, 20);
    let f = table.get(CreatureType(0));
    assert_eq!(judge(&a, f, &b, f), Outcome::Neither);
}

#[test]
fn of_mutual_hunters_the_one_with_more_energy_wins() {
    let mut table = FactorInfo::initial();
    table.factors[2].set_predator(CreatureType(1), true);
    let f1 = table.get(CreatureType(1));
    let f2 = table.get(CreatureType(2));
    let strong = agent(0, 0, 1, 20);
    let weak = agent(0, 0, 2, 19);
    let equal = agent(0, 0, 2, 20);
    assert_eq!(judge(&strong, f1, &weak, f2), Outcome::FirstWins);
    assert_eq!(judge(&weak, f2, &strong, f1), Outcome::SecondWins);
    assert_eq!(judge(&strong, f1, &equal, f2), Outcome::Neither);
    assert_eq!(judge(&equal, f2, &strong, f1), Outcome::Neither);
}

#[test]
fn scan_marks_the_losers_and_rewards_the_winner_for_each() {
    let table = FactorInfo::initial();
    let agents = store(&[agent(0, 0, 1, 10), agent(1_000, 0, 0, 10), agent(0, 1_000, 0, 10)]);
    let mut doomed = vec![false, false, false];
    let mut rewards: Vec<EnergyChange> = Vec::new();
    predation_scan(&agents, &table, 0, &vec![1, 0, 7, 2], &mut doomed, &mut rewards);
    assert_eq!(doomed, vec![false, true, true]);
    assert_eq!(
        rewards,
        vec![
            EnergyChange { agent: 0, change: 4_000_000 },
            EnergyChange { agent: 0, change: 4_000_000 },
        ]
    );
    predation_scan(&agents, &table, 1, &vec![0], &mut doomed, &mut rewards);
    assert_eq!(doomed, vec![false, true, true]);
    assert_eq!(rewards.len(), 2);
}

#[test]
fn scan_of_the_prey_dooms_itself() {
    let table = FactorInfo::initial();
    let agents = store(&[agent(0, 0, 0, 10), agent(1_000, 0, 1, 10), agent(0, 1_000, 2, 10)]);
    let mut doomed = vec![false, false, false];
    let mut rewards: Vec<EnergyChange> = Vec::new();
    predation_scan(&agents, &table, 0, &vec![2, 1], &mut doomed, &mut rewards);
    assert_eq!(doomed, vec![true, false, false]);
    assert_eq!(
        rewards,
        vec![
            EnergyChange { agent: 2, change: 4_000_000 },
            EnergyChange { agent: 1, change: 4_000_000 },
        ]
    );
}

#[test]
fn predator_kills_prey_and_gains_the_reward() {
    let table = FactorInfo::initial();
    let mut agents = store(&[agent(0, 0, 1, 20_000_000), agent(2_000, 0, 0, 10_000_000)]);
    let mut grid = indexed(&agents);
    let rewards = kill_pass(&mut agents, &mut grid, &table, &killing());
    assert_eq!(rewards, vec![EnergyChange { agent: 0, change: 4_000_000 }]);
    assert_eq!(agents.get(1), None);
    assert_eq!(grid.cell_of_entity(1), None);
    assert_eq!(agents.get(0), Some(agent(0, 0, 1, 20_000_000)));
    apply_energy_changes(&mut agents, &mut grid, &table, &rewards);
    assert_eq!(agents.get(0).unwrap().energy, Energy(24_000_000));
    assert_eq!(agents.len(), 2);
}

#[test]
fn reward_does_not_lift_energy_over_the_maximum() {
    let table = FactorInfo::initial();
    let mut agents = store(&[agent(0, 0, 1, 33_000_000), agent(2_000, 0, 0, 10_000_000)]);
    let mut grid = indexed(&agents);
    let rewards = kill_pass(&mut agents, &mut grid, &table, &killing());
    apply_energy_changes(&mut agents, &mut grid, &table, &rewards);
    assert_eq!(agents.get(0).unwrap().energy, Energy(35_000_000));
}

#[test]
fn no_kill_where_killing_is_off() {
    let table = FactorInfo::initial();
    let mut agents = store(&[agent(0, 0, 1, 20_000_000), agent(2_000, 0, 0, 10_000_000)]);
    let mut grid = indexed(&agents);
    let rewards = kill_pass(&mut agents, &mut grid, &table, &Features::default());
    assert!(rewards.is_empty());
    assert_eq!(agents.get(1), Some(agent(2_000, 0, 0, 10_000_000)));
    assert_eq!(grid.cell_of_entity(1), Some((0, 0)));
}

#[test]
fn no_kill_out_of_reach() {
    let table = FactorInfo::initial();
    let mut agents = store(&[agent(0, 0, 1, 20_000_000), agent(4_001, 0, 0, 10_000_000)]);
    let mut grid = indexed(&agents);
    assert!(kill_pass(&mut agents, &mut grid, &table, &killing()).is_empty());
    assert!(agents.get(1).is_some());
}

#[test]
fn a_doomed_hunter_still_kills() {
    let mut table = FactorInfo::initial();
    table.factors[2].set_predator(CreatureType(1), true);
    // Slot 0 hunts slot 1, and slot 1 hunts slot 2: every pair is judged on the
    // agents as they stand before the pass.
    let mut agents = store(&[
        agent(0, 0, 2, 30_000_000),
        agent(1_000, 0, 1, 20_000_000),
        agent(2_000, 0, 0, 10_000_000),
    ]);
    table.factors[2].set_predator(CreatureType(0), false);
    let mut grid = indexed(&agents);
    let rewards = kill_pass(&mut agents, &mut grid, &table, &killing());
    assert_eq!(
        rewards,
        vec![
            EnergyChange { agent: 0, change: 4_000_000 },
            EnergyChange { agent: 1, change: 4_000_000 },
        ]
    );
    assert!(agents.get(0).is_some());
    assert_eq!(agents.get(1), None);
    assert_eq!(agents.get(2), None);
    // The reward of the dead hunter is dropped.
    apply_energy_changes(&mut agents, &mut grid, &table, &rewards);
    assert_eq!(agents.get(0).unwrap().energy, Energy(34_000_000));
    assert_eq!(agents.get(1), None);
}

#[test]
fn a_small_hunter_kills_large_prey_across_a_cell_border() {
    let mut table = FactorInfo::initial();
    // The first species, of size one, hunts the second, of size three, which
    // hunts nothing.
    table.factors[0].set_predator(CreatureType(1), true);
    table.factors[1].set_predator(CreatureType(0), false);
    table.factors[1].set_predator(CreatureType(2), false);
    for (hunter_first, expected_winner) in [(true, 0usize), (false, 1usize)] {
        let hunter = agent(21_250, 19_750, 0, 20_000_000);
        let prey = agent(19_750, 23_250, 1, 10_000_000);
        let mut agents = if hunter_first { store(&[hunter, prey]) } else { store(&[prey, hunter]) };
        let mut grid = indexed(&agents);
        let rewards = kill_pass(&mut agents, &mut grid, &table, &killing());
        assert_eq!(rewards, vec![EnergyChange { agent: expected_winner, change: 4_000_000 }]);
        assert_eq!(agents.get(expected_winner), Some(hunter));
        assert_eq!(agents.get(1 - expected_winner), None);
        assert_eq!(grid.cell_of_entity(1 - expected_winner), None);
    }
}

#[test]
fn every_hunter_that_touches_the_prey_is_rewarded() {
    let table = FactorInfo::initial();
    let mut agents = store(&[
        agent(0, 0, 0, 10_000_000),
        agent(2_000, 0, 1, 10_000_000),
        agent(0, 2_000, 2, 10_000_000),
    ]);
    let mut grid = indexed(&agents);
    let mut rewards = kill_pass(&mut agents, &mut grid, &table, &killing());
    rewards.sort_by_key(|reward| reward.agent);
    // Both hunters kill the prey; the second species also hunts the third.
    assert_eq!(rewards.len(), 3);
    assert_eq!(rewards[0], EnergyChange { agent: 1, change: 4_000_000 });
    assert_eq!(rewards[1], EnergyChange { agent: 1, change: 4_000_000 });
    assert_eq!(rewards[2], EnergyChange { agent: 2, change: 4_000_000 });
    assert_eq!(agents.get(0), None);
    assert!(agents.get(1).is_some());
    assert_eq!(agents.get(2), None);
}

#[test]
fn the_largest_size_of_the_table_is_found() {
    assert_eq!(boids::predation::largest_size_of(&FactorInfo::initial()), 3_000);
    assert_eq!(boids::predation::largest_size_of(&FactorInfo::new()), i32::MIN);
}

#[test]
fn agents_missing_from_the_index_are_not_met() {
    let table = FactorInfo::initial();
    let mut agents = store(&[agent(0, 0, 1, 20_000_000), agent(2_000, 0, 0, 10_000_000)]);
    let mut grid = HashGrid::new();
    assert!(kill_pass(&mut agents, &mut grid, &table, &killing()).is_empty());
    assert!(agents.get(1).is_some());
}
