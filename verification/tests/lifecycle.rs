use boids::agents::Agent;
use boids::agents::AgentStore;
use boids::agents::Energy;
use boids::agents::Fertility;
use boids::fixed::is_within;
use boids::fixed::Vec2;
use boids::fixed::UNIT;
use boids::grid::HashGrid;
use boids::lifecycle::apply_energy_changes;
use boids::lifecycle::box_edge;
use boids::lifecycle::change_energy;
use boids::lifecycle::despawn_area;
use boids::lifecycle::despawn_burst;
use boids::lifecycle::draw_in_disc;
use boids::lifecycle::energy_drain;
use boids::lifecycle::forget_species;
use boids::lifecycle::place_creature;
use boids::lifecycle::population_counts;
use boids::lifecycle::refresh_index;
use boids::lifecycle::settle_in_disc;
use boids::lifecycle::setup_creatures;
use boids::lifecycle::spawn_around;
use boids::lifecycle::spawn_burst;
use boids::lifecycle::spawn_creature;
use boids::lifecycle::spawn_creature_randomly;
use boids::lifecycle::spawn_creature_randomly_on_screen;
use boids::lifecycle::spawn_in_box;
use boids::lifecycle::spawn_in_square;
use boids::lifecycle::species_listed;
use boids::lifecycle::EnergyChange;
use boids::lifecycle::INITIAL_POPULATIONS;
use boids::species::CreatureType;
use boids::species::DespawnProperties;
use boids::species::FactorInfo;
use boids::species::Features;
use boids::species::SpawnProperties;

fn agent(x: i32, y: i32, species: usize, energy: i64) -> Agent {
    Agent {
        position: Vec2::new(x, y),
        heading: Vec2::new(UNIT, 0),
        species: CreatureType(species),
        energy: Energy(energy),
        fertility: Fertility { time_till_fertile: 5_000_000, amount: 1 },
    }
}

fn store(agents: &[Agent]) -> AgentStore {
    let mut store = AgentStore::new();
    for a in agents.iter() {
        store.insert(*a);
    }
    store
}

fn indexed(agents: &AgentStore) -> HashGrid {
    let mut grid = HashGrid::new();
    refresh_index(&mut grid, agents);
    grid
}

fn is_unit(v: Vec2) -> bool {
    let n = (v.x as i128) * (v.x as i128) + (v.y as i128) * (v.y as i128);
    (UNIT as i128 - 3) * (UNIT as i128 - 3) <= n && n <= (UNIT as i128 + 1) * (UNIT as i128 + 1)
}

#[test]
fn spawned_agent_has_full_energy_and_a_whole_cooldown() {
    let table = FactorInfo::initial();
    let mut agents = AgentStore::new();
    let id = spawn_creature(&mut agents, &table, 5, -7, Vec2::new(0, UNIT), CreatureType(1));
    assert_eq!(id, 0);
    assert_eq!(
        agents.get(0),
        Some(Agent {
            position: Vec2::new(5, -7),
            heading: Vec2::new(0, UNIT),
            species: CreatureType(1),
            energy: Energy(35_000_000),
            fertility: Fertility { time_till_fertile: 20_000_000, amount: 1 },
        })
    );
    let id = spawn_creature(&mut agents, &table, 0, 0, Vec2::new(UNIT, 0), CreatureType(0));
    assert_eq!(id, 1);
    assert_eq!(agents.get(1).unwrap().energy, Energy(50_000_000));
    assert_eq!(agents.len(), 2);
}

#[test]
fn placed_creature_heads_along_the_drawn_vector() {
    let table = FactorInfo::initial();
    let mut agents = AgentStore::new();
    place_creature(&mut agents, &table, CreatureType(2), 1, 2, 300, -400);
    assert_eq!(agents.get(0).unwrap().heading, Vec2::new(600_000, -800_000));
    assert_eq!(agents.get(0).unwrap().position, Vec2::new(1, 2));
    place_creature(&mut agents, &table, CreatureType(2), 1, 2, 0, 0);
    assert_eq!(agents.get(1).unwrap().heading, Vec2::new(UNIT, 0));
}

#[test]
fn random_spawn_lands_in_the_box() {
    let table = FactorInfo::initial();
    let mut agents = AgentStore::new();
    for k in 0..200usize {
        let id = spawn_creature_randomly(&mut agents, &table, CreatureType(0), -50, 70, 1_000, 1_003);
        assert_eq!(id, k);
        let a = agents.get(id).unwrap();
        assert!(-50 <= a.position.x && a.position.x <= 70);
        assert!(1_000 <= a.position.y && a.position.y <= 1_003);
        assert!(is_unit(a.heading));
        assert_eq!(a.species, CreatureType(0));
        assert_eq!(a.energy, Energy(50_000_000));
        assert_eq!(a.fertility, Fertility { time_till_fertile: 10_000_000, amount: 1 });
    }
    let id = spawn_creature_randomly(&mut agents, &table, CreatureType(0), 9, 9, -4, -4);
    assert_eq!(agents.get(id).unwrap().position, Vec2::new(9, -4));
}

#[test]
fn random_spawns_differ() {
    let table = FactorInfo::initial();
    let mut agents = AgentStore::new();
    spawn_in_box(&mut agents, &table, CreatureType(0), -1_000_000, 1_000_000, -1_000_000, 1_000_000, 50);
    let first = agents.get(0).unwrap().position;
    assert!((1..50).any(|id| agents.get(id).unwrap().position != first));
}

#[test]
fn screen_spawn_lands_on_the_screen() {
    let table = FactorInfo::initial();
    let mut agents = AgentStore::new();
    for _ in 0..100 {
        let id = spawn_creature_randomly_on_screen(&mut agents, &table, CreatureType(1), 1_601, 900);
        let p = agents.get(id).unwrap().position;
        assert!(-800 <= p.x && p.x <= 800);
        assert!(-450 <= p.y && p.y <= 450);
    }
    let id = spawn_creature_randomly_on_screen(&mut agents, &table, CreatureType(1), 0, 1);
    assert_eq!(agents.get(id).unwrap().position, Vec2::new(0, 0));
}

#[test]
fn box_edges_stop_at_the_end_of_the_range() {
    assert_eq!(box_edge(10, -15), -5);
    assert_eq!(box_edge(i32::MAX, 15), i32::MAX);
    assert_eq!(box_edge(i32::MIN, -15), i32::MIN);
}

#[test]
fn spawn_in_square_places_the_count_asked_for() {
    let table = FactorInfo::initial();
    let mut agents = store(&[agent(0, 0, 1, 5)]);
    spawn_in_square(&mut agents, &table, CreatureType(2), Vec2::new(100_000, -100_000), 10_000, 25);
    assert_eq!(agents.len(), 26);
    assert_eq!(agents.get(0), Some(agent(0, 0, 1, 5)));
    for id in 1..26 {
        let a = agents.get(id).unwrap();
        assert_eq!(a.species, CreatureType(2));
        assert!(90_000 <= a.position.x && a.position.x <= 110_000);
        assert!(-110_000 <= a.position.y && a.position.y <= -90_000);
    }
    spawn_in_square(&mut agents, &table, CreatureType(2), Vec2::new(0, 0), 10_000, 0);
    assert_eq!(agents.len(), 26);
}

#[test]
fn draws_lie_in_the_disc() {
    let center = Vec2::new(-40_000, 70_000);
    let mut off_axis = false;
    for _ in 0..500 {
        let p = draw_in_disc(center, 10_000);
        assert!(is_within(center, p, 10_000));
        off_axis = off_axis || (p.x != center.x && p.y != center.y);
    }
    assert!(off_axis);
    assert_eq!(draw_in_disc(center, 0), center);
    let corner = Vec2::new(i32::MAX, i32::MIN);
    for _ in 0..50 {
        assert!(is_within(corner, draw_in_disc(corner, 1_000), 1_000));
    }
}

#[test]
fn spawn_around_places_the_count_within_the_radius() {
    let table = FactorInfo::initial();
    let mut agents = store(&[agent(0, 0, 1, 5)]);
    let center = Vec2::new(100_000, -100_000);
    spawn_around(&mut agents, &table, CreatureType(2), center, 10_000, 200);
    assert_eq!(agents.len(), 201);
    assert_eq!(agents.get(0), Some(agent(0, 0, 1, 5)));
    for id in 1..201 {
        let a = agents.get(id).unwrap();
        assert_eq!(a.species, CreatureType(2));
        assert_eq!(a.energy, Energy(50_000_000));
        assert_eq!(a.fertility, Fertility { time_till_fertile: 15_000_000, amount: 1 });
        assert!(is_within(center, a.position, 10_000));
        assert!(is_unit(a.heading));
    }
    spawn_around(&mut agents, &table, CreatureType(2), Vec2::new(0, 0), 10_000, 0);
    assert_eq!(agents.len(), 201);
}

#[test]
fn spawn_burst_follows_the_properties() {
    let table = FactorInfo::initial();
    let mut agents = AgentStore::new();
    let properties = SpawnProperties::default();
    spawn_burst(&mut agents, &table, CreatureType(0), Vec2::new(0, 0), &properties);
    assert_eq!(agents.len(), 10);
    for id in 0..10 {
        assert!(is_within(Vec2::new(0, 0), agents.get(id).unwrap().position, 10_000));
    }
}

#[test]
fn setup_seeds_each_species_in_turn() {
    let table = FactorInfo::initial();
    let mut agents = AgentStore::new();
    setup_creatures(&mut agents, &table, &vec![3, 0, 2], 1_600_000, 900_000);
    assert_eq!(agents.len(), 5);
    let species: Vec<usize> = (0..5).map(|id| agents.get(id).unwrap().species.0).collect();
    assert_eq!(species, vec![0, 0, 0, 2, 2]);
    for id in 0..5 {
        let p = agents.get(id).unwrap().position;
        assert!(-800_000 <= p.x && p.x <= 800_000 && -450_000 <= p.y && p.y <= 450_000);
    }
}

#[test]
fn initial_populations_seed_fifteen_hundred() {
    assert_eq!(INITIAL_POPULATIONS, [1000, 200, 300]);
    let table = FactorInfo::initial();
    let mut agents = AgentStore::new();
    setup_creatures(&mut agents, &table, &INITIAL_POPULATIONS.to_vec(), 1_600_000, 900_000);
    assert_eq!(population_counts(&agents, &table), vec![1000, 200, 300]);
}

#[test]
fn refresh_records_every_live_agent() {
    let mut agents = store(&[agent(5_000, 5_000, 0, 1), agent(-5_000, 45_000, 0, 1), agent(0, 0, 0, 1)]);
    agents.remove(2);
    let mut grid = HashGrid::new();
    grid.update_entity(9, Vec2::new(0, 0));
    refresh_index(&mut grid, &agents);
    assert_eq!(grid.cell_of_entity(0), Some((0, 0)));
    assert_eq!(grid.cell_of_entity(1), Some((2, -1)));
    assert_eq!(grid.cell_of_entity(2), None);
    assert_eq!(grid.cell_of_entity(9), Some((0, 0)));
    agents.replace(0, agent(-25_000, 5_000, 0, 1));
    refresh_index(&mut grid, &agents);
    assert_eq!(grid.cell_of_entity(0), Some((0, -2)));
}

#[test]
fn species_listed_searches_the_filter() {
    let filter = vec![CreatureType(2), CreatureType(0)];
    assert!(species_listed(&filter, CreatureType(0)));
    assert!(species_listed(&filter, CreatureType(2)));
    assert!(!species_listed(&filter, CreatureType(1)));
    assert!(!species_listed(&Vec::new(), CreatureType(0)));
}

#[test]
fn despawn_takes_listed_species_within_the_radius() {
    let mut agents = store(&[
        agent(3_000, 4_000, 0, 1),
        agent(3_000, 4_001, 0, 1),
        agent(0, 0, 1, 1),
        agent(-5_000, 0, 2, 1),
    ]);
    let mut grid = indexed(&agents);
    despawn_area(&mut agents, &mut grid, Vec2::new(0, 0), 5_000, &vec![CreatureType(0), CreatureType(2)]);
    assert_eq!(agents.len(), 4);
    assert_eq!(agents.get(0), None);
    assert_eq!(agents.get(1), Some(agent(3_000, 4_001, 0, 1)));
    assert_eq!(agents.get(2), Some(agent(0, 0, 1, 1)));
    assert_eq!(agents.get(3), None);
    assert_eq!(grid.cell_of_entity(0), None);
    assert_eq!(grid.cell_of_entity(1), Some((0, 0)));
    assert_eq!(grid.cell_of_entity(2), Some((0, 0)));
    assert_eq!(grid.cell_of_entity(3), None);
    let mut found = grid.get_nearby_entities(Vec2::new(0, 0), 20_000);
    found.sort();
    assert_eq!(found, vec![1, 2]);
}

#[test]
fn despawn_with_an_empty_filter_or_a_negative_radius_takes_nobody() {
    let mut agents = store(&[agent(0, 0, 0, 1)]);
    let mut grid = indexed(&agents);
    despawn_area(&mut agents, &mut grid, Vec2::new(0, 0), 5_000, &Vec::new());
    assert_eq!(agents.get(0), Some(agent(0, 0, 0, 1)));
    despawn_area(&mut agents, &mut grid, Vec2::new(0, 0), -1, &vec![CreatureType(0)]);
    assert_eq!(agents.get(0), Some(agent(0, 0, 0, 1)));
    despawn_area(&mut agents, &mut grid, Vec2::new(0, 0), 0, &vec![CreatureType(0)]);
    assert_eq!(agents.get(0), None);
}

#[test]
fn drain_burns_two_per_second() {
    let mut features = Features::default();
    let mut agents = store(&[agent(0, 0, 0, 1), agent(0, 0, 1, 1), agent(0, 0, 2, 1)]);
    agents.remove(1);
    assert!(energy_drain(&agents, &features, 16_000).is_empty());
    features.energy_draining = true;
    assert_eq!(
        energy_drain(&agents, &features, 16_000),
        vec![EnergyChange { agent: 0, change: -32_000 }, EnergyChange { agent: 2, change: -32_000 }]
    );
    assert_eq!(energy_drain(&agents, &features, 1_000_000)[0].change, -2_000_000);
    assert_eq!(energy_drain(&agents, &features, u32::MAX)[0].change, -8_589_934_590);
    assert_eq!(energy_drain(&agents, &features, 0)[0].change, 0);
}

#[test]
fn energy_stays_between_zero_and_the_maximum() {
    assert_eq!(change_energy(10, 5, 100), 15);
    assert_eq!(change_energy(10, -5, 100), 5);
    assert_eq!(change_energy(10, -10, 100), 0);
    assert_eq!(change_energy(10, -11, 100), 0);
    assert_eq!(change_energy(10, 90, 100), 100);
    assert_eq!(change_energy(10, 91, 100), 100);
    assert_eq!(change_energy(i64::MAX, i64::MAX, i64::MAX), i64::MAX);
    assert_eq!(change_energy(i64::MIN, i64::MIN, i64::MAX), 0);
    assert_eq!(change_energy(5, 5, 0), 0);
}

#[test]
fn energy_changes_apply_in_order_and_starve_at_zero() {
    let table = FactorInfo::initial();
    let mut agents = store(&[
        agent(0, 0, 0, 10_000_000),
        agent(0, 0, 1, 34_000_000),
        agent(0, 0, 2, 3_000_000),
        agent(0, 0, 0, 1),
    ]);
    let mut grid = indexed(&agents);
    let changes = vec![
        EnergyChange { agent: 0, change: -4_000_000 },
        EnergyChange { agent: 1, change: 4_000_000 },
        EnergyChange { agent: 2, change: -3_000_000 },
        EnergyChange { agent: 0, change: 1_000_000 },
        EnergyChange { agent: 2, change: 9_000_000 },
        EnergyChange { agent: 17, change: 1 },
    ];
    apply_energy_changes(&mut agents, &mut grid, &table, &changes);
    assert_eq!(agents.get(0).unwrap().energy, Energy(7_000_000));
    assert_eq!(agents.get(1).unwrap().energy, Energy(35_000_000));
    assert_eq!(agents.get(2), None);
    assert_eq!(agents.get(3), Some(agent(0, 0, 0, 1)));
    assert_eq!(grid.cell_of_entity(2), None);
    assert_eq!(grid.cell_of_entity(0), Some((0, 0)));
    assert_eq!(agents.len(), 4);
}

#[test]
fn energy_of_every_agent_is_in_bounds_after_any_changes() {
    let table = FactorInfo::initial();
    let mut agents = AgentStore::new();
    setup_creatures(&mut agents, &table, &vec![20, 20, 20], 100_000, 100_000);
    let mut grid = indexed(&agents);
    let amounts = [-60_000_000i64, -1, 0, 1, 15_000_000, 70_000_000, i64::MAX, i64::MIN];
    let mut changes: Vec<EnergyChange> = Vec::new();
    for id in 0..60usize {
        changes.push(EnergyChange { agent: id, change: amounts[id % 8] });
        changes.push(EnergyChange { agent: (id * 7) % 60, change: amounts[(id * 3) % 8] });
    }
    apply_energy_changes(&mut agents, &mut grid, &table, &changes);
    let mut alive = 0;
    for id in 0..60usize {
        match agents.get(id) {
            Some(a) => {
                alive += 1;
                let max = table.get(a.species).max_energy;
                assert!(0 < a.energy.0 && a.energy.0 <= max);
                assert!(grid.cell_of_entity(id).is_some());
            }
            None => assert_eq!(grid.cell_of_entity(id), None),
        }
    }
    assert!(alive > 0 && alive < 60);
}

#[test]
fn census_counts_live_agents_by_species() {
    let table = FactorInfo::initial();
    let mut agents = store(&[
        agent(0, 0, 0, 1),
        agent(0, 0, 2, 1),
        agent(0, 0, 0, 1),
        agent(0, 0, 2, 1),
        agent(0, 0, 2, 1),
    ]);
    agents.remove(3);
    assert_eq!(population_counts(&agents, &table), vec![2, 0, 2]);
    assert_eq!(population_counts(&AgentStore::new(), &table), vec![0, 0, 0]);
}

#[test]
fn forgetting_a_species_removes_its_agents_and_renumbers_the_rest() {
    let mut agents = store(&[
        agent(0, 0, 0, 1),
        agent(0, 0, 1, 2),
        agent(0, 0, 2, 3),
        agent(0, 0, 1, 4),
    ]);
    let mut grid = indexed(&agents);
    forget_species(&mut agents, &mut grid, CreatureType(1));
    assert_eq!(agents.get(0), Some(agent(0, 0, 0, 1)));
    assert_eq!(agents.get(1), None);
    assert_eq!(agents.get(2), Some(agent(0, 0, 1, 3)));
    assert_eq!(agents.get(3), None);
    assert_eq!(grid.cell_of_entity(1), None);
    assert_eq!(grid.cell_of_entity(3), None);
    assert_eq!(grid.cell_of_entity(2), Some((0, 0)));
}

#[test]
fn despawn_burst_takes_the_selected_species_around_the_cursor() {
    let mut agents = store(&[
        agent(60_000, 80_000, 0, 1),
        agent(60_000, 80_001, 0, 1),
        agent(0, 0, 1, 1),
        agent(0, 0, 0, 1),
    ]);
    let mut grid = indexed(&agents);
    let before = agents.clone();
    despawn_burst(&mut agents, &mut grid, CreatureType(0), Vec2::new(0, 0), &DespawnProperties::default());
    assert_eq!(agents.get(0), None);
    assert_eq!(agents.get(1), before.get(1));
    assert_eq!(agents.get(2), before.get(2));
    assert_eq!(agents.get(3), None);
    assert_eq!(grid.cell_of_entity(0), None);
    assert_eq!(grid.cell_of_entity(1), Some((4, 3)));
}

#[test]
fn drawing_settles_on_the_first_position_in_the_disc() {
    let center = Vec2::new(10, 10);
    let outside = Vec2::new(14, 14);
    let rim = Vec2::new(13, 14);
    let inside = Vec2::new(10, 11);
    assert_eq!(settle_in_disc(center, 5, &vec![outside, rim, inside]), rim);
    assert_eq!(settle_in_disc(center, 5, &vec![inside, rim]), inside);
    assert_eq!(settle_in_disc(center, 5, &vec![outside, outside]), center);
    assert_eq!(settle_in_disc(center, 5, &Vec::new()), center);
    assert_eq!(settle_in_disc(center, 0, &vec![inside, center, rim]), center);
    assert_eq!(settle_in_disc(center, -1, &vec![center]), center);
}
