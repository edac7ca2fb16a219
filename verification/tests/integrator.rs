use boids::agents::Agent;
use boids::agents::AgentStore;
use boids::agents::Energy;
use boids::agents::Fertility;
use boids::fixed::Vec2;
use boids::fixed::UNIT;
use boids::forces::ForceIntent;
use boids::integrator::advance;
use boids::integrator::apply_forces;
use boids::integrator::move_agents;
use boids::integrator::wrap_borders;
use boids::integrator::wrap_coordinate;
use boids::species::CreatureType;
use boids::species::FactorInfo;

fn agent(x: i32, y: i32, hx: i32, hy: i32, species: usize) -> Agent {
    Agent {
        position: Vec2::new(x, y),
        heading: Vec2::new(hx, hy),
        species: CreatureType(species),
        energy: Energy(10_000_000),
        fertility: Fertility { time_till_fertile: 5_000_000, amount: 1 },
    }
}

fn store(agents: &[Agent]) -> AgentStore {
    let mut store = AgentStore::new();
    for a in agents.iter() {
        store.insert(*a);
    }
    store
}

fn norm2(v: Vec2) -> i128 {
    (v.x as i128) * (v.x as i128) + (v.y as i128) * (v.y as i128)
}

fn is_unit(v: Vec2) -> bool {
    let low = (UNIT as i128 - 3) * (UNIT as i128 - 3);
    let high = (UNIT as i128 + 1) * (UNIT as i128 + 1);
    low <= norm2(v) && norm2(v) <= high
}

#[test]
fn intent_turns_the_heading_by_weight_times_time() {
    let mut agents = store(&[agent(0, 0, UNIT, 0, 0)]);
    let intents = vec![ForceIntent { agent: 0, direction: Vec2::new(0, UNIT), weight: 3_000 }];
    apply_forces(&mut agents, &intents, 16_000);
    let after = agents.get(0).unwrap();
    assert_eq!(after.heading, Vec2::new(998_731, 50_356));
    assert_eq!(after.position, Vec2::new(0, 0));
    assert_eq!(after.energy, Energy(10_000_000));
}

#[test]
fn intents_apply_one_after_the_other() {
    let north = ForceIntent { agent: 0, direction: Vec2::new(0, UNIT), weight: 3_000 };
    let west = ForceIntent { agent: 0, direction: Vec2::new(-UNIT, 0), weight: 20_000 };
    let mut first = store(&[agent(0, 0, UNIT, 0, 0)]);
    apply_forces(&mut first, &vec![north, west], 16_000);
    let mut stepwise = store(&[agent(0, 0, UNIT, 0, 0)]);
    apply_forces(&mut stepwise, &vec![north], 16_000);
    apply_forces(&mut stepwise, &vec![west], 16_000);
    assert_eq!(first.get(0), stepwise.get(0));
    // The result depends on the order of the intents.
    let mut second = store(&[agent(0, 0, UNIT, 0, 0)]);
    apply_forces(&mut second, &vec![west, north], 16_000);
    assert_ne!(first.get(0).unwrap().heading, second.get(0).unwrap().heading);
}

#[test]
fn intent_for_a_missing_agent_is_dropped() {
    let mut agents = store(&[agent(0, 0, UNIT, 0, 0), agent(5, 5, 0, UNIT, 0)]);
    agents.remove(1);
    let intents = vec![
        ForceIntent { agent: 1, direction: Vec2::new(UNIT, 0), weight: 3_000 },
        ForceIntent { agent: 7, direction: Vec2::new(UNIT, 0), weight: 3_000 },
    ];
    apply_forces(&mut agents, &intents, 16_000);
    assert_eq!(agents.get(0), Some(agent(0, 0, UNIT, 0, 0)));
    assert_eq!(agents.get(1), None);
    assert_eq!(agents.len(), 2);
}

#[test]
fn headings_stay_unit_under_many_intents() {
    let mut agents = store(&[agent(0, 0, UNIT, 0, 0), agent(0, 0, 600_000, -800_000, 0)]);
    let directions = [
        Vec2::new(0, UNIT),
        Vec2::new(-UNIT, 0),
        Vec2::new(707_106, 707_106),
        Vec2::new(-600_000, 800_000),
        Vec2::new(0, -UNIT),
    ];
    let weights = [0, 1, 500, 3_000, 50_000, -2_000, i32::MAX, i32::MIN];
    let times = [0u32, 1, 16_000, 1_000_000, u32::MAX];
    for &direction in directions.iter() {
        for &weight in weights.iter() {
            for &dt in times.iter() {
                let intents = vec![
                    ForceIntent { agent: 0, direction, weight },
                    ForceIntent { agent: 1, direction, weight },
                ];
                apply_forces(&mut agents, &intents, dt);
                assert!(is_unit(agents.get(0).unwrap().heading));
                assert!(is_unit(agents.get(1).unwrap().heading));
            }
        }
    }
}

#[test]
fn advance_covers_heading_times_speed_times_time() {
    assert_eq!(advance(0, UNIT, 70_000, 16_000), 1_120);
    assert_eq!(advance(100, 600_000, 70_000, 16_000), 772);
    assert_eq!(advance(100, -600_000, 70_000, 16_000), -572);
    assert_eq!(advance(0, 800_000, 70_000, 16_000), 896);
    assert_eq!(advance(5, 1, 1, 1), 5);
    assert_eq!(advance(5, -999_999, 999, 1_000), 5);
    assert_eq!(advance(5, UNIT, 70_000, 0), 5);
}

#[test]
fn advance_stops_at_the_end_of_the_range() {
    assert_eq!(advance(i32::MAX - 5, UNIT, 70_000, 16_000), i32::MAX);
    assert_eq!(advance(i32::MIN + 5, -UNIT, 70_000, 16_000), i32::MIN);
    assert_eq!(advance(0, UNIT, i32::MAX, u32::MAX), i32::MAX);
    assert_eq!(advance(0, UNIT, i32::MIN, u32::MAX), i32::MIN);
}

#[test]
fn move_uses_the_speed_of_the_species() {
    let table = FactorInfo::initial();
    let mut agents = store(&[
        agent(0, 0, UNIT, 0, 0),
        agent(0, 0, 0, UNIT, 1),
        agent(10, 20, -600_000, 800_000, 2),
    ]);
    agents.remove(1);
    move_agents(&mut agents, &table, 16_000);
    assert_eq!(agents.get(0).unwrap().position, Vec2::new(1_120, 0));
    assert_eq!(agents.get(1), None);
    assert_eq!(agents.get(2).unwrap().position, Vec2::new(10 - 624, 20 + 832));
    assert_eq!(agents.get(2).unwrap().heading, Vec2::new(-600_000, 800_000));
}

#[test]
fn wrap_sets_down_inside_the_other_border() {
    assert_eq!(wrap_coordinate(800_001, 800_000), -799_000);
    assert_eq!(wrap_coordinate(900_000, 800_000), -799_000);
    assert_eq!(wrap_coordinate(-800_001, 800_000), 799_000);
    assert_eq!(wrap_coordinate(-900_000, 800_000), 799_000);
    assert_eq!(wrap_coordinate(800_000, 800_000), 800_000);
    assert_eq!(wrap_coordinate(-800_000, 800_000), -800_000);
    assert_eq!(wrap_coordinate(0, 800_000), 0);
    assert_eq!(wrap_coordinate(i32::MAX, i32::MAX), i32::MAX);
    assert_eq!(wrap_coordinate(i32::MIN, i32::MAX), i32::MAX - 1_000);
    assert_eq!(wrap_coordinate(1, 0), 1_000);
    assert_eq!(wrap_coordinate(0, 0), 0);
}

#[test]
fn wrap_brings_every_agent_into_the_world() {
    let width = 1_600_000;
    let height = 900_000;
    let coordinates = [
        i32::MIN,
        -800_001,
        -800_000,
        -799_999,
        -450_000,
        -1,
        0,
        449_999,
        450_000,
        800_000,
        i32::MAX,
    ];
    let mut list: Vec<Agent> = Vec::new();
    for &x in coordinates.iter() {
        for &y in coordinates.iter() {
            list.push(agent(x, y, UNIT, 0, 0));
        }
    }
    let mut agents = store(&list);
    wrap_borders(&mut agents, width, height);
    for id in 0..agents.len() {
        let p = agents.get(id).unwrap().position;
        assert!(-800_000 <= p.x && p.x <= 800_000);
        assert!(-450_000 <= p.y && p.y <= 450_000);
    }
    assert_eq!(agents.get(0).unwrap().position, Vec2::new(799_000, 449_000));
    // A second wrap moves nobody.
    let before: Vec<Option<Agent>> = (0..agents.len()).map(|id| agents.get(id)).collect();
    wrap_borders(&mut agents, width, height);
    let after: Vec<Option<Agent>> = (0..agents.len()).map(|id| agents.get(id)).collect();
    assert_eq!(before, after);
}

#[test]
fn wrap_in_a_world_narrower_than_the_margin_leaves_the_world() {
    let mut agents = store(&[agent(401, 0, UNIT, 0, 0)]);
    wrap_borders(&mut agents, 800, 2_000);
    assert_eq!(agents.get(0).unwrap().position, Vec2::new(600, 0));
}

#[test]
fn wrap_uses_half_of_odd_sizes_rounded_down() {
    let mut agents = store(&[agent(501, -501, UNIT, 0, 0), agent(500, -500, UNIT, 0, 0)]);
    wrap_borders(&mut agents, 1_003, 1_003);
    assert_eq!(agents.get(0).unwrap().position, Vec2::new(501, -501));
    assert_eq!(agents.get(1).unwrap().position, Vec2::new(500, -500));
    wrap_borders(&mut agents, 1_001, 1_001);
    assert_eq!(agents.get(0).unwrap().position, Vec2::new(500, -500));
    assert_eq!(agents.get(1).unwrap().position, Vec2::new(500, -500));
}

#[test]
fn unit_directions_are_recognized() {
    let good = ForceIntent { agent: 0, direction: Vec2::new(0, -UNIT), weight: 1 };
    let bad = ForceIntent { agent: 0, direction: Vec2::new(5, 5), weight: 1 };
    assert!(boids::integrator::all_directions_unit(&Vec::new()));
    assert!(boids::integrator::all_directions_unit(&vec![good, good]));
    assert!(!boids::integrator::all_directions_unit(&vec![good, bad, good]));
}

#[test]
fn interleaving_of_different_agents_does_not_matter() {
    let a1 = ForceIntent { agent: 0, direction: Vec2::new(0, UNIT), weight: 3_000 };
    let a2 = ForceIntent { agent: 0, direction: Vec2::new(-UNIT, 0), weight: 20_000 };
    let b1 = ForceIntent { agent: 1, direction: Vec2::new(600_000, 800_000), weight: 9_000 };
    let b2 = ForceIntent { agent: 1, direction: Vec2::new(0, -UNIT), weight: 1_000 };
    let start = [agent(0, 0, UNIT, 0, 0), agent(0, 0, 0, UNIT, 0)];
    let mut blocks = store(&start);
    apply_forces(&mut blocks, &vec![a1, a2, b1, b2], 16_000);
    for queue in [vec![b1, b2, a1, a2], vec![a1, b1, a2, b2], vec![b1, a1, b2, a2], vec![b1, a1, a2, b2]] {
        let mut mixed = store(&start);
        apply_forces(&mut mixed, &queue, 16_000);
        assert_eq!(mixed.get(0), blocks.get(0));
        assert_eq!(mixed.get(1), blocks.get(1));
    }
    let mut swapped = store(&start);
    apply_forces(&mut swapped, &vec![a2, a1, b1, b2], 16_000);
    assert_ne!(swapped.get(0), blocks.get(0));
    assert_eq!(swapped.get(1), blocks.get(1));
}
