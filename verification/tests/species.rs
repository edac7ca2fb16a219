use boids::species::Color;
use boids::species::CreatureType;
use boids::species::DespawnProperties;
use boids::species::FactorInfo;
use boids::species::Factors;
use boids::species::Features;
use boids::species::SimState;
use boids::species::SpawnProperties;

fn sorted(mut ids: Vec<usize>) -> Vec<usize> {
    ids.sort();
    ids
}

#[test]
fn species_are_shown_as_type_and_number() {
    assert_eq!(CreatureType(0).to_string(), "Type 0");
    assert_eq!(CreatureType(7).to_string(), "Type 7");
    assert_eq!(CreatureType(10).to_string(), "Type 10");
    assert_eq!(CreatureType(1203).to_string(), "Type 1203");
    assert_eq!(CreatureType(usize::MAX).to_string(), format!("Type {}", usize::MAX));
}

#[test]
fn species_convert_from_their_number() {
    assert_eq!(CreatureType::from(4), CreatureType(4));
    assert_eq!(CreatureType::default(), CreatureType(0));
}

#[test]
fn default_features_steer_and_nothing_else() {
    let f = Features::default();
    assert!(f.chasing && f.running && f.flocking);
    assert!(!f.killing && !f.reproduction && !f.energy_draining);
}

#[test]
fn pause_toggles() {
    assert_eq!(SimState::default(), SimState::Running);
    assert_eq!(SimState::Running.toggled(), SimState::Paused);
    assert_eq!(SimState::Paused.toggled(), SimState::Running);
}

#[test]
fn default_properties() {
    assert_eq!(SpawnProperties::default(), SpawnProperties { amount: 10, radius: 10_000 });
    assert_eq!(DespawnProperties::default(), DespawnProperties { radius: 100_000 });
}

#[test]
fn default_factors() {
    let f = Factors::default();
    assert_eq!(f.color, Color { r: 255, g: 20, b: 147 });
    assert_eq!(
        (f.speed, f.vision, f.size, f.cohesion, f.separation, f.alignment),
        (70_000, 15_000, 6_000, 1_000, 1_000, 3_000)
    );
    assert_eq!((f.collision_avoidance, f.scare, f.chase), (4_000, 5_000, 5_000));
    assert_eq!((f.max_energy, f.fertility_cooldown), (100_000_000, 15_000_000));
    assert!(f.prey_list().is_empty());
}

#[test]
fn predators_are_set_and_unset() {
    let mut f = Factors::default();
    assert!(!f.preys_on(CreatureType(3)));
    f.set_predator(CreatureType(3), true);
    f.set_predator(CreatureType(1), true);
    f.set_predator(CreatureType(3), true);
    assert!(f.preys_on(CreatureType(3)));
    assert!(f.preys_on(CreatureType(1)));
    assert!(!f.preys_on(CreatureType(2)));
    assert_eq!(sorted(f.prey_list()), vec![1, 3]);
    f.set_predator(CreatureType(3), false);
    f.set_predator(CreatureType(9), false);
    assert!(!f.preys_on(CreatureType(3)));
    assert_eq!(f.prey_list(), vec![1]);
    assert_eq!(f.speed, 70_000);
}

#[test]
fn forgetting_renumbers_the_hunted() {
    let mut f = Factors::default();
    for t in [0usize, 2, 3, 5, 9] {
        f.set_predator(CreatureType(t), true);
    }
    f.forget_species(CreatureType(3));
    assert_eq!(sorted(f.prey_list()), vec![0, 2, 4, 8]);
    f.forget_species(CreatureType(1));
    assert_eq!(sorted(f.prey_list()), vec![0, 1, 3, 7]);
    f.forget_species(CreatureType(0));
    assert_eq!(sorted(f.prey_list()), vec![0, 2, 6]);
    f.forget_species(CreatureType(100));
    assert_eq!(sorted(f.prey_list()), vec![0, 2, 6]);
}

#[test]
fn initial_table_has_three_species() {
    let table = FactorInfo::initial();
    assert_eq!(table.len(), 3);
    let prey = table.get(CreatureType(0));
    assert_eq!((prey.speed, prey.vision, prey.size), (70_000, 20_000, 1_000));
    assert_eq!((prey.cohesion, prey.separation, prey.alignment), (1_000, 1_000, 3_000));
    assert_eq!((prey.collision_avoidance, prey.scare, prey.chase), (3_500, 10_000, 0));
    assert_eq!((prey.max_energy, prey.fertility_cooldown), (50_000_000, 10_000_000));
    assert_eq!(prey.color, Color { r: 0, g: 255, b: 255 });
    assert!(prey.prey_list().is_empty());
    let hunter = table.get(CreatureType(1));
    assert_eq!((hunter.speed, hunter.vision, hunter.size), (60_000, 30_000, 3_000));
    assert_eq!((hunter.cohesion, hunter.separation, hunter.alignment), (500, 500, 2_000));
    assert_eq!((hunter.collision_avoidance, hunter.scare, hunter.chase), (2_000, 0, 2_000));
    assert_eq!((hunter.max_energy, hunter.fertility_cooldown), (35_000_000, 20_000_000));
    assert_eq!(sorted(hunter.prey_list()), vec![0, 2]);
    let stalker = table.get(CreatureType(2));
    assert_eq!((stalker.speed, stalker.vision, stalker.size), (65_000, 25_000, 2_000));
    assert_eq!((stalker.cohesion, stalker.separation, stalker.alignment), (750, 750, 2_500));
    assert_eq!((stalker.collision_avoidance, stalker.scare, stalker.chase), (3_000, 5_000, 1_000));
    assert_eq!((stalker.max_energy, stalker.fertility_cooldown), (50_000_000, 15_000_000));
    assert_eq!(stalker.prey_list(), vec![0]);
}

#[test]
fn species_are_added_at_the_end() {
    let mut table = FactorInfo::new();
    assert_eq!(table.len(), 0);
    assert_eq!(table.add_species(Factors::default()), CreatureType(0));
    let mut second = Factors::default();
    second.speed = 5;
    assert_eq!(table.add_species(second), CreatureType(1));
    assert_eq!(table.len(), 2);
    assert_eq!(table.get(CreatureType(1)).speed, 5);
    assert_eq!(table.get(CreatureType(0)).speed, 70_000);
}

#[test]
fn removing_a_species_shifts_the_table_and_the_hunted() {
    let mut table = FactorInfo::initial();
    table.remove_species(CreatureType(0));
    assert_eq!(table.len(), 2);
    assert_eq!(table.get(CreatureType(0)).speed, 60_000);
    assert_eq!(table.get(CreatureType(0)).prey_list(), vec![1]);
    assert_eq!(table.get(CreatureType(1)).speed, 65_000);
    assert!(table.get(CreatureType(1)).prey_list().is_empty());

    let mut table = FactorInfo::initial();
    table.remove_species(CreatureType(2));
    assert_eq!(table.len(), 2);
    assert_eq!(table.get(CreatureType(0)).speed, 70_000);
    assert_eq!(table.get(CreatureType(1)).speed, 60_000);
    assert_eq!(table.get(CreatureType(1)).prey_list(), vec![0]);

    let mut table = FactorInfo::initial();
    table.remove_species(CreatureType(1));
    assert_eq!(table.get(CreatureType(1)).speed, 65_000);
    assert_eq!(table.get(CreatureType(1)).prey_list(), vec![0]);
}
