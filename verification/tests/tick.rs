use particle_life_3d::tick::{admit_tick, Refusal};

#[test]
fn step_is_admitted_with_the_layout_of_its_table() {
    let layout = admit_tick(true, 5, 25, &vec![0, 4, 2, 2, 1]).unwrap();
    assert_eq!(layout.id_count(), 5);
    assert_eq!(layout.len(), 25);
    assert_eq!(layout.slot(4, 2), 22);
}

#[test]
fn step_without_particles_is_admitted() {
    assert!(admit_tick(true, 3, 9, &Vec::new()).is_ok());
    assert!(admit_tick(true, 0, 0, &Vec::new()).is_ok());
}

#[test]
fn world_narrower_than_two_radii_is_refused() {
    assert_eq!(admit_tick(false, 5, 25, &vec![0, 1]).err(), Some(Refusal::WorldTooSmall));
}

#[test]
fn world_is_looked_at_before_the_table_and_the_types() {
    assert_eq!(admit_tick(false, 5, 24, &vec![9]).err(), Some(Refusal::WorldTooSmall));
}

#[test]
fn table_of_the_wrong_length_is_refused() {
    assert_eq!(admit_tick(true, 5, 24, &vec![0, 1]).err(), Some(Refusal::TableShape));
    assert_eq!(admit_tick(true, 5, 26, &vec![0, 1]).err(), Some(Refusal::TableShape));
    assert_eq!(admit_tick(true, 0, 1, &Vec::new()).err(), Some(Refusal::TableShape));
}

#[test]
fn table_is_looked_at_before_the_types() {
    assert_eq!(admit_tick(true, 2, 5, &vec![7]).err(), Some(Refusal::TableShape));
}

#[test]
fn unknown_type_is_refused() {
    assert_eq!(admit_tick(true, 5, 25, &vec![0, 1, 5]).err(), Some(Refusal::UnknownType));
    assert_eq!(admit_tick(true, 1, 1, &vec![u32::MAX]).err(), Some(Refusal::UnknownType));
    assert_eq!(admit_tick(true, 0, 0, &vec![0]).err(), Some(Refusal::UnknownType));
}
