use phyzzy::{mass_step, CollisionLayer, MassStep, Model, PhyzzyModelError, Spring};

type MassProps = (f64, f64, (f64, f64));
type SpringProps = (f64, f64, f64);

fn mass(m: f64, r: f64, x: f64, y: f64) -> MassProps {
    (m, r, (x, y))
}

fn spring(r: f64, k: f64, d: f64, m_a: usize, m_b: usize) -> Spring<SpringProps> {
    Spring::new(m_a, m_b, (r, k, d))
}

fn endpoints(model: &Model<MassProps, SpringProps>) -> Vec<(usize, usize)> {
    model.get_springs().iter().map(|s| (s.get_ma(), s.get_mb())).collect()
}

#[test]
fn test_add_spring_out_of_bounds() {
    let mut model: Model<MassProps, SpringProps> = Model::new();
    model.new_mass(mass(1.0, 0.5, 0.0, 0.0));
    let result = model.new_spring(spring(1.0, 0.0, 0.0, 0, 1));

    assert!(result.is_err());
    assert_eq!(
        result.unwrap_err(),
        PhyzzyModelError::OutOfBounds { spring_ma: 0, spring_mb: 1, n_masses: 1 }
    );
}

#[test]
fn test_add_self_connection() {
    let mut model: Model<MassProps, SpringProps> = Model::new();
    model.new_mass(mass(1.0, 0.5, 0.0, 0.0));

    let result = model.new_spring(spring(1.0, 0.0, 0.0, 0, 0));

    assert_eq!(result.unwrap_err(), PhyzzyModelError::SelfConnection(0));
}

#[test]
fn test_remove_mass_cleans_springs() {
    let mut model: Model<MassProps, SpringProps> = Model::new();
    model.new_mass(mass(1.0, 0.1, 0.0, 0.0));
    model.new_mass(mass(1.0, 0.1, 1.0, 0.0));
    model.new_mass(mass(1.0, 0.1, 2.0, 0.0));

    let ins_result = model.new_spring(spring(1.0, 50.0, 0.0, 1, 2));

    model.del_mass(1);

    assert!(ins_result.is_ok());
    assert_eq!(model.get_springs().len(), 0);
}

#[test]
fn new_mass_returns_the_count() {
    let mut model: Model<MassProps, SpringProps> = Model::new();
    assert_eq!(model.new_mass(mass(1.0, 0.1, 0.0, 0.0)), 1);
    assert_eq!(model.new_mass(mass(2.0, 0.1, 1.0, 0.0)), 2);
    assert_eq!(model.get_masses().len(), 2);
    assert_eq!(model.get_mass(1).0, 2.0);
}

#[test]
fn new_spring_returns_the_count_and_keeps_props() {
    let mut model: Model<MassProps, SpringProps> = Model::new();
    for i in 0..3 {
        model.new_mass(mass(1.0, 0.1, i as f64, 0.0));
    }
    assert_eq!(model.new_spring(spring(1.0, 2.0, 3.0, 0, 1)), Ok(1));
    assert_eq!(model.new_spring(spring(4.0, 5.0, 6.0, 2, 1)), Ok(2));
    assert_eq!(endpoints(&model), vec![(0, 1), (2, 1)]);
    assert_eq!(*model.get_spring(1).get_props(), (4.0, 5.0, 6.0));
}

#[test]
fn self_connection_is_checked_before_bounds() {
    let mut model: Model<MassProps, SpringProps> = Model::new();
    let result = model.new_spring(spring(1.0, 0.0, 0.0, 7, 7));
    assert_eq!(result, Err(PhyzzyModelError::SelfConnection(7)));
    assert_eq!(model.get_springs().len(), 0);
}

#[test]
fn out_of_bounds_second_end() {
    let mut model: Model<MassProps, SpringProps> = Model::new();
    model.new_mass(mass(1.0, 0.1, 0.0, 0.0));
    model.new_mass(mass(1.0, 0.1, 0.0, 0.0));
    let result = model.new_spring(spring(1.0, 0.0, 0.0, 1, 2));
    assert_eq!(
        result,
        Err(PhyzzyModelError::OutOfBounds { spring_ma: 1, spring_mb: 2, n_masses: 2 })
    );
}

#[test]
fn del_mass_moves_last_mass_and_renumbers_springs() {
    let mut model: Model<MassProps, SpringProps> = Model::new();
    for i in 0..4 {
        model.new_mass(mass(1.0, 0.1, i as f64, 0.0));
    }
    // springs: 0-1, 1-3, 2-3, 0-2, 3-0
    model.new_spring(spring(1.0, 0.0, 0.0, 0, 1)).unwrap();
    model.new_spring(spring(2.0, 0.0, 0.0, 1, 3)).unwrap();
    model.new_spring(spring(3.0, 0.0, 0.0, 2, 3)).unwrap();
    model.new_spring(spring(4.0, 0.0, 0.0, 0, 2)).unwrap();
    model.new_spring(spring(5.0, 0.0, 0.0, 3, 0)).unwrap();

    model.del_mass(1);

    // Mass 3 now sits at index 1.
    assert_eq!(model.get_masses().len(), 3);
    assert_eq!((model.get_mass(1).2).0, 3.0);
    // Springs 0 and 1 were attached to mass 1. Removing index 1 then index 0
    // with swap_remove leaves [0-2, 3-0, 2-3]; mass 3 becomes mass 1.
    assert_eq!(endpoints(&model), vec![(0, 2), (1, 0), (2, 1)]);
    let rest: Vec<f64> = model.get_springs().iter().map(|s| s.get_props().0).collect();
    assert_eq!(rest, vec![4.0, 5.0, 3.0]);
}

#[test]
fn del_mass_of_last_mass() {
    let mut model: Model<MassProps, SpringProps> = Model::new();
    for i in 0..3 {
        model.new_mass(mass(1.0, 0.1, i as f64, 0.0));
    }
    model.new_spring(spring(1.0, 0.0, 0.0, 0, 2)).unwrap();
    model.new_spring(spring(2.0, 0.0, 0.0, 0, 1)).unwrap();
    model.del_mass(2);
    assert_eq!(model.get_masses().len(), 2);
    assert_eq!(endpoints(&model), vec![(0, 1)]);
}

#[test]
fn del_mass_out_of_range_changes_nothing() {
    let mut model: Model<MassProps, SpringProps> = Model::new();
    model.new_mass(mass(1.0, 0.1, 0.0, 0.0));
    model.new_mass(mass(1.0, 0.1, 1.0, 0.0));
    model.new_spring(spring(1.0, 0.0, 0.0, 0, 1)).unwrap();
    model.del_mass(2);
    assert_eq!(model.get_masses().len(), 2);
    assert_eq!(endpoints(&model), vec![(0, 1)]);
}

#[test]
fn del_spring_swaps_in_the_last() {
    let mut model: Model<MassProps, SpringProps> = Model::new();
    for i in 0..3 {
        model.new_mass(mass(1.0, 0.1, i as f64, 0.0));
    }
    model.new_spring(spring(1.0, 0.0, 0.0, 0, 1)).unwrap();
    model.new_spring(spring(1.0, 0.0, 0.0, 1, 2)).unwrap();
    model.new_spring(spring(1.0, 0.0, 0.0, 2, 0)).unwrap();
    model.del_spring(0);
    assert_eq!(endpoints(&model), vec![(2, 0), (1, 2)]);
    model.del_spring(5);
    assert_eq!(endpoints(&model), vec![(2, 0), (1, 2)]);
}

#[test]
fn toggles_flip_and_flip_back() {
    let mut model: Model<MassProps, SpringProps> = Model::new();
    assert!(!model.ignores_gravity());
    model.toggle_g();
    assert!(model.ignores_gravity());
    model.toggle_g();
    assert!(!model.ignores_gravity());
    assert!(!model.wave_reversed());
    model.toggle_wave_dir();
    assert!(model.wave_reversed());
    model.toggle_wave_dir();
    assert!(!model.wave_reversed());
}

#[test]
fn set_mass_and_spring_props_replace_payloads() {
    let mut model: Model<MassProps, SpringProps> = Model::new();
    model.new_mass(mass(1.0, 0.1, 0.0, 0.0));
    model.new_mass(mass(1.0, 0.1, 1.0, 0.0));
    model.new_spring(spring(1.0, 0.0, 0.0, 0, 1)).unwrap();
    model.set_mass(0, mass(9.0, 0.2, 5.0, 5.0));
    model.set_spring_props(0, (7.0, 8.0, 9.0));
    assert_eq!(*model.get_mass(0), (9.0, 0.2, (5.0, 5.0)));
    assert_eq!(*model.get_spring(0).get_props(), (7.0, 8.0, 9.0));
    assert_eq!(endpoints(&model), vec![(0, 1)]);
}

#[test]
fn collision_layer_push_is_idempotent() {
    let mut layer = CollisionLayer::new();
    layer.push_mass(3);
    layer.push_mass(1);
    layer.push_mass(3);
    layer.push_spring(0);
    layer.push_spring(0);
    assert_eq!(*layer.masses(), vec![3, 1]);
    assert_eq!(*layer.springs(), vec![0]);
}

#[test]
fn model_collision_layers() {
    let mut model: Model<MassProps, SpringProps> = Model::new();
    model.new_collision_layer();
    model.new_collision_layer();
    model.mass_to_collision_layer(1, 4);
    model.mass_to_collision_layer(1, 4);
    model.spring_to_collision_layer(0, 2);
    let layers = model.get_collision_layers();
    assert_eq!(layers.len(), 2);
    assert_eq!(*layers[0].masses(), Vec::<usize>::new());
    assert_eq!(*layers[0].springs(), vec![2]);
    assert_eq!(*layers[1].masses(), vec![4]);
}

fn all_touching(n: usize) -> Vec<Vec<bool>> {
    vec![vec![true; n]; n]
}

#[test]
fn collisions_are_reported_once_and_never_with_itself() {
    let mut model: Model<MassProps, SpringProps> = Model::new();
    for i in 0..3 {
        model.new_mass(mass(1.0, 0.5, i as f64, 0.0));
    }
    model.new_collision_layer();
    model.mass_to_collision_layer(0, 2);
    model.mass_to_collision_layer(0, 0);
    let pairs = model.find_collisions(&all_touching(3));
    // Mass 0 meets 2; mass 2's meeting with 0 was already found; mass 1 is on no layer.
    assert_eq!(pairs, vec![(0, 2)]);
}

#[test]
fn collisions_follow_the_order_of_the_layer() {
    let mut model: Model<MassProps, SpringProps> = Model::new();
    for i in 0..3 {
        model.new_mass(mass(1.0, 0.5, i as f64, 0.0));
    }
    model.new_collision_layer();
    model.mass_to_collision_layer(0, 0);
    model.mass_to_collision_layer(0, 2);
    model.mass_to_collision_layer(0, 1);
    assert_eq!(model.find_collisions(&all_touching(3)), vec![(0, 2), (0, 1), (1, 2)]);
}

#[test]
fn a_pair_on_two_layers_is_reported_once() {
    let mut model: Model<MassProps, SpringProps> = Model::new();
    for i in 0..2 {
        model.new_mass(mass(1.0, 0.5, i as f64, 0.0));
    }
    model.new_collision_layer();
    model.new_collision_layer();
    model.mass_to_collision_layer(0, 0);
    model.mass_to_collision_layer(0, 1);
    model.mass_to_collision_layer(1, 1);
    model.mass_to_collision_layer(1, 0);
    assert_eq!(model.find_collisions(&all_touching(2)), vec![(0, 1)]);
}

#[test]
fn single_mass_on_a_layer_collides_with_nothing() {
    let mut model: Model<MassProps, SpringProps> = Model::new();
    model.new_mass(mass(1.0, 0.5, 0.0, 0.0));
    model.new_collision_layer();
    model.mass_to_collision_layer(0, 0);
    assert_eq!(model.find_collisions(&vec![vec![true]]), Vec::<(usize, usize)>::new());
}

#[test]
fn collisions_on_any_shared_layer() {
    let mut model: Model<MassProps, SpringProps> = Model::new();
    for i in 0..2 {
        model.new_mass(mass(1.0, 0.5, i as f64, 0.0));
    }
    for _ in 0..3 {
        model.new_collision_layer();
    }
    model.mass_to_collision_layer(0, 0);
    model.mass_to_collision_layer(1, 1);
    model.mass_to_collision_layer(2, 0);
    model.mass_to_collision_layer(2, 1);
    assert_eq!(model.find_collisions(&all_touching(2)), vec![(0, 1)]);
}

#[test]
fn collisions_follow_contacts_and_layers() {
    let mut model: Model<MassProps, SpringProps> = Model::new();
    for i in 0..4 {
        model.new_mass(mass(1.0, 0.5, i as f64, 0.0));
    }
    model.new_collision_layer();
    model.new_collision_layer();
    model.mass_to_collision_layer(0, 1);
    model.mass_to_collision_layer(0, 2);
    model.mass_to_collision_layer(1, 2);
    model.mass_to_collision_layer(1, 3);
    let mut touching = vec![vec![false; 4]; 4];
    touching[1][2] = true;
    touching[2][1] = true;
    touching[2][3] = true;
    touching[3][2] = true;
    touching[1][3] = true;
    touching[3][1] = true;
    let pairs = model.find_collisions(&touching);
    // 1 and 3 touch but share no layer.
    assert_eq!(pairs, vec![(1, 2), (2, 3)]);
}

#[test]
fn one_sided_contact_is_reported_from_the_side_that_sees_it() {
    let mut model: Model<MassProps, SpringProps> = Model::new();
    for i in 0..2 {
        model.new_mass(mass(1.0, 0.5, i as f64, 0.0));
    }
    model.new_collision_layer();
    model.mass_to_collision_layer(0, 0);
    model.mass_to_collision_layer(0, 1);
    let touching = vec![vec![false, false], vec![true, false]];
    assert_eq!(model.find_collisions(&touching), vec![(1, 0)]);
}

#[test]
fn error_messages() {
    assert_eq!(
        PhyzzyModelError::SelfConnection(12).message(),
        "Spring cannot connect mass 12 to itself"
    );
    assert_eq!(
        PhyzzyModelError::OutOfBounds { spring_ma: 0, spring_mb: 10, n_masses: 1 }.message(),
        "Spring indices (0, 10) out of bounds (n_masses = 1)"
    );
}

#[test]
fn mass_step_decisions() {
    assert_eq!(mass_step(true, true, true), MassStep::Skip);
    assert_eq!(mass_step(false, true, true), MassStep::Hold);
    assert_eq!(mass_step(false, false, true), MassStep::Stop);
    assert_eq!(mass_step(false, false, false), MassStep::Integrate);
}
