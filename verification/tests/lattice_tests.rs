use fluid_sim::lattice::neighbor_iter;

#[test]
fn lattice_of_radius_one() {
    let points = neighbor_iter(1);
    assert_eq!(points.len(), 27);
    assert_eq!(points[0], (-1, -1, -1));
    assert_eq!(points[1], (-1, -1, 0));
    assert_eq!(points[3], (-1, 0, -1));
    assert_eq!(points[9], (0, -1, -1));
    assert_eq!(points[13], (0, 0, 0));
    assert_eq!(points[26], (1, 1, 1));
}

#[test]
fn lattice_of_radius_three() {
    let points = neighbor_iter(3);
    assert_eq!(points.len(), 343);
    assert_eq!(points[0], (-3, -3, -3));
    assert_eq!(points[171], (0, 0, 0));
    assert_eq!(points[342], (3, 3, 3));
    let mut expected = Vec::new();
    for x in -3..=3isize {
        for y in -3..=3isize {
            for z in -3..=3isize {
                expected.push((x, y, z));
            }
        }
    }
    assert_eq!(points, expected);
}

#[test]
fn lattice_of_radius_zero_and_negative() {
    assert_eq!(neighbor_iter(0), vec![(0, 0, 0)]);
    assert!(neighbor_iter(-1).is_empty());
}
