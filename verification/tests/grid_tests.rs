use fluid_sim::grid::{cube_fits, gather, NeighborGrid};

fn sample_positions() -> Vec<(isize, isize, isize)> {
    vec![(1, 0, 0), (0, 0, 0), (1, 0, 0), (5, 5, 5), (0, 1, 1)]
}

#[test]
fn new_grid_has_zero_bounds() {
    let grid = NeighborGrid::new(2);
    assert_eq!(grid.mesh_size(), 2);
    assert_eq!(grid.mesh_bound(), &vec![0usize; 9]);
    let empty = NeighborGrid::new(0);
    assert_eq!(empty.mesh_bound(), &vec![0usize]);
}

#[test]
fn mesh_pos_to_index_row_major() {
    let grid = NeighborGrid::new(4);
    assert_eq!(grid.mesh_pos_to_index(0, 0, 0), Some(0));
    assert_eq!(grid.mesh_pos_to_index(1, 2, 3), Some(27));
    assert_eq!(grid.mesh_pos_to_index(3, 3, 3), Some(63));
    assert_eq!(grid.mesh_pos_to_index(0, 0, 1), Some(1));
    assert_eq!(grid.mesh_pos_to_index(0, 1, 0), Some(4));
    assert_eq!(grid.mesh_pos_to_index(1, 0, 0), Some(16));
}

#[test]
fn mesh_pos_to_index_outside() {
    let grid = NeighborGrid::new(4);
    assert_eq!(grid.mesh_pos_to_index(-1, 0, 0), None);
    assert_eq!(grid.mesh_pos_to_index(0, 4, 0), None);
    assert_eq!(grid.mesh_pos_to_index(0, 0, 4), None);
    assert_eq!(grid.mesh_pos_to_index(isize::MIN, isize::MAX, 0), None);
    let empty = NeighborGrid::new(0);
    assert_eq!(empty.mesh_pos_to_index(0, 0, 0), None);
}

#[test]
fn neighbor_sort_is_stable_bucket_sort() {
    let mut grid = NeighborGrid::new(2);
    let order = grid.neighbor_sort(&sample_positions());
    assert_eq!(order, vec![1, 3, 4, 0, 2]);
    assert_eq!(grid.mesh_bound(), &vec![0, 2, 2, 2, 3, 5, 5, 5, 5]);
}

#[test]
fn neighbor_sort_resets_previous_bounds() {
    let mut grid = NeighborGrid::new(2);
    grid.neighbor_sort(&sample_positions());
    let order = grid.neighbor_sort(&vec![(1, 1, 1), (0, 0, 0)]);
    assert_eq!(order, vec![1, 0]);
    assert_eq!(grid.mesh_bound(), &vec![0, 1, 1, 1, 1, 1, 1, 1, 2]);
}

#[test]
fn neighbor_sort_without_cells_keeps_order() {
    let mut grid = NeighborGrid::new(0);
    let order = grid.neighbor_sort(&vec![(3, 0, 0), (0, 0, 0), (-2, 1, 1)]);
    assert_eq!(order, vec![0, 1, 2]);
    assert_eq!(grid.mesh_bound(), &vec![0]);
}

#[test]
fn neighbor_sort_of_no_particles() {
    let mut grid = NeighborGrid::new(3);
    let order = grid.neighbor_sort(&Vec::new());
    assert!(order.is_empty());
    assert_eq!(grid.mesh_bound(), &vec![0usize; 28]);
}

#[test]
fn sorted_order_runs_through_cells_stably() {
    let positions = sample_positions();
    let mut grid = NeighborGrid::new(2);
    let order = grid.neighbor_sort(&positions);
    let cell = |i: usize| {
        let (x, y, z) = positions[i];
        grid.mesh_pos_to_index(x, y, z).unwrap_or(0)
    };
    for k in 0..order.len() {
        for l in k + 1..order.len() {
            let (a, b) = (cell(order[k]), cell(order[l]));
            assert!(a < b || (a == b && order[k] < order[l]));
        }
    }
}

#[test]
fn bucket_slots_hold_their_cell() {
    let positions = sample_positions();
    let mut grid = NeighborGrid::new(2);
    let order = grid.neighbor_sort(&positions);
    let bounds = grid.mesh_bound().clone();
    for c in 0..8 {
        for k in 0..order.len() {
            let (x, y, z) = positions[order[k]];
            let cell = grid.mesh_pos_to_index(x, y, z).unwrap_or(0);
            assert_eq!(bounds[c] <= k && k < bounds[c + 1], cell == c);
        }
    }
}

#[test]
fn local_iter_visits_neighbour_cells() {
    let mut grid = NeighborGrid::new(2);
    grid.neighbor_sort(&sample_positions());
    assert_eq!(grid.local_iter(0, 0, 0), vec![0, 1, 2, 3, 4]);
    assert_eq!(grid.local_iter(1, 1, 1), vec![0, 1, 2, 3, 4]);
    assert_eq!(grid.local_iter(-1, 0, 0), vec![0, 1, 2]);
    assert_eq!(grid.local_iter(1, -1, 0), vec![0, 1, 3, 4]);
    assert_eq!(grid.local_iter(5, 5, 5), Vec::<usize>::new());
}

#[test]
fn local_iter_on_fresh_grid_is_empty() {
    let grid = NeighborGrid::new(3);
    assert!(grid.local_iter(1, 1, 1).is_empty());
}

#[test]
fn local_iter_at_the_edge_of_isize() {
    let mut grid = NeighborGrid::new(2);
    grid.neighbor_sort(&sample_positions());
    assert!(grid.local_iter(isize::MAX, 0, 0).is_empty());
    assert!(grid.local_iter(isize::MIN, isize::MIN, isize::MIN).is_empty());
}

#[test]
fn local_iter_never_repeats_a_slot() {
    let mut grid = NeighborGrid::new(3);
    let positions = vec![
        (0, 0, 0), (1, 1, 1), (2, 2, 2), (1, 1, 1), (0, 2, 1), (2, 0, 0), (9, 9, 9),
    ];
    let order = grid.neighbor_sort(&positions);
    for x in -1..4 {
        for y in -1..4 {
            for z in -1..4 {
                let slots = grid.local_iter(x, y, z);
                for a in 0..slots.len() {
                    assert!(slots[a] < order.len());
                    for b in a + 1..slots.len() {
                        assert_ne!(slots[a], slots[b]);
                    }
                }
            }
        }
    }
}

#[test]
fn gather_follows_order() {
    let items = vec![10, 20, 30, 40, 50];
    assert_eq!(gather(&items, &vec![1, 3, 4, 0, 2]), vec![20, 40, 50, 10, 30]);
    assert_eq!(gather(&items, &vec![]), Vec::<i32>::new());
    assert_eq!(gather(&items, &vec![4, 4]), vec![50, 50]);
}

#[test]
fn cube_fits_limits() {
    assert!(cube_fits(0));
    assert!(cube_fits(1));
    assert!(cube_fits(100));
    assert!(!cube_fits(usize::MAX));
    assert!(!cube_fits(1usize << 32));
    let edge: usize = if usize::BITS == 64 { 2_097_151 } else { 1_290 };
    assert!(cube_fits(edge));
    assert!(!cube_fits(edge + 1));
}
