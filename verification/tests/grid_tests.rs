use aurora::grid::{split_for_workers, Axis, GridDims};

#[test]
fn dims_validation() {
    let d = GridDims::new(4, 5, 6).unwrap();
    assert_eq!(d, GridDims { nx: 4, ny: 5, nz: 6 });
    assert!(GridDims::new(0, 5, 6).is_none());
    assert!(GridDims::new(4, 0, 6).is_none());
    assert!(GridDims::new(4, 5, 0).is_none());
    assert!(GridDims::new(usize::MAX, usize::MAX, 2).is_none());
    assert_eq!(d.total(), 120);
}

#[test]
fn cell_index_is_x_then_y_then_z() {
    let d = GridDims::new(4, 5, 6).unwrap();
    assert_eq!(d.cell_index(0, 0, 0), 0);
    assert_eq!(d.cell_index(1, 0, 0), 1);
    assert_eq!(d.cell_index(0, 1, 0), 4);
    assert_eq!(d.cell_index(0, 0, 1), 20);
    assert_eq!(d.cell_index(3, 4, 5), 3 + 4 * 4 + 5 * 20);
}

#[test]
fn cell_coordinates_match_flat_order() {
    let d = GridDims::new(2, 2, 2).unwrap();
    let coords = d.cell_coordinates();
    assert_eq!(
        coords,
        vec![
            (0, 0, 0),
            (1, 0, 0),
            (0, 1, 0),
            (1, 1, 0),
            (0, 0, 1),
            (1, 0, 1),
            (0, 1, 1),
            (1, 1, 1),
        ]
    );
    for (i, &(x, y, z)) in coords.iter().enumerate() {
        assert_eq!(d.cell_index(x, y, z), i);
    }
}

#[test]
fn shuffled_coordinates_keep_the_same_cells() {
    let d = GridDims::new(3, 4, 5).unwrap();
    let mut plain = d.cell_coordinates();
    let mut shuffled = d.shuffled_cell_coordinates();
    plain.sort();
    shuffled.sort();
    assert_eq!(plain, shuffled);
}

#[test]
fn split_keeps_every_coordinate() {
    let d = GridDims::new(3, 3, 3).unwrap();
    let cells = d.cell_coordinates();
    for workers in [1usize, 2, 4, 7, 27, 100] {
        let parts = split_for_workers(cells.clone(), workers);
        assert_eq!(parts.len(), workers);
        let mut gathered: Vec<(usize, usize, usize)> =
            parts.into_iter().flatten().collect();
        gathered.sort();
        let mut expected = cells.clone();
        expected.sort();
        assert_eq!(gathered, expected);
    }
}

#[test]
fn grid_work_division_keeps_every_coordinate() {
    let d = GridDims::new(2, 3, 4).unwrap();
    let parts = d.divide_grid_work();
    assert!(parts.len() >= 1);
    let mut gathered: Vec<(usize, usize, usize)> = parts.into_iter().flatten().collect();
    gathered.sort();
    let mut expected = d.cell_coordinates();
    expected.sort();
    assert_eq!(gathered, expected);
}

#[test]
fn collect_cells_places_cells_by_coordinate() {
    let d = GridDims::new(2, 2, 1).unwrap();
    // pairs arrive in an arbitrary order, as from worker threads
    let pairs = vec![
        ((1usize, 0usize, 0usize), 10usize),
        ((0, 1, 0), 20),
        ((1, 1, 0), 30),
        ((0, 0, 0), 40),
    ];
    let cells = d.collect_cells(pairs).unwrap();
    assert_eq!(cells, vec![40, 10, 20, 30]);
}

#[test]
fn collect_cells_rejects_bad_pair_sets() {
    let d = GridDims::new(2, 1, 1).unwrap();
    // a duplicate coordinate
    assert!(d
        .collect_cells(vec![((0usize, 0usize, 0usize), 1usize), ((0, 0, 0), 2)])
        .is_none());
    // a missing coordinate
    assert!(d.collect_cells(vec![((0usize, 0usize, 0usize), 1usize)]).is_none());
    // a coordinate outside the grid
    assert!(d
        .collect_cells(vec![
            ((0usize, 0usize, 0usize), 1usize),
            ((1, 0, 0), 2),
            ((2, 0, 0), 3),
        ])
        .is_none());
}

#[test]
fn step_directions_and_sentinels() {
    let d = GridDims::new(4, 5, 6).unwrap();
    assert_eq!(d.get_step_directions((true, false, true)), (1, -1, 1));
    assert_eq!(d.get_step_out_values((true, false, true)), (4, -1, 6));
    assert_eq!(d.get_step_directions((false, true, false)), (-1, 1, -1));
    assert_eq!(d.get_step_out_values((false, true, false)), (-1, 5, -1));
}

#[test]
fn stepping_walks_until_the_ray_leaves() {
    let d = GridDims::new(3, 1, 1).unwrap();
    let dir = (true, true, true);
    let step = d.get_step_directions(dir);
    let just_out = d.get_step_out_values(dir);
    let p1 = d.step_cell((0, 0, 0), Axis::X, dir, step, just_out).unwrap();
    assert_eq!(p1, (1, 0, 0));
    let p2 = d.step_cell(p1, Axis::X, dir, step, just_out).unwrap();
    assert_eq!(p2, (2, 0, 0));
    assert!(d.step_cell(p2, Axis::X, dir, step, just_out).is_none());
    assert!(d.step_cell(p2, Axis::Y, dir, step, just_out).is_none());

    let down = (false, true, true);
    let step = d.get_step_directions(down);
    let just_out = d.get_step_out_values(down);
    let q = d.step_cell((1, 0, 0), Axis::X, down, step, just_out).unwrap();
    assert_eq!(q, (0, 0, 0));
    assert!(d.step_cell(q, Axis::X, down, step, just_out).is_none());
}
