use lod_cloud_draw::spatial::{all_points, cells_fit, Blocking, Cell, Neighbours};

fn ids(points: &[(usize, f64, f64)]) -> Vec<usize> {
    points.iter().map(|p| p.0).collect()
}

fn sample() -> (Vec<f64>, Vec<Cell>) {
    let xs = vec![0.5, 0.5, 1.5, 0.5, 2.5, 2.5, 0.25, 0.75, f64::NAN, 1.0, 1.5, 1.5];
    let cells = vec![Some((0, 0)), Some((1, 0)), Some((2, 2)), Some((0, 0)), None, Some((1, 1))];
    (xs, cells)
}

#[test]
fn points_carry_their_ids_and_coordinates() {
    let all = all_points(&vec![1.0, 2.0, 3.0, 4.0, 5.0]);
    assert_eq!(all, vec![(0, 1.0, 2.0), (1, 3.0, 4.0)]);
    assert!(all_points(&Vec::<f64>::new()).is_empty());
}

#[test]
fn blocks_hold_the_points_of_their_cells() {
    let (xs, cells) = sample();
    let index = Blocking::create(&xs, &cells, 3);
    assert_eq!(index.n_blocks, 3);
    assert_eq!(index.blocks.len(), 3);
    assert_eq!(index.blocks[0][0], vec![(0, 0.5, 0.5), (3, 0.25, 0.75)]);
    assert_eq!(index.blocks[1][0], vec![(1, 1.5, 0.5)]);
    assert_eq!(index.blocks[1][1], vec![(5, 1.5, 1.5)]);
    assert_eq!(index.blocks[2][2], vec![(2, 2.5, 2.5)]);
    assert!(index.blocks[0][1].is_empty());
    let filed: usize = index.blocks.iter().map(|c| c.iter().map(|b| b.len()).sum::<usize>()).sum();
    assert_eq!(filed, 5);
}

#[test]
fn nearby_takes_the_blocks_in_their_order() {
    let xs: Vec<f64> = (0..18).map(|i| i as f64).collect();
    let cells = vec![
        Some((0, 0)),
        Some((0, 1)),
        Some((0, 2)),
        Some((1, 0)),
        Some((1, 1)),
        Some((1, 2)),
        Some((2, 0)),
        Some((2, 1)),
        Some((2, 2)),
    ];
    let index = Blocking::create(&xs, &cells, 3);
    assert_eq!(ids(&index.nearby(Some((1, 1)))), vec![4, 0, 2, 1, 6, 8, 7, 3, 5]);
    assert_eq!(ids(&index.nearby(Some((0, 0)))), vec![0, 4, 3, 1]);
    assert_eq!(ids(&index.nearby(Some((2, 1)))), vec![7, 3, 5, 4, 6, 8]);
    assert_eq!(ids(&index.nearby(Some((0, 2)))), vec![2, 4, 5, 1]);
    assert_eq!(index.nearby(Some((1, 1)))[3], (1, 2.0, 3.0));
}

#[test]
fn nearby_of_a_point_without_a_cell_is_empty() {
    let (xs, cells) = sample();
    let index = Blocking::create(&xs, &cells, 3);
    assert!(index.nearby(None).is_empty());
}

#[test]
fn nearby_leaves_far_points_out() {
    let (xs, cells) = sample();
    let index = Blocking::create(&xs, &cells, 3);
    assert_eq!(ids(&index.nearby(Some((0, 0)))), vec![0, 3, 5, 1]);
    assert_eq!(ids(&index.nearby(Some((2, 2)))), vec![2, 5]);
    assert_eq!(ids(&index.nearby(Some((1, 1)))), vec![5, 0, 3, 2, 1]);
}

#[test]
fn grid_of_touching_cells_finds_every_point() {
    let xs: Vec<f64> = (0..8).map(|i| i as f64).collect();
    let cells = vec![Some((1, 1)), Some((2, 1)), Some((1, 2)), Some((2, 2))];
    let index = Blocking::create(&xs, &cells, 4);
    let exact = all_points(&xs);
    for cell in cells.iter() {
        let mut near = index.nearby(*cell);
        near.sort_by_key(|p| p.0);
        assert_eq!(near, exact);
    }
}

#[test]
fn resolution_decides_how_points_are_found() {
    let (xs, cells) = sample();
    for resolution in [0, 1] {
        let search = Neighbours::build(&xs, &cells, resolution);
        assert!(matches!(search, Neighbours::All(_)));
        assert_eq!(ids(&search.nearby(Some((2, 2)))), vec![0, 1, 2, 3, 4, 5]);
        assert_eq!(ids(&search.nearby(None)), vec![0, 1, 2, 3, 4, 5]);
    }
    let search = Neighbours::build(&xs, &cells, 3);
    assert!(matches!(search, Neighbours::Grid(_)));
    assert_eq!(ids(&search.nearby(Some((2, 2)))), vec![2, 5]);
    assert!(search.nearby(None).is_empty());
}

#[test]
fn grid_of_one_block_holds_everything_with_a_cell() {
    let xs = vec![1.0, 1.0, 2.0, 2.0, 3.0, 3.0];
    let cells = vec![Some((0, 0)), None, Some((0, 0))];
    let index = Blocking::create(&xs, &cells, 1);
    assert_eq!(ids(&index.nearby(Some((0, 0)))), vec![0, 2]);
}

#[test]
fn others_leave_the_point_itself_out() {
    let (xs, cells) = sample();
    let search = Neighbours::build(&xs, &cells, 3);
    assert_eq!(ids(&search.others(0, Some((0, 0)))), vec![3, 5, 1]);
    assert_eq!(ids(&search.others(2, Some((2, 2)))), vec![5]);
    assert_eq!(ids(&search.others(4, Some((2, 2)))), vec![2, 5]);
    assert!(search.others(4, None).is_empty());
    let all = Neighbours::build(&xs, &cells, 1);
    assert_eq!(ids(&all.others(4, None)), vec![0, 1, 2, 3, 5]);
    assert_eq!(ids(&all.others(0, Some((0, 0)))), vec![1, 2, 3, 4, 5]);
    assert_eq!(all.others(0, None)[0], (1, 1.5, 0.5));
}

#[test]
fn near_points_find_each_other() {
    let (xs, cells) = sample();
    let index = Blocking::create(&xs, &cells, 3);
    for i in 0..cells.len() {
        for j in 0..cells.len() {
            if cells[i].is_some() && cells[j].is_some() {
                let i_sees_j = index.nearby(cells[i]).iter().any(|p| p.0 == j);
                let j_sees_i = index.nearby(cells[j]).iter().any(|p| p.0 == i);
                assert_eq!(i_sees_j, j_sees_i);
            }
        }
    }
}

#[test]
fn cells_outside_the_grid_are_found() {
    let (_, cells) = sample();
    assert!(cells_fit(&cells, 3));
    assert!(!cells_fit(&cells, 2));
    assert!(cells_fit(&vec![None, None], 0));
    assert!(!cells_fit(&vec![Some((0, 5))], 5));
    assert!(!cells_fit(&vec![Some((5, 0))], 5));
    assert!(cells_fit(&Vec::new(), 0));
}
