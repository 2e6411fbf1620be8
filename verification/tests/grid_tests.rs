use sst::grid::{cells_per_side, Grid};
use sst::sprinkle::Sprinkler;

#[test]
fn cells_per_side_powers_of_two() {
    assert_eq!(cells_per_side(0), 1);
    assert_eq!(cells_per_side(1), 2);
    assert_eq!(cells_per_side(3), 8);
    assert_eq!(cells_per_side(10), 1024);
    assert_eq!(cells_per_side(31), 1u32 << 31);
}

#[test]
fn new_grid_is_empty() {
    let g = Grid::new(3);
    assert_eq!(g.side(), 3);
    assert_eq!(g.total(), 0);
    for i in 0..3 {
        for j in 0..3 {
            assert_eq!(g.count(i, j), 0);
        }
    }
    let e = g.empty_cells();
    assert_eq!(e.len(), 9);
    assert_eq!(e[0], (0, 0));
    assert_eq!(e[1], (0, 1));
    assert_eq!(e[3], (1, 0));
    assert_eq!(e[8], (2, 2));
}

#[test]
fn counting_points_per_cell() {
    let mut g = Grid::new(2);
    let cells = [(0, 0), (1, 1), (0, 0), (1, 0), (0, 0)];
    for (i, j) in cells.iter() {
        g.add_point(*i, *j);
    }
    assert_eq!(g.count(0, 0), 3);
    assert_eq!(g.count(0, 1), 0);
    assert_eq!(g.count(1, 0), 1);
    assert_eq!(g.count(1, 1), 1);
    assert_eq!(g.total(), 5);
    assert_eq!(g.empty_cells(), vec![(0, 1)]);
}

#[test]
fn removing_points() {
    let mut g = Grid::new(2);
    g.add_point(1, 0);
    g.add_point(1, 0);
    g.remove_point(1, 0);
    assert_eq!(g.count(1, 0), 1);
    assert_eq!(g.total(), 1);
    g.remove_point(1, 0);
    assert_eq!(g.total(), 0);
    assert_eq!(g.empty_cells().len(), 4);
}

#[test]
fn empty_cells_in_row_major_order() {
    let mut g = Grid::new(3);
    g.add_point(0, 1);
    g.add_point(1, 0);
    g.add_point(1, 2);
    g.add_point(2, 1);
    assert_eq!(g.empty_cells(), vec![(0, 0), (0, 2), (1, 1), (2, 0), (2, 2)]);
}

#[test]
fn count_point_records_only_sprinkled_points() {
    let mut g = Grid::new(2);
    let mut s: Sprinkler<&str> = Sprinkler::from_indices(&vec![2]);
    g.count_point(&mut s, 1, 0, 1, "first");
    g.count_point(&mut s, 2, 1, 1, "second");
    g.count_point(&mut s, 3, 1, 1, "third");
    assert_eq!(g.count(0, 1), 1);
    assert_eq!(g.count(1, 1), 2);
    assert_eq!(g.total(), 3);
    assert_eq!(s.values(), &vec![Some("second")]);
}

#[test]
fn counts_do_not_depend_on_sprinkled_numbers() {
    let points = [(1usize, (0usize, 0usize)), (2, (1, 1)), (3, (0, 0)), (4, (1, 0))];
    let mut g1 = Grid::new(2);
    let mut s1: Sprinkler<usize> = Sprinkler::from_indices(&vec![1, 3]);
    let mut g2 = Grid::new(2);
    let mut s2: Sprinkler<usize> = Sprinkler::new();
    for (idx, (i, j)) in points.iter() {
        g1.count_point(&mut s1, *idx, *i, *j, *idx * 10);
        g2.count_point(&mut s2, *idx, *i, *j, *idx * 10);
    }
    for i in 0..2 {
        for j in 0..2 {
            assert_eq!(g1.count(i, j), g2.count(i, j));
        }
    }
    assert_eq!(g1.total(), 4);
    assert_eq!(g2.total(), 4);
    assert_eq!(s1.values(), &vec![Some(10), Some(30)]);
}
