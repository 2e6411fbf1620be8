use sst::finalise::Finaliser;
use sst::grid::Grid;
use sst::sprinkle::Sprinkler;

fn counted(side: usize, cells: &[(usize, usize)]) -> Grid {
    let mut g = Grid::new(side);
    for (i, j) in cells.iter() {
        g.add_point(*i, *j);
    }
    g
}

#[test]
fn cell_completes_on_its_last_point() {
    let cells = [(0, 0), (1, 1), (0, 0), (1, 1), (0, 0)];
    let mut f: Finaliser<u32> = Finaliser::new(counted(2, &cells));
    assert_eq!(f.process(0, 0, Some(10)), None);
    assert_eq!(f.process(1, 1, Some(11)), None);
    assert_eq!(f.process(0, 0, Some(12)), None);
    assert_eq!(f.process(1, 1, Some(13)), Some(vec![11, 13]));
    assert_eq!(f.process(0, 0, Some(14)), Some(vec![10, 12, 14]));
    assert_eq!(f.grid().total(), 0);
    assert_eq!(f.grid().empty_cells().len(), 4);
}

#[test]
fn points_without_item_are_not_buffered() {
    let cells = [(0, 1), (0, 1), (0, 1)];
    let mut f: Finaliser<char> = Finaliser::new(counted(2, &cells));
    assert_eq!(f.process(0, 1, Some('a')), None);
    assert_eq!(f.process(0, 1, None), None);
    assert_eq!(f.grid().count(0, 1), 1);
    assert_eq!(f.process(0, 1, Some('c')), Some(vec!['a', 'c']));
}

#[test]
fn single_point_cell_completes_at_once() {
    let mut f: Finaliser<i64> = Finaliser::new(counted(4, &[(3, 2)]));
    assert_eq!(f.grid().total(), 1);
    assert_eq!(f.process(3, 2, None), Some(vec![]));
    assert_eq!(f.grid().count(3, 2), 0);
}

#[test]
fn sprinkled_points_are_not_held_back() {
    let cells = [(0, 0), (0, 0), (0, 0)];
    let s: Sprinkler<&str> = Sprinkler::from_indices(&vec![2]);
    let mut f: Finaliser<&str> = Finaliser::new(counted(1, &cells));
    assert_eq!(f.process_point(&s, 1, 0, 0, "p1"), None);
    assert_eq!(f.process_point(&s, 2, 0, 0, "p2"), None);
    assert_eq!(f.process_point(&s, 3, 0, 0, "p3"), Some(vec!["p1", "p3"]));
}

#[test]
fn every_cell_completes_exactly_once() {
    let cells = [(0, 0), (2, 1), (1, 1), (2, 1), (0, 0), (1, 2), (2, 1)];
    let mut f: Finaliser<usize> = Finaliser::new(counted(3, &cells));
    let mut done: Vec<((usize, usize), Vec<usize>)> = Vec::new();
    for (k, (i, j)) in cells.iter().enumerate() {
        if let Some(items) = f.process(*i, *j, Some(k)) {
            done.push(((*i, *j), items));
        }
    }
    assert_eq!(
        done,
        vec![
            ((1, 1), vec![2]),
            ((0, 0), vec![0, 4]),
            ((1, 2), vec![5]),
            ((2, 1), vec![1, 3, 6]),
        ]
    );
    assert_eq!(f.grid().total(), 0);
}
