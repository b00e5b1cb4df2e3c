use cres::cell_collector::{CellCollector, CellInfo};
use cres::cres::{assign_id, id_error_message, multiplicity_counts};
use cres::split::multiplicities;
use rand::rngs::StdRng;
use rand::SeedableRng;

fn info(radius: u64, weight_sum: u64, event_ids: Vec<usize>) -> CellInfo {
    CellInfo { radius, weight_sum, event_ids }
}

fn ten_cells() -> CellCollector {
    let mut c = CellCollector::new();
    for i in 0..10usize {
        let events = if i == 3 { vec![3, 30] } else { vec![i] };
        c.collect_drawn(&info(i as u64, 100 - i as u64, events), 0);
    }
    c
}

#[test]
fn collector_first_cells() {
    let c = ten_cells();
    assert_eq!(c.count(), 10);
    let first: Vec<usize> = c.first().iter().map(|(n, _)| *n).collect();
    assert_eq!(first, (0..10).collect::<Vec<_>>());
    assert_eq!(c.first()[3].1, vec![3, 30]);
    assert_eq!(c.random(), c.first());
    let radii: Vec<(u64, usize)> = c.largest_by_radius().iter().map(|(k, n, _)| (*k, *n)).collect();
    assert_eq!(radii, (0..10).map(|i| (i as u64, i)).collect::<Vec<_>>());
    let members: Vec<(u64, usize)> = c.largest_by_members().iter().map(|(k, n, _)| (*k, *n)).collect();
    assert_eq!(
        members,
        vec![(1, 0), (1, 1), (1, 2), (1, 4), (1, 5), (1, 6), (1, 7), (1, 8), (1, 9), (2, 3)]
    );
    let weights: Vec<(u64, usize)> = c.largest_by_weight().iter().map(|(k, n, _)| (*k, *n)).collect();
    assert_eq!(weights, (0..10).rev().map(|i| (100 - i as u64, i)).collect::<Vec<_>>());
}

#[test]
fn collector_keeps_largest() {
    let mut c = ten_cells();
    c.collect_drawn(&info(5, 200, vec![10, 11, 12]), 4);
    assert_eq!(c.count(), 11);
    assert_eq!(c.first().len(), 10);
    assert_eq!(c.random()[4], (10, vec![10, 11, 12]));
    let radii: Vec<(u64, usize)> = c.largest_by_radius().iter().map(|(k, n, _)| (*k, *n)).collect();
    assert_eq!(
        radii,
        vec![(1, 1), (2, 2), (3, 3), (4, 4), (5, 5), (5, 10), (6, 6), (7, 7), (8, 8), (9, 9)]
    );
    let members: Vec<(u64, usize)> = c.largest_by_members().iter().map(|(k, n, _)| (*k, *n)).collect();
    assert_eq!(
        members,
        vec![(1, 1), (1, 2), (1, 4), (1, 5), (1, 6), (1, 7), (1, 8), (1, 9), (2, 3), (3, 10)]
    );
    let weights: Vec<(u64, usize)> = c.largest_by_weight().iter().map(|(k, n, _)| (*k, *n)).collect();
    assert_eq!(
        weights,
        vec![(92, 8), (93, 7), (94, 6), (95, 5), (96, 4), (97, 3), (98, 2), (99, 1), (100, 0), (200, 10)]
    );
    let cells = c.event_cells();
    assert_eq!(cells.len(), 11);
    assert_eq!(cells[&0], vec![0]);
    assert_eq!(cells[&3], vec![3, 30]);
    assert_eq!(cells[&10], vec![10, 11, 12]);
    assert!(!cells.contains_key(&11));

    // a cell that ranks nowhere and is not drawn changes nothing but the count
    let before = c.clone();
    c.collect_drawn(&info(0, 0, vec![]), 11);
    assert_eq!(c.count(), 12);
    assert_eq!(c.random(), before.random());
    assert_eq!(c.largest_by_radius(), before.largest_by_radius());
    assert_eq!(c.largest_by_members(), before.largest_by_members());
    assert_eq!(c.largest_by_weight(), before.largest_by_weight());
}

#[test]
fn collector_empty() {
    let c = CellCollector::default();
    assert_eq!(c.count(), 0);
    assert!(c.first().is_empty());
    assert!(c.event_cells().is_empty());
}

#[test]
fn collector_combine_small() {
    let mut a = CellCollector::new();
    a.collect_drawn(&info(4, 1, vec![1]), 0);
    a.collect_drawn(&info(2, 5, vec![2, 3]), 0);
    let mut b = CellCollector::new();
    b.collect_drawn(&info(3, 3, vec![7]), 0);
    let c = a.combine_drawn(b, &vec![]);
    assert_eq!(c.count(), 3);
    assert_eq!(c.first(), &vec![(0, vec![1]), (1, vec![2, 3])]);
    assert_eq!(c.random(), &vec![(0, vec![1]), (1, vec![2, 3]), (2, vec![7])]);
    let radii: Vec<(u64, usize)> = c.largest_by_radius().iter().map(|(k, n, _)| (*k, *n)).collect();
    assert_eq!(radii, vec![(2, 1), (3, 2), (4, 0)]);
    let members: Vec<(u64, usize)> = c.largest_by_members().iter().map(|(k, n, _)| (*k, *n)).collect();
    assert_eq!(members, vec![(1, 0), (1, 2), (2, 1)]);
    assert_eq!(c.event_cells()[&2], vec![7]);
}

#[test]
fn collector_combine_keeps_largest() {
    let mut a = CellCollector::new();
    let mut b = CellCollector::new();
    for i in 0..10usize {
        a.collect_drawn(&info(10 + i as u64, 0, vec![i]), 0);
        b.collect_drawn(&info(i as u64, 0, vec![100 + i]), 0);
    }
    let c = a.combine_drawn(b, &vec![0; 10]);
    assert_eq!(c.count(), 20);
    let radii: Vec<(u64, usize)> = c.largest_by_radius().iter().map(|(k, n, _)| (*k, *n)).collect();
    assert_eq!(radii, (0..10).map(|i| (10 + i as u64, i)).collect::<Vec<_>>());
    let random: Vec<usize> = c.random().iter().map(|(n, _)| *n).collect();
    assert_eq!(random, vec![10, 1, 2, 3, 4, 5, 6, 7, 8, 9]);
    assert_eq!(c.first().len(), 10);
}

#[test]
fn collector_combine_takes_larger_cell() {
    let a = ten_cells();
    let mut b = CellCollector::new();
    b.collect_drawn(&info(100, 0, vec![77]), 0);
    let c = a.combine_drawn(b, &vec![3]);
    let radii: Vec<(u64, usize)> = c.largest_by_radius().iter().map(|(k, n, _)| (*k, *n)).collect();
    assert_eq!(radii, (1..10).map(|i| (i as u64, i)).chain([(100, 10)]).collect::<Vec<_>>());
    assert_eq!(c.random().len(), 10);
    assert_eq!(c.random()[3], (10, vec![77]));
}

#[test]
fn collector_with_rng() {
    let mut rng = StdRng::seed_from_u64(17);
    let mut a = CellCollector::new();
    for i in 0..25usize {
        a.collect(&info(i as u64 % 7, i as u64, vec![i, 1000 + i]), &mut rng);
    }
    assert_eq!(a.count(), 25);
    assert_eq!(a.random().len(), 10);
    for (n, events) in a.random() {
        assert!(*n < 25);
        assert_eq!(events, &vec![*n, 1000 + *n]);
    }
    let weights: Vec<usize> = a.largest_by_weight().iter().map(|(_, n, _)| *n).collect();
    assert_eq!(weights, (15..25).collect::<Vec<_>>());
    let mut b = CellCollector::new();
    for i in 0..4usize {
        b.collect(&info(1, 1, vec![i]), &mut rng);
    }
    let c = a.combine(b, &mut rng);
    assert_eq!(c.count(), 29);
    assert_eq!(c.random().len(), 10);
    for (n, _) in c.random() {
        assert!(*n < 29);
    }
}

#[test]
fn event_multiplicities() {
    let pids = vec![11, 22, 11, -11, 81, 81, 81];
    let m = multiplicities(&pids);
    assert_eq!(m, vec![(81, 3), (22, 1), (11, 2), (-11, 1)]);
    assert_eq!(m.iter().map(|(_, n)| *n).sum::<usize>(), pids.len());
    assert_eq!(multiplicities(&vec![]), vec![]);
}

#[test]
fn multiplicity_summary() {
    let a = vec![(81, 2), (11, 1)];
    let b = vec![(81, 3)];
    let c = vec![(81, 2)];
    let events = vec![b.clone(), a.clone(), c.clone(), a.clone(), vec![], b.clone(), c.clone()];
    let counts = multiplicity_counts(&events);
    assert_eq!(counts, vec![(c.clone(), 2), (a.clone(), 2), (b.clone(), 2), (vec![], 1)]);
    let total: usize = counts.iter().map(|(_, n)| *n).sum();
    assert_eq!(total, events.len());
    assert!(multiplicity_counts(&vec![]).is_empty());
}

#[test]
fn event_ids_from_position() {
    assert_eq!(assign_id(0, 7), Ok(7));
    assert_eq!(assign_id(0, 0), Ok(0));
    assert_eq!(assign_id(3, 7), Err(3));
    assert_eq!(id_error_message(42), "Encountered event with non-zero id 42");
}
