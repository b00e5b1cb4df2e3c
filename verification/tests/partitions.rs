use cres::bisect::{circle_partition, circle_partition_with_progress, find_corner, permute};
use cres::hepmc::CombinedReader;
use cres::make_partition::{log2, parse_npartitions};

#[test]
fn make_partition_tst_log2() {
    assert_eq!(log2(1), 0);
    for n in 2..=3 {
        assert_eq!(log2(n), 1);
    }
    for n in 4..=7 {
        assert_eq!(log2(n), 2);
    }
}

#[test]
fn partition_tst_log2() {
    assert_eq!(log2(1), 0);
    for n in 2..=3 {
        assert_eq!(log2(n), 1);
    }
    for n in 4..=7 {
        assert_eq!(log2(n), 2);
    }
}

#[test]
fn log2_of_large_numbers() {
    assert_eq!(log2(u32::MAX), 31);
    assert_eq!(log2(1 << 20), 20);
    assert_eq!(log2((1 << 20) - 1), 19);
}

#[test]
fn npartitions_must_be_power_of_two() {
    assert_eq!(parse_npartitions("8"), Ok(8));
    assert_eq!(parse_npartitions("+16"), Ok(16));
    assert_eq!(parse_npartitions("1"), Ok(1));
    assert_eq!(parse_npartitions("6"), Err("has to be a power of two".to_string()));
    assert_eq!(parse_npartitions("0"), Err("has to be a power of two".to_string()));
    assert_eq!(
        parse_npartitions(""),
        Err("cannot parse integer from empty string".to_string())
    );
    assert_eq!(parse_npartitions("x4"), Err("invalid digit found in string".to_string()));
    assert_eq!(parse_npartitions("-4"), Err("invalid digit found in string".to_string()));
    assert_eq!(
        parse_npartitions("4294967296"),
        Err("number too large to fit in target type".to_string())
    );
}

fn line_distance(a: usize, b: usize) -> u64 {
    (a as i64 - b as i64).unsigned_abs()
}

#[test]
fn corner_is_farthest_from_first_point() {
    let mut pts: Vec<(u64, usize)> = vec![(0, 3), (0, 0), (0, 7), (0, 5), (0, 7)];
    let corner = find_corner(&mut pts, &|a, b| line_distance(a, b));
    // points 7 are farthest from point 3; the last of them is chosen
    assert_eq!(corner, Some(4));
    assert_eq!(pts[1], (3, 0));
    assert_eq!(pts[2], (4, 7));
    let mut one: Vec<(u64, usize)> = vec![(0, 9)];
    assert_eq!(find_corner(&mut one, &|a, b| line_distance(a, b)), Some(0));
    let mut none: Vec<(u64, usize)> = vec![];
    assert_eq!(find_corner(&mut none, &|a, b| line_distance(a, b)), None);
}

#[test]
fn bisection_of_points_on_a_line() {
    // points 0..8 at positions equal to their number
    let (order, ranges) = circle_partition(8, |a, b| line_distance(a, b), 2);
    assert_eq!(ranges, vec![(0, 2), (2, 4), (4, 6), (6, 8)]);
    let mut sorted = order.clone();
    sorted.sort();
    assert_eq!(sorted, (0..8).collect::<Vec<_>>());
    // the corner is point 7; its nearer half is 4..8, the farther one 0..4
    let mut first_half: Vec<usize> = order[0..4].to_vec();
    first_half.sort();
    assert_eq!(first_half, vec![4, 5, 6, 7]);
    let mut second_half: Vec<usize> = order[4..8].to_vec();
    second_half.sort();
    assert_eq!(second_half, vec![0, 1, 2, 3]);
    for (start, end) in ranges {
        let mut region: Vec<usize> = order[start..end].to_vec();
        region.sort();
        // each region holds neighbouring points
        assert_eq!(region[1], region[0] + 1);
    }
}

#[test]
fn bisection_depth_zero_and_tiny_inputs() {
    let (order, ranges) = circle_partition(5, |a, b| line_distance(a, b), 0);
    assert_eq!(order, vec![0, 1, 2, 3, 4]);
    assert_eq!(ranges, vec![(0, 5)]);
    let (order, ranges) = circle_partition(0, |a, b| line_distance(a, b), 3);
    assert!(order.is_empty());
    assert_eq!(ranges, vec![(0, 0)]);
    let (order, ranges) = circle_partition(1, |a, b| line_distance(a, b), 3);
    assert_eq!(order, vec![0]);
    assert_eq!(ranges, vec![(0, 1)]);
    let (_, ranges) = circle_partition(5, |a, b| line_distance(a, b), 1);
    assert_eq!(ranges, vec![(0, 2), (2, 5)]);
    let (_, ranges) = circle_partition(3, |a, b| line_distance(a, b), 4);
    assert_eq!(ranges, vec![(0, 1), (1, 2), (2, 3)]);
}

#[test]
fn permute_follows_order() {
    let items = vec!["a".to_string(), "b".to_string(), "c".to_string()];
    let r = permute(items, &vec![2, 0, 1]);
    assert_eq!(r, vec!["c".to_string(), "a".to_string(), "b".to_string()]);
}

#[test]
fn files_are_read_from_the_back_and_rewound() {
    let mut reader = CombinedReader::new(3);
    assert_eq!(reader.progress(), (0, 3));
    assert_eq!(reader.next_file(), Some(2));
    assert_eq!(reader.progress(), (1, 3));
    assert_eq!(reader.next_file(), Some(1));
    reader.rewind();
    assert_eq!(reader.progress(), (0, 3));
    assert_eq!(reader.next_file(), Some(2));
    assert_eq!(reader.next_file(), Some(1));
    assert_eq!(reader.next_file(), Some(0));
    assert_eq!(reader.next_file(), None);
    reader.rewind();
    assert_eq!(reader.next_file(), Some(2));
}

#[test]
fn bisection_progress() {
    let (order, ranges, progress) = circle_partition_with_progress(8, |a, b| line_distance(a, b), 2);
    assert_eq!((order, ranges), circle_partition(8, |a, b| line_distance(a, b), 2));
    assert_eq!(progress, vec![2, 1, 1]);
    let (_, _, progress) = circle_partition_with_progress(5, |a, b| line_distance(a, b), 3);
    assert_eq!(progress, vec![3, 2, 2, 1]);
    let (_, _, progress) = circle_partition_with_progress(16, |a, b| line_distance(a, b), 3);
    assert_eq!(progress.iter().filter(|d| **d == 1).count(), 4);
    assert_eq!(progress.iter().filter(|d| **d == 2).count(), 2);
    assert_eq!(progress.iter().filter(|d| **d == 3).count(), 1);
}
