use rs2048::line::{merge, slide};

fn material(line: &[u8]) -> u128 {
    line.iter().filter(|e| **e != 0).map(|e| 1u128 << *e).sum()
}

fn tiles(line: &[u8]) -> Vec<u8> {
    line.iter().copied().filter(|e| *e != 0).collect()
}

#[test]
fn slide_moves_tiles_to_the_front() {
    let mut line = vec![0u8, 2, 0, 3];
    assert!(slide(&mut line));
    assert_eq!(line, vec![2, 3, 0, 0]);
}

#[test]
fn slide_keeps_the_order_of_tiles() {
    let mut line = vec![0u8, 5, 1, 0, 5, 2];
    assert!(slide(&mut line));
    assert_eq!(line, vec![5, 1, 5, 2, 0, 0]);
}

#[test]
fn slide_reports_no_move_on_a_compact_line() {
    let mut line = vec![1u8, 2, 0, 0];
    assert!(!slide(&mut line));
    assert_eq!(line, vec![1, 2, 0, 0]);
}

#[test]
fn slide_reports_a_move_behind_tiles_in_place() {
    let mut line = vec![3u8, 0, 3];
    assert!(slide(&mut line));
    assert_eq!(line, vec![3, 3, 0]);
}

#[test]
fn slide_on_blank_full_and_short_lines() {
    let mut blank = vec![0u8, 0, 0];
    assert!(!slide(&mut blank));
    assert_eq!(blank, vec![0, 0, 0]);

    let mut full = vec![1u8, 1, 2];
    assert!(!slide(&mut full));
    assert_eq!(full, vec![1, 1, 2]);

    let mut none: Vec<u8> = Vec::new();
    assert!(!slide(&mut none));
    assert!(none.is_empty());

    let mut one = vec![7u8];
    assert!(!slide(&mut one));
    assert_eq!(one, vec![7]);
}

#[test]
fn slide_keeps_the_multiset_of_tiles() {
    let lines: Vec<Vec<u8>> = vec![
        vec![0, 1, 0, 1],
        vec![4, 0, 0, 2],
        vec![0, 0, 0, 9],
        vec![3, 2, 1, 0],
        vec![0, 255, 0, 7, 7, 0, 1],
    ];
    for line in lines {
        let mut after = line.clone();
        slide(&mut after);
        assert_eq!(after.len(), line.len());
        assert_eq!(tiles(&after), tiles(&line));
        let mut sorted_before = tiles(&line);
        let mut sorted_after = tiles(&after);
        sorted_before.sort();
        sorted_after.sort();
        assert_eq!(sorted_after, sorted_before);
    }
}

#[test]
fn slide_twice_is_slide_once() {
    let lines: Vec<Vec<u8>> = vec![
        vec![0, 1, 0, 1],
        vec![4, 0, 0, 2],
        vec![0, 0, 0, 0],
        vec![0, 3, 3, 0, 3],
    ];
    for line in lines {
        let mut once = line.clone();
        slide(&mut once);
        let mut twice = once.clone();
        assert!(!slide(&mut twice));
        assert_eq!(twice, once);
    }
}

#[test]
fn merge_joins_an_equal_pair() {
    let mut line = vec![1u8, 1, 0, 0];
    assert!(merge(&mut line));
    assert_eq!(line, vec![2, 0, 0, 0]);
}

#[test]
fn merge_joins_two_pairs_in_one_pass() {
    let mut line = vec![1u8, 1, 1, 1];
    assert!(merge(&mut line));
    assert_eq!(line, vec![2, 0, 2, 0]);
}

#[test]
fn merge_takes_the_pair_nearest_the_front() {
    let mut line = vec![1u8, 1, 1];
    assert!(merge(&mut line));
    assert_eq!(line, vec![2, 0, 1]);
}

#[test]
fn merge_does_not_merge_a_new_tile_again() {
    let mut line = vec![2u8, 2, 3, 0];
    assert!(merge(&mut line));
    assert_eq!(line, vec![3, 0, 3, 0]);
}

#[test]
fn merge_leaves_unequal_and_parted_tiles() {
    let mut unequal = vec![1u8, 2, 1, 2];
    assert!(!merge(&mut unequal));
    assert_eq!(unequal, vec![1, 2, 1, 2]);

    let mut parted = vec![1u8, 0, 1];
    assert!(!merge(&mut parted));
    assert_eq!(parted, vec![1, 0, 1]);
}

#[test]
fn merge_does_not_join_empty_cells() {
    let mut blank = vec![0u8, 0, 0, 0];
    assert!(!merge(&mut blank));
    assert_eq!(blank, vec![0, 0, 0, 0]);
}

#[test]
fn merge_on_short_lines() {
    let mut none: Vec<u8> = Vec::new();
    assert!(!merge(&mut none));
    assert!(none.is_empty());

    let mut one = vec![4u8];
    assert!(!merge(&mut one));
    assert_eq!(one, vec![4]);

    let mut two = vec![4u8, 4];
    assert!(merge(&mut two));
    assert_eq!(two, vec![5, 0]);
}

#[test]
fn merge_reaches_the_largest_exponent() {
    let mut line = vec![254u8, 254];
    assert!(merge(&mut line));
    assert_eq!(line, vec![255, 0]);
}

#[test]
fn merge_keeps_the_material_and_halves_each_pair() {
    let lines: Vec<(Vec<u8>, usize)> = vec![
        (vec![1, 1, 0, 0], 1),
        (vec![1, 1, 1, 1], 2),
        (vec![2, 2, 3, 3, 3], 2),
        (vec![1, 2, 3, 4], 0),
        (vec![10, 10, 0, 10, 10], 2),
        (vec![0, 0, 0], 0),
    ];
    for (line, merges) in lines {
        let mut after = line.clone();
        let merged_any = merge(&mut after);
        assert_eq!(merged_any, merges > 0);
        assert_eq!(after.len(), line.len());
        assert_eq!(material(&after), material(&line));
        assert_eq!(tiles(&after).len() + merges, tiles(&line).len());
        assert_eq!(after == line, merges == 0);
    }
}

#[test]
fn slide_merge_slide_on_a_line() {
    let mut line = vec![0u8, 1, 0, 1];
    assert!(slide(&mut line));
    assert_eq!(line, vec![1, 1, 0, 0]);
    assert!(merge(&mut line));
    assert_eq!(line, vec![2, 0, 0, 0]);
    assert!(!slide(&mut line));
    assert_eq!(line, vec![2, 0, 0, 0]);
}
