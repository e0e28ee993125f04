use rand::rngs::{StdRng, ThreadRng};
use rs2048::{RandomSource, SeededSource};

fn cells() -> Vec<(usize, usize)> {
    vec![(0, 0), (0, 3), (1, 1), (2, 0), (2, 2), (3, 1)]
}

#[test]
fn pick_takes_one_of_the_candidates() {
    let candidates = cells();
    let mut seen = Vec::new();
    for seed in 0..60u8 {
        let mut source = StdRng::with_seed([seed; 32]);
        match source.pick(&candidates) {
            Some(cell) => {
                assert!(candidates.contains(&cell));
                if !seen.contains(&cell) {
                    seen.push(cell);
                }
            },
            None => panic!("nothing picked among six candidates"),
        }
    }
    assert!(seen.len() > 1);
}

#[test]
fn pick_among_none_is_none() {
    let mut source = StdRng::with_seed([1u8; 32]);
    assert_eq!(source.pick(&Vec::new()), None);
}

#[test]
fn pick_among_one_is_that_one() {
    let mut source = StdRng::with_seed([1u8; 32]);
    assert_eq!(source.pick(&vec![(4, 2)]), Some((4, 2)));
}

#[test]
fn pick_many_takes_candidates_from_distinct_places() {
    let candidates = cells();
    for seed in 0..60u8 {
        let mut source = StdRng::with_seed([seed; 32]);
        for amount in 0..=candidates.len() {
            let picked = source.pick_many(&candidates, amount);
            assert_eq!(picked.len(), amount);
            for (i, cell) in picked.iter().enumerate() {
                assert!(candidates.contains(cell));
                assert!(!picked[..i].contains(cell));
            }
        }
    }
}

#[test]
fn pick_many_of_all_takes_every_candidate() {
    let candidates = cells();
    let mut source = StdRng::with_seed([7u8; 32]);
    let mut picked = source.pick_many(&candidates, candidates.len());
    picked.sort();
    assert_eq!(picked, candidates);
}

#[test]
fn same_seed_picks_the_same() {
    let candidates = cells();
    let mut first = StdRng::with_seed([21u8; 32]);
    let mut second = StdRng::with_seed([21u8; 32]);
    for _ in 0..20 {
        assert_eq!(first.pick(&candidates), second.pick(&candidates));
        assert_eq!(first.pick_many(&candidates, 2), second.pick_many(&candidates, 2));
    }
}

#[test]
fn thread_source_picks_among_the_candidates() {
    let candidates = cells();
    let mut source = ThreadRng::default();
    for _ in 0..20 {
        match source.pick(&candidates) {
            Some(cell) => assert!(candidates.contains(&cell)),
            None => panic!("nothing picked among six candidates"),
        }
        let picked = source.pick_many(&candidates, 2);
        assert_eq!(picked.len(), 2);
        assert_ne!(picked[0], picked[1]);
        assert!(candidates.contains(&picked[0]) && candidates.contains(&picked[1]));
    }
}
