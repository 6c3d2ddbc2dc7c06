use rand::rngs::mock::StepRng;
use rand::rngs::StdRng;
use rand::SeedableRng;
use sudoku_puzzles::generator::{coordinate_list, digits};
use sudoku_puzzles::{apply_picks, draw_picks, shuffle};

#[test]
fn apply_picks_exchanges_step_by_step() {
    // step 0 exchanges index 1 with pick 0, step 1 index 2 with 2, step 2 index 3 with 1
    let result = apply_picks(vec![10, 20, 30, 40, 50], &vec![0, 2, 1]);
    assert_eq!(vec![20, 40, 30, 10, 50], result);
}

#[test]
fn apply_picks_without_picks_changes_nothing() {
    assert_eq!(Vec::<usize>::new(), apply_picks(Vec::<usize>::new(), &vec![]));
    assert_eq!(vec![7], apply_picks(vec![7], &vec![]));
    assert_eq!(vec![7, 8], apply_picks(vec![7, 8], &vec![]));
}

#[test]
fn apply_picks_identity_picks() {
    assert_eq!(vec![1, 2, 3, 4], apply_picks(vec![1, 2, 3, 4], &vec![1, 2]));
}

#[test]
fn draw_picks_stay_within_their_index() {
    let mut rng = StdRng::seed_from_u64(5);
    for len in 0..40 {
        let picks = draw_picks(&mut rng, len);
        assert_eq!(if len >= 2 { len - 2 } else { 0 }, picks.len());
        for (k, pick) in picks.iter().enumerate() {
            assert!(*pick <= k + 1);
        }
    }
}

#[test]
fn draw_picks_vary() {
    let mut rng = rand::thread_rng();
    let picks = draw_picks(&mut rng, 200);
    assert!(picks.iter().any(|pick| *pick != picks[picks.len() - 1]));
}

#[test]
fn shuffle_rearranges() {
    let mut rng = rand::thread_rng();
    for len in 0..30 {
        let items: Vec<usize> = (0..len).collect();
        let mut result = shuffle(&mut rng, items.clone());
        assert_eq!(len, result.len());
        if len > 0 {
            assert_eq!(len - 1, result[len - 1]);
        }
        result.sort();
        assert_eq!(items, result);
    }
}

#[test]
fn shuffle_short_lists_stay() {
    let mut rng = rand::thread_rng();
    assert_eq!(Vec::<usize>::new(), shuffle(&mut rng, Vec::<usize>::new()));
    assert_eq!(vec![3], shuffle(&mut rng, vec![3]));
    assert_eq!(vec![3, 4], shuffle(&mut rng, vec![3, 4]));
}

#[test]
fn shuffle_of_three_moves_at_most_the_first_two() {
    let mut rng = rand::thread_rng();
    let mut seen_swap = false;
    let mut seen_stay = false;
    for _ in 0..200 {
        let result = shuffle(&mut rng, vec![1, 2, 3]);
        if result == vec![2, 1, 3] {
            seen_swap = true;
        } else {
            assert_eq!(vec![1, 2, 3], result);
            seen_stay = true;
        }
    }
    assert!(seen_swap && seen_stay);
}

#[test]
fn shuffle_is_reproducible_with_a_seed() {
    let items: Vec<usize> = (0..50).collect();
    let first = shuffle(&mut StdRng::seed_from_u64(9), items.clone());
    let second = shuffle(&mut StdRng::seed_from_u64(9), items.clone());
    assert_eq!(first, second);
    assert_ne!(items, first);
}

#[test]
fn shuffle_with_a_constant_source() {
    // a source that always yields zero picks index 0 at every step
    let mut rng = StepRng::new(0, 0);
    assert_eq!(vec![3, 1, 2, 4], shuffle(&mut rng, vec![1, 2, 3, 4]));
}

#[test]
fn digits_ascend_from_one() {
    assert_eq!(Vec::<usize>::new(), digits(0));
    assert_eq!(vec![1, 2, 3, 4], digits(4));
}

#[test]
fn coordinates_run_column_by_column() {
    assert_eq!(vec![(0, 0), (0, 1), (1, 0), (1, 1)], coordinate_list(2));
    assert_eq!(Vec::<(usize, usize)>::new(), coordinate_list(0));
    let list = coordinate_list(9);
    assert_eq!(81, list.len());
    assert_eq!((8, 8), list[80]);
    assert_eq!((3, 5), list[3 * 9 + 5]);
}
