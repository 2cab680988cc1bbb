use rand::rngs::StdRng;
use rand::SeedableRng;
use tiles2048::board::State;
use tiles2048::search::{mean, select_best, total_of};

fn board(tiles: [u8; 16]) -> State {
    State { tiles }
}

#[test]
fn spawn_fills_a_blank_with_two_or_four() {
    let mut rng = StdRng::seed_from_u64(11);
    let start = board([1, 2, 3, 4, 5, 6, 7, 8, 0, 1, 2, 3, 4, 5, 6, 7]);
    for _ in 0..200 {
        let mut s = start;
        s.add_random_value(s.blanks(), &mut rng);
        assert!(s.tiles[8] == 1 || s.tiles[8] == 2);
        for i in 0..16 {
            if i != 8 {
                assert_eq!(s.tiles[i], start.tiles[i]);
            }
        }
    }
}

#[test]
fn spawn_never_overwrites_and_favours_twos() {
    let mut rng = StdRng::seed_from_u64(2048);
    let start = board([3, 0, 0, 0, 0, 4, 0, 0, 0, 0, 5, 0, 0, 0, 0, 6]);
    let mut ones = 0u32;
    let mut twos = 0u32;
    let mut cells = [0u32; 16];
    for _ in 0..20000 {
        let mut s = start;
        s.add_random_value(s.blanks(), &mut rng);
        let changed: Vec<usize> = (0..16).filter(|&i| s.tiles[i] != start.tiles[i]).collect();
        assert_eq!(changed.len(), 1);
        let i = changed[0];
        assert_eq!(start.tiles[i], 0);
        cells[i] += 1;
        if s.tiles[i] == 1 {
            ones += 1;
        } else {
            assert_eq!(s.tiles[i], 2);
            twos += 1;
        }
    }
    let share = ones as f64 / (ones + twos) as f64;
    assert!(share > 0.88 && share < 0.92, "share of twos: {}", share);
    for i in [1usize, 2, 3, 4, 6, 7, 8, 9, 11, 12, 13, 14] {
        assert!(cells[i] > 1300, "cell {} drew {}", i, cells[i]);
    }
}

#[test]
fn random_game_ends_without_moves() {
    let mut rng = StdRng::seed_from_u64(1);
    let mut s = State::empty();
    s.add_random_value(s.blanks(), &mut rng);
    s.play_random_game(&mut rng);
    assert!(s.next_states().is_empty());
    assert!(s.blanks().is_empty());
}

#[test]
fn playout_score_is_at_least_start() {
    let mut rng = StdRng::seed_from_u64(3);
    let s = board([1, 0, 0, 0, 0, 0, 0, 0, 0, 0, 0, 0, 0, 0, 0, 1]);
    let r = s.score_after_playout(&mut rng);
    assert!(r >= s.score());
}

#[test]
fn average_of_one_is_one_seeded_playout() {
    let s = board([1, 0, 0, 0, 0, 2, 0, 0, 0, 0, 0, 0, 0, 0, 0, 1]);
    let mut rng_a = StdRng::seed_from_u64(99);
    let avg = s.average_score(1, &mut rng_a);
    let mut rng_b = StdRng::seed_from_u64(99);
    let mut game = s;
    game.add_random_value(game.blanks(), &mut rng_b);
    let single = game.score_after_playout(&mut rng_b);
    assert_eq!(avg, single);
    assert!(avg >= s.score() + 2);
}

#[test]
fn average_over_several_playouts_is_in_range() {
    let mut rng = StdRng::seed_from_u64(5);
    let s = board([1, 0, 0, 0, 0, 0, 0, 0, 0, 0, 0, 0, 0, 0, 0, 0]);
    let avg = s.average_score(8, &mut rng);
    assert!(avg >= 4);
}

#[test]
fn timed_average_runs_at_least_one_game() {
    let mut rng = StdRng::seed_from_u64(6);
    let s = board([1, 0, 0, 0, 0, 0, 0, 0, 0, 0, 0, 0, 0, 0, 0, 0]);
    let avg = s.average_score_time(0, &mut rng);
    assert!(avg >= 4);
}

#[test]
fn select_best_takes_first_greatest() {
    assert_eq!(select_best(&vec![3, 5, 5, 1]), Some(1));
    assert_eq!(select_best(&vec![7]), Some(0));
    assert_eq!(select_best(&vec![0, 0]), None);
    assert_eq!(select_best(&vec![-3, 0]), None);
    assert_eq!(select_best(&vec![]), None);
    assert_eq!(select_best(&vec![0, 2, 1, 2, 9]), Some(4));
}

#[test]
fn pick_best_moves_or_stays() {
    let a = board([1, 0, 0, 0, 0, 0, 0, 0, 0, 0, 0, 0, 0, 0, 0, 0]);
    let b = board([0, 1, 0, 0, 0, 0, 0, 0, 0, 0, 0, 0, 0, 0, 0, 0]);
    let mut s = State::empty();
    s.pick_best(&vec![a, b], &vec![4, 9]);
    assert_eq!(s, b);
    let mut t = State::empty();
    t.pick_best(&vec![a, b], &vec![0, 0]);
    assert_eq!(t, State::empty());
}

#[test]
fn mean_divides_down() {
    assert_eq!(mean(7, 2), 3);
    assert_eq!(mean(0, 5), 0);
    assert_eq!(mean(12, 3), 4);
}

#[test]
fn total_of_adds_worker_scores() {
    assert_eq!(total_of(&vec![1, 2, 3]), 6);
    assert_eq!(total_of(&vec![]), 0);
}

#[test]
fn best_move_picks_a_successor() {
    let mut rng = StdRng::seed_from_u64(8);
    let mut s = board([1, 1, 0, 0, 0, 0, 0, 0, 0, 0, 0, 0, 0, 0, 0, 0]);
    let next = s.next_states();
    s.make_best_move(4, next.clone(), &mut rng);
    assert!(next.contains(&s));
}

#[test]
fn best_move_without_playouts_stays() {
    let mut rng = StdRng::seed_from_u64(8);
    let start = board([1, 1, 0, 0, 0, 0, 0, 0, 0, 0, 0, 0, 0, 0, 0, 0]);
    let mut s = start;
    let next = s.next_states();
    s.make_best_move(0, next, &mut rng);
    assert_eq!(s, start);
}

#[test]
fn timed_best_move_picks_a_successor() {
    let mut rng = StdRng::seed_from_u64(9);
    let mut s = board([2, 0, 0, 2, 0, 0, 0, 0, 0, 0, 0, 0, 0, 0, 0, 0]);
    let next = s.next_states();
    s.timed_make_best_move(0, next.clone(), &mut rng);
    assert!(next.contains(&s));
}

#[test]
fn best_game_plays_to_the_end() {
    let mut rng = StdRng::seed_from_u64(10);
    let mut s = State::empty();
    s.add_random_value(s.blanks(), &mut rng);
    s.play_best_game(1, &mut rng);
    assert!(s.next_states().is_empty());
    assert!(s.blanks().is_empty());
}

#[test]
fn timed_game_plays_to_the_end() {
    let mut rng = StdRng::seed_from_u64(12);
    let mut s = State::empty();
    s.add_random_value(s.blanks(), &mut rng);
    let history = s.timed_play_best_game(0, &mut rng);
    assert!(!history.is_empty());
    assert_eq!(*history.last().unwrap(), s);
    assert!(s.next_states().is_empty());
}

#[test]
fn time_share_splits_budget_evenly() {
    assert_eq!(tiles2048::search::time_share(5000, 4), 1250);
    assert_eq!(tiles2048::search::time_share(1, 2), 0);
    assert_eq!(tiles2048::search::time_share(0, 3), 0);
}

#[test]
fn spawn_on_chosen_blanks_only() {
    let mut rng = StdRng::seed_from_u64(21);
    for _ in 0..100 {
        let mut s = State::empty();
        s.add_random_value(vec![3, 9], &mut rng);
        let changed: Vec<usize> = (0..16).filter(|&i| s.tiles[i] != 0).collect();
        assert_eq!(changed.len(), 1);
        assert!(changed[0] == 3 || changed[0] == 9);
    }
}
