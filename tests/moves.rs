use tiles2048::board::State;
use tiles2048::line::slide_line;

fn board(tiles: [u8; 16]) -> State {
    State { tiles }
}

fn shift_left(s: &mut State) {
    s.shift_all(0, 1, 4);
}

#[test]
fn move_repeated_without_spawn_is_idle() {
    let mut s = board([2, 2, 0, 0, 0, 0, 0, 0, 0, 0, 0, 0, 0, 0, 0, 0]);
    shift_left(&mut s);
    assert_eq!(s.tiles, [3, 0, 0, 0, 0, 0, 0, 0, 0, 0, 0, 0, 0, 0, 0, 0]);
    let once = s;
    shift_left(&mut s);
    assert_eq!(s, once);
}

#[test]
fn move_repeated_merges_again_when_pairs_remain() {
    let mut s = board([1, 1, 1, 1, 0, 0, 0, 0, 0, 0, 0, 0, 0, 0, 0, 0]);
    shift_left(&mut s);
    assert_eq!(s.tiles[0..4], [2, 2, 0, 0]);
    shift_left(&mut s);
    assert_eq!(s.tiles[0..4], [3, 0, 0, 0]);
}

#[test]
fn triple_merges_only_first_pair() {
    let mut s = board([1, 1, 1, 0, 0, 0, 0, 0, 0, 0, 0, 0, 0, 0, 0, 0]);
    shift_left(&mut s);
    assert_eq!(s.tiles[0..4], [2, 1, 0, 0]);
    assert_eq!(slide_line([1, 1, 1, 0]), [2, 1, 0, 0]);
}

#[test]
fn slide_line_compacts_and_merges() {
    assert_eq!(slide_line([0, 0, 0, 0]), [0, 0, 0, 0]);
    assert_eq!(slide_line([0, 3, 0, 3]), [4, 0, 0, 0]);
    assert_eq!(slide_line([2, 2, 2, 2]), [3, 3, 0, 0]);
    assert_eq!(slide_line([1, 2, 1, 2]), [1, 2, 1, 2]);
    assert_eq!(slide_line([0, 1, 1, 2]), [2, 2, 0, 0]);
}

#[test]
fn shift_right_walks_from_far_edge() {
    let mut s = board([1, 1, 1, 0, 0, 0, 0, 0, 0, 0, 0, 0, 0, 0, 0, 0]);
    s.shift_all(3, -1, 4);
    assert_eq!(s.tiles[0..4], [0, 0, 1, 2]);
}

#[test]
fn shift_up_and_down_move_columns() {
    let start = board([1, 0, 0, 0, 0, 0, 0, 0, 1, 0, 0, 0, 2, 0, 0, 0]);
    let mut up = start;
    up.shift_all(0, 4, 1);
    assert_eq!(up.tiles, [2, 0, 0, 0, 2, 0, 0, 0, 0, 0, 0, 0, 0, 0, 0, 0]);
    let mut down = start;
    down.shift_all(12, -4, 1);
    assert_eq!(down.tiles, [0, 0, 0, 0, 0, 0, 0, 0, 2, 0, 0, 0, 2, 0, 0, 0]);
}

#[test]
fn single_line_shift_leaves_other_cells() {
    let mut s = board([0, 5, 0, 5, 1, 0, 1, 0, 0, 0, 0, 0, 0, 0, 0, 0]);
    s.shift(0, 1);
    assert_eq!(s.tiles, [6, 0, 0, 0, 1, 0, 1, 0, 0, 0, 0, 0, 0, 0, 0, 0]);
}

#[test]
fn moves_keep_the_score() {
    let s = board([1, 1, 2, 3, 0, 4, 4, 0, 2, 0, 2, 0, 1, 1, 1, 1]);
    for n in s.next_states() {
        assert_eq!(n.score(), s.score());
    }
}

#[test]
fn next_states_leave_out_unchanged_moves() {
    let s = board([1, 0, 0, 0, 0, 0, 0, 0, 0, 0, 0, 0, 0, 0, 0, 0]);
    let next = s.next_states();
    assert_eq!(next.len(), 2);
    assert_eq!(next[0].tiles[12], 1);
    assert_eq!(next[1].tiles[3], 1);
    for n in &next {
        assert!(!n.equals(&s));
    }
}

#[test]
fn next_states_in_fixed_order() {
    let s = board([0, 0, 0, 0, 0, 1, 0, 0, 0, 0, 0, 0, 0, 0, 0, 0]);
    let next = s.next_states();
    assert_eq!(next.len(), 4);
    assert_eq!(next[0].tiles[13], 1);
    assert_eq!(next[1].tiles[1], 1);
    assert_eq!(next[2].tiles[7], 1);
    assert_eq!(next[3].tiles[4], 1);
}

#[test]
fn terminal_board_is_full_without_neighbour_pairs() {
    let s = board([1, 2, 1, 2, 2, 1, 2, 1, 1, 2, 1, 2, 2, 1, 2, 1]);
    assert!(s.next_states().is_empty());
    assert!(s.blanks().is_empty());
}

#[test]
fn full_board_with_a_pair_can_move() {
    let s = board([1, 1, 2, 3, 2, 3, 4, 5, 3, 4, 5, 6, 4, 5, 6, 7]);
    let next = s.next_states();
    assert_eq!(next.len(), 2);
    for n in &next {
        assert!(!n.blanks().is_empty());
    }
}

#[test]
fn empty_board_admits_no_move() {
    assert!(State::empty().next_states().is_empty());
    assert_eq!(State::empty().blanks().len(), 16);
}

#[test]
fn blanks_lists_empty_cells_in_order() {
    let s = board([0, 1, 0, 2, 3, 0, 0, 0, 1, 1, 1, 1, 0, 2, 2, 0]);
    let b = s.blanks();
    assert_eq!(b, vec![0, 2, 5, 6, 7, 12, 15]);
    let filled = s.tiles.iter().filter(|v| **v != 0).count();
    assert_eq!(b.len() + filled, 16);
}

#[test]
fn score_sums_tile_values() {
    assert_eq!(State::empty().score(), 0);
    let s = board([1, 2, 3, 0, 0, 0, 0, 0, 0, 0, 0, 0, 0, 0, 0, 11]);
    assert_eq!(s.score(), 2 + 4 + 8 + 2048);
    let more = board([1, 2, 3, 1, 0, 0, 0, 0, 0, 0, 0, 0, 0, 0, 0, 11]);
    assert!(more.score() > s.score());
}

#[test]
fn equals_compares_every_cell() {
    let a = board([1, 2, 3, 0, 0, 0, 0, 0, 0, 0, 0, 0, 0, 0, 0, 1]);
    let mut b = a;
    assert!(a.equals(&b));
    b.tiles[15] = 2;
    assert!(!a.equals(&b));
}

#[test]
fn place_tile_sets_one_cell() {
    let mut s = State::empty();
    s.place_tile(5, true);
    s.place_tile(9, false);
    assert_eq!(s.tiles[5], 1);
    assert_eq!(s.tiles[9], 2);
    assert_eq!(s.blanks().len(), 14);
}
