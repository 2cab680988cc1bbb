use crate::board::{
    blanks_of, board_score, spawned_from, successors, tiles_of, State, MAX_SCORE,
};
use crate::clock::{clock_now, millis_since};
use crate::random::choose_one;
use rand::rngs::StdRng;
use vstd::arithmetic::div_mod::{lemma_div_is_ordered, lemma_div_multiples_vanish};
use vstd::prelude::*;

verus! {

/// A board with a score at most this can take one more random tile.
pub const SPAWN_LIMIT: i32 = 1073741820;

/// Most playouts that one timed evaluation runs, however long its budget.
pub const MAX_GAMES: i64 = 2147483647;

/// A board that a playout can start from: well formed, with an empty cell, and
/// room under the score bound for one more tile.
pub open spec fn playable(s: State) -> bool {
    s.wf() && board_score(s.tiles@) + 4 <= MAX_SCORE && blanks_of(s.tiles@).len() > 0
}

/// One turn of play: `u` is a board that one move reaches from `t`, with one
/// new tile of 2 or 4 added on an empty cell.
pub open spec fn turn(t: Seq<u8>, u: Seq<u8>) -> bool {
    exists|k: int| 0 <= k < successors(t).len() && spawned_from(#[trigger] successors(t)[k], u)
}

/// `end` comes from `start` after `n` turns.
pub open spec fn reached(start: Seq<u8>, end: Seq<u8>, n: nat) -> bool
    decreases n,
{
    if n == 0 {
        end == start
    } else {
        exists|mid: Seq<u8>| reached(start, mid, (n - 1) as nat) && #[trigger] turn(mid, end)
    }
}

/// `end` comes from `start` after `n` turns, each of which added 2 or 4 points.
pub open spec fn played(start: Seq<u8>, end: Seq<u8>, n: nat) -> bool {
    reached(start, end, n) && board_score(start) + 2 * n <= board_score(end) <= board_score(start)
        + 4 * n
}

/// A game is over on `t`: no move is left, or the score has passed the bound
/// under which a tile can still be added.
pub open spec fn game_over(t: Seq<u8>) -> bool {
    successors(t).len() == 0 || board_score(t) > SPAWN_LIMIT
}

/// A playout from `start` can end on `end`.
pub open spec fn playout_end(start: Seq<u8>, end: Seq<u8>) -> bool {
    (exists|n: nat| played(start, end, n)) && game_over(end)
}

/// A playout that first adds one tile to `start` can end on `end`.
pub open spec fn spawned_playout(start: Seq<u8>, end: Seq<u8>) -> bool {
    exists|u: Seq<u8>| spawned_from(start, u) && #[trigger] playout_end(u, end)
}

/// Sum of the scores of a sequence of boards.
pub open spec fn ends_total(ends: Seq<Seq<u8>>) -> int
    decreases ends.len(),
{
    if ends.len() == 0 {
        0
    } else {
        ends_total(ends.drop_last()) + board_score(ends.last())
    }
}

/// `total` is the summed final score of `n` playouts, each from `start` with
/// one tile added.
#[verifier::opaque]
pub open spec fn playout_total(start: Seq<u8>, total: int, n: int) -> bool {
    exists|ends: Seq<Seq<u8>>|
        ends.len() == n && (forall|k: int| 0 <= k < n ==> spawned_playout(start, #[trigger] ends[k]))
            && total == ends_total(ends)
}

/// `avg` is the integer mean final score of one or more playouts, each from
/// `start` with one tile added.
#[verifier::opaque]
pub open spec fn playout_mean(start: Seq<u8>, avg: int) -> bool {
    exists|ends: Seq<Seq<u8>>|
        ends.len() >= 1 && (forall|k: int|
            0 <= k < ends.len() ==> spawned_playout(start, #[trigger] ends[k])) && avg
            == ends_total(ends) / (ends.len() as int)
}

/// Each candidate's score is the summed final score of `n` playouts from it,
/// each after one added tile.
pub open spec fn totals_of_playouts(states: Seq<State>, scores: Seq<i64>, n: int) -> bool {
    scores.len() == states.len() && forall|k: int|
        0 <= k < scores.len() ==> playout_total(states[k].tiles@, #[trigger] scores[k] as int, n)
}

/// Each candidate's score is the mean final score of one or more playouts from
/// it, each after one added tile.
pub open spec fn means_of_playouts(states: Seq<State>, scores: Seq<i64>) -> bool {
    scores.len() == states.len() && forall|k: int|
        0 <= k < scores.len() ==> playout_mean(states[k].tiles@, #[trigger] scores[k] as int)
}

/// `to` is the candidate at the first greatest score when that score is above
/// 0, and `from` otherwise.
pub open spec fn picked(states: Seq<State>, scores: Seq<i64>, from: State, to: State) -> bool {
    (forall|i: int| #[trigger] is_best(scores, i) ==> to == states[i]) && ((forall|j: int|
        0 <= j < scores.len() ==> scores[j] <= 0) ==> to == from)
}

/// Whether `i` is the first index of a greatest score, and that score is above 0.
pub open spec fn is_best(scores: Seq<i64>, i: int) -> bool {
    0 <= i < scores.len() && scores[i] > 0 && (forall|j: int| 0 <= j < i ==> scores[j] < scores[i])
        && (forall|j: int| i < j < scores.len() ==> scores[j] <= scores[i])
}

/// The first index of the greatest score, or `None` when no score is above 0.
pub fn select_best(scores: &Vec<i64>) -> (r: Option<usize>)
    ensures
        r.is_none() <==> (forall|j: int| 0 <= j < scores@.len() ==> scores@[j] <= 0),
        r.is_some() ==> is_best(scores@, r.unwrap() as int),
{
    let mut best: Option<usize> = None;
    let mut best_score: i64 = 0;
    let mut i: usize = 0;
    while i < scores.len()
        invariant
            i <= scores@.len(),
            best.is_none() ==> best_score == 0 && forall|j: int| 0 <= j < i ==> scores@[j] <= 0,
            best.is_some() ==> best.unwrap() < i && best_score == scores@[best.unwrap() as int]
                && best_score > 0 && (forall|j: int|
                0 <= j < best.unwrap() ==> scores@[j] < best_score) && (forall|j: int|
                best.unwrap() < j < i ==> scores@[j] <= best_score),
        decreases scores@.len() - i,
    {
        if best_score < scores[i] {
            best = Some(i);
            best_score = scores[i];
        }
        i = i + 1;
    }
    best
}

/// Equal share, in milliseconds, of a `duration` budget for each of `count`
/// candidates.
pub fn time_share(duration: i32, count: usize) -> (r: u128)
    requires
        duration >= 0,
        count > 0,
    ensures
        r as int == duration as int / count as int,
{
    (duration as u128) / (count as u128)
}

/// Integer mean of `count` scores that sum to `total`.
pub fn mean(total: i64, count: i64) -> (r: i32)
    requires
        count >= 1,
        0 <= total <= count * MAX_SCORE,
    ensures
        r as int == total as int / count as int,
{
    proof {
        lemma_div_is_ordered(total as int, count * MAX_SCORE, count as int);
        lemma_div_multiples_vanish(MAX_SCORE as int, count as int);
    }
    (total / count) as i32
}

proof fn lemma_mean_at_least(total: int, count: int, low: int)
    requires
        count >= 1,
        count * low <= total,
    ensures
        low <= total / count,
{
    lemma_div_is_ordered(count * low, total, count);
    lemma_div_multiples_vanish(low, count);
}

proof fn lemma_mean_at_most(total: int, count: int, high: int)
    requires
        count >= 1,
        total <= count * high,
    ensures
        total / count <= high,
{
    lemma_div_is_ordered(total, count * high, count);
    lemma_div_multiples_vanish(high, count);
}

proof fn lemma_best_unique(scores: Seq<i64>, b: int)
    requires
        is_best(scores, b),
    ensures
        forall|i: int| is_best(scores, i) ==> i == b,
{
}

proof fn lemma_best_exists(scores: Seq<i64>)
    requires
        exists|j: int| 0 <= j < scores.len() && scores[j] > 0,
    ensures
        exists|i: int| is_best(scores, i),
    decreases scores.len(),
{
    let p = scores.drop_last();
    let n = scores.len() - 1;
    assert(forall|j: int| 0 <= j < p.len() ==> p[j] == scores[j]);
    if exists|j: int| 0 <= j < p.len() && p[j] > 0 {
        lemma_best_exists(p);
        let i = choose|i: int| is_best(p, i);
        if scores[n] > scores[i] {
            assert forall|j: int| 0 <= j < n implies scores[j] < scores[n] by {
                if j != i {
                    assert(p[j] <= p[i] || j > i);
                }
            }
            assert(is_best(scores, n));
        } else {
            assert(is_best(scores, i));
        }
    } else {
        assert(is_best(scores, n));
    }
}

proof fn lemma_turn(t: Seq<u8>, next: State, u: Seq<u8>, states: Seq<State>)
    requires
        tiles_of(states) == successors(t),
        states.contains(next),
        spawned_from(next.tiles@, u),
    ensures
        turn(t, u),
{
    let k = choose|k: int| 0 <= k < states.len() && states[k] == next;
    assert(tiles_of(states)[k] == next.tiles@);
    assert(spawned_from(successors(t)[k], u));
}

proof fn lemma_played_step(start: Seq<u8>, mid: Seq<u8>, end: Seq<u8>, n: nat)
    requires
        played(start, mid, n),
        turn(mid, end),
        board_score(mid) + 2 <= board_score(end) <= board_score(mid) + 4,
    ensures
        played(start, end, n + 1),
{
    assert(reached(start, mid, ((n + 1) - 1) as nat));
}

proof fn lemma_ends_push(ends: Seq<Seq<u8>>, e: Seq<u8>)
    ensures
        ends_total(ends.push(e)) == ends_total(ends) + board_score(e),
{
    assert(ends.push(e).drop_last() =~= ends);
}

impl State {
    /// Plays random moves from this board, each followed by a random tile, until
    /// no move changes the board or the score leaves no room for another tile.
    pub fn play_random_game(&mut self, rng: &mut StdRng)
        requires
            old(self).wf(),
        ensures
            final(self).wf(),
            playout_end(old(self).tiles@, final(self).tiles@),
            game_over(old(self).tiles@) ==> *final(self) == *old(self),
    {
        let ghost start = *self;
        let ghost mut steps: nat = 0;
        let mut next_states = self.next_states();
        while next_states.len() > 0 && self.score() <= SPAWN_LIMIT
            invariant
                self.wf(),
                played(start.tiles@, self.tiles@, steps),
                steps == 0 ==> *self == start,
                steps > 0 ==> !game_over(start.tiles@),
                tiles_of(next_states@) == successors(self.tiles@),
                forall|i: int|
                    0 <= i < next_states@.len() ==> playable_after_move(
                        #[trigger] next_states@[i],
                        *self,
                    ),
            decreases MAX_SCORE - board_score(self.tiles@),
        {
            let ghost before = self.tiles@;
            let next = choose_one(&next_states, rng);
            proof {
                let k = choose|k: int| 0 <= k < next_states@.len() && next_states@[k] == next;
                assert(tiles_of(next_states@)[k] == next.tiles@);
            }
            *self = next;
            let blanks = self.blanks();
            self.add_random_value(blanks, rng);
            proof {
                lemma_turn(before, next, self.tiles@, next_states@);
                lemma_played_step(start.tiles@, before, self.tiles@, steps);
                steps = steps + 1;
            }
            next_states = self.next_states();
        }
        proof {
            assert(tiles_of(next_states@).len() == next_states@.len());
        }
    }

    /// Score of the board that one random playout from this board ends on.
    pub fn score_after_playout(&self, rng: &mut StdRng) -> (r: i32)
        requires
            self.wf(),
        ensures
            exists|end: Seq<u8>| playout_end(self.tiles@, end) && r == board_score(end),
            board_score(self.tiles@) <= r <= MAX_SCORE,
    {
        let mut game = *self;
        game.play_random_game(rng);
        proof {
            let n = choose|n: nat| played(self.tiles@, game.tiles@, n);
        }
        game.score()
    }

    /// One random tile on a copy of this board, then a playout; its final score.
    fn spawn_and_play(&self, rng: &mut StdRng) -> (r: i32)
        requires
            playable(*self),
        ensures
            exists|end: Seq<u8>| spawned_playout(self.tiles@, end) && r == board_score(end),
            board_score(self.tiles@) + 2 <= r <= MAX_SCORE,
    {
        let mut game = *self;
        let blanks = game.blanks();
        game.add_random_value(blanks, rng);
        let r = game.score_after_playout(rng);
        proof {
            let end = choose|end: Seq<u8>| playout_end(game.tiles@, end) && r == board_score(end);
            assert(spawned_from(self.tiles@, game.tiles@) && playout_end(game.tiles@, end));
        }
        r
    }

    /// Sum of the final scores of `iterations` playouts, each from a copy of this
    /// board with one random tile added.
    fn total_playout_score(&self, iterations: i32, rng: &mut StdRng) -> (r: i64)
        requires
            playable(*self),
            iterations >= 0,
        ensures
            playout_total(self.tiles@, r as int, iterations as int),
            iterations as int * (board_score(self.tiles@) + 2) <= r as int,
            r as int <= iterations as int * MAX_SCORE as int,
    {
        let ghost low: int = board_score(self.tiles@) as int + 2;
        let ghost mut ends: Seq<Seq<u8>> = Seq::empty();
        let mut total_score: i64 = 0;
        let mut i: i32 = 0;
        while i < iterations
            invariant
                0 <= i <= iterations,
                playable(*self),
                low == board_score(self.tiles@) as int + 2,
                i as int * low <= total_score as int,
                total_score as int <= i as int * MAX_SCORE as int,
                ends.len() == i,
                forall|k: int| 0 <= k < i ==> spawned_playout(self.tiles@, #[trigger] ends[k]),
                total_score as int == ends_total(ends),
            decreases iterations - i,
        {
            let s = self.spawn_and_play(rng);
            proof {
                let k = i as int;
                assert((k + 1) * low == k * low + low) by (nonlinear_arith);
                assert((k + 1) * (MAX_SCORE as int) == k * (MAX_SCORE as int) + MAX_SCORE as int)
                    by (nonlinear_arith);
                let e = choose|e: Seq<u8>| spawned_playout(self.tiles@, e) && s == board_score(e);
                lemma_ends_push(ends, e);
                ends = ends.push(e);
            }
            total_score = total_score + s as i64;
            i = i + 1;
        }
        proof {
            reveal(playout_total);
        }
        total_score
    }

    /// Mean final score of `iterations` playouts, each from a copy of this board
    /// with one random tile added.
    pub fn average_score(&self, iterations: i32, rng: &mut StdRng) -> (r: i32)
        requires
            playable(*self),
            iterations >= 1,
        ensures
            exists|ends: Seq<Seq<u8>>|
                ends.len() == iterations && (forall|k: int|
                    0 <= k < iterations ==> spawned_playout(self.tiles@, #[trigger] ends[k])) && r
                    == ends_total(ends) / (iterations as int),
            board_score(self.tiles@) + 2 <= r <= MAX_SCORE,
    {
        let total_score = self.total_playout_score(iterations, rng);
        proof {
            reveal(playout_total);
            let low: int = board_score(self.tiles@) as int + 2;
            lemma_mean_at_least(total_score as int, iterations as int, low);
            lemma_mean_at_most(total_score as int, iterations as int, MAX_SCORE as int);
        }
        mean(total_score, iterations as i64)
    }

    /// Mean final score of the playouts (each from a copy of this board with one
    /// random tile added) that run until `duration` milliseconds have passed.
    /// At least one playout runs, also on a zero budget, and at most `MAX_GAMES`.
    pub fn average_score_time(&self, duration: u128, rng: &mut StdRng) -> (r: i32)
        requires
            playable(*self),
        ensures
            playout_mean(self.tiles@, r as int),
            board_score(self.tiles@) + 2 <= r <= MAX_SCORE,
    {
        let ghost low: int = board_score(self.tiles@) as int + 2;
        let ghost mut ends: Seq<Seq<u8>> = Seq::empty();
        let start = clock_now();
        let mut total_score: i64 = 0;
        let mut num_games: i64 = 0;
        let mut done = false;
        while !done
            invariant
                0 <= num_games <= MAX_GAMES,
                done ==> num_games >= 1,
                !done ==> num_games < MAX_GAMES,
                playable(*self),
                low == board_score(self.tiles@) as int + 2,
                num_games as int * low <= total_score as int,
                total_score as int <= num_games as int * MAX_SCORE as int,
                ends.len() == num_games,
                forall|k: int|
                    0 <= k < num_games ==> spawned_playout(self.tiles@, #[trigger] ends[k]),
                total_score as int == ends_total(ends),
            decreases MAX_GAMES - num_games,
        {
            let s = self.spawn_and_play(rng);
            proof {
                let k = num_games as int;
                assert((k + 1) * low == k * low + low) by (nonlinear_arith);
                assert((k + 1) * (MAX_SCORE as int) == k * (MAX_SCORE as int) + MAX_SCORE as int)
                    by (nonlinear_arith);
                let e = choose|e: Seq<u8>| spawned_playout(self.tiles@, e) && s == board_score(e);
                lemma_ends_push(ends, e);
                ends = ends.push(e);
            }
            total_score = total_score + s as i64;
            num_games = num_games + 1;
            if num_games >= MAX_GAMES || millis_since(&start) >= duration {
                done = true;
            }
        }
        proof {
            reveal(playout_mean);
            lemma_mean_at_least(total_score as int, num_games as int, low);
            lemma_mean_at_most(total_score as int, num_games as int, MAX_SCORE as int);
        }
        mean(total_score, num_games)
    }

    /// Moves to the candidate with the first greatest score, when that score is
    /// above 0; else stays as it is.
    pub fn pick_best(&mut self, next_states: &Vec<State>, scores: &Vec<i64>)
        requires
            scores@.len() == next_states@.len(),
        ensures
            forall|i: int|
                is_best(scores@, i) ==> *final(self) == #[trigger] next_states@[i],
            (forall|j: int| 0 <= j < scores@.len() ==> scores@[j] <= 0) ==> *final(self) == *old(
                self,
            ),
    {
        match select_best(scores) {
            Some(b) => {
                proof {
                    lemma_best_unique(scores@, b as int);
                }
                *self = next_states[b];
            },
            None => {},
        }
    }

    /// Moves to the candidate whose `iterations` playouts (each after one random
    /// tile) reach the greatest total score; the first such on ties. With no
    /// candidate, or no playout, the board stays as it is.
    pub fn make_best_move(&mut self, iterations: i32, next_states: Vec<State>, rng: &mut StdRng)
        requires
            iterations >= 0,
            forall|i: int| 0 <= i < next_states@.len() ==> playable(#[trigger] next_states@[i]),
        ensures
            exists|scores: Seq<i64>|
                totals_of_playouts(next_states@, scores, iterations as int) && #[trigger] picked(
                    next_states@,
                    scores,
                    *old(self),
                    *final(self),
                ),
            iterations >= 1 && next_states@.len() > 0 ==> next_states@.contains(*final(self)),
            iterations == 0 || next_states@.len() == 0 ==> *final(self) == *old(self),
    {
        let mut scores: Vec<i64> = Vec::with_capacity(next_states.len());
        let mut k: usize = 0;
        while k < next_states.len()
            invariant
                k <= next_states@.len(),
                scores@.len() == k,
                iterations >= 0,
                forall|i: int| 0 <= i < next_states@.len() ==> playable(#[trigger] next_states@[i]),
                forall|j: int|
                    0 <= j < k ==> (iterations >= 1 ==> #[trigger] scores@[j] > 0) && (iterations
                        == 0 ==> scores@[j] == 0),
                forall|j: int|
                    0 <= j < k ==> playout_total(
                        next_states@[j].tiles@,
                        #[trigger] scores@[j] as int,
                        iterations as int,
                    ),
            decreases next_states@.len() - k,
        {
            let total_score = next_states[k].total_playout_score(iterations, rng);
            proof {
                if iterations >= 1 {
                    assert(iterations as int * (board_score(next_states@[k as int].tiles@) + 2)
                        >= 2) by (nonlinear_arith)
                        requires
                            iterations >= 1,
                    ;
                }
            }
            scores.push(total_score);
            k = k + 1;
        }
        let ghost from = *self;
        self.pick_best(&next_states, &scores);
        assert(picked(next_states@, scores@, from, *self));
        assert(totals_of_playouts(next_states@, scores@, iterations as int));
        proof {
            if iterations >= 1 && next_states@.len() > 0 {
                assert(scores@[0] > 0);
                lemma_best_exists(scores@);
                let i = choose|i: int| is_best(scores@, i);
                assert(*self == next_states@[i]);
            }
        }
    }

    /// Moves to the candidate with the greatest mean playout score, each candidate
    /// evaluated for an equal share of `duration` milliseconds; the first such on
    /// ties.
    pub fn timed_make_best_move(&mut self, duration: i32, next_states: Vec<State>, rng: &mut StdRng)
        requires
            duration >= 0,
            next_states@.len() > 0,
            forall|i: int| 0 <= i < next_states@.len() ==> playable(#[trigger] next_states@[i]),
        ensures
            exists|scores: Seq<i64>|
                means_of_playouts(next_states@, scores) && #[trigger] picked(
                    next_states@,
                    scores,
                    *old(self),
                    *final(self),
                ),
            next_states@.contains(*final(self)),
    {
        let duration_per_move: u128 = time_share(duration, next_states.len());
        let mut scores: Vec<i64> = Vec::with_capacity(next_states.len());
        let mut k: usize = 0;
        while k < next_states.len()
            invariant
                k <= next_states@.len(),
                scores@.len() == k,
                forall|i: int| 0 <= i < next_states@.len() ==> playable(#[trigger] next_states@[i]),
                forall|j: int| 0 <= j < k ==> #[trigger] scores@[j] > 0,
                forall|j: int|
                    0 <= j < k ==> playout_mean(next_states@[j].tiles@, #[trigger] scores@[j] as int),
            decreases next_states@.len() - k,
        {
            let total_score = next_states[k].average_score_time(duration_per_move, rng);
            scores.push(total_score as i64);
            k = k + 1;
        }
        let ghost from = *self;
        self.pick_best(&next_states, &scores);
        assert(picked(next_states@, scores@, from, *self));
        assert(means_of_playouts(next_states@, scores@));
        proof {
            assert(scores@[0] > 0);
            lemma_best_exists(scores@);
            let i = choose|i: int| is_best(scores@, i);
            assert(*self == next_states@[i]);
        }
    }

    /// Plays a game from this board: each turn moves to the candidate that
    /// `make_best_move` picks with `iterations` playouts, then adds a random tile;
    /// it ends when no move changes the board or the score leaves no room for
    /// another tile.
    pub fn play_best_game(&mut self, iterations: i32, rng: &mut StdRng)
        requires
            old(self).wf(),
            iterations >= 1,
        ensures
            final(self).wf(),
            exists|n: nat| played(old(self).tiles@, final(self).tiles@, n),
            game_over(final(self).tiles@),
            game_over(old(self).tiles@) ==> *final(self) == *old(self),
    {
        let ghost start = *self;
        let ghost mut steps: nat = 0;
        let mut next_states = self.next_states();
        while next_states.len() > 0 && self.score() <= SPAWN_LIMIT
            invariant
                self.wf(),
                iterations >= 1,
                played(start.tiles@, self.tiles@, steps),
                steps == 0 ==> *self == start,
                steps > 0 ==> !game_over(start.tiles@),
                tiles_of(next_states@) == successors(self.tiles@),
                forall|i: int|
                    0 <= i < next_states@.len() ==> playable_after_move(
                        #[trigger] next_states@[i],
                        *self,
                    ),
            decreases MAX_SCORE - board_score(self.tiles@),
        {
            let ghost before = *self;
            let ghost candidates = next_states@;
            self.make_best_move(iterations, next_states, rng);
            let ghost moved = *self;
            assert(playable_after_move(*self, before));
            let blanks = self.blanks();
            self.add_random_value(blanks, rng);
            proof {
                lemma_turn(before.tiles@, moved, self.tiles@, candidates);
                lemma_played_step(start.tiles@, before.tiles@, self.tiles@, steps);
                steps = steps + 1;
            }
            next_states = self.next_states();
        }
        proof {
            assert(tiles_of(next_states@).len() == next_states@.len());
        }
    }

    /// Plays a game as `play_best_game` does, choosing each move with
    /// `timed_make_best_move` and a budget of `duration` milliseconds per move.
    /// Returns the board after each turn, in order.
    pub fn timed_play_best_game(&mut self, duration: i32, rng: &mut StdRng) -> (r: Vec<State>)
        requires
            old(self).wf(),
            duration >= 0,
        ensures
            final(self).wf(),
            played(old(self).tiles@, final(self).tiles@, r@.len()),
            game_over(final(self).tiles@),
            r@.len() > 0 ==> r@.last() == *final(self),
            forall|k: int| 0 <= k < r@.len() ==> (#[trigger] r@[k]).wf(),
            2 * r@.len() <= MAX_SCORE,
    {
        let ghost start = *self;
        let mut history: Vec<State> = Vec::new();
        let mut next_states = self.next_states();
        while next_states.len() > 0 && self.score() <= SPAWN_LIMIT
            invariant
                self.wf(),
                duration >= 0,
                played(start.tiles@, self.tiles@, history@.len()),
                tiles_of(next_states@) == successors(self.tiles@),
                forall|i: int|
                    0 <= i < next_states@.len() ==> playable_after_move(
                        #[trigger] next_states@[i],
                        *self,
                    ),
                history@.len() > 0 ==> history@.last() == *self,
                forall|k: int| 0 <= k < history@.len() ==> (#[trigger] history@[k]).wf(),
            decreases MAX_SCORE - board_score(self.tiles@),
        {
            let ghost before = *self;
            let ghost candidates = next_states@;
            self.timed_make_best_move(duration, next_states, rng);
            let ghost moved = *self;
            assert(playable_after_move(*self, before));
            let blanks = self.blanks();
            self.add_random_value(blanks, rng);
            proof {
                lemma_turn(before.tiles@, moved, self.tiles@, candidates);
                lemma_played_step(start.tiles@, before.tiles@, self.tiles@, history@.len());
            }
            history.push(*self);
            next_states = self.next_states();
        }
        proof {
            assert(tiles_of(next_states@).len() == next_states@.len());
        }
        history
    }
}

/// Sum of the scores that several evaluations of one candidate returned.
pub fn total_of(worker_scores: &Vec<i32>) -> (r: i64)
    requires
        worker_scores@.len() <= MAX_GAMES,
        forall|i: int| 0 <= i < worker_scores@.len() ==> 0 <= #[trigger] worker_scores@[i] <= MAX_SCORE,
    ensures
        r as int == sum_of(worker_scores@),
{
    let mut total: i64 = 0;
    let mut i: usize = 0;
    while i < worker_scores.len()
        invariant
            i <= worker_scores@.len(),
            worker_scores@.len() <= MAX_GAMES,
            forall|j: int| 0 <= j < worker_scores@.len() ==> 0 <= #[trigger] worker_scores@[j] <= MAX_SCORE,
            total as int == sum_of(worker_scores@.take(i as int)),
            total as int <= i as int * MAX_SCORE as int,
        decreases worker_scores@.len() - i,
    {
        proof {
            assert(worker_scores@.take(i + 1).drop_last() =~= worker_scores@.take(i as int));
            let k = i as int;
            assert((k + 1) * (MAX_SCORE as int) == k * (MAX_SCORE as int) + MAX_SCORE as int)
                by (nonlinear_arith);
        }
        total = total + worker_scores[i] as i64;
        i = i + 1;
    }
    assert(worker_scores@.take(worker_scores@.len() as int) =~= worker_scores@);
    total
}

/// Sum of a sequence of scores.
pub open spec fn sum_of(s: Seq<i32>) -> int
    decreases s.len(),
{
    if s.len() == 0 {
        0
    } else {
        sum_of(s.drop_last()) + s.last()
    }
}

/// `s` is a board that one move turned `from` into: it keeps the score and has
/// an empty cell.
pub open spec fn playable_after_move(s: State, from: State) -> bool {
    s.wf() && board_score(s.tiles@) == board_score(from.tiles@) && blanks_of(s.tiles@).len() > 0
}

} // verus!
