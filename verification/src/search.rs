//! The parts of the game-tree search that do not depend on scores: time checks,
//! move ordering, the opponents to consider and the opponent model of the
//! paranoid search.
use vstd::prelude::*;
use std::time::Instant;
use crate::board::{snake_fits, BoardView, SimBoard, MAX_SNAKES};
use crate::logic::{lemma_filter_push, non_risky};
use crate::types::{Coord, Direction};

verus! {

#[verifier::external_type_specification]
#[verifier::external_body]
pub struct ExInstant(Instant);

/// `std::time::Instant::now`: the current time. Nothing is claimed about the value.
#[verifier::external_body]
fn current_instant() -> Instant {
    Instant::now()
}

/// `>=` on `std::time::Instant`: whether `now` is at or after `deadline`. Nothing
/// is claimed about the result, which depends on when `now` was taken.
#[verifier::external_body]
fn instant_reached(now: &Instant, deadline: &Instant) -> bool {
    *now >= *deadline
}

/// Node counter and deadline of a running search.
pub struct SearchState {
    pub nodes: u64,
    pub deadline: Instant,
    pub timed_out: bool,
}

impl SearchState {
    /// Acts on a clock reading: `reached` says whether the deadline has passed.
    /// Marks the search as timed out when it has, and returns `reached`.
    pub fn record_deadline(&mut self, reached: bool) -> (expired: bool)
        ensures
            expired == reached,
            final(self).timed_out == (old(self).timed_out || reached),
            final(self).nodes == old(self).nodes,
            final(self).deadline == old(self).deadline,
    {
        if reached {
            self.timed_out = true;
        }
        reached
    }

    /// Counts one node; every 256 nodes, reads the clock and marks the search as
    /// timed out once the deadline has passed (see `record_deadline`, which acts on
    /// the reading). Returns whether it did so now.
    pub fn check_time(&mut self) -> (expired: bool)
        requires
            old(self).nodes < u64::MAX,
        ensures
            final(self).nodes == old(self).nodes + 1,
            final(self).deadline == old(self).deadline,
            final(self).timed_out == (old(self).timed_out || expired),
            expired ==> final(self).nodes % 256 == 0,
    {
        self.nodes = self.nodes + 1;
        // Check every 256 nodes to catch timeouts soon when the search is expensive.
        if self.nodes % 256 == 0 {
            let now = current_instant();
            let reached = instant_reached(&now, &self.deadline);
            return self.record_deadline(reached);
        }
        false
    }
}

/// The moves flagged as risky, in order.
pub open spec fn risky(moves: Seq<(Direction, Coord, bool)>) -> Seq<(Direction, Coord, bool)> {
    moves.filter(|m: (Direction, Coord, bool)| m.2)
}

proof fn lemma_risky_push(s: Seq<(Direction, Coord, bool)>, x: (Direction, Coord, bool))
    ensures
        risky(s.push(x)) == if x.2 {
            risky(s).push(x)
        } else {
            risky(s)
        },
        non_risky(s.push(x)) == if !x.2 {
            non_risky(s).push(x)
        } else {
            non_risky(s)
        },
{
    lemma_filter_push(s, x, |m: (Direction, Coord, bool)| m.2);
    lemma_filter_push(s, x, |m: (Direction, Coord, bool)| !m.2);
}

/// Orders moves with the non-risky ones first, keeping the order within each group
/// (a stable sort on the risk flag).
pub fn order_non_risky_first(moves: Vec<(Direction, Coord, bool)>) -> (ordered: Vec<(Direction, Coord, bool)>)
    ensures
        ordered@ == non_risky(moves@) + risky(moves@),
{
    let mut safe_part: Vec<(Direction, Coord, bool)> = Vec::new();
    let mut risky_part: Vec<(Direction, Coord, bool)> = Vec::new();
    let mut k: usize = 0;
    while k < moves.len()
        invariant
            k <= moves@.len(),
            safe_part@ == non_risky(moves@.take(k as int)),
            risky_part@ == risky(moves@.take(k as int)),
        decreases moves@.len() - k,
    {
        proof {
            lemma_risky_push(moves@.take(k as int), moves@[k as int]);
            assert(moves@.take(k + 1) =~= moves@.take(k as int).push(moves@[k as int]));
        }
        let m = moves[k];
        if m.2 {
            risky_part.push(m);
        } else {
            safe_part.push(m);
        }
        k += 1;
    }
    assert(moves@.take(moves@.len() as int) =~= moves@);
    let mut ordered = safe_part;
    let mut j: usize = 0;
    let ghost base = ordered@;
    while j < risky_part.len()
        invariant
            j <= risky_part@.len(),
            ordered@ == base + risky_part@.take(j as int),
        decreases risky_part@.len() - j,
    {
        ordered.push(risky_part[j]);
        assert(risky_part@.take(j + 1) =~= risky_part@.take(j as int).push(risky_part@[j as int]));
        j += 1;
    }
    assert(risky_part@.take(risky_part@.len() as int) =~= risky_part@);
    ordered
}

/// The living snakes other than ours among the first `k`, in index order.
pub open spec fn opponents_upto(b: BoardView, k: int) -> Seq<usize>
    decreases k,
{
    if k <= 0 {
        Seq::empty()
    } else {
        let prev = opponents_upto(b, k - 1);
        if k - 1 != b.our_index && b.snakes[k - 1].alive {
            prev.push((k - 1) as usize)
        } else {
            prev
        }
    }
}

impl SimBoard {
    /// Indices of the living snakes other than ours, in order.
    pub fn alive_opponents(&self) -> (opponents: Vec<usize>)
        requires
            self@.wf(),
        ensures
            opponents@ == opponents_upto(self@, self@.snake_count as int),
    {
        let mut opponents: Vec<usize> = Vec::new();
        let mut i: usize = 0;
        while i < self.snake_count
            invariant
                self@.wf(),
                i <= self.snake_count,
                opponents@ == opponents_upto(self@, i as int),
            decreases self.snake_count - i,
        {
            proof {
                assert(self@.snakes[i as int] == self.snakes@[i as int]@);
            }
            if i != self.our_index && self.snakes[i].alive {
                opponents.push(i);
            }
            i += 1;
        }
        opponents
    }
}

/// Every opponent index lies below `k`, differs from ours and names a living snake.
pub proof fn lemma_opponents(b: BoardView, k: int)
    requires
        k <= MAX_SNAKES,
    ensures
        forall|j: int|
            0 <= j < opponents_upto(b, k).len() ==> {
                let o = #[trigger] opponents_upto(b, k)[j] as int;
                &&& 0 <= o < k
                &&& o != b.our_index
                &&& b.snakes[o].alive
            },
        opponents_upto(b, k).len() <= if k < 0 {
            0
        } else {
            k
        },
    decreases k,
{
    if k > 0 {
        lemma_opponents(b, k - 1);
        let prev = opponents_upto(b, k - 1);
        if k - 1 != b.our_index && b.snakes[k - 1].alive {
            let cur = prev.push((k - 1) as usize);
            assert forall|j: int| 0 <= j < cur.len() implies {
                let o = #[trigger] cur[j] as int;
                &&& 0 <= o < k
                &&& o != b.our_index
                &&& b.snakes[o].alive
            } by {
                if j < prev.len() {
                    assert(cur[j] == prev[j]);
                }
            }
        }
    }
}

/// The first of the moves `k..` (after `best`) closest to `target`.
pub open spec fn closest_from(moves: Seq<(Direction, Coord)>, target: Coord, best: int, k: int) -> int
    decreases moves.len() - k,
{
    if k < 0 || k >= moves.len() {
        best
    } else {
        closest_from(
            moves,
            target,
            if moves[k].1.manhattan(target) < moves[best].1.manhattan(target) {
                k
            } else {
                best
            },
            k + 1,
        )
    }
}

/// The last of the moves `k..` (after `best`) farthest from `target`.
pub open spec fn farthest_from(moves: Seq<(Direction, Coord)>, target: Coord, best: int, k: int) -> int
    decreases moves.len() - k,
{
    if k < 0 || k >= moves.len() {
        best
    } else {
        farthest_from(
            moves,
            target,
            if moves[best].1.manhattan(target) <= moves[k].1.manhattan(target) {
                k
            } else {
                best
            },
            k + 1,
        )
    }
}

/// The direction of the first move closest to `target`.
pub open spec fn closest_move(moves: Seq<(Direction, Coord)>, target: Coord) -> Direction {
    moves[closest_from(moves, target, 0, 1)].0
}

/// The direction of the last move farthest from `target`.
pub open spec fn farthest_move(moves: Seq<(Direction, Coord)>, target: Coord) -> Direction {
    moves[farthest_from(moves, target, 0, 1)].0
}

/// The move the paranoid search assumes for opponent `oi`: in the first 10 turns,
/// more than 4 steps away, it heads for the centre (an opening move); far away
/// (more than 5 steps) it heads for the centre; close and strictly longer it
/// chases our head; close and shorter it flees our head; close and equally long it
/// heads for the centre.
pub open spec fn opponent_choice(b: BoardView, oi: int, moves: Seq<(Direction, Coord)>) -> Direction {
    let us = b.snakes[b.our_index as int];
    let opp = b.snakes[oi];
    let center = Coord { x: (b.width / 2) as i32, y: (b.height / 2) as i32 };
    if b.turn < 10 && opp.head.manhattan(us.head) > 4 {
        closest_move(moves, center)
    } else if opp.head.manhattan(us.head) > 5 {
        closest_move(moves, center)
    } else if opp.length > us.length {
        closest_move(moves, us.head)
    } else if opp.length < us.length {
        farthest_move(moves, us.head)
    } else {
        closest_move(moves, center)
    }
}

proof fn lemma_closest_from_min(moves: Seq<(Direction, Coord)>, t: Coord, best: int, k: int)
    requires
        0 <= best < moves.len(),
        0 <= k,
        forall|j: int| 0 <= j < k && j < moves.len() ==> moves[best].1.manhattan(t) <= #[trigger] moves[j].1.manhattan(t),
    ensures
        0 <= closest_from(moves, t, best, k) < moves.len(),
        forall|j: int|
            0 <= j < moves.len() ==> moves[closest_from(moves, t, best, k)].1.manhattan(t)
                <= #[trigger] moves[j].1.manhattan(t),
    decreases moves.len() - k,
{
    if k < moves.len() {
        let nb = if moves[k].1.manhattan(t) < moves[best].1.manhattan(t) {
            k
        } else {
            best
        };
        lemma_closest_from_min(moves, t, nb, k + 1);
    }
}

proof fn lemma_farthest_from_max(moves: Seq<(Direction, Coord)>, t: Coord, best: int, k: int)
    requires
        0 <= best < moves.len(),
        0 <= k,
        forall|j: int| 0 <= j < k && j < moves.len() ==> moves[best].1.manhattan(t) >= #[trigger] moves[j].1.manhattan(t),
    ensures
        0 <= farthest_from(moves, t, best, k) < moves.len(),
        forall|j: int|
            0 <= j < moves.len() ==> moves[farthest_from(moves, t, best, k)].1.manhattan(t)
                >= #[trigger] moves[j].1.manhattan(t),
    decreases moves.len() - k,
{
    if k < moves.len() {
        let nb = if moves[best].1.manhattan(t) <= moves[k].1.manhattan(t) {
            k
        } else {
            best
        };
        lemma_farthest_from_max(moves, t, nb, k + 1);
    }
}

/// Whether move `r` lands at the least Manhattan distance to `t` among `moves`.
pub open spec fn nearest_to(moves: Seq<(Direction, Coord)>, r: int, t: Coord) -> bool {
    forall|j: int| 0 <= j < moves.len() ==> moves[r].1.manhattan(t) <= #[trigger] moves[j].1.manhattan(t)
}

/// Whether move `r` lands at the greatest Manhattan distance from `t` among `moves`.
pub open spec fn farthest_from_all(moves: Seq<(Direction, Coord)>, r: int, t: Coord) -> bool {
    forall|j: int| 0 <= j < moves.len() ==> moves[r].1.manhattan(t) >= #[trigger] moves[j].1.manhattan(t)
}

/// The opponent model picks one of the given moves: in the opening (first 10 turns,
/// more than 4 steps away) or far away (more than 5 steps), or close and equally
/// long, one that lands nearest the board's centre; close and strictly longer, one
/// that lands nearest our head; close and shorter, one that lands farthest from
/// our head.
pub proof fn lemma_opponent_choice_targets(b: BoardView, oi: int, moves: Seq<(Direction, Coord)>)
    requires
        moves.len() > 0,
    ensures
        exists|r: int|
            #![trigger moves[r]]
            {
                let us = b.snakes[b.our_index as int];
                let opp = b.snakes[oi];
                let d = opp.head.manhattan(us.head);
                let center = Coord { x: (b.width / 2) as i32, y: (b.height / 2) as i32 };
                &&& 0 <= r < moves.len()
                &&& moves[r].0 == opponent_choice(b, oi, moves)
                &&& (b.turn < 10 && d > 4) ==> nearest_to(moves, r, center)
                &&& d > 5 ==> nearest_to(moves, r, center)
                &&& (d <= 5 && !(b.turn < 10 && d > 4) && opp.length > us.length) ==> nearest_to(
                    moves,
                    r,
                    us.head,
                )
                &&& (d <= 5 && !(b.turn < 10 && d > 4) && opp.length < us.length) ==> farthest_from_all(
                    moves,
                    r,
                    us.head,
                )
                &&& (d <= 5 && !(b.turn < 10 && d > 4) && opp.length == us.length) ==> nearest_to(
                    moves,
                    r,
                    center,
                )
            },
{
    let us = b.snakes[b.our_index as int];
    let opp = b.snakes[oi];
    let center = Coord { x: (b.width / 2) as i32, y: (b.height / 2) as i32 };
    lemma_closest_from_min(moves, center, 0, 1);
    lemma_closest_from_min(moves, us.head, 0, 1);
    lemma_farthest_from_max(moves, us.head, 0, 1);
    let rc = closest_from(moves, center, 0, 1);
    let rh = closest_from(moves, us.head, 0, 1);
    let rf = farthest_from(moves, us.head, 0, 1);
    let d = opp.head.manhattan(us.head);
    if (b.turn < 10 && d > 4) || d > 5 || opp.length == us.length {
        assert(nearest_to(moves, rc, center));
        if !((b.turn < 10 && d > 4) || d > 5) {
            assert(opp.length == us.length);
        }
        assert(moves[rc].0 == opponent_choice(b, oi, moves));
    } else if opp.length > us.length {
        assert(nearest_to(moves, rh, us.head));
        assert(moves[rh].0 == opponent_choice(b, oi, moves));
    } else {
        assert(farthest_from_all(moves, rf, us.head));
        assert(moves[rf].0 == opponent_choice(b, oi, moves));
    }
}

/// A coordinate on the board or just off it, so that distances between such
/// coordinates stay small.
pub open spec fn near_board(c: Coord) -> bool {
    -2 <= c.x <= MAX_SNAKES * 4 && -2 <= c.y <= MAX_SNAKES * 4
}

fn closest_index(moves: &Vec<(Direction, Coord)>, target: Coord) -> (best: usize)
    requires
        moves@.len() > 0,
        near_board(target),
        forall|k: int| 0 <= k < moves@.len() ==> near_board(#[trigger] moves@[k].1),
    ensures
        best as int == closest_from(moves@, target, 0, 1),
        best < moves@.len(),
{
    let mut best: usize = 0;
    let mut best_d = moves[0].1.dist(&target);
    let mut k: usize = 1;
    while k < moves.len()
        invariant
            moves@.len() > 0,
            near_board(target),
            forall|j: int| 0 <= j < moves@.len() ==> near_board(#[trigger] moves@[j].1),
            1 <= k <= moves@.len(),
            best < moves@.len(),
            best_d == moves@[best as int].1.manhattan(target),
            closest_from(moves@, target, best as int, k as int) == closest_from(moves@, target, 0, 1),
        decreases moves@.len() - k,
    {
        let d = moves[k].1.dist(&target);
        if d < best_d {
            best = k;
            best_d = d;
        }
        k += 1;
    }
    best
}

fn farthest_index(moves: &Vec<(Direction, Coord)>, target: Coord) -> (best: usize)
    requires
        moves@.len() > 0,
        near_board(target),
        forall|k: int| 0 <= k < moves@.len() ==> near_board(#[trigger] moves@[k].1),
    ensures
        best as int == farthest_from(moves@, target, 0, 1),
        best < moves@.len(),
{
    let mut best: usize = 0;
    let mut best_d = moves[0].1.dist(&target);
    let mut k: usize = 1;
    while k < moves.len()
        invariant
            moves@.len() > 0,
            near_board(target),
            forall|j: int| 0 <= j < moves@.len() ==> near_board(#[trigger] moves@[j].1),
            1 <= k <= moves@.len(),
            best < moves@.len(),
            best_d == moves@[best as int].1.manhattan(target),
            farthest_from(moves@, target, best as int, k as int) == farthest_from(moves@, target, 0, 1),
        decreases moves@.len() - k,
    {
        let d = moves[k].1.dist(&target);
        if best_d <= d {
            best = k;
            best_d = d;
        }
        k += 1;
    }
    best
}

/// The move the paranoid search assumes for opponent `oi`, given its safe moves.
pub fn paranoid_opponent_move(board: &SimBoard, oi: usize, opp_safe: &Vec<(Direction, Coord)>) -> (dir: Direction)
    requires
        board@.wf(),
        oi < board@.snake_count,
        opp_safe@.len() > 0,
        forall|k: int|
            0 <= k < opp_safe@.len() ==> (#[trigger] opp_safe@[k]).1.inside(
                board.width as int,
                board.height as int,
            ),
    ensures
        dir == opponent_choice(board@, oi as int, opp_safe@),
{
    let ghost b = board@;
    proof {
        assert(b.snakes[oi as int] == board.snakes@[oi as int]@);
        assert(b.snakes[b.our_index as int] == board.snakes@[board.our_index as int]@);
        assert(snake_fits(b.snakes[oi as int], b.width as int, b.height as int));
        if (b.our_index as int) < b.snake_count {
            assert(snake_fits(b.snakes[b.our_index as int], b.width as int, b.height as int));
        } else {
            assert(b.snakes[b.our_index as int] == crate::board::absent_snake());
        }
        assert forall|k: int| 0 <= k < opp_safe@.len() implies near_board(#[trigger] opp_safe@[k].1) by {
            assert(opp_safe@[k].1.inside(b.width as int, b.height as int));
        }
    }
    let our_head = board.snakes[board.our_index].head;
    let opp_len = board.snakes[oi].length;
    let our_len = board.snakes[board.our_index].length;
    let dist_to_us = board.snakes[oi].head.dist(&our_head);
    let center = Coord::new(board.width / 2, board.height / 2);
    if board.turn < 10 && dist_to_us > 4 {
        // Opening: an opponent not right next to us heads for the centre
        opp_safe[closest_index(opp_safe, center)].0
    } else if dist_to_us > 5 {
        // Far away: opponent plays their own game (seek center)
        opp_safe[closest_index(opp_safe, center)].0
    } else if opp_len > our_len {
        // Strictly bigger + close: they chase us (head-to-head advantage)
        opp_safe[closest_index(opp_safe, our_head)].0
    } else if opp_len < our_len {
        // Smaller + close: they avoid us
        opp_safe[farthest_index(opp_safe, our_head)].0
    } else {
        // Equal length + close: seek center (both avoid head-to-head)
        opp_safe[closest_index(opp_safe, center)].0
    }
}

impl SimBoard {
    /// The deepest iteration of the search: 15 with at most two snakes, else 8.
    pub fn search_depth_cap(&self) -> (depth: u32)
        ensures
            depth == if self.snake_count <= 2 {
                15u32
            } else {
                8u32
            },
    {
        if self.snake_count <= 2 {
            15
        } else {
            8
        }
    }

    /// Whether the search runs the paranoid multiplayer search (more than two
    /// snakes alive) rather than 1v1 minimax.
    pub fn uses_paranoid_search(&self) -> (paranoid: bool)
        requires
            self@.wf(),
        ensures
            paranoid == (self@.alive_total() > 2),
    {
        self.alive_count() > 2
    }
}

} // verus!
