//! Move selection: the decisions taken before (or instead of) a game-tree search.
use vstd::prelude::*;
use crate::board::{BoardView, SimBoard, MAX_SNAKES};
use crate::flood::{area_of, flood_fill_area};
use crate::setup::{board_of, state_buildable, state_fits};
use crate::types::{all_directions, lemma_all_directions, Coord, Direction, GameState};

verus! {

/// Appending one element to a sequence appends it to the filtered sequence when it
/// passes the filter.
pub proof fn lemma_filter_push<A>(s: Seq<A>, x: A, p: spec_fn(A) -> bool)
    ensures
        s.push(x).filter(p) == if p(x) {
            s.filter(p).push(x)
        } else {
            s.filter(p)
        },
{
    reveal_with_fuel(Seq::filter, 1);
    assert(s.push(x).drop_last() =~= s);
}

/// The moves not flagged as risky, in order.
pub open spec fn non_risky(moves: Seq<(Direction, Coord, bool)>) -> Seq<(Direction, Coord, bool)> {
    moves.filter(|m: (Direction, Coord, bool)| !m.2)
}

proof fn lemma_non_risky_push(s: Seq<(Direction, Coord, bool)>, x: (Direction, Coord, bool))
    ensures
        non_risky(s.push(x)) == if !x.2 {
            non_risky(s).push(x)
        } else {
            non_risky(s)
        },
{
    lemma_filter_push(s, x, |m: (Direction, Coord, bool)| !m.2);
}

proof fn lemma_non_risky_members(s: Seq<(Direction, Coord, bool)>, n: int)
    requires
        0 <= n <= s.len(),
    ensures
        forall|i: int|
            #![trigger non_risky(s.take(n))[i]]
            0 <= i < non_risky(s.take(n)).len() ==> exists|j: int|
                0 <= j < n && #[trigger] s[j] == non_risky(s.take(n))[i] && !s[j].2,
    decreases n,
{
    if n > 0 {
        lemma_non_risky_members(s, n - 1);
        let prev = s.take(n - 1);
        assert(s.take(n) =~= prev.push(s[n - 1]));
        lemma_non_risky_push(prev, s[n - 1]);
        let cur = non_risky(s.take(n));
        assert forall|i: int| #![trigger cur[i]] 0 <= i < cur.len() implies exists|j: int|
            0 <= j < n && #[trigger] s[j] == cur[i] && !s[j].2 by {
            if i < non_risky(prev).len() {
                assert(cur[i] == non_risky(prev)[i]);
                let j = choose|j: int| 0 <= j < n - 1 && #[trigger] s[j] == non_risky(prev)[i] && !s[j].2;
                assert(s[j] == cur[i]);
            } else {
                assert(cur[i] == s[n - 1]);
                assert(s[n - 1] == cur[i]);
            }
        }
    } else {
        assert(s.take(0) =~= Seq::<(Direction, Coord, bool)>::empty());
        reveal_with_fuel(Seq::filter, 1);
    }
}

proof fn lemma_non_risky_single(s: Seq<(Direction, Coord, bool)>, k: int, n: int)
    requires
        0 <= k < s.len(),
        0 <= n <= s.len(),
        !s[k].2,
        forall|j: int| 0 <= j < s.len() && j != k ==> #[trigger] s[j].2,
    ensures
        non_risky(s.take(n)) == if k < n {
            seq![s[k]]
        } else {
            Seq::<(Direction, Coord, bool)>::empty()
        },
    decreases n,
{
    if n > 0 {
        lemma_non_risky_single(s, k, n - 1);
        let prev = s.take(n - 1);
        assert(s.take(n) =~= prev.push(s[n - 1]));
        lemma_non_risky_push(prev, s[n - 1]);
        if n - 1 == k {
            assert(seq![s[k]] =~= Seq::<(Direction, Coord, bool)>::empty().push(s[k]));
        }
    } else {
        assert(s.take(0) =~= Seq::<(Direction, Coord, bool)>::empty());
        reveal_with_fuel(Seq::filter, 1);
    }
}

/// A decision taken without a search among two or more safe moves is never a
/// risky move; and when exactly one safe move is not risky, it is the decision if
/// it leaves more than twice our length in open space, and otherwise (with other,
/// risky, moves to weigh) the search decides.
pub proof fn lemma_quick_move_avoids_risk(b: BoardView)
    ensures
        ({
            let safe = b.smart_moves_of(b.our_index as int);
            forall|d: Direction|
                quick_move(b) == Some(d) && safe.len() >= 2 ==> exists|k: int|
                    0 <= k < safe.len() && #[trigger] safe[k].0 == d && !safe[k].2
        }),
        ({
            let safe = b.smart_moves_of(b.our_index as int);
            forall|k: int|
                0 <= k < safe.len() && !(#[trigger] safe[k]).2 && (forall|j: int|
                    0 <= j < safe.len() && j != k ==> (#[trigger] safe[j]).2) && area_of(b, safe[k].1) > (
                b.snakes[b.our_index as int].length as u32) as int * 2 ==> quick_move(b) == Some(
                    safe[k].0,
                )
        }),
        ({
            let safe = b.smart_moves_of(b.our_index as int);
            forall|k: int|
                0 <= k < safe.len() && safe.len() >= 2 && !(#[trigger] safe[k]).2 && (forall|j: int|
                    0 <= j < safe.len() && j != k ==> (#[trigger] safe[j]).2) && area_of(b, safe[k].1) <= (
                b.snakes[b.our_index as int].length as u32) as int * 2 ==> quick_move(b) is None
        }),
{
    let safe = b.smart_moves_of(b.our_index as int);
    lemma_non_risky_members(safe, safe.len() as int);
    assert(safe.take(safe.len() as int) =~= safe);
    assert forall|d: Direction|
        quick_move(b) == Some(d) && safe.len() >= 2 implies exists|k: int|
            0 <= k < safe.len() && #[trigger] safe[k].0 == d && !safe[k].2 by {
        let nr = non_risky(safe);
        assert(nr.len() == 1);
        let j = choose|j: int| 0 <= j < safe.len() && #[trigger] safe[j] == nr[0] && !safe[j].2;
        assert(safe[j].0 == d);
    }
    assert forall|k: int|
        0 <= k < safe.len() && !(#[trigger] safe[k]).2 && (forall|j: int|
            0 <= j < safe.len() && j != k ==> (#[trigger] safe[j]).2) && area_of(b, safe[k].1) > (
        b.snakes[b.our_index as int].length as u32) as int * 2 implies quick_move(b) == Some(safe[k].0) by {
        lemma_non_risky_single(safe, k, safe.len() as int);
        if safe.len() == 1 {
            assert(k == 0);
        }
    }
    assert forall|k: int|
        0 <= k < safe.len() && safe.len() >= 2 && !(#[trigger] safe[k]).2 && (forall|j: int|
            0 <= j < safe.len() && j != k ==> (#[trigger] safe[j]).2) && area_of(b, safe[k].1) <= (
        b.snakes[b.our_index as int].length as u32) as int * 2 implies quick_move(b) is None by {
        lemma_non_risky_single(safe, k, safe.len() as int);
    }
}

/// The decision without a search in the other cases: with no safe move it is a
/// move with the most room; with exactly one safe move it is that move; a search
/// is asked for only when there are at least two safe moves.
pub proof fn lemma_quick_move_cases(b: BoardView)
    ensures
        b.smart_moves_of(b.our_index as int).len() == 0 ==> quick_move(b) is Some && forall|d: Direction|
            #[trigger] escape_room(b, d) <= escape_room(b, quick_move(b)->0),
        b.smart_moves_of(b.our_index as int).len() == 1 ==> quick_move(b) == Some(
            b.smart_moves_of(b.our_index as int)[0].0,
        ),
        quick_move(b) is None ==> b.smart_moves_of(b.our_index as int).len() >= 2,
{
    assert forall|d: Direction| #[trigger] escape_room(b, d) <= escape_room(b, escape_direction(b)) by {
        lemma_escape_is_best(b, d);
    }
}

/// The search's time budget: at least 50 ms, and otherwise 70% of the timeout,
/// rounded down.
pub proof fn lemma_search_budget(timeout: u32)
    ensures
        search_budget(timeout) >= 50,
        search_budget(timeout) > 50 ==> search_budget(timeout) * 100 <= timeout * 70 < (search_budget(
            timeout,
        ) + 1) * 100,
        timeout * 70 >= 5100 ==> search_budget(timeout) > 50,
{
}

/// Open space after moving our head in direction `d`: 0 off the board, else the
/// area reachable from there.
pub open spec fn escape_room(b: BoardView, d: Direction) -> int {
    let p = b.target(b.snakes[b.our_index as int].head, d);
    if !p.inside(b.width as int, b.height as int) {
        0
    } else {
        area_of(b, p)
    }
}

/// The direction with the most room among `best` and the directions `k..4`; a
/// later direction wins a tie.
pub open spec fn escape_from(b: BoardView, best: Direction, k: int) -> Direction
    decreases 4 - k,
{
    if k < 0 || k >= 4 {
        best
    } else {
        let d = all_directions()[k];
        escape_from(
            b,
            if escape_room(b, best) <= escape_room(b, d) {
                d
            } else {
                best
            },
            k + 1,
        )
    }
}

/// The direction an emergency move takes: the one with the most room, the last
/// of them on a tie.
pub open spec fn escape_direction(b: BoardView) -> Direction {
    escape_from(b, Direction::Up, 1)
}

/// The move decided without a search, if any: with no safe move the emergency
/// move; with exactly one safe move that move; with exactly one non-risky move
/// that leaves more than twice our length in open space, that move.
pub open spec fn quick_move(b: BoardView) -> Option<Direction> {
    let safe = b.smart_moves_of(b.our_index as int);
    if safe.len() == 0 {
        Some(escape_direction(b))
    } else if safe.len() == 1 {
        Some(safe[0].0)
    } else {
        let nr = non_risky(safe);
        if nr.len() == 1 && area_of(b, nr[0].1) > (b.snakes[b.our_index as int].length as u32) as int
            * 2 {
            Some(nr[0].0)
        } else {
            None
        }
    }
}

/// The time budget for a search: 70% of the timeout, at least 50 ms.
pub open spec fn search_budget(timeout: u32) -> u64 {
    let t = timeout as int * 70 / 100;
    if t >= 50 {
        t as u64
    } else {
        50
    }
}

/// Room after an emergency move in direction `dir` (see `escape_room`).
fn escape_room_of(board: &SimBoard, head: Coord, dir: Direction) -> (room: i64)
    requires
        board@.wf(),
        head == board@.snakes[board@.our_index as int].head,
        head.can_step(),
    ensures
        room == escape_room(board@, dir),
{
    let new_pos = board.move_coord(head, dir);
    if !new_pos.in_bounds(board.width, board.height) {
        return 0;
    }
    flood_fill_area(board, new_pos) as i64
}

/// Emergency move when no safe moves exist.
/// Pick the direction that leads to the most open space (least bad death).
fn emergency_move(board: &SimBoard) -> (d: Direction)
    requires
        board@.wf(),
    ensures
        d == escape_direction(board@),
{
    let ghost b = board@;
    let head = board.snakes[board.our_index].head;
    proof {
        assert(b.snakes[b.our_index as int] == board.snakes@[board.our_index as int]@);
        if (b.our_index as int) < b.snake_count {
            assert(crate::board::snake_fits(b.snakes[b.our_index as int], b.width as int, b.height as int));
        } else {
            assert(b.snakes[b.our_index as int] == crate::board::absent_snake());
        }
        lemma_all_directions();
    }
    let all = Direction::ALL;
    let mut best = all[0];
    let mut best_room = escape_room_of(board, head, best);
    let mut k: usize = 1;
    while k < 4
        invariant
            b == board@,
            b.wf(),
            head == b.snakes[b.our_index as int].head,
            head.can_step(),
            all@ == all_directions(),
            1 <= k <= 4,
            best_room == escape_room(b, best),
            escape_from(b, best, k as int) == escape_direction(b),
        decreases 4 - k,
    {
        let dir = all[k];
        let room = escape_room_of(board, head, dir);
        if best_room <= room {
            best = dir;
            best_room = room;
        }
        k += 1;
    }
    best
}

/// The direction of an emergency move has at least as much room as every other.
pub proof fn lemma_escape_is_best(b: BoardView, d: Direction)
    ensures
        escape_room(b, d) <= escape_room(b, escape_direction(b)),
{
    lemma_all_directions();
    lemma_escape_from_best(b, Direction::Up, 1);
    let k: int = match d {
        Direction::Up => 0,
        Direction::Down => 1,
        Direction::Left => 2,
        Direction::Right => 3,
    };
    assert(all_directions()[k] == d);
}

proof fn lemma_escape_from_best(b: BoardView, best: Direction, k: int)
    requires
        1 <= k <= 4,
        forall|j: int| 0 <= j < k ==> escape_room(b, #[trigger] all_directions()[j]) <= escape_room(b, best),
    ensures
        forall|j: int|
            0 <= j < 4 ==> escape_room(b, #[trigger] all_directions()[j]) <= escape_room(
                b,
                escape_from(b, best, k),
            ),
    decreases 4 - k,
{
    if k < 4 {
        let d = all_directions()[k];
        let nb = if escape_room(b, best) <= escape_room(b, d) {
            d
        } else {
            best
        };
        lemma_escape_from_best(b, nb, k + 1);
    }
}

/// What `get_move` decides: a move, or a search over the given board within the
/// given time budget (in milliseconds).
pub enum MoveChoice {
    Decided(Direction),
    Search(SimBoard, u64),
}

/// Main entry point: given a game state, decide the move, or hand back the board
/// and time budget for a game-tree search when the position needs one.
pub fn get_move(state: &GameState) -> (choice: MoveChoice)
    requires
        state_buildable(*state),
        state_fits(*state),
    ensures
        match choice {
            MoveChoice::Decided(d) => {
                &&& quick_move(board_of(*state)) == Some(d)
                &&& board_of(*state).smart_moves_of(board_of(*state).our_index as int).len() >= 2
                    ==> exists|k: int|
                    0 <= k < board_of(*state).smart_moves_of(board_of(*state).our_index as int).len()
                        && #[trigger] board_of(*state).smart_moves_of(
                        board_of(*state).our_index as int,
                    )[k].0 == d && !board_of(*state).smart_moves_of(board_of(*state).our_index as int)[k].2
            },
            MoveChoice::Search(board, budget) => {
                &&& quick_move(board_of(*state)) is None
                &&& board@ == board_of(*state)
                &&& board@.wf()
                &&& budget == search_budget(state.game.timeout)
            },
        },
{
    let board = SimBoard::from_game_state(state);
    let ghost b = board@;
    proof {
        lemma_quick_move_avoids_risk(b);
    }

    // Use 70% of the timeout, leaving a margin for the response and the network.
    let timeout_ms = state.game.timeout as u64;
    let budget_ms = if timeout_ms * 70 / 100 >= 50 {
        timeout_ms * 70 / 100
    } else {
        50
    };

    // Quick safety check: if only 0-1 safe moves, handle immediately
    let safe = board.smart_safe_moves(board.our_index);
    if safe.len() == 0 {
        // No safe moves at all — pick the least bad option
        return MoveChoice::Decided(emergency_move(&board));
    }
    if safe.len() == 1 {
        return MoveChoice::Decided(safe[0].0);
    }

    // If exactly 2+ safe moves but some are risky (head-to-head), prefer safe ones
    let mut non_risky_moves: Vec<(Direction, Coord, bool)> = Vec::new();
    let mut k: usize = 0;
    while k < safe.len()
        invariant
            k <= safe@.len(),
            non_risky_moves@ == non_risky(safe@.take(k as int)),
        decreases safe@.len() - k,
    {
        proof {
            lemma_non_risky_push(safe@.take(k as int), safe@[k as int]);
            assert(safe@.take(k + 1) =~= safe@.take(k as int).push(safe@[k as int]));
        }
        let m = safe[k];
        if !m.2 {
            non_risky_moves.push(m);
        }
        k += 1;
    }
    proof {
        assert(safe@.take(safe@.len() as int) =~= safe@);
    }
    if non_risky_moves.len() == 1 {
        // Only one truly safe move; take it if it leaves enough space.
        let safe_area = flood_fill_area(&board, non_risky_moves[0].1);
        proof {
            assert(b.snakes[b.our_index as int] == board.snakes@[board.our_index as int]@);
        }
        let our_length = board.snakes[board.our_index].length as u32;
        if safe_area as u64 > our_length as u64 * 2 {
            return MoveChoice::Decided(non_risky_moves[0].0);
        }
        // Otherwise, fall through to search (might need to risk it)
    }
    MoveChoice::Search(board, budget_ms)
}

} // verus!
