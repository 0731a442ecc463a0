//! Building the simulation board from the game state the server receives.
use vstd::prelude::*;
use crate::board::{
    absent_snake, cell_index, has_food, snake_fits, BoardView, Cell, SimBoard, SimSnake, SnakeView,
    MAX_CELLS, MAX_DIM, MAX_SNAKES,
};
use crate::types::{wrapped, Coord, GameMode, GameState, Snake};

verus! {

/// A coordinate that can be placed or skipped while building the board: one that
/// `coord_to_idx` turns into an index, or one left of the bottom row, whose index
/// lies past the cell array and is skipped.
pub open spec fn indexable(c: Coord) -> bool {
    ||| 0 <= c.x && 0 <= c.y && cell_index(c) <= usize::MAX
    ||| c.y == 0 && c.x < 0
}

/// Marks the hazards `k..` on the cells, in order.
pub open spec fn paint_hazards(cells: Seq<Cell>, hz: Seq<Coord>, k: int) -> Seq<Cell>
    decreases hz.len() - k,
{
    if k < 0 || k >= hz.len() {
        cells
    } else {
        let idx = cell_index(hz[k]);
        let c1 = if 0 <= idx < MAX_CELLS {
            cells.update(idx, Cell::Hazard)
        } else {
            cells
        };
        paint_hazards(c1, hz, k + 1)
    }
}

/// Marks the food items `k..` on the cells, in order; food on a hazard is `HazardFood`.
pub open spec fn paint_food(cells: Seq<Cell>, food: Seq<Coord>, k: int) -> Seq<Cell>
    decreases food.len() - k,
{
    if k < 0 || k >= food.len() {
        cells
    } else {
        let idx = cell_index(food[k]);
        let c1 = if 0 <= idx < MAX_CELLS {
            cells.update(
                idx,
                if cells[idx] == Cell::Hazard {
                    Cell::HazardFood
                } else {
                    Cell::Food
                },
            )
        } else {
            cells
        };
        paint_food(c1, food, k + 1)
    }
}

/// Writes body segments `bi..` of snake `si`: segment `bi` disappears after
/// `len - bi` turns, and where the snake's own segments are stacked the highest
/// count already written is kept.
pub open spec fn paint_body(cells: Seq<Cell>, si: int, body: Seq<Coord>, bi: int) -> Seq<Cell>
    decreases body.len() - bi,
{
    if bi < 0 || bi >= body.len() {
        cells
    } else {
        let idx = cell_index(body[bi]);
        let ttl = (body.len() - bi) as u16;
        let c1 = if 0 <= idx < MAX_CELLS {
            match cells[idx] {
                Cell::SnakeBody(s, existing) => if s == si as u8 && existing > ttl {
                    cells
                } else {
                    cells.update(idx, Cell::SnakeBody(si as u8, ttl))
                },
                _ => cells.update(idx, Cell::SnakeBody(si as u8, ttl)),
            }
        } else {
            cells
        };
        paint_body(c1, si, body, bi + 1)
    }
}

/// Writes snake `si`: its head, then its body from the second segment on.
pub open spec fn paint_snake(cells: Seq<Cell>, si: int, s: Snake) -> Seq<Cell> {
    let hidx = cell_index(s.head);
    let c1 = if 0 <= hidx < MAX_CELLS {
        cells.update(hidx, Cell::SnakeHead(si as u8))
    } else {
        cells
    };
    paint_body(c1, si, s.body@, 1)
}

/// Writes snakes `si..m`, in order.
pub open spec fn paint_snakes(cells: Seq<Cell>, snakes: Seq<Snake>, si: int, m: int) -> Seq<Cell>
    decreases m - si,
{
    if si < 0 || si >= m {
        cells
    } else {
        paint_snakes(paint_snake(cells, si, snakes[si]), snakes, si + 1, m)
    }
}

/// The number of snakes the board can hold of those given.
pub open spec fn kept_snakes(n: int) -> int {
    if n < MAX_SNAKES {
        n
    } else {
        MAX_SNAKES as int
    }
}

/// Index of our snake: the last of the first `m` snakes whose id is ours, or 0.
pub open spec fn our_slot(snakes: Seq<Snake>, you: Seq<char>, m: int) -> int
    decreases m,
{
    if m <= 0 {
        0
    } else if snakes[m - 1].id@ == you {
        m - 1
    } else {
        our_slot(snakes, you, m - 1)
    }
}

/// The simulation's view of an API snake.
pub open spec fn snake_view_of(s: Snake) -> SnakeView {
    SnakeView {
        alive: s.health > 0 && s.body.len() > 0,
        health: s.health,
        head: s.head,
        tail: s.body@.last(),
        length: s.length,
        body: s.body@,
    }
}

/// Hazard damage from the ruleset settings, 14 when unset.
pub open spec fn hazard_damage_of(state: GameState) -> i32 {
    match state.game.ruleset.settings {
        Some(st) => match st.hazard_damage_per_turn {
            Some(d) => d,
            None => 14,
        },
        None => 14,
    }
}

/// The board `from_game_state` builds.
pub open spec fn board_of(state: GameState) -> BoardView {
    let snakes = state.board.snakes@;
    let m = kept_snakes(snakes.len() as int);
    let empty = Seq::new(MAX_CELLS as nat, |i: int| Cell::Empty);
    let cells = paint_snakes(
        paint_food(paint_hazards(empty, state.board.hazards@, 0), state.board.food@, 0),
        snakes,
        0,
        m,
    );
    BoardView {
        width: state.board.width,
        height: state.board.height,
        cells,
        snakes: Seq::new(
            MAX_SNAKES as nat,
            |i: int|
                if i < m {
                    snake_view_of(snakes[i])
                } else {
                    absent_snake()
                },
        ),
        snake_count: snakes.len() as usize,
        our_index: our_slot(snakes, state.you.id@, m) as usize,
        mode: GameMode::named(state.game.ruleset.name@),
        hazard_damage: hazard_damage_of(state),
        turn: state.turn,
    }
}

/// What building needs to avoid panicking: every coordinate it indexes is
/// non-negative, and the snakes it keeps have a body.
pub open spec fn state_buildable(state: GameState) -> bool {
    let snakes = state.board.snakes@;
    &&& forall|k: int| 0 <= k < state.board.hazards@.len() ==> indexable(#[trigger] state.board.hazards@[k])
    &&& forall|k: int| 0 <= k < state.board.food@.len() ==> indexable(#[trigger] state.board.food@[k])
    &&& forall|i: int|
        0 <= i < kept_snakes(snakes.len() as int) ==> {
            &&& (#[trigger] snakes[i]).body.len() > 0
            &&& indexable(snakes[i].head)
            &&& forall|k: int| 0 <= k < snakes[i].body@.len() ==> indexable(#[trigger] snakes[i].body@[k])
        }
}

/// A game state that gives a well-formed board: dimensions up to `MAX_DIM`, at most
/// `MAX_SNAKES` snakes, each with a body, and every snake coordinate on the board.
pub open spec fn state_fits(state: GameState) -> bool {
    let snakes = state.board.snakes@;
    let w = state.board.width as int;
    let h = state.board.height as int;
    &&& 1 <= w <= MAX_DIM
    &&& 1 <= h <= MAX_DIM
    &&& snakes.len() <= MAX_SNAKES
    &&& forall|i: int|
        0 <= i < snakes.len() ==> {
            &&& (#[trigger] snakes[i]).body.len() > 0
            &&& snakes[i].head.inside(w, h)
            &&& forall|k: int| 0 <= k < snakes[i].body@.len() ==> (#[trigger] snakes[i].body@[k]).inside(w, h)
        }
}

proof fn lemma_our_slot_bound(snakes: Seq<Snake>, you: Seq<char>, m: int)
    ensures
        0 <= our_slot(snakes, you, m),
        m > 0 ==> our_slot(snakes, you, m) < m,
    decreases m,
{
    if m > 0 {
        lemma_our_slot_bound(snakes, you, m - 1);
    }
}

impl SimBoard {
    /// Convert from the API GameState into our compact representation.
    pub fn from_game_state(state: &GameState) -> (board: SimBoard)
        requires
            state_buildable(*state),
        ensures
            board@ == board_of(*state),
            state_fits(*state) ==> board@.wf(),
    {
        let width = state.board.width;
        let height = state.board.height;
        let mode = GameMode::from_ruleset(state.game.ruleset.name.as_str());
        let hazard_damage = match &state.game.ruleset.settings {
            Some(s) => match s.hazard_damage_per_turn {
                Some(d) => d,
                None => 14,
            },
            None => 14,
        };

        let mut board = SimBoard {
            width,
            height,
            cells: [Cell::Empty; MAX_CELLS],
            snakes: [
                SimSnake::default(),
                SimSnake::default(),
                SimSnake::default(),
                SimSnake::default(),
                SimSnake::default(),
                SimSnake::default(),
                SimSnake::default(),
                SimSnake::default(),
            ],
            snake_count: state.board.snakes.len(),
            our_index: 0,
            mode,
            hazard_damage,
            turn: state.turn,
        };
        let ghost empty = Seq::new(MAX_CELLS as nat, |i: int| Cell::Empty);
        assert(board.cells@ =~= empty);

        // Place hazards first (before food, so we can make HazardFood)
        let hazards = &state.board.hazards;
        let mut k: usize = 0;
        while k < hazards.len()
            invariant
                state_buildable(*state),
                hazards == &state.board.hazards,
                k <= hazards@.len(),
                paint_hazards(board.cells@, hazards@, k as int) == paint_hazards(empty, hazards@, 0),
                board.snake_count == state.board.snakes@.len(),
                board.our_index == 0,
                forall|i: int| 0 <= i < MAX_SNAKES ==> (#[trigger] board.snakes@[i])@ == absent_snake(),
                board.width == state.board.width,
                board.height == state.board.height,
                board.mode == GameMode::named(state.game.ruleset.name@),
                board.hazard_damage == hazard_damage_of(*state),
                board.turn == state.turn,
            decreases hazards@.len() - k,
        {
            let h = hazards[k];
            assert(indexable(hazards@[k as int]));
            // A coordinate left of the bottom row indexes past the cells and is skipped.
            let idx = if h.x < 0 {
                MAX_CELLS
            } else {
                board.coord_to_idx(h)
            };
            if idx < MAX_CELLS {
                board.cells[idx] = Cell::Hazard;
            }
            k += 1;
        }
        let ghost after_hazards = board.cells@;

        // Place food
        let food = &state.board.food;
        let mut k: usize = 0;
        while k < food.len()
            invariant
                state_buildable(*state),
                food == &state.board.food,
                k <= food@.len(),
                paint_food(board.cells@, food@, k as int) == paint_food(after_hazards, food@, 0),
                board.snake_count == state.board.snakes@.len(),
                board.our_index == 0,
                forall|i: int| 0 <= i < MAX_SNAKES ==> (#[trigger] board.snakes@[i])@ == absent_snake(),
                board.width == state.board.width,
                board.height == state.board.height,
                board.mode == GameMode::named(state.game.ruleset.name@),
                board.hazard_damage == hazard_damage_of(*state),
                board.turn == state.turn,
            decreases food@.len() - k,
        {
            let f = food[k];
            assert(indexable(food@[k as int]));
            // A coordinate left of the bottom row indexes past the cells and is skipped.
            let idx = if f.x < 0 {
                MAX_CELLS
            } else {
                board.coord_to_idx(f)
            };
            if idx < MAX_CELLS {
                board.cells[idx] = if board.cells[idx] == Cell::Hazard {
                    Cell::HazardFood
                } else {
                    Cell::Food
                };
            }
            k += 1;
        }
        let ghost after_food = board.cells@;

        // Place snakes
        let snakes = &state.board.snakes;
        let ghost m = kept_snakes(snakes@.len() as int);
        let mut si: usize = 0;
        while si < snakes.len() && si < MAX_SNAKES
            invariant
                state_buildable(*state),
                snakes == &state.board.snakes,
                m == kept_snakes(snakes@.len() as int),
                si <= m,
                board.snake_count == snakes@.len(),
                paint_snakes(board.cells@, snakes@, si as int, m) == paint_snakes(
                    after_food,
                    snakes@,
                    0,
                    m,
                ),
                board.our_index as int == our_slot(snakes@, state.you.id@, si as int),
                forall|i: int|
                    0 <= i < MAX_SNAKES ==> (#[trigger] board.snakes@[i])@ == if i < si {
                        snake_view_of(snakes@[i])
                    } else {
                        absent_snake()
                    },
                board.width == state.board.width,
                board.height == state.board.height,
                board.mode == GameMode::named(state.game.ruleset.name@),
                board.hazard_damage == hazard_damage_of(*state),
                board.turn == state.turn,
            decreases m - si,
        {
            let snake = &snakes[si];
            assert(snake.body.len() > 0 && indexable(snake.head));
            assert(forall|k: int| 0 <= k < snake.body@.len() ==> indexable(#[trigger] snake.body@[k]));
            if snake.id == state.you.id {
                board.our_index = si;
            }
            let body = snake.body.clone();
            assert(body@ =~= snake.body@);
            board.snakes[si] = SimSnake {
                alive: snake.is_alive(),
                health: snake.health,
                head: snake.head,
                tail: snake.tail(),
                length: snake.length,
                body,
            };

            // Place head
            let ghost c_start = board.cells@;
            let head_idx = if snake.head.x < 0 {
                MAX_CELLS
            } else {
                board.coord_to_idx(snake.head)
            };
            if head_idx < MAX_CELLS {
                board.cells[head_idx] = Cell::SnakeHead(si as u8);
            }
            let ghost c_head = board.cells@;
            assert(c_head == if 0 <= cell_index(snake.head) < MAX_CELLS {
                c_start.update(cell_index(snake.head), Cell::SnakeHead(si as u8))
            } else {
                c_start
            });

            // Place body (skip head which is body[0])
            let body_len = snake.body.len();
            let ghost snap = board.snakes;
            let ghost oi = board.our_index;
            let mut bi: usize = 1;
            while bi < body_len
                invariant
                    state_buildable(*state),
                    snake == &snakes@[si as int],
                    si < m,
                    m == kept_snakes(snakes@.len() as int),
                    body_len == snake.body@.len(),
                    forall|k: int| 0 <= k < snake.body@.len() ==> indexable(#[trigger] snake.body@[k]),
                    1 <= bi <= body_len,
                    board.snakes == snap,
                    board.our_index == oi,
                    board.snake_count == snakes@.len(),
                    board.width == state.board.width,
                    board.height == state.board.height,
                    board.mode == GameMode::named(state.game.ruleset.name@),
                    board.hazard_damage == hazard_damage_of(*state),
                    board.turn == state.turn,
                    paint_body(board.cells@, si as int, snake.body@, bi as int) == paint_body(
                        c_head,
                        si as int,
                        snake.body@,
                        1,
                    ),
                decreases body_len - bi,
            {
                let seg = snake.body[bi];
                assert(indexable(snake.body@[bi as int]));
                // A coordinate left of the bottom row indexes past the cells and is skipped.
            let idx = if seg.x < 0 {
                MAX_CELLS
            } else {
                board.coord_to_idx(seg)
            };
                if idx < MAX_CELLS {
                    // The segment at position bi disappears after (body_len - bi) turns;
                    // the tail (bi = body_len - 1) gets TTL 1.
                    let ttl = (body_len - bi) as u16;
                    // For stacked segments (e.g. after eating), keep the highest TTL
                    let keep = match board.cells[idx] {
                        Cell::SnakeBody(s, existing_ttl) => s == si as u8 && existing_ttl > ttl,
                        _ => false,
                    };
                    if !keep {
                        board.cells[idx] = Cell::SnakeBody(si as u8, ttl);
                    }
                }
                bi += 1;
            }
            proof {
                assert(paint_snake(c_start, si as int, snakes@[si as int]) == board.cells@);
            }
            si += 1;
        }
        proof {
            assert(board.cells@ == paint_snakes(after_food, snakes@, 0, m));
            assert(board@.snakes =~= board_of(*state).snakes);
            lemma_our_slot_bound(snakes@, state.you.id@, m);
            if state_fits(*state) {
                assert forall|i: int| 0 <= i < board@.snake_count implies snake_fits(
                    #[trigger] board@.snakes[i],
                    board.width as int,
                    board.height as int,
                ) by {
                    let s = snakes@[i];
                    assert(s.body@.last() == s.body@[s.body@.len() - 1]);
                }
            }
        }
        board
    }
}

/// Whether `coord_to_idx` can index `c`.
fn is_indexable(c: Coord) -> (ok: bool)
    ensures
        ok == indexable(c),
{
    if c.y == 0 && c.x < 0 {
        return true;
    }
    if c.x < 0 || c.y < 0 {
        return false;
    }
    match (c.y as usize).checked_mul(MAX_DIM) {
        Some(m) => m.checked_add(c.x as usize).is_some(),
        None => false,
    }
}

/// Whether the move engine accepts a game state: every coordinate it places can be
/// indexed or lies left of the bottom row (and is skipped), the board is at most
/// `MAX_DIM` wide and high with at most `MAX_SNAKES` snakes, each with a body on
/// the board.
pub fn is_supported(state: &GameState) -> (ok: bool)
    ensures
        ok == (state_buildable(*state) && state_fits(*state)),
{
    let w = state.board.width;
    let h = state.board.height;
    if w < 1 || w > MAX_DIM as i32 || h < 1 || h > MAX_DIM as i32 {
        return false;
    }
    let hazards = &state.board.hazards;
    let mut k: usize = 0;
    while k < hazards.len()
        invariant
            hazards == &state.board.hazards,
            k <= hazards@.len(),
            forall|j: int| 0 <= j < k ==> indexable(#[trigger] hazards@[j]),
        decreases hazards@.len() - k,
    {
        if !is_indexable(hazards[k]) {
            return false;
        }
        k += 1;
    }
    let food = &state.board.food;
    let mut k: usize = 0;
    while k < food.len()
        invariant
            food == &state.board.food,
            k <= food@.len(),
            forall|j: int| 0 <= j < k ==> indexable(#[trigger] food@[j]),
        decreases food@.len() - k,
    {
        if !is_indexable(food[k]) {
            return false;
        }
        k += 1;
    }
    let snakes = &state.board.snakes;
    if snakes.len() > MAX_SNAKES {
        return false;
    }
    let mut si: usize = 0;
    while si < snakes.len()
        invariant
            snakes == &state.board.snakes,
            si <= snakes@.len(),
            1 <= w <= MAX_DIM,
            1 <= h <= MAX_DIM,
            w == state.board.width,
            h == state.board.height,
            forall|i: int|
                0 <= i < si ==> {
                    &&& (#[trigger] snakes@[i]).body.len() > 0
                    &&& snakes@[i].head.inside(w as int, h as int)
                    &&& forall|k: int|
                        0 <= k < snakes@[i].body@.len() ==> (#[trigger] snakes@[i].body@[k]).inside(
                            w as int,
                            h as int,
                        )
                },
        decreases snakes@.len() - si,
    {
        let s = &snakes[si];
        if s.body.len() == 0 || !s.head.in_bounds(w, h) {
            return false;
        }
        let mut k: usize = 0;
        while k < s.body.len()
            invariant
                snakes == &state.board.snakes,
                si < snakes@.len(),
                w == state.board.width,
                h == state.board.height,
                s == &snakes@[si as int],
                k <= s.body@.len(),
                forall|j: int| 0 <= j < k ==> (#[trigger] s.body@[j]).inside(w as int, h as int),
            decreases s.body@.len() - k,
        {
            if !s.body[k].in_bounds(w, h) {
                assert(!snakes@[si as int].body@[k as int].inside(w as int, h as int));
                return false;
            }
            k += 1;
        }
        si += 1;
    }
    proof {
        assert forall|i: int| 0 <= i < kept_snakes(snakes@.len() as int) implies {
            &&& (#[trigger] snakes@[i]).body.len() > 0
            &&& indexable(snakes@[i].head)
            &&& forall|k: int| 0 <= k < snakes@[i].body@.len() ==> indexable(#[trigger] snakes@[i].body@[k])
        } by {
            assert(snakes@[i].head.inside(w as int, h as int));
            assert forall|k: int| 0 <= k < snakes@[i].body@.len() implies indexable(
                #[trigger] snakes@[i].body@[k],
            ) by {
                assert(snakes@[i].body@[k].inside(w as int, h as int));
            }
        }
    }
    true
}

impl SimBoard {
    /// Whether a turn can be simulated within the integer types (see `turn_fits`).
    pub fn can_apply_moves(&self) -> (ok: bool)
        requires
            self@.wf(),
        ensures
            ok == crate::step::turn_fits(self@),
    {
        if self.turn == u32::MAX {
            return false;
        }
        let mut i: usize = 0;
        while i < self.snake_count
            invariant
                self@.wf(),
                self.turn < u32::MAX,
                i <= self.snake_count,
                forall|j: int|
                    0 <= j < i && (#[trigger] self@.snakes[j]).alive ==> {
                        &&& self@.snakes[j].length < i32::MAX
                        &&& self@.snakes[j].health - 1 - self@.hazard_damage <= i32::MAX
                        &&& self@.snakes[j].health - 1 - self@.hazard_damage >= i32::MIN
                    },
            decreases self.snake_count - i,
        {
            let s = &self.snakes[i];
            proof {
                assert(self@.snakes[i as int] == s@);
            }
            if s.alive {
                if s.length == i32::MAX {
                    return false;
                }
                let left = s.health as i64 - 1 - self.hazard_damage as i64;
                if left > i32::MAX as i64 || left < i32::MIN as i64 {
                    return false;
                }
            }
            i += 1;
        }
        true
    }
}

// ── Segment cells of a built board ──────────────────────────────────────────

/// No cell holds a body segment of snake `si`.
pub open spec fn no_body_of(cells: Seq<Cell>, si: int) -> bool {
    forall|idx: int|
        0 <= idx < cells.len() ==> match #[trigger] cells[idx] {
            Cell::SnakeBody(s, _) => s != si as u8,
            _ => true,
        }
}

/// Whether snake `s` has its head or one of its segments on cell `idx`.
pub open spec fn snake_covers(s: Snake, idx: int) -> bool {
    cell_index(s.head) == idx || exists|k: int| 0 <= k < s.body@.len() && cell_index(#[trigger] s.body@[k]) == idx
}

/// Whether segment `t` is the only segment of `body` on its cell.
pub open spec fn alone_on_cell(body: Seq<Coord>, t: int) -> bool {
    &&& 0 <= t < body.len()
    &&& forall|k: int| 0 <= k < body.len() && k != t ==> cell_index(#[trigger] body[k]) != cell_index(body[t])
}

proof fn lemma_paint_hazards_keeps(cells: Seq<Cell>, hz: Seq<Coord>, k: int, si: int)
    requires
        cells.len() == MAX_CELLS,
        0 <= k,
        forall|j: int| 0 <= j < hz.len() ==> indexable(#[trigger] hz[j]),
        no_body_of(cells, si),
    ensures
        paint_hazards(cells, hz, k).len() == MAX_CELLS,
        no_body_of(paint_hazards(cells, hz, k), si),
    decreases hz.len() - k,
{
    if k < hz.len() {
        let idx = cell_index(hz[k]);
        assert(indexable(hz[k]));
        let c1 = if 0 <= idx < MAX_CELLS {
            cells.update(idx, Cell::Hazard)
        } else {
            cells
        };
        lemma_paint_hazards_keeps(c1, hz, k + 1, si);
    }
}

proof fn lemma_paint_food_keeps(cells: Seq<Cell>, food: Seq<Coord>, k: int, si: int)
    requires
        cells.len() == MAX_CELLS,
        0 <= k,
        forall|j: int| 0 <= j < food.len() ==> indexable(#[trigger] food[j]),
        no_body_of(cells, si),
    ensures
        paint_food(cells, food, k).len() == MAX_CELLS,
        no_body_of(paint_food(cells, food, k), si),
    decreases food.len() - k,
{
    if k < food.len() {
        let idx = cell_index(food[k]);
        assert(indexable(food[k]));
        let c1 = if 0 <= idx < MAX_CELLS {
            cells.update(
                idx,
                if cells[idx] == Cell::Hazard {
                    Cell::HazardFood
                } else {
                    Cell::Food
                },
            )
        } else {
            cells
        };
        lemma_paint_food_keeps(c1, food, k + 1, si);
    }
}

proof fn lemma_paint_body_other(cells: Seq<Cell>, j: int, body: Seq<Coord>, bi: int, si: int)
    requires
        cells.len() == MAX_CELLS,
        0 <= j < MAX_SNAKES,
        0 <= si < MAX_SNAKES,
        j != si,
        1 <= bi,
        forall|k: int| 0 <= k < body.len() ==> indexable(#[trigger] body[k]),
        no_body_of(cells, si),
    ensures
        paint_body(cells, j, body, bi).len() == MAX_CELLS,
        no_body_of(paint_body(cells, j, body, bi), si),
    decreases body.len() - bi,
{
    if bi < body.len() {
        let idx = cell_index(body[bi]);
        assert(indexable(body[bi]));
        let ttl = (body.len() - bi) as u16;
        let c1 = if 0 <= idx < MAX_CELLS {
            match cells[idx] {
                Cell::SnakeBody(s, existing) => if s == j as u8 && existing > ttl {
                    cells
                } else {
                    cells.update(idx, Cell::SnakeBody(j as u8, ttl))
                },
                _ => cells.update(idx, Cell::SnakeBody(j as u8, ttl)),
            }
        } else {
            cells
        };
        lemma_paint_body_other(c1, j, body, bi + 1, si);
    }
}

proof fn lemma_paint_body_skip(cells: Seq<Cell>, si: int, body: Seq<Coord>, bi: int, idx: int)
    requires
        cells.len() == MAX_CELLS,
        0 <= idx < MAX_CELLS,
        1 <= bi,
        forall|k: int| 0 <= k < body.len() ==> indexable(#[trigger] body[k]),
        forall|k: int| bi <= k < body.len() ==> cell_index(#[trigger] body[k]) != idx,
    ensures
        paint_body(cells, si, body, bi)[idx] == cells[idx],
        paint_body(cells, si, body, bi).len() == MAX_CELLS,
    decreases body.len() - bi,
{
    if bi < body.len() {
        let i2 = cell_index(body[bi]);
        assert(indexable(body[bi]));
        let ttl = (body.len() - bi) as u16;
        let c1 = if 0 <= i2 < MAX_CELLS {
            match cells[i2] {
                Cell::SnakeBody(s, existing) => if s == si as u8 && existing > ttl {
                    cells
                } else {
                    cells.update(i2, Cell::SnakeBody(si as u8, ttl))
                },
                _ => cells.update(i2, Cell::SnakeBody(si as u8, ttl)),
            }
        } else {
            cells
        };
        lemma_paint_body_skip(c1, si, body, bi + 1, idx);
    }
}

proof fn lemma_paint_body_hit(cells: Seq<Cell>, si: int, body: Seq<Coord>, bi: int, t: int)
    requires
        cells.len() == MAX_CELLS,
        1 <= bi <= t,
        alone_on_cell(body, t),
        forall|k: int| 0 <= k < body.len() ==> indexable(#[trigger] body[k]),
        0 <= cell_index(body[t]) < MAX_CELLS,
        match cells[cell_index(body[t])] {
            Cell::SnakeBody(s, _) => s != si as u8,
            _ => true,
        },
    ensures
        paint_body(cells, si, body, bi)[cell_index(body[t])] == Cell::SnakeBody(si as u8, (body.len() - t) as u16),
        paint_body(cells, si, body, bi).len() == MAX_CELLS,
    decreases body.len() - bi,
{
    let idx = cell_index(body[t]);
    assert(indexable(body[t]));
    let i2 = cell_index(body[bi]);
    assert(indexable(body[bi]));
    let ttl = (body.len() - bi) as u16;
    let c1 = if 0 <= i2 < MAX_CELLS {
        match cells[i2] {
            Cell::SnakeBody(s, existing) => if s == si as u8 && existing > ttl {
                cells
            } else {
                cells.update(i2, Cell::SnakeBody(si as u8, ttl))
            },
            _ => cells.update(i2, Cell::SnakeBody(si as u8, ttl)),
        }
    } else {
        cells
    };
    if bi < t {
        assert(i2 != idx);
        lemma_paint_body_hit(c1, si, body, bi + 1, t);
    } else {
        assert(c1[idx] == Cell::SnakeBody(si as u8, ttl));
        lemma_paint_body_skip(c1, si, body, bi + 1, idx);
    }
}

proof fn lemma_paint_snakes_skip(cells: Seq<Cell>, snakes: Seq<Snake>, si: int, m: int, idx: int)
    requires
        cells.len() == MAX_CELLS,
        0 <= si,
        m <= MAX_SNAKES,
        0 <= idx < MAX_CELLS,
        forall|j: int|
            si <= j < m ==> forall|k: int| 0 <= k < (#[trigger] snakes[j]).body@.len() ==> indexable(
                #[trigger] snakes[j].body@[k],
            ),
        forall|j: int| si <= j < m ==> indexable((#[trigger] snakes[j]).head),
        forall|j: int| si <= j < m ==> !snake_covers(#[trigger] snakes[j], idx),
    ensures
        paint_snakes(cells, snakes, si, m)[idx] == cells[idx],
        paint_snakes(cells, snakes, si, m).len() == MAX_CELLS,
    decreases m - si,
{
    if si < m {
        let s = snakes[si];
        assert(indexable(s.head));
        assert(!snake_covers(s, idx));
        let hidx = cell_index(s.head);
        let c0 = if 0 <= hidx < MAX_CELLS {
            cells.update(hidx, Cell::SnakeHead(si as u8))
        } else {
            cells
        };
        assert forall|k: int| 1 <= k < s.body@.len() implies cell_index(#[trigger] s.body@[k]) != idx by {
        }
        lemma_paint_body_skip(c0, si, s.body@, 1, idx);
        lemma_paint_snakes_skip(paint_snake(cells, si, s), snakes, si + 1, m, idx);
    }
}

proof fn lemma_paint_snakes_hit(cells: Seq<Cell>, snakes: Seq<Snake>, si: int, m: int, t: int, bt: int)
    requires
        cells.len() == MAX_CELLS,
        0 <= si <= t < m <= MAX_SNAKES,
        1 <= bt,
        alone_on_cell(snakes[t].body@, bt),
        0 <= cell_index(snakes[t].body@[bt]) < MAX_CELLS,
        no_body_of(cells, t),
        forall|j: int|
            si <= j < m ==> forall|k: int| 0 <= k < (#[trigger] snakes[j]).body@.len() ==> indexable(
                #[trigger] snakes[j].body@[k],
            ),
        forall|j: int| si <= j < m ==> indexable((#[trigger] snakes[j]).head),
        forall|j: int| t < j < m ==> !snake_covers(#[trigger] snakes[j], cell_index(snakes[t].body@[bt])),
    ensures
        paint_snakes(cells, snakes, si, m)[cell_index(snakes[t].body@[bt])] == Cell::SnakeBody(
            t as u8,
            (snakes[t].body@.len() - bt) as u16,
        ),
    decreases t - si,
{
    let s = snakes[si];
    assert(indexable(s.head));
    let hidx = cell_index(s.head);
    let c0 = if 0 <= hidx < MAX_CELLS {
        cells.update(hidx, Cell::SnakeHead(si as u8))
    } else {
        cells
    };
    let body = snakes[t].body@;
    let idx = cell_index(body[bt]);
    assert(indexable(body[bt]));
    if si < t {
        assert(no_body_of(c0, t));
        lemma_paint_body_other(c0, si, s.body@, 1, t);
        lemma_paint_snakes_hit(paint_snake(cells, si, s), snakes, si + 1, m, t, bt);
    } else {
        assert(match c0[idx] {
            Cell::SnakeBody(o, _) => o != si as u8,
            _ => true,
        });
        lemma_paint_body_hit(c0, si, body, 1, bt);
        lemma_paint_snakes_skip(paint_snake(cells, si, s), snakes, si + 1, m, idx);
    }
}

/// On a built board, a body segment (not the head) that is alone on its cell and
/// that no later snake covers disappears after `len - bi` turns: the tail has one
/// turn left and its cell is safe to move onto, while the neck of a snake of
/// three or more segments stays at least two turns and its cell is not safe.
pub proof fn lemma_segment_cell_built(state: GameState, si: int, bi: int)
    requires
        state_buildable(state),
        0 <= si < kept_snakes(state.board.snakes@.len() as int),
        1 <= bi,
        alone_on_cell(state.board.snakes@[si].body@, bi),
        0 <= cell_index(state.board.snakes@[si].body@[bi]) < MAX_CELLS,
        forall|j: int|
            si < j < kept_snakes(state.board.snakes@.len() as int) ==> !snake_covers(
                #[trigger] state.board.snakes@[j],
                cell_index(state.board.snakes@[si].body@[bi]),
            ),
    ensures
        ({
            let b = board_of(state);
            let body = state.board.snakes@[si].body@;
            let c = body[bi];
            &&& b.cells[cell_index(c)] == Cell::SnakeBody(si as u8, (body.len() - bi) as u16)
            &&& (state_fits(state) && bi == body.len() - 1) ==> b.is_safe(c)
            &&& (state_fits(state) && bi == 1 && 3 <= body.len() <= u16::MAX) ==> !b.is_safe(c)
        }),
{
    let snakes = state.board.snakes@;
    let m = kept_snakes(snakes.len() as int);
    let empty = Seq::new(MAX_CELLS as nat, |i: int| Cell::Empty);
    assert(no_body_of(empty, si));
    lemma_paint_hazards_keeps(empty, state.board.hazards@, 0, si);
    let c1 = paint_hazards(empty, state.board.hazards@, 0);
    lemma_paint_food_keeps(c1, state.board.food@, 0, si);
    let c2 = paint_food(c1, state.board.food@, 0);
    assert forall|j: int|
        0 <= j < m implies forall|k: int| 0 <= k < (#[trigger] snakes[j]).body@.len() ==> indexable(
            #[trigger] snakes[j].body@[k],
        ) by {
        assert(snakes[j].body.len() > 0);
    }
    assert forall|j: int| 0 <= j < m implies indexable((#[trigger] snakes[j]).head) by {
        assert(snakes[j].body.len() > 0);
    }
    lemma_paint_snakes_hit(c2, snakes, 0, m, si, bi);
    let body = snakes[si].body@;
    let c = body[bi];
    let b = board_of(state);
    assert(b.cells[cell_index(c)] == Cell::SnakeBody(si as u8, (body.len() - bi) as u16));
    if state_fits(state) {
        assert(c.inside(b.width as int, b.height as int));
        if b.is_wrapped() {
            assert(wrapped(c, b.width as int, b.height as int) == c) by {
                vstd::arithmetic::div_mod::lemma_small_mod(c.x as nat, b.width as nat);
                vstd::arithmetic::div_mod::lemma_small_mod(c.y as nat, b.height as nat);
            }
        }
    }
}

/// Whether some coordinate among `cs[k..]` has index `idx`.
pub open spec fn lists_cell(cs: Seq<Coord>, k: int, idx: int) -> bool {
    exists|j: int| k <= j < cs.len() && cell_index(#[trigger] cs[j]) == idx
}

/// Whether a snake among the first `m` has its head or a body segment on cell `idx`.
pub open spec fn snake_on_cell(snakes: Seq<Snake>, m: int, idx: int) -> bool {
    exists|i: int| 0 <= i < m && snake_covers(#[trigger] snakes[i], idx)
}

proof fn lemma_paint_hazards_at(cells: Seq<Cell>, hz: Seq<Coord>, k: int, idx: int)
    requires
        cells.len() == MAX_CELLS,
        0 <= k,
        0 <= idx < MAX_CELLS,
    ensures
        paint_hazards(cells, hz, k).len() == MAX_CELLS,
        paint_hazards(cells, hz, k)[idx] == if lists_cell(hz, k, idx) {
            Cell::Hazard
        } else {
            cells[idx]
        },
    decreases hz.len() - k,
{
    if k < hz.len() {
        let i2 = cell_index(hz[k]);
        let c1 = if 0 <= i2 < MAX_CELLS {
            cells.update(i2, Cell::Hazard)
        } else {
            cells
        };
        lemma_paint_hazards_at(c1, hz, k + 1, idx);
        if lists_cell(hz, k, idx) && !lists_cell(hz, k + 1, idx) {
            let j = choose|j: int| k <= j < hz.len() && cell_index(#[trigger] hz[j]) == idx;
            if j != k {
                assert(lists_cell(hz, k + 1, idx));
            }
        }
        if lists_cell(hz, k + 1, idx) {
            let j = choose|j: int| k + 1 <= j < hz.len() && cell_index(#[trigger] hz[j]) == idx;
            assert(lists_cell(hz, k, idx));
        }
        if !lists_cell(hz, k, idx) {
            assert(i2 != idx);
        }
    }
}

proof fn lemma_paint_food_at(cells: Seq<Cell>, food: Seq<Coord>, k: int, idx: int)
    requires
        cells.len() == MAX_CELLS,
        0 <= k,
        0 <= idx < MAX_CELLS,
        cells[idx] == Cell::Empty || cells[idx] == Cell::Hazard,
    ensures
        paint_food(cells, food, k).len() == MAX_CELLS,
        !lists_cell(food, k, idx) ==> paint_food(cells, food, k)[idx] == cells[idx],
        lists_cell(food, k, idx) ==> has_food(paint_food(cells, food, k)[idx]),
        lists_cell(food, k, idx) && cells[idx] == Cell::Empty ==> paint_food(cells, food, k)[idx]
            == Cell::Food,
    decreases food.len() - k,
{
    if k < food.len() {
        let i2 = cell_index(food[k]);
        let c1 = if 0 <= i2 < MAX_CELLS {
            cells.update(
                i2,
                if cells[i2] == Cell::Hazard {
                    Cell::HazardFood
                } else {
                    Cell::Food
                },
            )
        } else {
            cells
        };
        if i2 == idx {
            // The cell now holds food; later items keep it food.
            lemma_paint_food_kept(c1, food, k + 1, idx);
            assert(lists_cell(food, k, idx));
        } else {
            lemma_paint_food_at(c1, food, k + 1, idx);
            if lists_cell(food, k, idx) {
                let j = choose|j: int| k <= j < food.len() && cell_index(#[trigger] food[j]) == idx;
                assert(lists_cell(food, k + 1, idx));
            }
            if lists_cell(food, k + 1, idx) {
                let j = choose|j: int| k + 1 <= j < food.len() && cell_index(#[trigger] food[j]) == idx;
                assert(lists_cell(food, k, idx));
            }
        }
    }
}

proof fn lemma_paint_food_kept(cells: Seq<Cell>, food: Seq<Coord>, k: int, idx: int)
    requires
        cells.len() == MAX_CELLS,
        0 <= k,
        0 <= idx < MAX_CELLS,
        has_food(cells[idx]),
        cells[idx] == Cell::Food || !(cells[idx] is Hazard),
    ensures
        paint_food(cells, food, k).len() == MAX_CELLS,
        has_food(paint_food(cells, food, k)[idx]),
        cells[idx] == Cell::Food ==> paint_food(cells, food, k)[idx] == Cell::Food,
    decreases food.len() - k,
{
    if k < food.len() {
        let i2 = cell_index(food[k]);
        let c1 = if 0 <= i2 < MAX_CELLS {
            cells.update(
                i2,
                if cells[i2] == Cell::Hazard {
                    Cell::HazardFood
                } else {
                    Cell::Food
                },
            )
        } else {
            cells
        };
        lemma_paint_food_kept(c1, food, k + 1, idx);
    }
}

/// How a built board shows food and hazards: a cell under no kept snake is food
/// where a food item lies (plain `Food` when no hazard lies there too), else a
/// hazard where a hazard lies, else empty.
pub proof fn lemma_food_and_hazards_built(state: GameState, idx: int)
    requires
        state_buildable(state),
        0 <= idx < MAX_CELLS,
        !snake_on_cell(state.board.snakes@, kept_snakes(state.board.snakes@.len() as int), idx),
    ensures
        ({
            let cell = board_of(state).cells[idx];
            let food = lists_cell(state.board.food@, 0, idx);
            let hazard = lists_cell(state.board.hazards@, 0, idx);
            &&& food ==> has_food(cell)
            &&& food && !hazard ==> cell == Cell::Food
            &&& !food && hazard ==> cell == Cell::Hazard
            &&& !food && !hazard ==> cell == Cell::Empty
        }),
{
    let snakes = state.board.snakes@;
    let m = kept_snakes(snakes.len() as int);
    let empty = Seq::new(MAX_CELLS as nat, |i: int| Cell::Empty);
    lemma_paint_hazards_at(empty, state.board.hazards@, 0, idx);
    let hz = paint_hazards(empty, state.board.hazards@, 0);
    lemma_paint_food_at(hz, state.board.food@, 0, idx);
    let fd = paint_food(hz, state.board.food@, 0);
    assert forall|i: int| 0 <= i < m implies !snake_covers(#[trigger] snakes[i], idx) by {
        if snake_covers(snakes[i], idx) {
            assert(snake_on_cell(snakes, m, idx));
        }
    }
    lemma_paint_snakes_skip(fd, snakes, 0, m, idx);
}

/// A head or body cell.
pub open spec fn is_snake_cell(c: Cell) -> bool {
    c is SnakeHead || c is SnakeBody
}

proof fn lemma_paint_body_snake(cells: Seq<Cell>, si: int, body: Seq<Coord>, bi: int, idx: int)
    requires
        cells.len() == MAX_CELLS,
        0 <= bi,
        0 <= idx < MAX_CELLS,
        is_snake_cell(cells[idx]) || lists_cell(body, bi, idx),
    ensures
        is_snake_cell(paint_body(cells, si, body, bi)[idx]),
        paint_body(cells, si, body, bi).len() == MAX_CELLS,
    decreases body.len() - bi,
{
    if bi < body.len() {
        let i2 = cell_index(body[bi]);
        let ttl = (body.len() - bi) as u16;
        let c1 = if 0 <= i2 < MAX_CELLS {
            match cells[i2] {
                Cell::SnakeBody(s, existing) => if s == si as u8 && existing > ttl {
                    cells
                } else {
                    cells.update(i2, Cell::SnakeBody(si as u8, ttl))
                },
                _ => cells.update(i2, Cell::SnakeBody(si as u8, ttl)),
            }
        } else {
            cells
        };
        if !is_snake_cell(c1[idx]) {
            assert(i2 != idx);
            let k = choose|k: int| bi <= k < body.len() && cell_index(#[trigger] body[k]) == idx;
            assert(lists_cell(body, bi + 1, idx));
        }
        lemma_paint_body_snake(c1, si, body, bi + 1, idx);
    } else {
        if lists_cell(body, bi, idx) {
            let k = choose|k: int| bi <= k < body.len() && cell_index(#[trigger] body[k]) == idx;
        }
    }
}

proof fn lemma_paint_body_len(cells: Seq<Cell>, si: int, body: Seq<Coord>, bi: int)
    requires
        cells.len() == MAX_CELLS,
    ensures
        paint_body(cells, si, body, bi).len() == MAX_CELLS,
    decreases body.len() - bi,
{
    if 0 <= bi < body.len() {
        let i2 = cell_index(body[bi]);
        let ttl = (body.len() - bi) as u16;
        let c1 = if 0 <= i2 < MAX_CELLS {
            match cells[i2] {
                Cell::SnakeBody(s, existing) => if s == si as u8 && existing > ttl {
                    cells
                } else {
                    cells.update(i2, Cell::SnakeBody(si as u8, ttl))
                },
                _ => cells.update(i2, Cell::SnakeBody(si as u8, ttl)),
            }
        } else {
            cells
        };
        lemma_paint_body_len(c1, si, body, bi + 1);
    }
}

/// Whether one of the snakes `si..m` paints cell `idx`: its head, or a body segment
/// after the head.
pub open spec fn painted_by(snakes: Seq<Snake>, si: int, m: int, idx: int) -> bool {
    exists|j: int|
        si <= j < m && (cell_index((#[trigger] snakes[j]).head) == idx || lists_cell(snakes[j].body@, 1, idx))
}

proof fn lemma_paint_snakes_snake(cells: Seq<Cell>, snakes: Seq<Snake>, si: int, m: int, idx: int)
    requires
        cells.len() == MAX_CELLS,
        0 <= si,
        0 <= idx < MAX_CELLS,
        is_snake_cell(cells[idx]) || painted_by(snakes, si, m, idx),
    ensures
        is_snake_cell(paint_snakes(cells, snakes, si, m)[idx]),
    decreases m - si,
{
    if si < m {
        let sn = snakes[si];
        let hidx = cell_index(sn.head);
        let c0 = if 0 <= hidx < MAX_CELLS {
            cells.update(hidx, Cell::SnakeHead(si as u8))
        } else {
            cells
        };
        let c1 = paint_snake(cells, si, sn);
        lemma_paint_body_len(c0, si, sn.body@, 1);
        if is_snake_cell(c0[idx]) || lists_cell(sn.body@, 1, idx) {
            lemma_paint_body_snake(c0, si, sn.body@, 1, idx);
        } else {
            let j = choose|j: int|
                si <= j < m && (cell_index((#[trigger] snakes[j]).head) == idx || lists_cell(
                    snakes[j].body@,
                    1,
                    idx,
                ));
            assert(j != si);
            assert(painted_by(snakes, si + 1, m, idx));
        }
        lemma_paint_snakes_snake(c1, snakes, si + 1, m, idx);
    }
}

/// On a built board every head cell, and every cell under a body segment after the
/// head (or under the first one when it is the head), shows a snake: a head or a
/// body segment, of that snake or of a later one stacked there.
pub proof fn lemma_body_cells_built(state: GameState, i: int, k: int)
    requires
        0 <= i < kept_snakes(state.board.snakes@.len() as int),
        0 <= k < state.board.snakes@[i].body@.len(),
        k >= 1 || state.board.snakes@[i].body@[k] == state.board.snakes@[i].head,
        0 <= cell_index(state.board.snakes@[i].body@[k]) < MAX_CELLS,
    ensures
        is_snake_cell(board_of(state).cells[cell_index(state.board.snakes@[i].body@[k])]),
{
    let snakes = state.board.snakes@;
    let m = kept_snakes(snakes.len() as int);
    let idx = cell_index(snakes[i].body@[k]);
    let empty = Seq::new(MAX_CELLS as nat, |j: int| Cell::Empty);
    lemma_paint_hazards_at(empty, state.board.hazards@, 0, idx);
    let hz = paint_hazards(empty, state.board.hazards@, 0);
    lemma_paint_food_at(hz, state.board.food@, 0, idx);
    let fd = paint_food(hz, state.board.food@, 0);
    if k >= 1 {
        assert(lists_cell(snakes[i].body@, 1, idx));
    }
    assert(painted_by(snakes, 0, m, idx));
    lemma_paint_snakes_snake(fd, snakes, 0, m, idx);
}

} // verus!
