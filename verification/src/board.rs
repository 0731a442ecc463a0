//! Compact board representation used to simulate turns.
use vstd::prelude::*;
use crate::types::{all_directions, stepped, wrapped, Coord, Direction, GameMode};

verus! {

/// Maximum board dimension we support (19x19 + some margin).
pub const MAX_DIM: usize = 21;
pub const MAX_CELLS: usize = MAX_DIM * MAX_DIM;
pub const MAX_SNAKES: usize = 8;

/// What occupies a cell on the board.
#[derive(Debug, Clone, Copy, PartialEq, Eq, Structural)]
pub enum Cell {
    Empty,
    Food,
    /// Snake body segment: (snake index, turns until it disappears).
    SnakeBody(u8, u16),
    /// Snake head: (snake index).
    SnakeHead(u8),
    Hazard,
    /// Food on a hazard cell.
    HazardFood,
}

/// A snake as the simulation tracks it.
#[derive(Clone, Debug)]
pub struct SimSnake {
    pub alive: bool,
    pub health: i32,
    pub head: Coord,
    pub tail: Coord,
    pub length: i32,
    pub body: Vec<Coord>,
}

/// The mathematical value of a `SimSnake`.
pub struct SnakeView {
    pub alive: bool,
    pub health: i32,
    pub head: Coord,
    pub tail: Coord,
    pub length: i32,
    pub body: Seq<Coord>,
}

impl View for SimSnake {
    type V = SnakeView;

    open spec fn view(&self) -> SnakeView {
        SnakeView {
            alive: self.alive,
            health: self.health,
            head: self.head,
            tail: self.tail,
            length: self.length,
            body: self.body@,
        }
    }
}

/// The snake that fills an unused slot.
pub open spec fn absent_snake() -> SnakeView {
    SnakeView {
        alive: false,
        health: 0,
        head: Coord { x: -1i32, y: -1i32 },
        tail: Coord { x: -1i32, y: -1i32 },
        length: 0,
        body: Seq::empty(),
    }
}

impl Default for SimSnake {
    fn default() -> (s: Self)
        ensures
            s@ == absent_snake(),
    {
        SimSnake {
            alive: false,
            health: 0,
            head: Coord::new(-1, -1),
            tail: Coord::new(-1, -1),
            length: 0,
            body: Vec::new(),
        }
    }
}

impl SimSnake {
    /// A copy of the snake.
    pub fn duplicate(&self) -> (r: SimSnake)
        ensures
            r@ == self@,
    {
        let body = self.body.clone();
        assert(body@ =~= self.body@);
        SimSnake {
            alive: self.alive,
            health: self.health,
            head: self.head,
            tail: self.tail,
            length: self.length,
            body,
        }
    }
}

/// Compact board representation optimised for simulation.
#[derive(Clone)]
pub struct SimBoard {
    pub width: i32,
    pub height: i32,
    pub cells: [Cell; MAX_CELLS],
    pub snakes: [SimSnake; MAX_SNAKES],
    pub snake_count: usize,
    pub our_index: usize,
    pub mode: GameMode,
    pub hazard_damage: i32,
    pub turn: u32,
}

/// The mathematical value of a `SimBoard`.
pub struct BoardView {
    pub width: i32,
    pub height: i32,
    pub cells: Seq<Cell>,
    pub snakes: Seq<SnakeView>,
    pub snake_count: usize,
    pub our_index: usize,
    pub mode: GameMode,
    pub hazard_damage: i32,
    pub turn: u32,
}

impl View for SimBoard {
    type V = BoardView;

    open spec fn view(&self) -> BoardView {
        BoardView {
            width: self.width,
            height: self.height,
            cells: self.cells@,
            snakes: Seq::new(MAX_SNAKES as nat, |i: int| self.snakes@[i]@),
            snake_count: self.snake_count,
            our_index: self.our_index,
            mode: self.mode,
            hazard_damage: self.hazard_damage,
            turn: self.turn,
        }
    }
}

/// Index of a coordinate in the row-major cell array.
pub open spec fn cell_index(c: Coord) -> int {
    c.y * (MAX_DIM as int) + c.x
}

/// Whether a cell holds food (possibly on a hazard).
pub open spec fn has_food(c: Cell) -> bool {
    c is Food || c is HazardFood
}

/// Whether a cell is a hazard (possibly with food on it).
pub open spec fn has_hazard(c: Cell) -> bool {
    c is Hazard || c is HazardFood
}

/// A snake whose coordinates all lie on a `w` x `h` board and that, when alive, has health.
pub open spec fn snake_fits(s: SnakeView, w: int, h: int) -> bool {
    &&& s.head.inside(w, h)
    &&& s.tail.inside(w, h)
    &&& s.body.len() >= 1
    &&& forall|k: int| 0 <= k < s.body.len() ==> (#[trigger] s.body[k]).inside(w, h)
    &&& s.alive ==> s.health >= 1
}

impl BoardView {
    /// The board's invariant: dimensions within `MAX_DIM`, at most `MAX_SNAKES`
    /// snakes whose coordinates lie on the board, unused slots empty.
    pub open spec fn wf(self) -> bool {
        &&& 1 <= self.width <= MAX_DIM
        &&& 1 <= self.height <= MAX_DIM
        &&& self.cells.len() == MAX_CELLS
        &&& self.snakes.len() == MAX_SNAKES
        &&& self.snake_count <= MAX_SNAKES
        &&& self.our_index < MAX_SNAKES
        &&& forall|i: int|
            0 <= i < self.snake_count ==> snake_fits(
                #[trigger] self.snakes[i],
                self.width as int,
                self.height as int,
            )
        &&& forall|i: int| self.snake_count <= i < MAX_SNAKES ==> #[trigger] self.snakes[i] == absent_snake()
    }

    pub open spec fn is_wrapped(self) -> bool {
        self.mode == GameMode::Wrapped
    }

    /// What `get_cell` reports: the cell, or an impassable body for positions off the board.
    pub open spec fn cell_at(self, c: Coord) -> Cell {
        if !c.inside(self.width as int, self.height as int) {
            Cell::SnakeBody(255, 999)
        } else {
            self.cells[cell_index(c)]
        }
    }

    /// Where a head at `head` lands when it moves in direction `dir`.
    pub open spec fn target(self, head: Coord, dir: Direction) -> Coord {
        if self.is_wrapped() {
            wrapped(stepped(head, dir), self.width as int, self.height as int)
        } else {
            stepped(head, dir)
        }
    }

    /// Whether a head may move onto `c`: on the board (after wrapping, in wrapped
    /// mode) and not a head or a body segment that stays more than one turn.
    pub open spec fn is_safe(self, c: Coord) -> bool {
        if !self.is_wrapped() && !c.inside(self.width as int, self.height as int) {
            false
        } else {
            let c2 = if self.is_wrapped() {
                wrapped(c, self.width as int, self.height as int)
            } else {
                c
            };
            match self.cell_at(c2) {
                Cell::SnakeBody(_, ttl) => ttl <= 1,
                Cell::SnakeHead(_) => false,
                _ => true,
            }
        }
    }

    /// Whether moving snake `i` in direction `d` takes its head back onto its neck
    /// (a neck stacked on the head, as at the start, gives no such direction).
    pub open spec fn reverses(self, i: int, d: Direction) -> bool {
        let s = self.snakes[i];
        &&& s.body.len() >= 2
        &&& s.body[1] != s.head
        &&& self.target(s.head, d) == s.body[1]
    }

    /// Whether some other living snake, strictly longer than snake `i`, has its head
    /// next to `c`: meeting it there head to head would kill snake `i`.
    pub open spec fn loses_head_to_head(self, i: int, c: Coord) -> bool {
        exists|j: int|
            0 <= j < MAX_SNAKES && j != i && (#[trigger] self.snakes[j]).alive
                && self.snakes[j].head.manhattan(c) == 1 && self.snakes[j].length
                > self.snakes[i].length
    }

    /// Whether snake `i` may move in direction `d`: not back onto its neck, onto a
    /// safe cell, and not next to the head of a longer snake.
    pub open spec fn move_allowed(self, i: int, d: Direction) -> bool {
        let c = self.target(self.snakes[i].head, d);
        !self.reverses(i, d) && self.is_safe(c) && !self.loses_head_to_head(i, c)
    }

    /// The safe moves of snake `i` among the directions `k..4`, in order.
    pub open spec fn safe_from(self, i: int, k: int) -> Seq<(Direction, Coord)>
        decreases 4 - k,
    {
        if k >= 4 || k < 0 {
            Seq::empty()
        } else {
            let s = self.snakes[i];
            let d = all_directions()[k];
            let c = self.target(s.head, d);
            let rest = self.safe_from(i, k + 1);
            if self.move_allowed(i, d) {
                seq![(d, c)] + rest
            } else {
                rest
            }
        }
    }

    /// The moves `safe_moves` returns for snake `i`.
    pub open spec fn safe_moves_of(self, i: int) -> Seq<(Direction, Coord)> {
        if !self.snakes[i].alive {
            Seq::empty()
        } else {
            self.safe_from(i, 0)
        }
    }

    /// Whether some other living snake, at least as long as snake `i`, has its head
    /// next to `c`.
    pub open spec fn risky_for(self, i: int, c: Coord) -> bool {
        exists|j: int|
            0 <= j < MAX_SNAKES && j != i && (#[trigger] self.snakes[j]).alive
                && self.snakes[j].head.manhattan(c) == 1 && self.snakes[j].length
                >= self.snakes[i].length
    }

    /// The moves `smart_safe_moves` returns for snake `i`: its safe moves, each
    /// flagged with whether it is risky.
    pub open spec fn smart_moves_of(self, i: int) -> Seq<(Direction, Coord, bool)> {
        Seq::new(
            self.safe_moves_of(i).len(),
            |k: int|
                (
                    self.safe_moves_of(i)[k].0,
                    self.safe_moves_of(i)[k].1,
                    self.risky_for(i, self.safe_moves_of(i)[k].1),
                ),
        )
    }

    /// Number of living snakes among the first `k`.
    pub open spec fn alive_upto(self, k: int) -> int
        decreases k,
    {
        if k <= 0 {
            0
        } else {
            self.alive_upto(k - 1) + if self.snakes[k - 1].alive {
                1int
            } else {
                0int
            }
        }
    }

    pub open spec fn alive_total(self) -> int {
        self.alive_upto(self.snake_count as int)
    }

    pub open spec fn won(self) -> bool {
        self.snakes[self.our_index as int].alive && self.alive_total() == 1
    }

    pub open spec fn died(self) -> bool {
        !self.snakes[self.our_index as int].alive
    }
}

impl SimBoard {
    #[inline]
    pub fn coord_to_idx(&self, c: Coord) -> (idx: usize)
        requires
            0 <= c.x,
            0 <= c.y,
            cell_index(c) <= usize::MAX,
        ensures
            idx == cell_index(c),
    {
        (c.y as usize) * MAX_DIM + (c.x as usize)
    }

    #[inline]
    pub fn idx_to_coord(&self, idx: usize) -> (c: Coord)
        ensures
            c.x == (idx % MAX_DIM) as i32,
            c.y == (idx / MAX_DIM) as i32,
    {
        Coord::new((idx % MAX_DIM) as i32, (idx / MAX_DIM) as i32)
    }

    #[inline]
    pub fn get_cell(&self, c: Coord) -> (cell: Cell)
        requires
            self@.wf(),
        ensures
            cell == self@.cell_at(c),
    {
        if !c.in_bounds(self.width, self.height) {
            return Cell::SnakeBody(255, 999);  // Treat out of bounds as impassable
        }
        self.cells[self.coord_to_idx(c)]
    }

    /// Apply a move for the given direction. Returns the new head coordinate.
    pub fn move_coord(&self, head: Coord, dir: Direction) -> (c: Coord)
        requires
            self@.wf(),
            head.can_step_to(dir),
        ensures
            c == self@.target(head, dir),
    {
        if self.mode.is_wrapped() {
            head.apply_move_wrapped(dir, self.width, self.height)
        } else {
            head.apply_move(dir)
        }
    }

    /// Check if a cell is safe to move into (no wall, no body that won't disappear).
    pub fn is_cell_safe(&self, c: Coord) -> (b: bool)
        requires
            self@.wf(),
        ensures
            b == self@.is_safe(c),
    {
        if !self.mode.is_wrapped() && !c.in_bounds(self.width, self.height) {
            return false;
        }
        let c = if self.mode.is_wrapped() {
            Coord::new(
                c.x.checked_rem_euclid(self.width).unwrap(),
                c.y.checked_rem_euclid(self.height).unwrap(),
            )
        } else {
            c
        };
        match self.get_cell(c) {
            Cell::Empty | Cell::Food | Cell::Hazard | Cell::HazardFood => true,
            Cell::SnakeBody(_, ttl) => ttl <= 1,  // Tail will move away
            Cell::SnakeHead(_) => false,
        }
    }

    /// Whether some other living snake, strictly longer than snake `snake_idx`, has
    /// its head next to `c`.
    fn longer_head_next_to(&self, snake_idx: usize, c: Coord) -> (b: bool)
        requires
            self@.wf(),
            snake_idx < MAX_SNAKES,
            c.inside(self.width as int, self.height as int),
        ensures
            b == self@.loses_head_to_head(snake_idx as int, c),
    {
        let our_len = self.snakes[snake_idx].length;
        proof {
            assert(self@.snakes[snake_idx as int] == self.snakes@[snake_idx as int]@);
        }
        let mut si: usize = 0;
        while si < MAX_SNAKES
            invariant
                self@.wf(),
                snake_idx < MAX_SNAKES,
                our_len == self@.snakes[snake_idx as int].length,
                c.inside(self.width as int, self.height as int),
                si <= MAX_SNAKES,
                forall|j: int|
                    0 <= j < si ==> !(j != snake_idx && (#[trigger] self@.snakes[j]).alive
                        && self@.snakes[j].head.manhattan(c) == 1 && self@.snakes[j].length > our_len),
            decreases MAX_SNAKES - si,
        {
            let s = &self.snakes[si];
            proof {
                assert(self@.snakes[si as int] == s@);
            }
            if si != snake_idx && s.alive {
                proof {
                    assert(snake_fits(self@.snakes[si as int], self.width as int, self.height as int));
                }
                if s.head.dist(&c) == 1 && s.length > our_len {
                    return true;
                }
            }
            si += 1;
        }
        false
    }

    /// Get safe moves for a snake by index, also considering head-to-head risk: moves
    /// onto safe cells, never back onto the neck, and never next to the head of a
    /// longer snake, which would win a head-to-head meeting.
    pub fn safe_moves(&self, snake_idx: usize) -> (moves: Vec<(Direction, Coord)>)
        requires
            self@.wf(),
            snake_idx < MAX_SNAKES,
        ensures
            moves@ == self@.safe_moves_of(snake_idx as int),
    {
        let snake = &self.snakes[snake_idx];
        if !snake.alive {
            return Vec::new();
        }
        proof {
            assert(self@.snakes[snake_idx as int] == snake@);
            if (snake_idx as int) < self@.snake_count {
                assert(snake_fits(snake@, self.width as int, self.height as int));
            } else {
                assert(snake@ == absent_snake());
            }
        }
        // The neck, when it is not stacked on the head: moving back onto it is excluded,
        // also where the board wraps.
        let has_neck = snake.body.len() >= 2 && snake.body[1] != snake.head;
        let neck = if snake.body.len() >= 2 {
            snake.body[1]
        } else {
            snake.head
        };

        let mut moves: Vec<(Direction, Coord)> = Vec::with_capacity(4);
        let all = Direction::ALL;
        let mut k: usize = 0;
        while k < 4
            invariant
                self@.wf(),
                snake_idx < MAX_SNAKES,
                self@.snakes[snake_idx as int] == snake@,
                snake.alive,
                snake.head.inside(self.width as int, self.height as int),
                has_neck == (snake@.body.len() >= 2 && snake@.body[1] != snake@.head),
                snake@.body.len() >= 2 ==> neck == snake@.body[1],
                all@ == all_directions(),
                k <= 4,
                moves@ + self@.safe_from(snake_idx as int, k as int) == self@.safe_from(
                    snake_idx as int,
                    0,
                ),
            decreases 4 - k,
        {
            let dir = all[k];
            let new_head = self.move_coord(snake.head, dir);
            let reversing = has_neck && new_head == neck;
            if !reversing && self.is_cell_safe(new_head) {
                proof {
                    if !self@.is_wrapped() {
                        assert(new_head.inside(self.width as int, self.height as int));
                    }
                }
                if !self.longer_head_next_to(snake_idx, new_head) {
                    moves.push((dir, new_head));
                }
            }
            proof {
                let ghost i = snake_idx as int;
                assert(reversing == self@.reverses(i, dir));
                assert(self@.safe_from(i, k as int) == if self@.move_allowed(i, dir) {
                    seq![(dir, self@.target(snake.head, dir))] + self@.safe_from(i, k + 1)
                } else {
                    self@.safe_from(i, k + 1)
                });
                assert(moves@ + self@.safe_from(i, k + 1) =~= self@.safe_from(i, 0));
            }
            k += 1;
        }
        assert(moves@ =~= self@.safe_from(snake_idx as int, 0));
        moves
    }

    /// Safe moves, each flagged as risky when a larger or equal snake could meet us head to head.
    pub fn smart_safe_moves(&self, snake_idx: usize) -> (moves: Vec<(Direction, Coord, bool)>)
        requires
            self@.wf(),
            snake_idx < MAX_SNAKES,
        ensures
            moves@ == self@.smart_moves_of(snake_idx as int),
            moves@.len() == self@.safe_moves_of(snake_idx as int).len(),
            forall|k: int|
                0 <= k < moves@.len() ==> {
                    let (d, c) = self@.safe_moves_of(snake_idx as int)[k];
                    #[trigger] moves@[k] == (d, c, self@.risky_for(snake_idx as int, c))
                },
    {
        let our_len = self.snakes[snake_idx].length;
        let basic = self.safe_moves(snake_idx);
        let mut out: Vec<(Direction, Coord, bool)> = Vec::with_capacity(basic.len());
        let mut m: usize = 0;
        while m < basic.len()
            invariant
                self@.wf(),
                snake_idx < MAX_SNAKES,
                our_len == self@.snakes[snake_idx as int].length,
                basic@ == self@.safe_moves_of(snake_idx as int),
                m <= basic@.len(),
                out@.len() == m,
                forall|k: int|
                    0 <= k < m ==> {
                        let (d, c) = basic@[k];
                        #[trigger] out@[k] == (d, c, self@.risky_for(snake_idx as int, c))
                    },
            decreases basic@.len() - m,
        {
            let (dir, new_head) = basic[m];
            proof {
                self.lemma_safe_move_on_board(snake_idx as int, m as int);
            }
            let mut risky = false;
            // Check if any other snake's head is adjacent to our new head
            let mut si: usize = 0;
            while si < MAX_SNAKES
                invariant
                    self@.wf(),
                    snake_idx < MAX_SNAKES,
                    our_len == self@.snakes[snake_idx as int].length,
                    new_head.inside(self.width as int, self.height as int),
                    si <= MAX_SNAKES,
                    !risky ==> forall|j: int|
                        0 <= j < si ==> !(j != snake_idx && (#[trigger] self@.snakes[j]).alive
                            && self@.snakes[j].head.manhattan(new_head) == 1
                            && self@.snakes[j].length >= our_len),
                    risky ==> self@.risky_for(snake_idx as int, new_head),
                ensures
                    risky == self@.risky_for(snake_idx as int, new_head),
                decreases MAX_SNAKES - si,
            {
                let s = &self.snakes[si];
                proof {
                    assert(self@.snakes[si as int] == s@);
                }
                if si == snake_idx || !s.alive {
                    si += 1;
                    continue;
                }
                proof {
                    assert(snake_fits(self@.snakes[si as int], self.width as int, self.height as int));
                }
                if s.head.dist(&new_head) == 1 && s.length >= our_len {
                    risky = true;
                    assert(self@.snakes[si as int].alive);
                    break;
                }
                si += 1;
            }
            out.push((dir, new_head, risky));
            m += 1;
        }
        assert(out@ =~= self@.smart_moves_of(snake_idx as int));
        out
    }

    /// Count alive snakes.
    pub fn alive_count(&self) -> (n: usize)
        requires
            self@.wf(),
        ensures
            n == self@.alive_total(),
    {
        let mut n: usize = 0;
        let mut i: usize = 0;
        while i < self.snake_count
            invariant
                self@.wf(),
                i <= self.snake_count,
                n == self@.alive_upto(i as int),
                n <= i,
            decreases self.snake_count - i,
        {
            proof {
                assert(self@.snakes[i as int] == self.snakes@[i as int]@);
            }
            if self.snakes[i].alive {
                n += 1;
            }
            i += 1;
        }
        n
    }

    /// Check if we won.
    pub fn we_won(&self) -> (b: bool)
        requires
            self@.wf(),
        ensures
            b == self@.won(),
    {
        let us = &self.snakes[self.our_index];
        proof {
            assert(self@.snakes[self.our_index as int] == us@);
        }
        us.alive && self.alive_count() == 1
    }

    /// Check if we died.
    pub fn we_died(&self) -> (b: bool)
        requires
            self@.wf(),
        ensures
            b == self@.died(),
    {
        proof {
            assert(self@.snakes[self.our_index as int] == self.snakes@[self.our_index as int]@);
        }
        !self.snakes[self.our_index].alive
    }

    /// Every safe move of a living snake lands on the board.
    pub proof fn lemma_safe_move_on_board(&self, i: int, m: int)
        requires
            self@.wf(),
            0 <= i < MAX_SNAKES,
            0 <= m < self@.safe_moves_of(i).len(),
        ensures
            self@.safe_moves_of(i)[m].1.inside(self.width as int, self.height as int),
    {
        lemma_safe_moves_sound(self@, i);
    }
}

/// Every move `safe_moves` lists never takes the head back onto the neck, lands
/// where its direction leads, on a safe cell on the board, and not next to the head
/// of a longer snake; the directions appear at most once each, in the order up,
/// down, left, right.
pub proof fn lemma_safe_moves_sound(b: BoardView, i: int)
    requires
        b.wf(),
        0 <= i < MAX_SNAKES,
    ensures
        forall|m: int|
            0 <= m < b.safe_moves_of(i).len() ==> {
                let (d, c) = #[trigger] b.safe_moves_of(i)[m];
                &&& !b.reverses(i, d)
                &&& c == b.target(b.snakes[i].head, d)
                &&& b.is_safe(c)
                &&& !b.loses_head_to_head(i, c)
                &&& c.inside(b.width as int, b.height as int)
            },
        b.safe_moves_of(i).len() <= 4,
{
    if b.snakes[i].alive {
        lemma_safe_from_sound(b, i, 0);
    }
}

proof fn lemma_safe_from_sound(b: BoardView, i: int, k: int)
    requires
        b.wf(),
        0 <= i < MAX_SNAKES,
        b.snakes[i].alive,
        0 <= k <= 4,
    ensures
        forall|m: int|
            0 <= m < b.safe_from(i, k).len() ==> {
                let (d, c) = #[trigger] b.safe_from(i, k)[m];
                &&& !b.reverses(i, d)
                &&& c == b.target(b.snakes[i].head, d)
                &&& b.is_safe(c)
                &&& !b.loses_head_to_head(i, c)
                &&& c.inside(b.width as int, b.height as int)
            },
        b.safe_from(i, k).len() <= 4 - k,
    decreases 4 - k,
{
    if k < 4 {
        lemma_safe_from_sound(b, i, k + 1);
        let s = b.snakes[i];
        let d = all_directions()[k];
        let c = b.target(s.head, d);
        if b.move_allowed(i, d) {
            let rest = b.safe_from(i, k + 1);
            assert(b.safe_from(i, k) == seq![(d, c)] + rest);
            assert forall|m: int| 0 <= m < b.safe_from(i, k).len() implies {
                let (d2, c2) = #[trigger] b.safe_from(i, k)[m];
                &&& !b.reverses(i, d2)
                &&& c2 == b.target(b.snakes[i].head, d2)
                &&& b.is_safe(c2)
                &&& !b.loses_head_to_head(i, c2)
                &&& c2.inside(b.width as int, b.height as int)
            } by {
                if m > 0 {
                    assert(b.safe_from(i, k)[m] == rest[m - 1]);
                }
            }
        }
    }
}

/// Every direction that does not lead back onto the neck, whose target is safe and
/// not next to the head of a longer snake appears among the moves of a living snake.
pub proof fn lemma_safe_moves_complete(b: BoardView, i: int, d: Direction)
    requires
        b.wf(),
        0 <= i < MAX_SNAKES,
        b.snakes[i].alive,
        b.move_allowed(i, d),
    ensures
        b.safe_moves_of(i).contains((d, b.target(b.snakes[i].head, d))),
{
    let k: int = match d {
        Direction::Up => 0,
        Direction::Down => 1,
        Direction::Left => 2,
        Direction::Right => 3,
    };
    assert(all_directions()[k] == d);
    lemma_safe_from_contains(b, i, 0, k);
}

proof fn lemma_safe_from_contains(b: BoardView, i: int, k: int, t: int)
    requires
        0 <= k <= t < 4,
        b.move_allowed(i, all_directions()[t]),
    ensures
        b.safe_from(i, k).contains((all_directions()[t], b.target(b.snakes[i].head, all_directions()[t]))),
    decreases t - k,
{
    let e = (all_directions()[t], b.target(b.snakes[i].head, all_directions()[t]));
    if k == t {
        assert(b.safe_from(i, k)[0] == e);
    } else {
        lemma_safe_from_contains(b, i, k + 1, t);
        let rest = b.safe_from(i, k + 1);
        let j = choose|j: int| 0 <= j < rest.len() && rest[j] == e;
        let s = b.snakes[i];
        let d = all_directions()[k];
        let c = b.target(s.head, d);
        if b.move_allowed(i, d) {
            assert(b.safe_from(i, k)[j + 1] == e);
        } else {
            assert(b.safe_from(i, k)[j] == e);
        }
    }
}

/// The coordinate of a cell index (as `idx_to_coord` computes it).
pub open spec fn cell_coord(idx: int) -> Coord {
    Coord { x: (idx % (MAX_DIM as int)) as i32, y: (idx / (MAX_DIM as int)) as i32 }
}

/// `idx_to_coord` undoes `coord_to_idx` for every coordinate with `0 <= x < MAX_DIM`
/// and `0 <= y < MAX_DIM`, and `coord_to_idx` undoes `idx_to_coord` on every index
/// of the cell array.
pub proof fn lemma_index_roundtrip(c: Coord, idx: int)
    ensures
        0 <= c.x < MAX_DIM && 0 <= c.y < MAX_DIM ==> cell_coord(cell_index(c)) == c
            && 0 <= cell_index(c) < MAX_CELLS,
        0 <= idx < MAX_CELLS ==> cell_index(cell_coord(idx)) == idx && 0 <= cell_coord(idx).x
            < MAX_DIM && 0 <= cell_coord(idx).y < MAX_DIM,
{
    if 0 <= c.x < MAX_DIM && 0 <= c.y < MAX_DIM {
        vstd::arithmetic::div_mod::lemma_fundamental_div_mod_converse(
            cell_index(c),
            MAX_DIM as int,
            c.y as int,
            c.x as int,
        );
    }
    if 0 <= idx < MAX_CELLS {
        vstd::arithmetic::div_mod::lemma_fundamental_div_mod(idx, MAX_DIM as int);
        assert(0 <= idx % 21 < 21);
        assert(0 <= idx / 21 < 21) by (nonlinear_arith)
            requires
                0 <= idx < 441,
        ;
    }
}

/// A winning board is not a lost one.
pub proof fn lemma_won_not_died(b: BoardView)
    ensures
        b.won() ==> !b.died(),
{
}

/// Moves from a cell on the board: the target is on the board when the board
/// wraps or the plain step stays on it; where the plain step stays on the board
/// the target is that step; and on a wrapped board a move followed by the opposite
/// move returns to the start.
pub proof fn lemma_board_moves(b: BoardView, c: Coord, d: Direction)
    requires
        b.wf(),
        c.inside(b.width as int, b.height as int),
    ensures
        stepped(c, d).inside(b.width as int, b.height as int) ==> b.target(c, d) == stepped(c, d),
        b.is_wrapped() ==> b.target(c, d).inside(b.width as int, b.height as int),
        b.is_wrapped() ==> b.target(b.target(c, d), d.reverse()) == c,
{
    crate::types::lemma_wrapped_step(c, d, b.width as int, b.height as int);
}

} // verus!
