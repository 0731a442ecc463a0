//! One simulated turn: every snake moves, eats, takes damage and collides.
use vstd::prelude::*;
use crate::board::{
    absent_snake, cell_index, has_food, has_hazard, snake_fits, BoardView, Cell, SimBoard,
    SnakeView, MAX_CELLS, MAX_DIM, MAX_SNAKES,
};
use crate::types::{wrapped, Coord, Direction};

verus! {

/// The planned head of each snake: for each living snake, where the last move
/// listed for it in `moves` leads.
pub open spec fn planned_heads(b: BoardView, moves: Seq<(usize, Direction)>) -> Seq<Option<Coord>>
    decreases moves.len(),
{
    if moves.len() == 0 {
        Seq::new(MAX_SNAKES as nat, |i: int| None::<Coord>)
    } else {
        let prev = planned_heads(b, moves.drop_last());
        let si = moves.last().0 as int;
        let dir = moves.last().1;
        if b.snakes[si].alive {
            prev.update(si, Some(b.target(b.snakes[si].head, dir)))
        } else {
            prev
        }
    }
}

/// Snake `s` after moving its head to `h`: it leaves the board and dies, or it
/// grows a new head, keeps its tail when it eats (health back to 100, one longer)
/// and otherwise loses its tail, one health point and, on a hazard, the hazard damage.
pub open spec fn advanced(b: BoardView, s: SnakeView, h: Coord) -> SnakeView {
    if !b.is_wrapped() && !h.inside(b.width as int, b.height as int) {
        SnakeView {
            alive: false,
            health: s.health,
            head: s.head,
            tail: s.tail,
            length: s.length,
            body: s.body,
        }
    } else {
        let cell = b.cell_at(h);
        let ate = has_food(cell);
        let grown = seq![h] + s.body;
        let body = if ate {
            grown
        } else {
            grown.drop_last()
        };
        let health: int = if ate {
            100
        } else if has_hazard(cell) {
            s.health - 1 - b.hazard_damage
        } else {
            s.health - 1
        };
        SnakeView {
            alive: s.alive && health > 0,
            health: health as i32,
            head: h,
            tail: if body.len() > 0 {
                body.last()
            } else {
                s.tail
            },
            length: if ate {
                (s.length + 1) as i32
            } else {
                s.length
            },
            body,
        }
    }
}

/// The snakes after every planned head has been applied, before collisions.
pub open spec fn moved_snakes(b: BoardView, heads: Seq<Option<Coord>>) -> Seq<SnakeView> {
    Seq::new(
        MAX_SNAKES as nat,
        |i: int|
            match heads[i] {
                Some(h) => if i < b.snake_count && b.snakes[i].alive {
                    advanced(b, b.snakes[i], h)
                } else {
                    b.snakes[i]
                },
                None => b.snakes[i],
            },
    )
}

/// Head-to-head between snakes `i` and `j` (snake `i` has a planned head): when
/// `j` is alive and both heads meet, the shorter dies, or both when equally long.
pub open spec fn clash_pair(
    a: Seq<bool>,
    s: Seq<SnakeView>,
    heads: Seq<Option<Coord>>,
    i: int,
    j: int,
) -> Seq<bool> {
    if a[j] && heads[j] is Some && heads[i] == heads[j] {
        let li = s[i].length;
        let lj = s[j].length;
        if li > lj {
            a.update(j, false)
        } else if lj > li {
            a.update(i, false)
        } else {
            a.update(i, false).update(j, false)
        }
    } else {
        a
    }
}

/// Head-to-head checks of snake `i` against snakes `j..n`, in order.
pub open spec fn clash_row(
    a: Seq<bool>,
    s: Seq<SnakeView>,
    heads: Seq<Option<Coord>>,
    i: int,
    j: int,
    n: int,
) -> Seq<bool>
    decreases n - j,
{
    if j >= n {
        a
    } else {
        clash_row(clash_pair(a, s, heads, i, j), s, heads, i, j + 1, n)
    }
}

/// Head-to-head checks for the snakes `i..n` (each against the later ones), in order;
/// a snake dead or without a planned head when its turn comes is skipped.
pub open spec fn clash_rows(
    a: Seq<bool>,
    s: Seq<SnakeView>,
    heads: Seq<Option<Coord>>,
    i: int,
    n: int,
) -> Seq<bool>
    decreases n - i,
{
    if i >= n {
        a
    } else {
        let a1 = if a[i] && heads[i] is Some {
            clash_row(a, s, heads, i, i + 1, n)
        } else {
            a
        };
        clash_rows(a1, s, heads, i + 1, n)
    }
}

/// Whether `c` is a non-head segment of a living snake among the first `m`, other than `i`.
pub open spec fn hits_body_upto(a: Seq<bool>, s: Seq<SnakeView>, i: int, c: Coord, m: int) -> bool {
    exists|j: int, k: int|
        0 <= j < m && j != i && a[j] && 1 <= k < s[j].body.len() && #[trigger] s[j].body[k] == c
}

/// Body collisions for the snakes `i..n`, in order: a living snake whose new head
/// lies on a non-head segment of another living snake dies.
pub open spec fn bump_rows(
    a: Seq<bool>,
    s: Seq<SnakeView>,
    heads: Seq<Option<Coord>>,
    i: int,
    n: int,
) -> Seq<bool>
    decreases n - i,
{
    if i >= n {
        a
    } else {
        let a1 = match heads[i] {
            Some(c) => if a[i] && hits_body_upto(a, s, i, c, n) {
                a.update(i, false)
            } else {
                a
            },
            None => a,
        };
        bump_rows(a1, s, heads, i + 1, n)
    }
}

/// The snakes `s` with their liveness replaced by `a`.
pub open spec fn with_alive(s: Seq<SnakeView>, a: Seq<bool>) -> Seq<SnakeView> {
    Seq::new(
        s.len(),
        |i: int|
            SnakeView {
                alive: a[i],
                health: s[i].health,
                head: s[i].head,
                tail: s[i].tail,
                length: s[i].length,
                body: s[i].body,
            },
    )
}

/// The snake that a head or body cell names.
pub open spec fn owner_of(c: Cell) -> Option<u8> {
    match c {
        Cell::SnakeHead(s) => Some(s),
        Cell::SnakeBody(s, _) => Some(s),
        _ => None,
    }
}

/// Whether cell `idx` lies under a segment of living snake `s` (one of the first `snake_count`).
pub open spec fn owns_segment(b: BoardView, s: int, idx: int) -> bool {
    &&& 0 <= s < b.snake_count
    &&& b.snakes[s].alive
    &&& exists|k: int| 0 <= k < b.snakes[s].body.len() && cell_index(#[trigger] b.snakes[s].body[k]) == idx
}

/// The cells with every living snake's own head and body cells emptied.
pub open spec fn cleared_cells(b: BoardView) -> Seq<Cell> {
    Seq::new(
        MAX_CELLS as nat,
        |idx: int|
            match owner_of(b.cells[idx]) {
                Some(s) => if owns_segment(b, s as int, idx) {
                    Cell::Empty
                } else {
                    b.cells[idx]
                },
                None => b.cells[idx],
            },
    )
}

/// The cell written for segment `bi` of a `len`-segment snake `si`: its head, or a
/// body segment that disappears after `len - bi` turns.
pub open spec fn segment_cell(si: int, bi: int, len: int) -> Cell {
    if bi == 0 {
        Cell::SnakeHead(si as u8)
    } else {
        Cell::SnakeBody(si as u8, (len - bi) as u16)
    }
}

/// Whether body segment `bi` (after the head) sits on the cell of an earlier body
/// segment, which disappears later and so keeps the cell.
pub open spec fn stacked_before(body: Seq<Coord>, bi: int) -> bool {
    exists|k: int| 1 <= k < bi && #[trigger] body[k] == body[bi]
}

/// Writes segment `bi` of snake `si`'s body into `cells`: the head, or a body
/// segment unless an earlier body segment is stacked on the same cell (the
/// highest count of turns left is kept, as when the board is built).
pub open spec fn lay_segment(cells: Seq<Cell>, si: int, body: Seq<Coord>, bi: int) -> Seq<Cell> {
    let idx = cell_index(body[bi]);
    if 0 <= idx < MAX_CELLS && !(bi >= 1 && stacked_before(body, bi)) {
        cells.update(idx, segment_cell(si, bi, body.len() as int))
    } else {
        cells
    }
}

/// Writes segments `bi..` of snake `si`'s body into `cells`, in order.
pub open spec fn lay_body(cells: Seq<Cell>, si: int, body: Seq<Coord>, bi: int) -> Seq<Cell>
    decreases body.len() - bi,
{
    if bi < 0 || bi >= body.len() {
        cells
    } else {
        lay_body(lay_segment(cells, si, body, bi), si, body, bi + 1)
    }
}

/// Writes every living snake among `si..n` into `cells`, in order.
pub open spec fn lay_rows(cells: Seq<Cell>, snakes: Seq<SnakeView>, si: int, n: int) -> Seq<Cell>
    decreases n - si,
{
    if si >= n {
        cells
    } else {
        let c1 = if snakes[si].alive {
            lay_body(cells, si, snakes[si].body, 0)
        } else {
            cells
        };
        lay_rows(c1, snakes, si + 1, n)
    }
}

/// Liveness of the moved snakes.
pub open spec fn alive_of(s: Seq<SnakeView>) -> Seq<bool> {
    Seq::new(s.len(), |i: int| s[i].alive)
}

/// The snakes at the end of the turn.
pub open spec fn final_snakes(b: BoardView, moves: Seq<(usize, Direction)>) -> Seq<SnakeView> {
    let heads = planned_heads(b, moves);
    let s3 = moved_snakes(b, heads);
    let n = b.snake_count as int;
    let a4 = clash_rows(alive_of(s3), s3, heads, 0, n);
    let a5 = bump_rows(a4, s3, heads, 0, n);
    with_alive(s3, a5)
}

/// The board after one turn in which the snakes move as `moves` says.
pub open spec fn next_board(b: BoardView, moves: Seq<(usize, Direction)>) -> BoardView {
    let s5 = final_snakes(b, moves);
    BoardView {
        width: b.width,
        height: b.height,
        cells: lay_rows(cleared_cells(b), s5, 0, b.snake_count as int),
        snakes: s5,
        snake_count: b.snake_count,
        our_index: b.our_index,
        mode: b.mode,
        hazard_damage: b.hazard_damage,
        turn: (b.turn + 1) as u32,
    }
}

/// The conditions under which a turn stays within the integer types: the turn
/// counter can grow, and every living snake can grow by one and pay its upkeep.
pub open spec fn turn_fits(b: BoardView) -> bool {
    &&& b.turn < u32::MAX
    &&& forall|i: int|
        0 <= i < b.snake_count && (#[trigger] b.snakes[i]).alive ==> {
            &&& b.snakes[i].length < i32::MAX
            &&& b.snakes[i].health - 1 - b.hazard_damage <= i32::MAX
            &&& b.snakes[i].health - 1 - b.hazard_damage >= i32::MIN
        }
}

pub open spec fn head_opt(p: (Coord, bool)) -> Option<Coord> {
    if p.1 {
        Some(p.0)
    } else {
        None
    }
}

proof fn lemma_clash_pair_mono(a: Seq<bool>, s: Seq<SnakeView>, heads: Seq<Option<Coord>>, i: int, j: int)
    requires
        0 <= i < a.len(),
        0 <= j < a.len(),
    ensures
        clash_pair(a, s, heads, i, j).len() == a.len(),
        forall|x: int| 0 <= x < a.len() && #[trigger] clash_pair(a, s, heads, i, j)[x] ==> a[x],
{
}

proof fn lemma_clash_row_mono(a: Seq<bool>, s: Seq<SnakeView>, heads: Seq<Option<Coord>>, i: int, j: int, n: int)
    requires
        0 <= i < a.len(),
        0 <= j,
        n <= a.len(),
    ensures
        clash_row(a, s, heads, i, j, n).len() == a.len(),
        forall|x: int| 0 <= x < a.len() && #[trigger] clash_row(a, s, heads, i, j, n)[x] ==> a[x],
    decreases n - j,
{
    if j < n {
        lemma_clash_pair_mono(a, s, heads, i, j);
        lemma_clash_row_mono(clash_pair(a, s, heads, i, j), s, heads, i, j + 1, n);
    }
}

proof fn lemma_clash_rows_mono(a: Seq<bool>, s: Seq<SnakeView>, heads: Seq<Option<Coord>>, i: int, n: int)
    requires
        0 <= i,
        n <= a.len(),
    ensures
        clash_rows(a, s, heads, i, n).len() == a.len(),
        forall|x: int| 0 <= x < a.len() && #[trigger] clash_rows(a, s, heads, i, n)[x] ==> a[x],
    decreases n - i,
{
    if i < n {
        let a1 = if a[i] && heads[i] is Some {
            lemma_clash_row_mono(a, s, heads, i, i + 1, n);
            clash_row(a, s, heads, i, i + 1, n)
        } else {
            a
        };
        lemma_clash_rows_mono(a1, s, heads, i + 1, n);
    }
}

proof fn lemma_bump_rows_mono(a: Seq<bool>, s: Seq<SnakeView>, heads: Seq<Option<Coord>>, i: int, n: int)
    requires
        0 <= i,
        n <= a.len(),
    ensures
        bump_rows(a, s, heads, i, n).len() == a.len(),
        forall|x: int| 0 <= x < a.len() && #[trigger] bump_rows(a, s, heads, i, n)[x] ==> a[x],
    decreases n - i,
{
    if i < n {
        let a1 = match heads[i] {
            Some(c) => if a[i] && hits_body_upto(a, s, i, c, n) {
                a.update(i, false)
            } else {
                a
            },
            None => a,
        };
        lemma_bump_rows_mono(a1, s, heads, i + 1, n);
    }
}

/// A snake dies in a turn only by the rules above: the final liveness of every
/// snake implies its liveness after moving.
pub proof fn lemma_final_alive_implies_moved_alive(b: BoardView, moves: Seq<(usize, Direction)>, i: int)
    requires
        b.wf(),
        0 <= i < MAX_SNAKES,
    ensures
        final_snakes(b, moves).len() == MAX_SNAKES,
        final_snakes(b, moves)[i].alive ==> moved_snakes(b, planned_heads(b, moves))[i].alive,
{
    let heads = planned_heads(b, moves);
    let s3 = moved_snakes(b, heads);
    let n = b.snake_count as int;
    let a0 = alive_of(s3);
    lemma_clash_rows_mono(a0, s3, heads, 0, n);
    let a4 = clash_rows(a0, s3, heads, 0, n);
    lemma_bump_rows_mono(a4, s3, heads, 0, n);
}

/// Whether cell `idx` has been emptied once snakes `0..si` and the first `k`
/// segments of snake `si` have been cleared.
pub open spec fn cleared_before(b: BoardView, si: int, k: int, idx: int) -> bool {
    match owner_of(b.cells[idx]) {
        Some(s) => {
            ||| (s as int) < si && owns_segment(b, s as int, idx)
            ||| {
                &&& s as int == si
                &&& si < b.snake_count
                &&& b.snakes[si].alive
                &&& exists|kk: int| 0 <= kk < k && cell_index(#[trigger] b.snakes[si].body[kk]) == idx
            }
        },
        None => false,
    }
}

pub open spec fn heads_of(nh: [(Coord, bool); MAX_SNAKES]) -> Seq<Option<Coord>> {
    Seq::new(MAX_SNAKES as nat, |i: int| head_opt(nh@[i]))
}

impl SimBoard {
    /// The planned new head of every snake (step 1 of a turn).
    fn plan_heads(&self, moves: &[(usize, Direction)]) -> (nh: [(Coord, bool); MAX_SNAKES])
        requires
            self@.wf(),
            forall|k: int| 0 <= k < moves@.len() ==> (#[trigger] moves@[k]).0 < MAX_SNAKES,
        ensures
            heads_of(nh) == planned_heads(self@, moves@),
    {
        let mut nh = [(Coord::new(-1, -1), false); MAX_SNAKES];
        let ghost b = self@;
        assert(heads_of(nh) =~= planned_heads(b, moves@.take(0)));
        let mut k: usize = 0;
        while k < moves.len()
            invariant
                b == self@,
                b.wf(),
                forall|j: int| 0 <= j < moves@.len() ==> (#[trigger] moves@[j]).0 < MAX_SNAKES,
                k <= moves@.len(),
                heads_of(nh) == planned_heads(b, moves@.take(k as int)),
            decreases moves@.len() - k,
        {
            let (si, dir) = moves[k];
            assert(moves@.take(k + 1).drop_last() =~= moves@.take(k as int));
            assert(moves@.take(k + 1).last() == moves@[k as int]);
            proof {
                assert(b.snakes[si as int] == self.snakes@[si as int]@);
            }
            if self.snakes[si].alive {
                proof {
                    assert(snake_fits(b.snakes[si as int], b.width as int, b.height as int));
                }
                let new_head = self.move_coord(self.snakes[si].head, dir);
                nh[si] = (new_head, true);
            }
            assert(heads_of(nh) =~= planned_heads(b, moves@.take(k + 1)));
            k += 1;
        }
        assert(moves@.take(moves@.len() as int) =~= moves@);
        nh
    }

    /// The cells with every living snake's own head and body cells emptied (step 2 of a turn).
    fn cleared_cells(&self) -> (cells: [Cell; MAX_CELLS])
        requires
            self@.wf(),
        ensures
            cells@ == cleared_cells(self@),
    {
        let ghost b = self@;
        let mut cells = self.cells;
        let mut si: usize = 0;
        while si < self.snake_count
            invariant
                b == self@,
                b.wf(),
                si <= b.snake_count,
                forall|idx: int|
                    0 <= idx < MAX_CELLS ==> #[trigger] cells@[idx] == if cleared_before(
                        b,
                        si as int,
                        0,
                        idx,
                    ) {
                        Cell::Empty
                    } else {
                        b.cells[idx]
                    },
            decreases b.snake_count - si,
        {
            proof {
                assert(b.snakes[si as int] == self.snakes@[si as int]@);
            }
            if self.snakes[si].alive {
                let ghost s = b.snakes[si as int];
                proof {
                    assert(snake_fits(s, b.width as int, b.height as int));
                }
                let mut k: usize = 0;
                while k < self.snakes[si].body.len()
                    invariant
                        b == self@,
                        b.wf(),
                        si < b.snake_count,
                        s == b.snakes[si as int],
                        s.alive,
                        snake_fits(s, b.width as int, b.height as int),
                        self.snakes@[si as int]@ == s,
                        k <= s.body.len(),
                        forall|idx: int|
                            0 <= idx < MAX_CELLS ==> #[trigger] cells@[idx] == if cleared_before(
                                b,
                                si as int,
                                k as int,
                                idx,
                            ) {
                                Cell::Empty
                            } else {
                                b.cells[idx]
                            },
                    decreases s.body.len() - k,
                {
                    let seg = self.snakes[si].body[k];
                    assert(seg == s.body[k as int]);
                    assert(seg.inside(b.width as int, b.height as int));
                    let idx = self.coord_to_idx(seg);
                    if idx < MAX_CELLS {
                        let clear = match cells[idx] {
                            Cell::SnakeHead(s) => s == si as u8,
                            Cell::SnakeBody(s, _) => s == si as u8,
                            _ => false,
                        };
                        if clear {
                            cells[idx] = Cell::Empty;
                        }
                    }
                    assert forall|j: int| 0 <= j < MAX_CELLS implies #[trigger] cells@[j] == if cleared_before(
                        b,
                        si as int,
                        k + 1,
                        j,
                    ) {
                        Cell::Empty
                    } else {
                        b.cells[j]
                    } by {
                        if j == idx as int {
                            assert(cell_index(s.body[k as int]) == j);
                        } else {
                            if cleared_before(b, si as int, k + 1, j) && !cleared_before(b, si as int, k as int, j) {
                                let kk = choose|kk: int| 0 <= kk < k + 1 && cell_index(#[trigger] s.body[kk]) == j;
                                assert(kk == k);
                            }
                        }
                    }
                    k += 1;
                }
                assert forall|j: int| 0 <= j < MAX_CELLS implies #[trigger] cleared_before(b, si as int, s.body.len() as int, j) == cleared_before(b, si + 1, 0, j) by {
                }
            } else {
                assert forall|j: int| 0 <= j < MAX_CELLS implies #[trigger] cleared_before(b, si as int, 0, j) == cleared_before(b, si + 1, 0, j) by {
                }
            }
            si += 1;
        }
        assert(cells@ =~= cleared_cells(b));
        cells
    }

    /// Every snake with a planned head moves (step 3 of a turn).
    fn advance_snakes(&self, nb: &mut SimBoard, nh: &[(Coord, bool); MAX_SNAKES])
        requires
            self@.wf(),
            turn_fits(self@),
            old(nb)@.snakes == self@.snakes,
            forall|i: int|
                0 <= i < MAX_SNAKES && (#[trigger] heads_of(*nh)[i]) is Some ==> self@.snakes[i].alive,
        ensures
            final(nb)@.snakes == moved_snakes(self@, heads_of(*nh)),
            final(nb).cells == old(nb).cells,
            final(nb).width == old(nb).width,
            final(nb).height == old(nb).height,
            final(nb).snake_count == old(nb).snake_count,
            final(nb).our_index == old(nb).our_index,
            final(nb).mode == old(nb).mode,
            final(nb).hazard_damage == old(nb).hazard_damage,
            final(nb).turn == old(nb).turn,
    {
        let ghost b = self@;
        let ghost heads = heads_of(*nh);
        let ghost target = moved_snakes(b, heads);
        let mut si: usize = 0;
        while si < self.snake_count
            invariant
                b == self@,
                b.wf(),
                turn_fits(b),
                heads == heads_of(*nh),
                target == moved_snakes(b, heads),
                forall|i: int| 0 <= i < MAX_SNAKES && (#[trigger] heads[i]) is Some ==> b.snakes[i].alive,
                si <= b.snake_count,
                forall|i: int|
                    0 <= i < MAX_SNAKES ==> (#[trigger] nb.snakes@[i])@ == if i < si {
                        target[i]
                    } else {
                        b.snakes[i]
                    },
                nb.cells == old(nb).cells,
                nb.width == old(nb).width,
                nb.height == old(nb).height,
                nb.snake_count == old(nb).snake_count,
                nb.our_index == old(nb).our_index,
                nb.mode == old(nb).mode,
                nb.hazard_damage == old(nb).hazard_damage,
                nb.turn == old(nb).turn,
            decreases b.snake_count - si,
        {
            proof {
                assert(b.snakes[si as int] == self.snakes@[si as int]@);
                assert(heads[si as int] == head_opt(nh@[si as int]));
            }
            if !nh[si].1 || !self.snakes[si].alive {
                si += 1;
                continue;
            }
            let head = nh[si].0;
            let ghost s = b.snakes[si as int];
            proof {
                assert(snake_fits(s, b.width as int, b.height as int));
                assert(heads[si as int] == Some(head));
            }
            if !self.mode.is_wrapped() && !head.in_bounds(self.width, self.height) {
                nb.snakes[si].alive = false;
                si += 1;
                continue;
            }
            let cell = self.get_cell(head);
            let ate = matches!(cell, Cell::Food | Cell::HazardFood);
            nb.snakes[si].body.insert(0, head);
            nb.snakes[si].head = head;
            if ate {
                nb.snakes[si].health = 100;
                nb.snakes[si].length = nb.snakes[si].length + 1;
            } else {
                nb.snakes[si].body.pop();
                nb.snakes[si].health = nb.snakes[si].health - 1;
                // Hazard damage
                if matches!(cell, Cell::Hazard | Cell::HazardFood) {
                    nb.snakes[si].health = nb.snakes[si].health - self.hazard_damage;
                }
            }
            if nb.snakes[si].health <= 0 {
                nb.snakes[si].alive = false;
            }
            let bl = nb.snakes[si].body.len();
            if bl > 0 {
                nb.snakes[si].tail = nb.snakes[si].body[bl - 1];
            }
            proof {
                let grown = seq![head] + s.body;
                assert(s.body.insert(0, head) =~= grown);
                let t = target[si as int];
                assert(t == advanced(b, s, head));
                assert(nb.snakes@[si as int].body@ =~= t.body);
                assert(nb.snakes@[si as int]@ == t);
            }
            si += 1;
        }
        proof {
            assert forall|i: int| 0 <= i < MAX_SNAKES implies #[trigger] nb.snakes@[i]@ == target[i] by {
                if i >= b.snake_count {
                    assert(target[i] == b.snakes[i]);
                }
            }
            assert(nb@.snakes =~= target);
        }
    }

    /// A copy of the board.
    pub fn duplicate(&self) -> (r: SimBoard)
        ensures
            r@ == self@,
    {
        let snakes = [
            self.snakes[0].duplicate(),
            self.snakes[1].duplicate(),
            self.snakes[2].duplicate(),
            self.snakes[3].duplicate(),
            self.snakes[4].duplicate(),
            self.snakes[5].duplicate(),
            self.snakes[6].duplicate(),
            self.snakes[7].duplicate(),
        ];
        let r = SimBoard {
            width: self.width,
            height: self.height,
            cells: self.cells,
            snakes,
            snake_count: self.snake_count,
            our_index: self.our_index,
            mode: self.mode,
            hazard_damage: self.hazard_damage,
            turn: self.turn,
        };
        assert(r@.snakes =~= self@.snakes);
        r
    }
}

/// Head-to-head collisions (step 4 of a turn).
fn resolve_head_to_head(nb: &mut SimBoard, nh: &[(Coord, bool); MAX_SNAKES])
    requires
        old(nb).snake_count <= MAX_SNAKES,
    ensures
        final(nb)@.snakes == with_alive(
            old(nb)@.snakes,
            clash_rows(
                alive_of(old(nb)@.snakes),
                old(nb)@.snakes,
                heads_of(*nh),
                0,
                old(nb).snake_count as int,
            ),
        ),
        final(nb).cells == old(nb).cells,
        final(nb).width == old(nb).width,
        final(nb).height == old(nb).height,
        final(nb).snake_count == old(nb).snake_count,
        final(nb).our_index == old(nb).our_index,
        final(nb).mode == old(nb).mode,
        final(nb).hazard_damage == old(nb).hazard_damage,
        final(nb).turn == old(nb).turn,
{
    let ghost s0 = nb@.snakes;
    let ghost heads = heads_of(*nh);
    let n = nb.snake_count;
    let ghost goal = clash_rows(alive_of(s0), s0, heads, 0, n as int);
    let ghost mut a = alive_of(s0);
    assert(s0 =~= with_alive(s0, a));
    let mut si: usize = 0;
    while si < n
        invariant
            n == nb.snake_count,
            n <= MAX_SNAKES,
            s0.len() == MAX_SNAKES,
            heads == heads_of(*nh),
            a.len() == MAX_SNAKES,
            si <= n,
            forall|i: int| 0 <= i < MAX_SNAKES ==> (#[trigger] nb.snakes@[i])@ == with_alive(s0, a)[i],
            clash_rows(a, s0, heads, si as int, n as int) == goal,
            nb.cells == old(nb).cells,
            nb.width == old(nb).width,
            nb.height == old(nb).height,
            nb.snake_count == old(nb).snake_count,
            nb.our_index == old(nb).our_index,
            nb.mode == old(nb).mode,
            nb.hazard_damage == old(nb).hazard_damage,
            nb.turn == old(nb).turn,
        decreases n - si,
    {
        proof {
            assert(nb.snakes@[si as int]@ == with_alive(s0, a)[si as int]);
            assert(heads[si as int] == head_opt(nh@[si as int]));
        }
        if !nb.snakes[si].alive || !nh[si].1 {
            si += 1;
            continue;
        }
        let ghost a_row = a;
        let mut sj: usize = si + 1;
        while sj < n
            invariant
                n == nb.snake_count,
                n <= MAX_SNAKES,
                s0.len() == MAX_SNAKES,
                heads == heads_of(*nh),
                a.len() == MAX_SNAKES,
                si < sj <= n,
                heads[si as int] == head_opt(nh@[si as int]),
                nh@[si as int].1,
                forall|i: int| 0 <= i < MAX_SNAKES ==> (#[trigger] nb.snakes@[i])@ == with_alive(s0, a)[i],
                clash_row(a, s0, heads, si as int, sj as int, n as int) == clash_row(
                    a_row,
                    s0,
                    heads,
                    si as int,
                    si + 1,
                    n as int,
                ),
                nb.cells == old(nb).cells,
                nb.width == old(nb).width,
                nb.height == old(nb).height,
                nb.snake_count == old(nb).snake_count,
                nb.our_index == old(nb).our_index,
                nb.mode == old(nb).mode,
                nb.hazard_damage == old(nb).hazard_damage,
                nb.turn == old(nb).turn,
            decreases n - sj,
        {
            proof {
                assert(nb.snakes@[sj as int]@ == with_alive(s0, a)[sj as int]);
                assert(heads[sj as int] == head_opt(nh@[sj as int]));
            }
            if !nb.snakes[sj].alive || !nh[sj].1 {
                sj += 1;
                continue;
            }
            if nh[si].0 == nh[sj].0 {
                // Head-to-head collision
                let len_i = nb.snakes[si].length;
                let len_j = nb.snakes[sj].length;
                proof {
                    assert(nb.snakes@[si as int]@ == with_alive(s0, a)[si as int]);
                }
                if len_i > len_j {
                    nb.snakes[sj].alive = false;
                    proof {
                        a = a.update(sj as int, false);
                    }
                } else if len_j > len_i {
                    nb.snakes[si].alive = false;
                    proof {
                        a = a.update(si as int, false);
                    }
                } else {
                    nb.snakes[si].alive = false;
                    nb.snakes[sj].alive = false;
                    proof {
                        a = a.update(si as int, false).update(sj as int, false);
                    }
                }
            }
            sj += 1;
        }
        si += 1;
    }
    proof {
        assert forall|i: int| 0 <= i < MAX_SNAKES implies #[trigger] nb.snakes@[i]@ == with_alive(s0, goal)[i] by {
        }
        assert(nb@.snakes =~= with_alive(s0, goal));
    }
}

/// Collisions of new heads with other snakes' bodies (step 5 of a turn).
fn resolve_body_hits(nb: &mut SimBoard, nh: &[(Coord, bool); MAX_SNAKES])
    requires
        old(nb).snake_count <= MAX_SNAKES,
    ensures
        final(nb)@.snakes == with_alive(
            old(nb)@.snakes,
            bump_rows(
                alive_of(old(nb)@.snakes),
                old(nb)@.snakes,
                heads_of(*nh),
                0,
                old(nb).snake_count as int,
            ),
        ),
        final(nb).cells == old(nb).cells,
        final(nb).width == old(nb).width,
        final(nb).height == old(nb).height,
        final(nb).snake_count == old(nb).snake_count,
        final(nb).our_index == old(nb).our_index,
        final(nb).mode == old(nb).mode,
        final(nb).hazard_damage == old(nb).hazard_damage,
        final(nb).turn == old(nb).turn,
{
    let ghost s0 = nb@.snakes;
    let ghost heads = heads_of(*nh);
    let n = nb.snake_count;
    let ghost goal = bump_rows(alive_of(s0), s0, heads, 0, n as int);
    let ghost mut a = alive_of(s0);
    assert(s0 =~= with_alive(s0, a));
    let mut si: usize = 0;
    while si < n
        invariant
            n == nb.snake_count,
            n <= MAX_SNAKES,
            s0.len() == MAX_SNAKES,
            heads == heads_of(*nh),
            a.len() == MAX_SNAKES,
            si <= n,
            forall|i: int| 0 <= i < MAX_SNAKES ==> (#[trigger] nb.snakes@[i])@ == with_alive(s0, a)[i],
            bump_rows(a, s0, heads, si as int, n as int) == goal,
            nb.cells == old(nb).cells,
            nb.width == old(nb).width,
            nb.height == old(nb).height,
            nb.snake_count == old(nb).snake_count,
            nb.our_index == old(nb).our_index,
            nb.mode == old(nb).mode,
            nb.hazard_damage == old(nb).hazard_damage,
            nb.turn == old(nb).turn,
        decreases n - si,
    {
        proof {
            assert(nb.snakes@[si as int]@ == with_alive(s0, a)[si as int]);
            assert(heads[si as int] == head_opt(nh@[si as int]));
        }
        if !nb.snakes[si].alive || !nh[si].1 {
            si += 1;
            continue;
        }
        let head = nh[si].0;
        let ghost a_row = a;
        let mut sj: usize = 0;
        while sj < n
            invariant
                n == nb.snake_count,
                n <= MAX_SNAKES,
                s0.len() == MAX_SNAKES,
                heads == heads_of(*nh),
                a_row.len() == MAX_SNAKES,
                si < n,
                sj <= n,
                a_row[si as int],
                a == if hits_body_upto(a_row, s0, si as int, head, sj as int) {
                    a_row.update(si as int, false)
                } else {
                    a_row
                },
                forall|i: int| 0 <= i < MAX_SNAKES ==> (#[trigger] nb.snakes@[i])@ == with_alive(s0, a)[i],
                nb.cells == old(nb).cells,
                nb.width == old(nb).width,
                nb.height == old(nb).height,
                nb.snake_count == old(nb).snake_count,
                nb.our_index == old(nb).our_index,
                nb.mode == old(nb).mode,
                nb.hazard_damage == old(nb).hazard_damage,
                nb.turn == old(nb).turn,
            decreases n - sj,
        {
            proof {
                assert(nb.snakes@[sj as int]@ == with_alive(s0, a)[sj as int]);
            }
            if !nb.snakes[sj].alive || si == sj {
                proof {
                    assert forall|j: int, k: int|
                        0 <= j < sj + 1 && j != si && a_row[j] && 1 <= k < s0[j].body.len()
                            && #[trigger] s0[j].body[k] == head implies j < sj by {
                        if j == sj {
                            assert(a[j] == a_row[j]);
                        }
                    }
                    assert(hits_body_upto(a_row, s0, si as int, head, sj + 1) == hits_body_upto(
                        a_row,
                        s0,
                        si as int,
                        head,
                        sj as int,
                    ));
                }
                sj += 1;
                continue;
            }
            let ghost a_mid = a;
            let blen = nb.snakes[sj].body.len();
            let mut k: usize = 1;
            while k < blen
                invariant_except_break
                    a == if exists|kk: int| 1 <= kk < k && kk < blen && s0[sj as int].body[kk] == head {
                        a_row.update(si as int, false)
                    } else {
                        a_mid
                    },
                invariant
                    n == nb.snake_count,
                    n <= MAX_SNAKES,
                    s0.len() == MAX_SNAKES,
                    a_row.len() == MAX_SNAKES,
                    si < n,
                    sj < n,
                    si != sj,
                    a_row[sj as int],
                    blen == s0[sj as int].body.len(),
                    1 <= k,
                    a_mid.len() == MAX_SNAKES,
                    forall|i: int| 0 <= i < MAX_SNAKES && i != si ==> a_mid[i] == a_row[i],
                    a.len() == MAX_SNAKES,
                    forall|i: int| 0 <= i < MAX_SNAKES && i != si ==> a[i] == a_row[i],
                    forall|i: int| 0 <= i < MAX_SNAKES ==> (#[trigger] nb.snakes@[i])@ == with_alive(s0, a)[i],
                    nb.cells == old(nb).cells,
                    nb.width == old(nb).width,
                    nb.height == old(nb).height,
                    nb.snake_count == old(nb).snake_count,
                    nb.our_index == old(nb).our_index,
                    nb.mode == old(nb).mode,
                    nb.hazard_damage == old(nb).hazard_damage,
                    nb.turn == old(nb).turn,
                ensures
                    a == if exists|kk: int| 1 <= kk < blen && s0[sj as int].body[kk] == head {
                        a_row.update(si as int, false)
                    } else {
                        a_mid
                    },
                    forall|i: int| 0 <= i < MAX_SNAKES ==> (#[trigger] nb.snakes@[i])@ == with_alive(s0, a)[i],
                    nb.cells == old(nb).cells,
                    nb.width == old(nb).width,
                    nb.height == old(nb).height,
                    nb.snake_count == old(nb).snake_count,
                    nb.our_index == old(nb).our_index,
                    nb.mode == old(nb).mode,
                    nb.hazard_damage == old(nb).hazard_damage,
                    nb.turn == old(nb).turn,
                decreases blen - k,
            {
                proof {
                    assert(nb.snakes@[sj as int]@ == with_alive(s0, a)[sj as int]);
                }
                if head == nb.snakes[sj].body[k] {
                    nb.snakes[si].alive = false;
                    proof {
                        a = a_row.update(si as int, false);
                        assert(s0[sj as int].body[k as int] == head);
                        assert forall|i: int| 0 <= i < MAX_SNAKES implies (#[trigger] nb.snakes@[i])@ == with_alive(s0, a)[i] by {
                        }
                    }
                    break;
                }
                k += 1;
            }
            proof {
                assert(nb.snakes@[sj as int]@ == with_alive(s0, a)[sj as int]);
                if exists|kk: int| 1 <= kk < blen && s0[sj as int].body[kk] == head {
                    let kk = choose|kk: int| 1 <= kk < blen && s0[sj as int].body[kk] == head;
                    assert(s0[sj as int].body[kk] == head);
                    assert(hits_body_upto(a_row, s0, si as int, head, sj + 1));
                } else {
                    assert forall|j: int, kk: int|
                        0 <= j < sj + 1 && j != si && a_row[j] && 1 <= kk < s0[j].body.len()
                            && #[trigger] s0[j].body[kk] == head implies j < sj by {
                    }
                    assert(hits_body_upto(a_row, s0, si as int, head, sj + 1) == hits_body_upto(
                        a_row,
                        s0,
                        si as int,
                        head,
                        sj as int,
                    ));
                }
            }
            sj += 1;
        }
        proof {
            assert(heads[si as int] == Some(head));
        }
        si += 1;
    }
    proof {
        assert forall|i: int| 0 <= i < MAX_SNAKES implies #[trigger] nb.snakes@[i]@ == with_alive(s0, goal)[i] by {
        }
        assert(nb@.snakes =~= with_alive(s0, goal));
    }
}

/// Writes every living snake back onto the cells (step 6 of a turn).
fn lay_snakes(nb: &mut SimBoard)
    requires
        old(nb).snake_count <= MAX_SNAKES,
        0 <= old(nb).width <= MAX_DIM,
        0 <= old(nb).height <= MAX_DIM,
        forall|i: int|
            0 <= i < old(nb).snake_count ==> forall|k: int|
                0 <= k < (#[trigger] old(nb)@.snakes[i]).body.len() ==> (#[trigger] old(nb)@.snakes[i].body[k]).inside(
                    old(nb).width as int,
                    old(nb).height as int,
                ),
    ensures
        final(nb).cells@ == lay_rows(old(nb).cells@, old(nb)@.snakes, 0, old(nb).snake_count as int),
        final(nb).snakes == old(nb).snakes,
        final(nb).width == old(nb).width,
        final(nb).height == old(nb).height,
        final(nb).snake_count == old(nb).snake_count,
        final(nb).our_index == old(nb).our_index,
        final(nb).mode == old(nb).mode,
        final(nb).hazard_damage == old(nb).hazard_damage,
        final(nb).turn == old(nb).turn,
{
    let ghost s = nb@.snakes;
    let n = nb.snake_count;
    let ghost goal = lay_rows(nb.cells@, s, 0, n as int);
    let mut si: usize = 0;
    while si < n
        invariant
            n == nb.snake_count,
            n <= MAX_SNAKES,
            s == nb@.snakes,
            si <= n,
            nb.cells@.len() == MAX_CELLS,
            lay_rows(nb.cells@, s, si as int, n as int) == goal,
            0 <= nb.width <= MAX_DIM,
            0 <= nb.height <= MAX_DIM,
            forall|i: int|
                0 <= i < n ==> forall|k: int|
                    0 <= k < (#[trigger] s[i]).body.len() ==> (#[trigger] s[i].body[k]).inside(
                        nb.width as int,
                        nb.height as int,
                    ),
            nb.snakes == old(nb).snakes,
            nb.width == old(nb).width,
            nb.height == old(nb).height,
            nb.snake_count == old(nb).snake_count,
            nb.our_index == old(nb).our_index,
            nb.mode == old(nb).mode,
            nb.hazard_damage == old(nb).hazard_damage,
            nb.turn == old(nb).turn,
        decreases n - si,
    {
        proof {
            assert(s[si as int] == nb.snakes@[si as int]@);
        }
        if !nb.snakes[si].alive {
            si += 1;
            continue;
        }
        let ghost c_row = nb.cells@;
        let ghost body = s[si as int].body;
        let body_len = nb.snakes[si].body.len();
        let mut bi: usize = 0;
        while bi < body_len
            invariant
                n == nb.snake_count,
                n <= MAX_SNAKES,
                s == nb@.snakes,
                si < n,
                body == s[si as int].body,
                body_len == body.len(),
                bi <= body_len,
                nb.cells@.len() == MAX_CELLS,
                lay_body(nb.cells@, si as int, body, bi as int) == lay_body(c_row, si as int, body, 0),
                0 <= nb.width <= MAX_DIM,
                0 <= nb.height <= MAX_DIM,
                forall|k: int| 0 <= k < body.len() ==> (#[trigger] body[k]).inside(nb.width as int, nb.height as int),
                nb.snakes == old(nb).snakes,
                nb.width == old(nb).width,
                nb.height == old(nb).height,
                nb.snake_count == old(nb).snake_count,
                nb.our_index == old(nb).our_index,
                nb.mode == old(nb).mode,
                nb.hazard_damage == old(nb).hazard_damage,
                nb.turn == old(nb).turn,
            decreases body_len - bi,
        {
            let ghost old_cells = nb.cells@;
            let seg = nb.snakes[si].body[bi];
            proof {
                assert(seg == body[bi as int]);
                assert(body[bi as int].inside(nb.width as int, nb.height as int));
            }
            // A body segment stacked on an earlier one leaves it the cell: the
            // earlier segment stays longer, and the highest count is kept, as
            // when the board is built.
            let mut stacked = false;
            if bi >= 1 {
                let mut k: usize = 1;
                while k < bi
                    invariant
                        1 <= k <= bi,
                        bi < body_len,
                        body == nb@.snakes[si as int].body,
                        body_len == body.len(),
                        seg == body[bi as int],
                        si < n,
                        n <= MAX_SNAKES,
                        stacked == (exists|j: int| 1 <= j < k && #[trigger] body[j] == body[bi as int]),
                    decreases bi - k,
                {
                    proof {
                        assert(nb@.snakes[si as int] == nb.snakes@[si as int]@);
                    }
                    if nb.snakes[si].body[k] == seg {
                        stacked = true;
                    }
                    k += 1;
                }
            }
            proof {
                assert(bi >= 1 ==> (stacked == stacked_before(body, bi as int)));
            }
            let idx = nb.coord_to_idx(seg);
            if idx < MAX_CELLS && !stacked {
                if bi == 0 {
                    nb.cells[idx] = Cell::SnakeHead(si as u8);
                } else {
                    // Same rule as when the board is built: TTL = body_len - bi,
                    // so the tail (bi = body_len - 1) gets TTL 1 and moves next turn.
                    let ttl = (body_len - bi) as u16;
                    nb.cells[idx] = Cell::SnakeBody(si as u8, ttl);
                }
            }
            proof {
                assert(nb.cells@ =~= lay_segment(old_cells, si as int, body, bi as int));
            }
            bi += 1;
        }
        si += 1;
    }
}

proof fn lemma_lay_body_len(cells: Seq<Cell>, si: int, body: Seq<Coord>, bi: int)
    requires
        cells.len() == MAX_CELLS,
    ensures
        lay_body(cells, si, body, bi).len() == cells.len(),
    decreases body.len() - bi,
{
    if !(bi < 0 || bi >= body.len()) {
        let c1 = lay_segment(cells, si, body, bi);
        lemma_lay_body_len(c1, si, body, bi + 1);
    }
}

proof fn lemma_lay_rows_len(cells: Seq<Cell>, snakes: Seq<SnakeView>, si: int, n: int)
    requires
        cells.len() == MAX_CELLS,
    ensures
        lay_rows(cells, snakes, si, n).len() == cells.len(),
    decreases n - si,
{
    if si < n {
        let c1 = if snakes[si].alive {
            lemma_lay_body_len(cells, si, snakes[si].body, 0);
            lay_body(cells, si, snakes[si].body, 0)
        } else {
            cells
        };
        lemma_lay_rows_len(c1, snakes, si + 1, n);
    }
}

/// A planned head belongs to a living snake and, on a wrapped board, lies on the board.
pub proof fn lemma_planned_heads(b: BoardView, moves: Seq<(usize, Direction)>)
    requires
        b.wf(),
        forall|k: int| 0 <= k < moves.len() ==> (#[trigger] moves[k]).0 < MAX_SNAKES,
    ensures
        planned_heads(b, moves).len() == MAX_SNAKES,
        forall|i: int|
            0 <= i < MAX_SNAKES && (#[trigger] planned_heads(b, moves)[i]) is Some ==> {
                &&& b.snakes[i].alive
                &&& i < b.snake_count
                &&& (b.is_wrapped() ==> planned_heads(b, moves)[i]->0.inside(
                    b.width as int,
                    b.height as int,
                ))
            },
    decreases moves.len(),
{
    if moves.len() > 0 {
        let prefix = moves.drop_last();
        assert forall|k: int| 0 <= k < prefix.len() implies (#[trigger] prefix[k]).0 < MAX_SNAKES by {
            assert(prefix[k] == moves[k]);
        }
        lemma_planned_heads(b, prefix);
        assert(moves.last() == moves[moves.len() - 1]);
    }
}

/// A turn keeps the board well formed.
pub proof fn lemma_next_board_wf(b: BoardView, moves: Seq<(usize, Direction)>)
    requires
        b.wf(),
        turn_fits(b),
        forall|k: int| 0 <= k < moves.len() ==> (#[trigger] moves[k]).0 < MAX_SNAKES,
    ensures
        next_board(b, moves).wf(),
{
    let heads = planned_heads(b, moves);
    lemma_planned_heads(b, moves);
    let s3 = moved_snakes(b, heads);
    let n = b.snake_count as int;
    let a0 = alive_of(s3);
    lemma_clash_rows_mono(a0, s3, heads, 0, n);
    let a4 = clash_rows(a0, s3, heads, 0, n);
    lemma_bump_rows_mono(a4, s3, heads, 0, n);
    let a5 = bump_rows(a4, s3, heads, 0, n);
    let s5 = with_alive(s3, a5);
    assert(s5 == final_snakes(b, moves));
    lemma_lay_rows_len(cleared_cells(b), s5, 0, n);
    let nb = next_board(b, moves);
    assert forall|i: int| 0 <= i < nb.snake_count implies snake_fits(
        #[trigger] nb.snakes[i],
        nb.width as int,
        nb.height as int,
    ) by {
        let s = b.snakes[i];
        assert(snake_fits(s, b.width as int, b.height as int));
        assert(a5[i] ==> a0[i]);
        match heads[i] {
            Some(h) => {
                if i < b.snake_count && s.alive {
                    let t = advanced(b, s, h);
                    assert(s3[i] == t);
                    if !b.is_wrapped() && !h.inside(b.width as int, b.height as int) {
                    } else {
                        assert(h.inside(b.width as int, b.height as int));
                        let cell = b.cell_at(h);
                        let grown = seq![h] + s.body;
                        assert forall|k: int| 0 <= k < t.body.len() implies (#[trigger] t.body[k]).inside(
                            b.width as int,
                            b.height as int,
                        ) by {
                            assert(t.body[k] == grown[k]);
                            if k > 0 {
                                assert(grown[k] == s.body[k - 1]);
                            }
                        }
                        assert(t.body.len() >= 1);
                        assert(t.tail == t.body[t.body.len() - 1]);
                    }
                }
            },
            None => {},
        }
    }
    assert forall|i: int| nb.snake_count <= i < MAX_SNAKES implies #[trigger] nb.snakes[i] == absent_snake() by {
        assert(b.snakes[i] == absent_snake());
        assert(heads[i] is None);
        assert(s3[i] == b.snakes[i]);
        assert(a5[i] ==> a0[i]);
    }
}

impl SimBoard {
    /// Apply moves for all snakes and return the board one turn later.
    /// `moves` pairs a snake index with the direction it moves in.
    pub fn apply_moves(&self, moves: &[(usize, Direction)]) -> (nb: SimBoard)
        requires
            self@.wf(),
            turn_fits(self@),
            forall|k: int| 0 <= k < moves@.len() ==> (#[trigger] moves@[k]).0 < MAX_SNAKES,
        ensures
            nb@ == next_board(self@, moves@),
            nb@.wf(),
    {
        let ghost b = self@;
        let mut new_board = self.duplicate();
        new_board.turn = new_board.turn + 1;

        // 1. Compute new head positions
        let nh = self.plan_heads(moves);
        proof {
            lemma_planned_heads(b, moves@);
        }
        // 2. Clear old snake cells from board
        new_board.cells = self.cleared_cells();
        // 3. Check food consumption and update bodies
        self.advance_snakes(&mut new_board, &nh);
        let ghost s3 = new_board@.snakes;
        // 4. Resolve head-to-head collisions
        resolve_head_to_head(&mut new_board, &nh);
        // 5. Check body collisions for alive snakes
        let ghost s4 = new_board@.snakes;
        proof {
            lemma_next_board_wf(b, moves@);
            let heads = planned_heads(b, moves@);
            let n = b.snake_count as int;
            let a4 = clash_rows(alive_of(s3), s3, heads, 0, n);
            lemma_clash_rows_mono(alive_of(s3), s3, heads, 0, n);
            assert(alive_of(s4) =~= a4);
            lemma_bump_rows_same_bodies(a4, s4, s3, heads, 0, n);
        }
        resolve_body_hits(&mut new_board, &nh);
        proof {
            let heads = planned_heads(b, moves@);
            let n = b.snake_count as int;
            let a4 = clash_rows(alive_of(s3), s3, heads, 0, n);
            let a5 = bump_rows(a4, s3, heads, 0, n);
            lemma_bump_rows_mono(a4, s3, heads, 0, n);
            assert(new_board@.snakes =~= with_alive(s3, a5));
            assert(new_board@.snakes == final_snakes(b, moves@));
            assert forall|i: int|
                0 <= i < new_board.snake_count implies forall|k: int|
                    0 <= k < (#[trigger] new_board@.snakes[i]).body.len() ==> (#[trigger] new_board@.snakes[i].body[k]).inside(
                        new_board.width as int,
                        new_board.height as int,
                    ) by {
                assert(snake_fits(next_board(b, moves@).snakes[i], b.width as int, b.height as int));
            }
        }
        // 6. Place surviving snakes back on the board
        lay_snakes(&mut new_board);
        proof {
            assert(new_board@.cells == next_board(b, moves@).cells);
            assert(new_board@.snakes == next_board(b, moves@).snakes);
        }
        new_board
    }
}

proof fn lemma_bump_rows_same_bodies(
    a: Seq<bool>,
    s: Seq<SnakeView>,
    t: Seq<SnakeView>,
    heads: Seq<Option<Coord>>,
    i: int,
    n: int,
)
    requires
        s.len() == t.len(),
        forall|j: int| 0 <= j < s.len() ==> (#[trigger] s[j]).body == t[j].body,
        n <= s.len(),
    ensures
        bump_rows(a, s, heads, i, n) == bump_rows(a, t, heads, i, n),
    decreases n - i,
{
    if i < n {
        match heads[i] {
            Some(c) => {
                assert(hits_body_upto(a, s, i, c, n) == hits_body_upto(a, t, i, c, n)) by {
                    if hits_body_upto(a, s, i, c, n) {
                        let (j, k) = choose|j: int, k: int|
                            0 <= j < n && j != i && a[j] && 1 <= k < s[j].body.len() && #[trigger] s[j].body[k] == c;
                        assert(s[j].body == t[j].body);
                        assert(t[j].body[k] == c);
                    }
                    if hits_body_upto(a, t, i, c, n) {
                        let (j, k) = choose|j: int, k: int|
                            0 <= j < n && j != i && a[j] && 1 <= k < t[j].body.len() && #[trigger] t[j].body[k] == c;
                        assert(s[j].body == t[j].body);
                        assert(s[j].body[k] == c);
                    }
                }
                let a1 = if a[i] && hits_body_upto(a, s, i, c, n) {
                    a.update(i, false)
                } else {
                    a
                };
                lemma_bump_rows_same_bodies(a1, s, t, heads, i + 1, n);
            },
            None => {
                lemma_bump_rows_same_bodies(a, s, t, heads, i + 1, n);
            },
        }
    }
}

proof fn lemma_clash_row_resolves(
    a: Seq<bool>,
    s: Seq<SnakeView>,
    heads: Seq<Option<Coord>>,
    i: int,
    c: int,
    n: int,
    j: int,
)
    requires
        0 <= i < j < n <= a.len(),
        i < c <= j,
        heads[i] is Some,
        heads[i] == heads[j],
    ensures
        !(clash_row(a, s, heads, i, c, n)[i] && clash_row(a, s, heads, i, c, n)[j]),
    decreases j - c,
{
    lemma_clash_pair_mono(a, s, heads, i, c);
    let a1 = clash_pair(a, s, heads, i, c);
    lemma_clash_row_mono(a1, s, heads, i, c + 1, n);
    if c < j {
        lemma_clash_row_resolves(a1, s, heads, i, c + 1, n, j);
    }
}

proof fn lemma_clash_rows_resolve(
    a: Seq<bool>,
    s: Seq<SnakeView>,
    heads: Seq<Option<Coord>>,
    r: int,
    n: int,
    i: int,
    j: int,
)
    requires
        0 <= r <= i < j < n <= a.len(),
        heads[i] is Some,
        heads[i] == heads[j],
    ensures
        !(clash_rows(a, s, heads, r, n)[i] && clash_rows(a, s, heads, r, n)[j]),
    decreases i - r,
{
    let a1 = if a[r] && heads[r] is Some {
        lemma_clash_row_mono(a, s, heads, r, r + 1, n);
        clash_row(a, s, heads, r, r + 1, n)
    } else {
        a
    };
    lemma_clash_rows_mono(a1, s, heads, r + 1, n);
    if r < i {
        lemma_clash_rows_resolve(a1, s, heads, r + 1, n, i, j);
    } else {
        if a[i] {
            lemma_clash_row_resolves(a, s, heads, i, i + 1, n, j);
        }
    }
}

proof fn lemma_bump_rows_avoid(
    a: Seq<bool>,
    s: Seq<SnakeView>,
    heads: Seq<Option<Coord>>,
    r: int,
    n: int,
    i: int,
    j: int,
    k: int,
)
    requires
        0 <= r <= i < n <= a.len(),
        0 <= j < n,
        i != j,
        heads[i] is Some,
        1 <= k < s[j].body.len(),
        s[j].body[k] == heads[i]->0,
        bump_rows(a, s, heads, r, n)[i],
    ensures
        !bump_rows(a, s, heads, r, n)[j],
    decreases i - r,
{
    let a1 = match heads[r] {
        Some(c) => if a[r] && hits_body_upto(a, s, r, c, n) {
            a.update(r, false)
        } else {
            a
        },
        None => a,
    };
    lemma_bump_rows_mono(a1, s, heads, r + 1, n);
    if r < i {
        lemma_bump_rows_avoid(a1, s, heads, r + 1, n, i, j, k);
    } else {
        if a[j] {
            assert(hits_body_upto(a, s, i, heads[i]->0, n));
        }
    }
}

/// After a turn, two surviving snakes that both moved never share their new head cell:
/// the shorter of two colliding heads dies, and equally long ones both die.
pub proof fn lemma_no_shared_heads(b: BoardView, moves: Seq<(usize, Direction)>, i: int, j: int)
    requires
        b.wf(),
        0 <= i < b.snake_count,
        0 <= j < b.snake_count,
        i != j,
        final_snakes(b, moves)[i].alive,
        final_snakes(b, moves)[j].alive,
        planned_heads(b, moves)[i] is Some,
        planned_heads(b, moves)[j] is Some,
    ensures
        planned_heads(b, moves)[i] != planned_heads(b, moves)[j],
{
    let heads = planned_heads(b, moves);
    let s3 = moved_snakes(b, heads);
    let n = b.snake_count as int;
    let a0 = alive_of(s3);
    lemma_clash_rows_mono(a0, s3, heads, 0, n);
    let a4 = clash_rows(a0, s3, heads, 0, n);
    lemma_bump_rows_mono(a4, s3, heads, 0, n);
    if heads[i] == heads[j] {
        if i < j {
            lemma_clash_rows_resolve(a0, s3, heads, 0, n, i, j);
        } else {
            lemma_clash_rows_resolve(a0, s3, heads, 0, n, j, i);
        }
    }
}

/// After a turn, a surviving snake that moved does not have its new head on a
/// segment, other than the head, of another surviving snake.
pub proof fn lemma_no_body_hits(b: BoardView, moves: Seq<(usize, Direction)>, i: int, j: int, k: int)
    requires
        b.wf(),
        0 <= i < b.snake_count,
        0 <= j < b.snake_count,
        i != j,
        final_snakes(b, moves)[i].alive,
        final_snakes(b, moves)[j].alive,
        planned_heads(b, moves)[i] is Some,
        1 <= k < final_snakes(b, moves)[j].body.len(),
    ensures
        final_snakes(b, moves)[j].body[k] != planned_heads(b, moves)[i]->0,
{
    let heads = planned_heads(b, moves);
    let s3 = moved_snakes(b, heads);
    let n = b.snake_count as int;
    let a0 = alive_of(s3);
    lemma_clash_rows_mono(a0, s3, heads, 0, n);
    let a4 = clash_rows(a0, s3, heads, 0, n);
    lemma_bump_rows_mono(a4, s3, heads, 0, n);
    if s3[j].body[k] == heads[i]->0 {
        lemma_bump_rows_avoid(a4, s3, heads, 0, n, i, j, k);
    }
}

/// What a turn does to one snake: a dead snake stays dead and unchanged; a snake
/// that survives a move has its head where the move led, which is on the board;
/// when it ate there, its health is back to 100, it is one longer and its body
/// gained the new head; otherwise its body keeps its length and its health drops
/// by one, plus the hazard damage on a hazard.
pub proof fn lemma_turn_for_snake(b: BoardView, moves: Seq<(usize, Direction)>, i: int)
    requires
        b.wf(),
        turn_fits(b),
        forall|k: int| 0 <= k < moves.len() ==> (#[trigger] moves[k]).0 < MAX_SNAKES,
        0 <= i < MAX_SNAKES,
    ensures
        ({
            let s = b.snakes[i];
            let t = final_snakes(b, moves)[i];
            &&& !s.alive ==> t == s
            &&& match planned_heads(b, moves)[i] {
                Some(h) => t.alive ==> {
                    let cell = b.cell_at(h);
                    &&& t.head == h
                    &&& h.inside(b.width as int, b.height as int)
                    &&& has_food(cell) ==> t.health == 100 && t.length == s.length + 1 && t.body
                        == seq![h] + s.body
                    &&& !has_food(cell) ==> t.length == s.length && t.body.len() == s.body.len()
                        && t.health == s.health - 1 - if has_hazard(cell) {
                        b.hazard_damage as int
                    } else {
                        0
                    }
                },
                None => t == s,
            }
        }),
{
    let heads = planned_heads(b, moves);
    lemma_planned_heads(b, moves);
    let s3 = moved_snakes(b, heads);
    let n = b.snake_count as int;
    let a0 = alive_of(s3);
    lemma_clash_rows_mono(a0, s3, heads, 0, n);
    let a4 = clash_rows(a0, s3, heads, 0, n);
    lemma_bump_rows_mono(a4, s3, heads, 0, n);
    let a5 = bump_rows(a4, s3, heads, 0, n);
    let s = b.snakes[i];
    if i >= n {
        assert(s == absent_snake());
    }
    if !s.alive {
        assert(heads[i] is None);
        assert(s3[i] == s);
        assert(!a5[i]);
    }
    match heads[i] {
        Some(h) => {
            if final_snakes(b, moves)[i].alive {
                assert(s3[i] == advanced(b, s, h));
                if has_food(b.cell_at(h)) {
                } else {
                    assert((seq![h] + s.body).drop_last().len() == s.body.len());
                }
            }
        },
        None => {
            assert(s3[i] == s);
            if !s.alive {
                assert(!a5[i]);
            } else {
                // A snake without a planned head cannot take part in collisions.
                lemma_no_move_survives(a0, s3, heads, i, n);
            }
        },
    }
}

/// A snake without a planned head keeps its liveness through the collision rules.
proof fn lemma_no_move_survives(a0: Seq<bool>, s: Seq<SnakeView>, heads: Seq<Option<Coord>>, i: int, n: int)
    requires
        0 <= i < a0.len(),
        n <= a0.len(),
        heads[i] is None,
    ensures
        bump_rows(clash_rows(a0, s, heads, 0, n), s, heads, 0, n)[i] == a0[i],
{
    lemma_clash_rows_keep(a0, s, heads, 0, n, i);
    lemma_bump_rows_keep(clash_rows(a0, s, heads, 0, n), s, heads, 0, n, i);
}

proof fn lemma_clash_rows_keep(a: Seq<bool>, s: Seq<SnakeView>, heads: Seq<Option<Coord>>, r: int, n: int, i: int)
    requires
        0 <= i < a.len(),
        0 <= r,
        n <= a.len(),
        heads[i] is None,
    ensures
        clash_rows(a, s, heads, r, n)[i] == a[i],
        clash_rows(a, s, heads, r, n).len() == a.len(),
    decreases n - r,
{
    if r < n {
        let a1 = if a[r] && heads[r] is Some {
            lemma_clash_row_keep(a, s, heads, r, r + 1, n, i);
            clash_row(a, s, heads, r, r + 1, n)
        } else {
            a
        };
        lemma_clash_rows_keep(a1, s, heads, r + 1, n, i);
    }
}

proof fn lemma_clash_row_keep(
    a: Seq<bool>,
    s: Seq<SnakeView>,
    heads: Seq<Option<Coord>>,
    r: int,
    c: int,
    n: int,
    i: int,
)
    requires
        0 <= i < a.len(),
        0 <= r < a.len(),
        0 <= c,
        n <= a.len(),
        heads[i] is None,
        heads[r] is Some,
    ensures
        clash_row(a, s, heads, r, c, n)[i] == a[i],
        clash_row(a, s, heads, r, c, n).len() == a.len(),
    decreases n - c,
{
    if c < n {
        lemma_clash_row_keep(clash_pair(a, s, heads, r, c), s, heads, r, c + 1, n, i);
    }
}

proof fn lemma_bump_rows_keep(a: Seq<bool>, s: Seq<SnakeView>, heads: Seq<Option<Coord>>, r: int, n: int, i: int)
    requires
        0 <= i < a.len(),
        0 <= r,
        n <= a.len(),
        heads[i] is None,
    ensures
        bump_rows(a, s, heads, r, n)[i] == a[i],
    decreases n - r,
{
    if r < n {
        let a1 = match heads[r] {
            Some(c) => if a[r] && hits_body_upto(a, s, r, c, n) {
                a.update(r, false)
            } else {
                a
            },
            None => a,
        };
        lemma_bump_rows_keep(a1, s, heads, r + 1, n, i);
    }
}

// ── Segment cells after a turn ──────────────────────────────────────────────

/// Whether some segment of `body` at or after `bi` lies on cell `idx`.
pub open spec fn covers_from(body: Seq<Coord>, bi: int, idx: int) -> bool {
    exists|k: int| bi <= k < body.len() && cell_index(#[trigger] body[k]) == idx
}

/// Whether segment `t` is the only segment of `body` on its cell.
pub open spec fn sole_segment(body: Seq<Coord>, t: int) -> bool {
    &&& 0 <= t < body.len()
    &&& forall|k: int| 0 <= k < body.len() && k != t ==> cell_index(#[trigger] body[k]) != cell_index(body[t])
}

proof fn lemma_lay_body_skip(cells: Seq<Cell>, si: int, body: Seq<Coord>, bi: int, idx: int)
    requires
        cells.len() == MAX_CELLS,
        0 <= idx < MAX_CELLS,
        !covers_from(body, bi, idx),
    ensures
        lay_body(cells, si, body, bi)[idx] == cells[idx],
        lay_body(cells, si, body, bi).len() == MAX_CELLS,
    decreases body.len() - bi,
{
    if !(bi < 0 || bi >= body.len()) {
        let i2 = cell_index(body[bi]);
        let c1 = lay_segment(cells, si, body, bi);
        assert(!covers_from(body, bi + 1, idx)) by {
            if covers_from(body, bi + 1, idx) {
                let k = choose|k: int| bi + 1 <= k < body.len() && cell_index(#[trigger] body[k]) == idx;
                assert(bi <= k < body.len() && cell_index(body[k]) == idx);
            }
        }
        assert(i2 != idx);
        lemma_lay_body_skip(c1, si, body, bi + 1, idx);
    }
}

/// Segment `t` is the first of the body on its cell, and the head is elsewhere
/// unless `t` is the head and alone on its cell.
pub open spec fn first_on_cell(body: Seq<Coord>, t: int) -> bool {
    &&& 0 <= t < body.len()
    &&& t == 0 ==> sole_segment(body, t)
    &&& t >= 1 ==> body[0] != body[t] && !stacked_before(body, t)
}

proof fn lemma_lay_body_from(cells: Seq<Cell>, si: int, body: Seq<Coord>, bi: int, t: int)
    requires
        cells.len() == MAX_CELLS,
        0 <= t < bi,
        first_on_cell(body, t),
        cells[cell_index(body[t])] == segment_cell(si, t, body.len() as int),
        0 <= cell_index(body[t]) < MAX_CELLS,
        forall|k: int| 0 <= k < body.len() ==> 0 <= #[trigger] cell_index(body[k]) < MAX_CELLS,
        forall|j: int, k: int| 0 <= j < body.len() && 0 <= k < body.len() && cell_index(#[trigger] body[j])
            == cell_index(#[trigger] body[k]) ==> body[j] == body[k],
    ensures
        lay_body(cells, si, body, bi)[cell_index(body[t])] == segment_cell(si, t, body.len() as int),
    decreases body.len() - bi,
{
    if 0 <= bi < body.len() {
        let idx = cell_index(body[t]);
        let c1 = lay_segment(cells, si, body, bi);
        if cell_index(body[bi]) == idx {
            assert(body[bi] == body[t]);
            if t == 0 {
                assert(false);
            } else {
                assert(stacked_before(body, bi));
            }
        }
        lemma_lay_body_from(c1, si, body, bi + 1, t);
    }
}

proof fn lemma_lay_body_hit(cells: Seq<Cell>, si: int, body: Seq<Coord>, bi: int, t: int)
    requires
        cells.len() == MAX_CELLS,
        0 <= bi <= t,
        first_on_cell(body, t),
        forall|k: int| 0 <= k < body.len() ==> 0 <= #[trigger] cell_index(body[k]) < MAX_CELLS,
        forall|j: int, k: int| 0 <= j < body.len() && 0 <= k < body.len() && cell_index(#[trigger] body[j])
            == cell_index(#[trigger] body[k]) ==> body[j] == body[k],
    ensures
        lay_body(cells, si, body, bi)[cell_index(body[t])] == segment_cell(si, t, body.len() as int),
    decreases body.len() - bi,
{
    let c1 = lay_segment(cells, si, body, bi);
    if bi < t {
        lemma_lay_body_hit(c1, si, body, bi + 1, t);
    } else {
        lemma_lay_body_from(c1, si, body, bi + 1, t);
    }
}

proof fn lemma_lay_rows_skip(cells: Seq<Cell>, snakes: Seq<SnakeView>, si: int, n: int, idx: int)
    requires
        cells.len() == MAX_CELLS,
        0 <= idx < MAX_CELLS,
        forall|j: int| si <= j < n && (#[trigger] snakes[j]).alive ==> !covers_from(snakes[j].body, 0, idx),
    ensures
        lay_rows(cells, snakes, si, n)[idx] == cells[idx],
    decreases n - si,
{
    if si < n {
        let c1 = if snakes[si].alive {
            lemma_lay_body_skip(cells, si, snakes[si].body, 0, idx);
            lay_body(cells, si, snakes[si].body, 0)
        } else {
            cells
        };
        lemma_lay_body_len(cells, si, snakes[si].body, 0);
        lemma_lay_rows_skip(c1, snakes, si + 1, n, idx);
    }
}

proof fn lemma_lay_rows_hit(cells: Seq<Cell>, snakes: Seq<SnakeView>, si: int, n: int, t: int, bt: int)
    requires
        cells.len() == MAX_CELLS,
        0 <= si <= t < n,
        snakes[t].alive,
        first_on_cell(snakes[t].body, bt),
        forall|k: int|
            0 <= k < snakes[t].body.len() ==> 0 <= (#[trigger] snakes[t].body[k]).x < MAX_DIM && 0
                <= snakes[t].body[k].y < MAX_DIM,
        forall|j: int|
            t < j < n && (#[trigger] snakes[j]).alive ==> !covers_from(
                snakes[j].body,
                0,
                cell_index(snakes[t].body[bt]),
            ),
    ensures
        lay_rows(cells, snakes, si, n)[cell_index(snakes[t].body[bt])] == segment_cell(
            t,
            bt,
            snakes[t].body.len() as int,
        ),
    decreases t - si,
{
    let c1 = if snakes[si].alive {
        lay_body(cells, si, snakes[si].body, 0)
    } else {
        cells
    };
    lemma_lay_body_len(cells, si, snakes[si].body, 0);
    if si < t {
        lemma_lay_rows_hit(c1, snakes, si + 1, n, t, bt);
    } else {
        let body = snakes[t].body;
        assert forall|k: int| 0 <= k < body.len() implies 0 <= #[trigger] cell_index(body[k]) < MAX_CELLS by {
            crate::board::lemma_index_roundtrip(body[k], 0);
        }
        assert forall|j: int, k: int|
            0 <= j < body.len() && 0 <= k < body.len() && cell_index(#[trigger] body[j]) == cell_index(
                #[trigger] body[k],
            ) implies body[j] == body[k] by {
            crate::board::lemma_index_roundtrip(body[j], 0);
            crate::board::lemma_index_roundtrip(body[k], 0);
        }
        lemma_lay_body_hit(cells, t, snakes[t].body, 0, bt);
        lemma_lay_rows_skip(c1, snakes, si + 1, n, cell_index(snakes[t].body[bt]));
    }
}

/// After a turn, a segment of a surviving snake that is the first of its body on
/// its cell (the head only when alone there), on a cell that no later surviving
/// snake covers, shows on the board as that snake's head (segment 0) or as a body
/// segment that disappears after `len - bi` turns: stacked segments keep the
/// highest count, as when the board is built. In particular the tail of a snake
/// of two or more segments, alone on its cell, has one turn left and its cell is
/// safe to move onto.
pub proof fn lemma_segment_cell_after_turn(b: BoardView, moves: Seq<(usize, Direction)>, si: int, bi: int)
    requires
        b.wf(),
        turn_fits(b),
        forall|k: int| 0 <= k < moves.len() ==> (#[trigger] moves[k]).0 < MAX_SNAKES,
        0 <= si < b.snake_count,
        next_board(b, moves).snakes[si].alive,
        first_on_cell(next_board(b, moves).snakes[si].body, bi),
        forall|j: int|
            si < j < b.snake_count && (#[trigger] next_board(b, moves).snakes[j]).alive ==> !covers_from(
                next_board(b, moves).snakes[j].body,
                0,
                cell_index(next_board(b, moves).snakes[si].body[bi]),
            ),
    ensures
        ({
            let nb = next_board(b, moves);
            let body = nb.snakes[si].body;
            &&& nb.cells[cell_index(body[bi])] == segment_cell(si, bi, body.len() as int)
            &&& (body.len() >= 2 && bi == body.len() - 1) ==> nb.cells[cell_index(body[bi])]
                == Cell::SnakeBody(si as u8, 1) && nb.is_safe(body[bi])
        }),
{
    lemma_next_board_wf(b, moves);
    let nb = next_board(b, moves);
    let body = nb.snakes[si].body;
    assert(snake_fits(nb.snakes[si], nb.width as int, nb.height as int));
    let c = body[bi];
    assert(c.inside(nb.width as int, nb.height as int));
    crate::board::lemma_index_roundtrip(c, cell_index(c));
    assert forall|k: int| 0 <= k < body.len() implies 0 <= (#[trigger] body[k]).x < MAX_DIM && 0
        <= body[k].y < MAX_DIM by {
        assert(body[k].inside(nb.width as int, nb.height as int));
    }
    lemma_lay_rows_hit(cleared_cells(b), nb.snakes, 0, b.snake_count as int, si, bi);
    if nb.is_wrapped() {
        assert(wrapped(c, nb.width as int, nb.height as int) == c) by {
            vstd::arithmetic::div_mod::lemma_small_mod(c.x as nat, nb.width as nat);
            vstd::arithmetic::div_mod::lemma_small_mod(c.y as nat, nb.height as nat);
        }
    }
}

/// A snake with no move in `moves` gets no planned head.
proof fn lemma_unmoved_not_planned(b: BoardView, moves: Seq<(usize, Direction)>, si: int)
    requires
        0 <= si < MAX_SNAKES,
        forall|k: int| 0 <= k < moves.len() ==> (#[trigger] moves[k]).0 != si,
        forall|k: int| 0 <= k < moves.len() ==> (#[trigger] moves[k]).0 < MAX_SNAKES,
    ensures
        planned_heads(b, moves)[si] is None,
        planned_heads(b, moves).len() == MAX_SNAKES,
    decreases moves.len(),
{
    if moves.len() > 0 {
        let prev = moves.drop_last();
        assert forall|k: int| 0 <= k < prev.len() implies (#[trigger] prev[k]).0 != si && prev[k].0
            < MAX_SNAKES by {
            assert(prev[k] == moves[k]);
        }
        lemma_unmoved_not_planned(b, prev, si);
        assert(moves.last() == moves[moves.len() - 1]);
    }
}

/// A snake that is given no move comes out of a turn unchanged.
pub proof fn lemma_unmoved_snake_unchanged(b: BoardView, moves: Seq<(usize, Direction)>, si: int)
    requires
        b.wf(),
        turn_fits(b),
        forall|k: int| 0 <= k < moves.len() ==> (#[trigger] moves[k]).0 < MAX_SNAKES,
        0 <= si < MAX_SNAKES,
        forall|k: int| 0 <= k < moves.len() ==> (#[trigger] moves[k]).0 != si,
    ensures
        next_board(b, moves).snakes[si] == b.snakes[si],
{
    lemma_unmoved_not_planned(b, moves, si);
    lemma_turn_for_snake(b, moves, si);
}

proof fn lemma_alive_upto_mono(b: BoardView, nb: BoardView, k: int)
    requires
        0 <= k <= MAX_SNAKES,
        forall|i: int| 0 <= i < MAX_SNAKES && (#[trigger] nb.snakes[i]).alive ==> b.snakes[i].alive,
    ensures
        nb.alive_upto(k) <= b.alive_upto(k),
    decreases k,
{
    if k > 0 {
        lemma_alive_upto_mono(b, nb, k - 1);
        if nb.snakes[k - 1].alive {
            assert(b.snakes[k - 1].alive);
        }
    }
}

/// No snake comes back to life in a turn, so the number of living snakes never grows.
pub proof fn lemma_no_revival(b: BoardView, moves: Seq<(usize, Direction)>)
    requires
        b.wf(),
        turn_fits(b),
        forall|k: int| 0 <= k < moves.len() ==> (#[trigger] moves[k]).0 < MAX_SNAKES,
    ensures
        forall|i: int|
            0 <= i < MAX_SNAKES && (#[trigger] next_board(b, moves).snakes[i]).alive ==> b.snakes[i].alive,
        next_board(b, moves).alive_total() <= b.alive_total(),
{
    let nb = next_board(b, moves);
    assert forall|i: int| 0 <= i < MAX_SNAKES && (#[trigger] nb.snakes[i]).alive implies b.snakes[i].alive by {
        lemma_turn_for_snake(b, moves, i);
    }
    lemma_alive_upto_mono(b, nb, b.snake_count as int);
}

proof fn lemma_clash_row_other(
    a: Seq<bool>,
    s: Seq<SnakeView>,
    heads: Seq<Option<Coord>>,
    r: int,
    j: int,
    n: int,
    x: int,
)
    requires
        0 <= r < a.len(),
        0 <= j,
        n <= a.len(),
        0 <= x < a.len(),
        x != r,
        heads[x] != heads[r],
    ensures
        clash_row(a, s, heads, r, j, n)[x] == a[x],
        clash_row(a, s, heads, r, j, n).len() == a.len(),
    decreases n - j,
{
    if j < n {
        lemma_clash_row_other(clash_pair(a, s, heads, r, j), s, heads, r, j + 1, n, x);
    }
}

proof fn lemma_clash_row_skip(
    a: Seq<bool>,
    s: Seq<SnakeView>,
    heads: Seq<Option<Coord>>,
    r: int,
    j0: int,
    j1: int,
    n: int,
)
    requires
        0 <= r < a.len(),
        0 <= j0 <= j1 <= n <= a.len(),
        forall|y: int| j0 <= y < j1 ==> #[trigger] heads[y] != heads[r],
    ensures
        clash_row(a, s, heads, r, j0, n) == clash_row(a, s, heads, r, j1, n),
    decreases j1 - j0,
{
    if j0 < j1 {
        assert(clash_pair(a, s, heads, r, j0) == a);
        lemma_clash_row_skip(a, s, heads, r, j0 + 1, j1, n);
    }
}

proof fn lemma_clash_rows_kill(
    a: Seq<bool>,
    s: Seq<SnakeView>,
    heads: Seq<Option<Coord>>,
    r: int,
    n: int,
    i: int,
    j: int,
    short: int,
)
    requires
        0 <= r <= i < j < n <= a.len(),
        a[i],
        a[j],
        heads[i] is Some,
        heads[i] == heads[j],
        forall|x: int| 0 <= x < n && x != i && x != j ==> #[trigger] heads[x] != heads[i],
        short == i || short == j,
        s[short].length <= s[if short == i {
            j
        } else {
            i
        }].length,
    ensures
        !clash_rows(a, s, heads, r, n)[short],
    decreases i - r,
{
    if r < i {
        let a1 = if a[r] && heads[r] is Some {
            lemma_clash_row_other(a, s, heads, r, r + 1, n, i);
            lemma_clash_row_other(a, s, heads, r, r + 1, n, j);
            clash_row(a, s, heads, r, r + 1, n)
        } else {
            a
        };
        assert(heads[r] != heads[i]);
        lemma_clash_rows_kill(a1, s, heads, r + 1, n, i, j, short);
    } else {
        lemma_clash_row_skip(a, s, heads, i, i + 1, j, n);
        let a2 = clash_pair(a, s, heads, i, j);
        assert(!a2[short]);
        lemma_clash_row_mono(a2, s, heads, i, j + 1, n);
        let a1 = clash_row(a, s, heads, i, i + 1, n);
        assert(a1 == clash_row(a2, s, heads, i, j + 1, n));
        lemma_clash_rows_mono(a1, s, heads, i + 1, n);
    }
}

/// Head to head, the shorter snake dies, and equally long ones both die: when
/// exactly two snakes that are alive after moving move their heads onto the same
/// cell, one that is no longer than the other is dead after the turn.
pub proof fn lemma_shorter_head_dies(b: BoardView, moves: Seq<(usize, Direction)>, i: int, j: int)
    requires
        b.wf(),
        0 <= i < b.snake_count,
        0 <= j < b.snake_count,
        i != j,
        planned_heads(b, moves)[i] is Some,
        planned_heads(b, moves)[i] == planned_heads(b, moves)[j],
        moved_snakes(b, planned_heads(b, moves))[i].alive,
        moved_snakes(b, planned_heads(b, moves))[j].alive,
        forall|x: int|
            0 <= x < b.snake_count && x != i && x != j ==> #[trigger] planned_heads(b, moves)[x]
                != planned_heads(b, moves)[i],
        final_snakes(b, moves)[i].length <= final_snakes(b, moves)[j].length,
    ensures
        !final_snakes(b, moves)[i].alive,
        !next_board(b, moves).snakes[i].alive,
{
    let heads = planned_heads(b, moves);
    let s3 = moved_snakes(b, heads);
    let n = b.snake_count as int;
    let a0 = alive_of(s3);
    lemma_final_alive_implies_moved_alive(b, moves, i);
    let a4 = clash_rows(a0, s3, heads, 0, n);
    if i < j {
        lemma_clash_rows_kill(a0, s3, heads, 0, n, i, j, i);
    } else {
        assert forall|x: int| 0 <= x < n && x != j && x != i implies #[trigger] heads[x] != heads[j] by {
        }
        lemma_clash_rows_kill(a0, s3, heads, 0, n, j, i, i);
    }
    lemma_clash_rows_mono(a0, s3, heads, 0, n);
    lemma_bump_rows_mono(a4, s3, heads, 0, n);
}

proof fn lemma_clash_row_keeps(
    a: Seq<bool>,
    s: Seq<SnakeView>,
    heads: Seq<Option<Coord>>,
    o: int,
    y0: int,
    n: int,
    t: int,
)
    requires
        0 <= o < a.len(),
        o < y0,
        n <= a.len(),
        0 <= t < a.len(),
        a[t],
        forall|y: int|
            y0 <= y < n && y != o && #[trigger] heads[y] == heads[o] && heads[y] is Some ==> (if o == t {
                s[o].length > s[y].length
            } else {
                y == t && s[t].length > s[o].length
            }),
    ensures
        clash_row(a, s, heads, o, y0, n)[t],
        clash_row(a, s, heads, o, y0, n).len() == a.len(),
    decreases n - y0,
{
    if y0 < n {
        let a1 = clash_pair(a, s, heads, o, y0);
        assert(a1[t]);
        lemma_clash_row_keeps(a1, s, heads, o, y0 + 1, n, t);
    }
}

proof fn lemma_clash_rows_keep_longer(
    a: Seq<bool>,
    s: Seq<SnakeView>,
    heads: Seq<Option<Coord>>,
    r: int,
    n: int,
    i: int,
    j: int,
)
    requires
        0 <= r,
        0 <= i < n,
        0 <= j < n,
        n <= a.len(),
        i != j,
        a[j],
        heads[j] is Some,
        heads[i] == heads[j],
        forall|x: int| 0 <= x < n && x != i && x != j ==> #[trigger] heads[x] != heads[j],
        s[j].length > s[i].length,
    ensures
        clash_rows(a, s, heads, r, n)[j],
    decreases n - r,
{
    if r < n {
        let a1 = if a[r] && heads[r] is Some {
            if r != i && r != j {
                lemma_clash_row_other(a, s, heads, r, r + 1, n, j);
            } else {
                assert forall|y: int|
                    r + 1 <= y < n && y != r && #[trigger] heads[y] == heads[r] && heads[y] is Some implies (if r
                    == j {
                    s[r].length > s[y].length
                } else {
                    y == j && s[j].length > s[r].length
                }) by {
                    if y != i && y != j {
                        assert(heads[y] != heads[j]);
                    }
                }
                lemma_clash_row_keeps(a, s, heads, r, r + 1, n, j);
            }
            clash_row(a, s, heads, r, r + 1, n)
        } else {
            a
        };
        lemma_clash_rows_keep_longer(a1, s, heads, r + 1, n, i, j);
    }
}

proof fn lemma_bump_rows_keep_clear(
    a: Seq<bool>,
    s: Seq<SnakeView>,
    heads: Seq<Option<Coord>>,
    r: int,
    n: int,
    j: int,
)
    requires
        0 <= r,
        0 <= j < n <= a.len(),
        a[j],
        heads[j] is Some,
        forall|x: int, k: int|
            0 <= x < n && x != j && 1 <= k < s[x].body.len() ==> #[trigger] s[x].body[k] != heads[j]->0,
    ensures
        bump_rows(a, s, heads, r, n)[j],
    decreases n - r,
{
    if r < n {
        let a1 = match heads[r] {
            Some(c) => if a[r] && hits_body_upto(a, s, r, c, n) {
                a.update(r, false)
            } else {
                a
            },
            None => a,
        };
        if r == j {
            assert(!hits_body_upto(a, s, j, heads[j]->0, n));
        }
        lemma_bump_rows_keep_clear(a1, s, heads, r + 1, n, j);
    }
}

/// Head to head, the longer snake survives the meeting: when exactly two snakes
/// that are alive after moving move their heads onto the same cell, the strictly
/// longer one is alive after the turn unless its new head lies on a non-head
/// segment of another snake.
pub proof fn lemma_longer_head_survives(b: BoardView, moves: Seq<(usize, Direction)>, i: int, j: int)
    requires
        b.wf(),
        0 <= i < b.snake_count,
        0 <= j < b.snake_count,
        i != j,
        planned_heads(b, moves)[j] is Some,
        planned_heads(b, moves)[i] == planned_heads(b, moves)[j],
        moved_snakes(b, planned_heads(b, moves))[i].alive,
        moved_snakes(b, planned_heads(b, moves))[j].alive,
        forall|x: int|
            0 <= x < b.snake_count && x != i && x != j ==> #[trigger] planned_heads(b, moves)[x]
                != planned_heads(b, moves)[j],
        final_snakes(b, moves)[i].length < final_snakes(b, moves)[j].length,
        forall|x: int, k: int|
            0 <= x < b.snake_count && x != j && 1 <= k < final_snakes(b, moves)[x].body.len()
                ==> #[trigger] final_snakes(b, moves)[x].body[k] != planned_heads(b, moves)[j]->0,
    ensures
        final_snakes(b, moves)[j].alive,
        next_board(b, moves).snakes[j].alive,
{
    let heads = planned_heads(b, moves);
    let s3 = moved_snakes(b, heads);
    let n = b.snake_count as int;
    let a0 = alive_of(s3);
    lemma_clash_rows_keep_longer(a0, s3, heads, 0, n, i, j);
    let a4 = clash_rows(a0, s3, heads, 0, n);
    lemma_clash_rows_mono(a0, s3, heads, 0, n);
    assert forall|x: int, k: int|
        0 <= x < n && x != j && 1 <= k < s3[x].body.len() implies #[trigger] s3[x].body[k] != heads[j]->0 by {
        assert(final_snakes(b, moves)[x].body == s3[x].body);
        assert(final_snakes(b, moves)[x].body[k] != heads[j]->0);
    }
    lemma_bump_rows_keep_clear(a4, s3, heads, 0, n, j);
}

} // verus!
