//! Flood fills: reachable area from a point, and Voronoi territory of all snakes.
use vstd::prelude::*;
use crate::board::{
    cell_coord, cell_index, has_food, lemma_index_roundtrip, snake_fits, BoardView, Cell, SimBoard, MAX_CELLS,
    MAX_DIM, MAX_SNAKES,
};
use crate::types::{all_directions, lemma_wrap_axis_euclid, stepped, wrapped, Coord, Direction};

verus! {

// ── Reachable area ──────────────────────────────────────────────────────────

/// A cell that a flood fill may enter: not a head, and not a body segment that stays
/// for more than one turn.
pub open spec fn open_cell(b: BoardView, c: Coord) -> bool {
    match b.cells[cell_index(c)] {
        Cell::SnakeBody(_, ttl) => ttl <= 1,
        Cell::SnakeHead(_) => false,
        _ => true,
    }
}

/// One flood-fill step: `c2` is where some direction leads from `c` (wrapping on a
/// wrapped board), lies on the board and is open.
pub open spec fn area_step(b: BoardView, c: Coord, c2: Coord) -> bool {
    exists|d: Direction|
        #![trigger b.target(c, d)]
        c2 == b.target(c, d) && c2.inside(b.width as int, b.height as int) && open_cell(b, c2)
}

/// A chain of flood-fill steps.
pub open spec fn area_path(b: BoardView, p: Seq<Coord>) -> bool {
    &&& p.len() >= 1
    &&& forall|i: int| 0 <= i < p.len() - 1 ==> area_step(b, #[trigger] p[i], p[i + 1])
}

/// Whether a flood fill from `start` reaches `c`.
pub open spec fn area_reaches(b: BoardView, start: Coord, c: Coord) -> bool {
    exists|p: Seq<Coord>| area_path(b, p) && p[0] == start && #[trigger] p.last() == c
}

/// Whether the cell with index `idx` lies on the board and is reached from `start`.
pub open spec fn reached_index(b: BoardView, start: Coord, idx: int) -> bool {
    cell_coord(idx).inside(b.width as int, b.height as int) && area_reaches(b, start, cell_coord(idx))
}

/// The number of cells among the first `k` indices that are reached from `start`.
pub open spec fn reached_upto(b: BoardView, start: Coord, k: int) -> int
    decreases k,
{
    if k <= 0 {
        0
    } else {
        reached_upto(b, start, k - 1) + if reached_index(b, start, k - 1) {
            1int
        } else {
            0int
        }
    }
}

/// The area `flood_fill_area` reports: the number of board cells reachable from
/// `start`, `start` included, or 0 when `start` is off the board.
pub open spec fn area_of(b: BoardView, start: Coord) -> int {
    if !start.inside(b.width as int, b.height as int) {
        0
    } else {
        reached_upto(b, start, MAX_CELLS as int)
    }
}

/// Number of `true` entries among the first `k`.
pub open spec fn count_true(v: Seq<bool>, k: int) -> int
    decreases k,
{
    if k <= 0 {
        0
    } else {
        count_true(v, k - 1) + if v[k - 1] {
            1int
        } else {
            0int
        }
    }
}

proof fn lemma_count_true_bounds(v: Seq<bool>, k: int)
    requires
        0 <= k,
    ensures
        0 <= count_true(v, k) <= k,
    decreases k,
{
    if k > 0 {
        lemma_count_true_bounds(v, k - 1);
    }
}

proof fn lemma_count_true_set(v: Seq<bool>, idx: int, k: int)
    requires
        0 <= idx < v.len(),
        !v[idx],
        0 <= k <= v.len(),
    ensures
        count_true(v.update(idx, true), k) == count_true(v, k) + if idx < k {
            1int
        } else {
            0int
        },
    decreases k,
{
    if k > 0 {
        lemma_count_true_set(v, idx, k - 1);
    }
}

proof fn lemma_count_all_false(v: Seq<bool>, k: int)
    requires
        0 <= k <= v.len(),
        forall|i: int| 0 <= i < v.len() ==> !v[i],
    ensures
        count_true(v, k) == 0,
    decreases k,
{
    if k > 0 {
        lemma_count_all_false(v, k - 1);
    }
}

proof fn lemma_count_matches_reached(v: Seq<bool>, b: BoardView, start: Coord, k: int)
    requires
        0 <= k <= v.len(),
        forall|i: int| 0 <= i < k ==> v[i] == reached_index(b, start, i),
    ensures
        count_true(v, k) == reached_upto(b, start, k),
    decreases k,
{
    if k > 0 {
        lemma_count_matches_reached(v, b, start, k - 1);
    }
}

/// Wraps a coordinate onto a `width` x `height` torus.
#[inline]
fn wrap_coord(c: Coord, width: i32, height: i32) -> (r: Coord)
    requires
        width > 0,
        height > 0,
    ensures
        r == wrapped(c, width as int, height as int),
        r.inside(width as int, height as int),
{
    Coord::new(c.x.checked_rem_euclid(width).unwrap(), c.y.checked_rem_euclid(height).unwrap())
}

/// The four places a flood fill looks at from `coord`, in the order up, down, left, right.
fn flood_neighbors(board: &SimBoard, coord: Coord) -> (n: [Coord; 4])
    requires
        board@.wf(),
        coord.can_step(),
    ensures
        forall|k: int| 0 <= k < 4 ==> n@[k] == board@.target(coord, #[trigger] all_directions()[k]),
{
    if board.mode.is_wrapped() {
        [
            wrap_coord(Coord::new(coord.x, coord.y + 1), board.width, board.height),
            wrap_coord(Coord::new(coord.x, coord.y - 1), board.width, board.height),
            wrap_coord(Coord::new(coord.x - 1, coord.y), board.width, board.height),
            wrap_coord(Coord::new(coord.x + 1, coord.y), board.width, board.height),
        ]
    } else {
        coord.neighbors()
    }
}

/// Every cell marked in `v` whose coordinate is not on the stack has all its
/// flood-fill steps marked.
pub open spec fn closed_cell(b: BoardView, v: Seq<bool>, idx: int) -> bool {
    forall|d: Direction|
        #![trigger b.target(cell_coord(idx), d)]
        b.target(cell_coord(idx), d).inside(b.width as int, b.height as int) && open_cell(
            b,
            b.target(cell_coord(idx), d),
        ) ==> v[cell_index(b.target(cell_coord(idx), d))]
}

proof fn lemma_closed_reaches_all(b: BoardView, v: Seq<bool>, start: Coord, p: Seq<Coord>)
    requires
        b.wf(),
        v.len() == MAX_CELLS,
        start.inside(b.width as int, b.height as int),
        v[cell_index(start)],
        forall|idx: int| 0 <= idx < MAX_CELLS && #[trigger] v[idx] ==> closed_cell(b, v, idx),
        area_path(b, p),
        p[0] == start,
    ensures
        v[cell_index(p.last())],
        p.last().inside(b.width as int, b.height as int),
    decreases p.len(),
{
    if p.len() > 1 {
        let q = p.drop_last();
        assert forall|i: int| 0 <= i < q.len() - 1 implies area_step(b, #[trigger] q[i], q[i + 1]) by {
            assert(q[i] == p[i] && q[i + 1] == p[i + 1]);
            assert(area_step(b, p[i], p[i + 1]));
        }
        lemma_closed_reaches_all(b, v, start, q);
        let c = q.last();
        assert(area_step(b, p[p.len() - 2], p[p.len() - 1]));
        let d = choose|d: Direction| #![trigger b.target(c, d)]
            p.last() == b.target(c, d) && p.last().inside(b.width as int, b.height as int)
                && open_cell(b, p.last());
        let idx = cell_index(c);
        lemma_index_roundtrip(c, idx);
        assert(closed_cell(b, v, idx));
        assert(cell_coord(idx) == c);
        assert(b.target(cell_coord(idx), d) == p.last());
    }
}

/// Every marked cell is reached from `start`.
#[verifier::opaque]
pub open spec fn marks_reached(b: BoardView, start: Coord, v: Seq<bool>) -> bool {
    forall|idx: int| 0 <= idx < MAX_CELLS && #[trigger] v[idx] ==> reached_index(b, start, idx)
}

/// Every stacked coordinate is on the board and marked.
#[verifier::opaque]
pub open spec fn stack_marked(b: BoardView, v: Seq<bool>, st: Seq<Coord>) -> bool {
    forall|j: int|
        0 <= j < st.len() ==> (#[trigger] st[j]).inside(b.width as int, b.height as int) && v[cell_index(
            st[j],
        )]
}

/// Every marked cell other than `skip` whose coordinate is not stacked is closed.
#[verifier::opaque]
pub open spec fn closed_except(b: BoardView, v: Seq<bool>, st: Seq<Coord>, skip: int) -> bool {
    forall|idx: int|
        0 <= idx < MAX_CELLS && #[trigger] v[idx] && idx != skip && !st.contains(cell_coord(idx))
            ==> closed_cell(b, v, idx)
}

/// The first `k` flood-fill steps from `coord` are marked.
#[verifier::opaque]
pub open spec fn tried_upto(b: BoardView, v: Seq<bool>, coord: Coord, k: int) -> bool {
    forall|j: int|
        0 <= j < k ==> {
            let t = b.target(coord, #[trigger] all_directions()[j]);
            t.inside(b.width as int, b.height as int) && open_cell(b, t) ==> v[cell_index(t)]
        }
}

proof fn lemma_after_pop(b: BoardView, v: Seq<bool>, st: Seq<Coord>, coord: Coord)
    requires
        b.wf(),
        v.len() == MAX_CELLS,
        st.len() > 0,
        coord == st.last(),
        closed_except(b, v, st, -1),
        stack_marked(b, v, st),
    ensures
        closed_except(b, v, st.drop_last(), cell_index(coord)),
        stack_marked(b, v, st.drop_last()),
        coord.inside(b.width as int, b.height as int),
        v[cell_index(coord)],
        0 <= cell_index(coord) < MAX_CELLS,
        cell_coord(cell_index(coord)) == coord,
        tried_upto(b, v, coord, 0),
{
    reveal(closed_except);
    reveal(stack_marked);
    reveal(tried_upto);
    let rest = st.drop_last();
    assert(st == rest.push(coord));
    assert(st[st.len() - 1] == coord);
    lemma_index_roundtrip(coord, cell_index(coord));
    let cidx = cell_index(coord);
    assert forall|idx: int|
        0 <= idx < MAX_CELLS && #[trigger] v[idx] && idx != cidx && !rest.contains(cell_coord(idx))
            implies closed_cell(b, v, idx) by {
        if st.contains(cell_coord(idx)) {
            let j = choose|j: int| 0 <= j < st.len() && st[j] == cell_coord(idx);
            if j < rest.len() {
                assert(rest[j] == cell_coord(idx));
            } else {
                lemma_index_roundtrip(coord, idx);
            }
        }
    }
    assert forall|j: int| 0 <= j < rest.len() implies (#[trigger] rest[j]).inside(
        b.width as int,
        b.height as int,
    ) && v[cell_index(rest[j])] by {
        assert(rest[j] == st[j]);
    }
}

proof fn lemma_after_visit(
    b: BoardView,
    start: Coord,
    v: Seq<bool>,
    st: Seq<Coord>,
    coord: Coord,
    k: int,
    nc: Coord,
)
    requires
        b.wf(),
        v.len() == MAX_CELLS,
        0 <= k < 4,
        coord.inside(b.width as int, b.height as int),
        0 <= cell_index(coord) < MAX_CELLS,
        cell_coord(cell_index(coord)) == coord,
        v[cell_index(coord)],
        nc == b.target(coord, all_directions()[k]),
        nc.inside(b.width as int, b.height as int),
        open_cell(b, nc),
        !v[cell_index(nc)],
        marks_reached(b, start, v),
        stack_marked(b, v, st),
        closed_except(b, v, st, cell_index(coord)),
        tried_upto(b, v, coord, k),
    ensures
        ({
            let v2 = v.update(cell_index(nc), true);
            let st2 = st.push(nc);
            &&& marks_reached(b, start, v2)
            &&& stack_marked(b, v2, st2)
            &&& closed_except(b, v2, st2, cell_index(coord))
            &&& tried_upto(b, v2, coord, k + 1)
            &&& 0 <= cell_index(nc) < MAX_CELLS
            &&& count_true(v2, MAX_CELLS as int) == count_true(v, MAX_CELLS as int) + 1
        }),
{
    reveal(marks_reached);
    reveal(stack_marked);
    reveal(closed_except);
    reveal(tried_upto);
    let nidx = cell_index(nc);
    let cidx = cell_index(coord);
    lemma_index_roundtrip(nc, nidx);
    lemma_count_true_set(v, nidx, MAX_CELLS as int);
    let v2 = v.update(nidx, true);
    let st2 = st.push(nc);
    // nc is reached: extend a path that reaches coord.
    assert(reached_index(b, start, cidx));
    let p = choose|p: Seq<Coord>| area_path(b, p) && p[0] == start && #[trigger] p.last() == coord;
    let p2 = p.push(nc);
    assert(area_step(b, coord, nc)) by {
        let d = all_directions()[k];
        assert(nc == b.target(coord, d));
    }
    assert forall|i: int| 0 <= i < p2.len() - 1 implies area_step(b, #[trigger] p2[i], p2[i + 1]) by {
        if i < p.len() - 1 {
            assert(p2[i] == p[i] && p2[i + 1] == p[i + 1]);
        } else {
            assert(p2[i] == coord && p2[i + 1] == nc);
        }
    }
    assert(p2.last() == nc && p2[0] == start);
    assert(area_reaches(b, start, cell_coord(nidx)));
    assert forall|idx: int| 0 <= idx < MAX_CELLS && #[trigger] v2[idx] implies reached_index(b, start, idx) by {
        if idx != nidx {
            assert(v[idx]);
        }
    }
    assert forall|j: int| 0 <= j < st2.len() implies (#[trigger] st2[j]).inside(
        b.width as int,
        b.height as int,
    ) && v2[cell_index(st2[j])] by {
        if j < st.len() {
            assert(st2[j] == st[j]);
        }
    }
    assert forall|idx: int|
        0 <= idx < MAX_CELLS && #[trigger] v2[idx] && idx != cidx && !st2.contains(cell_coord(idx))
            implies closed_cell(b, v2, idx) by {
        assert(st2[st2.len() - 1] == nc);
        if idx == nidx {
            assert(st2.contains(cell_coord(idx)));
        } else {
            assert(v[idx]);
            if st.contains(cell_coord(idx)) {
                let j = choose|j: int| 0 <= j < st.len() && st[j] == cell_coord(idx);
                assert(st2[j] == cell_coord(idx));
            }
            assert(closed_cell(b, v, idx));
            assert forall|d: Direction|
                #![trigger b.target(cell_coord(idx), d)]
                b.target(cell_coord(idx), d).inside(b.width as int, b.height as int) && open_cell(
                    b,
                    b.target(cell_coord(idx), d),
                ) implies v2[cell_index(b.target(cell_coord(idx), d))] by {
                assert(v[cell_index(b.target(cell_coord(idx), d))]);
            }
        }
    }
    assert forall|j: int|
        0 <= j < k + 1 implies {
            let t = b.target(coord, #[trigger] all_directions()[j]);
            t.inside(b.width as int, b.height as int) && open_cell(b, t) ==> v2[cell_index(t)]
        } by {
        if j < k {
            let t = b.target(coord, all_directions()[j]);
            if t.inside(b.width as int, b.height as int) && open_cell(b, t) {
                assert(v[cell_index(t)]);
            }
        }
    }
}

proof fn lemma_skip_visit(b: BoardView, v: Seq<bool>, coord: Coord, k: int)
    requires
        0 <= k < 4,
        v.len() == MAX_CELLS,
        tried_upto(b, v, coord, k),
        ({
            let t = b.target(coord, all_directions()[k]);
            t.inside(b.width as int, b.height as int) && open_cell(b, t) ==> v[cell_index(t)]
        }),
    ensures
        tried_upto(b, v, coord, k + 1),
{
    reveal(tried_upto);
}

proof fn lemma_close_popped(b: BoardView, v: Seq<bool>, st: Seq<Coord>, coord: Coord)
    requires
        0 <= cell_index(coord) < MAX_CELLS,
        cell_coord(cell_index(coord)) == coord,
        v.len() == MAX_CELLS,
        tried_upto(b, v, coord, 4),
        closed_except(b, v, st, cell_index(coord)),
    ensures
        closed_except(b, v, st, -1),
{
    reveal(tried_upto);
    reveal(closed_except);
    let cidx = cell_index(coord);
    assert(closed_cell(b, v, cidx)) by {
        assert forall|d: Direction|
            #![trigger b.target(cell_coord(cidx), d)]
            b.target(cell_coord(cidx), d).inside(b.width as int, b.height as int) && open_cell(
                b,
                b.target(cell_coord(cidx), d),
            ) implies v[cell_index(b.target(cell_coord(cidx), d))] by {
            let j: int = match d {
                Direction::Up => 0,
                Direction::Down => 1,
                Direction::Left => 2,
                Direction::Right => 3,
            };
            assert(all_directions()[j] == d);
        }
    }
}

proof fn lemma_area_final(b: BoardView, start: Coord, v: Seq<bool>)
    requires
        b.wf(),
        v.len() == MAX_CELLS,
        start.inside(b.width as int, b.height as int),
        v[cell_index(start)],
        marks_reached(b, start, v),
        closed_except(b, v, Seq::empty(), -1),
    ensures
        count_true(v, MAX_CELLS as int) == area_of(b, start),
{
    reveal(marks_reached);
    reveal(closed_except);
    assert forall|idx: int| 0 <= idx < MAX_CELLS && #[trigger] v[idx] implies closed_cell(b, v, idx) by {
        assert(!Seq::<Coord>::empty().contains(cell_coord(idx)));
    }
    assert forall|idx: int| 0 <= idx < MAX_CELLS implies v[idx] == reached_index(b, start, idx) by {
        if reached_index(b, start, idx) {
            let c = cell_coord(idx);
            let p = choose|p: Seq<Coord>| area_path(b, p) && p[0] == start && #[trigger] p.last() == c;
            lemma_closed_reaches_all(b, v, start, p);
            lemma_index_roundtrip(c, idx);
        }
    }
    lemma_count_matches_reached(v, b, start, MAX_CELLS as int);
}

proof fn lemma_area_initial(b: BoardView, start: Coord, v: Seq<bool>)
    requires
        b.wf(),
        v.len() == MAX_CELLS,
        start.inside(b.width as int, b.height as int),
        forall|i: int| 0 <= i < v.len() ==> !v[i],
    ensures
        ({
            let v2 = v.update(cell_index(start), true);
            let st = seq![start];
            &&& marks_reached(b, start, v2)
            &&& stack_marked(b, v2, st)
            &&& closed_except(b, v2, st, -1)
            &&& count_true(v2, MAX_CELLS as int) == 1
            &&& 0 <= cell_index(start) < MAX_CELLS
        }),
{
    reveal(marks_reached);
    reveal(stack_marked);
    reveal(closed_except);
    let sidx = cell_index(start);
    lemma_index_roundtrip(start, sidx);
    lemma_count_all_false(v, MAX_CELLS as int);
    lemma_count_true_set(v, sidx, MAX_CELLS as int);
    let v2 = v.update(sidx, true);
    let st = seq![start];
    let p = seq![start];
    assert(area_path(b, p) && p[0] == start && p.last() == start);
    assert forall|idx: int| 0 <= idx < MAX_CELLS && #[trigger] v2[idx] implies reached_index(b, start, idx) by {
        assert(idx == sidx);
    }
    assert forall|idx: int|
        0 <= idx < MAX_CELLS && #[trigger] v2[idx] && idx != -1 && !st.contains(cell_coord(idx))
            implies closed_cell(b, v2, idx) by {
        assert(idx == sidx);
        assert(st[0] == cell_coord(idx));
    }
}

/// Perform flood fill from a single point and return the number of reachable cells.
/// Used for quick area calculations.
pub fn flood_fill_area(board: &SimBoard, start: Coord) -> (count: u32)
    requires
        board@.wf(),
    ensures
        count == area_of(board@, start),
{
    if !start.in_bounds(board.width, board.height) {
        return 0;
    }
    let ghost b = board@;
    let mut visited = [false; MAX_CELLS];
    let mut count: u32 = 0;
    let mut stack: Vec<Coord> = Vec::with_capacity(64);

    let start_idx = board.coord_to_idx(start);
    proof {
        lemma_area_initial(b, start, visited@);
    }
    if start_idx >= MAX_CELLS {
        return 0;
    }
    visited[start_idx] = true;
    stack.push(start);
    count += 1;
    assert(stack@ == seq![start]);

    while stack.len() > 0
        invariant
            b == board@,
            b.wf(),
            start.inside(b.width as int, b.height as int),
            visited@[cell_index(start)],
            count as int == count_true(visited@, MAX_CELLS as int),
            marks_reached(b, start, visited@),
            stack_marked(b, visited@, stack@),
            closed_except(b, visited@, stack@, -1),
        decreases MAX_CELLS - count, stack@.len(),
    {
        let ghost st_before = stack@;
        let coord = stack.pop().unwrap();
        let ghost cidx = cell_index(coord);
        let ghost count0 = count;
        let ghost len0 = stack@.len();
        proof {
            lemma_after_pop(b, visited@, st_before, coord);
            lemma_count_true_bounds(visited@, MAX_CELLS as int);
        }
        let neighbors = flood_neighbors(board, coord);
        let mut k: usize = 0;
        while k < 4
            invariant
                b == board@,
                b.wf(),
                k <= 4,
                coord.inside(b.width as int, b.height as int),
                cidx == cell_index(coord),
                0 <= cidx < MAX_CELLS,
                cell_coord(cidx) == coord,
                visited@[cidx],
                forall|j: int| 0 <= j < 4 ==> neighbors@[j] == b.target(coord, #[trigger] all_directions()[j]),
                start.inside(b.width as int, b.height as int),
                visited@[cell_index(start)],
                count as int == count_true(visited@, MAX_CELLS as int),
                count as int <= MAX_CELLS,
                count0 <= count,
                count == count0 ==> stack@.len() == len0,
                marks_reached(b, start, visited@),
                stack_marked(b, visited@, stack@),
                closed_except(b, visited@, stack@, cidx),
                tried_upto(b, visited@, coord, k as int),
            decreases 4 - k,
        {
            let nc = neighbors[k];
            let ghost d = all_directions()[k as int];
            if !board.mode.is_wrapped() && !nc.in_bounds(board.width, board.height) {
                proof {
                    lemma_skip_visit(b, visited@, coord, k as int);
                }
                k += 1;
                continue;
            }
            assert(nc.inside(b.width as int, b.height as int)) by {
                if b.is_wrapped() {
                    assert(nc == wrapped(stepped(coord, d), b.width as int, b.height as int));
                }
            }
            let nidx = (nc.y as usize) * MAX_DIM + (nc.x as usize);
            proof {
                lemma_index_roundtrip(nc, nidx as int);
            }
            if nidx >= MAX_CELLS || visited[nidx] {
                proof {
                    lemma_skip_visit(b, visited@, coord, k as int);
                }
                k += 1;
                continue;
            }
            let passable = match board.cells[nidx] {
                Cell::SnakeBody(_, ttl) => ttl <= 1,
                Cell::SnakeHead(_) => false,
                _ => true,
            };
            if !passable {
                proof {
                    lemma_skip_visit(b, visited@, coord, k as int);
                }
                k += 1;
                continue;
            }
            proof {
                lemma_after_visit(b, start, visited@, stack@, coord, k as int, nc);
                lemma_count_true_bounds(visited@.update(nidx as int, true), MAX_CELLS as int);
            }
            visited[nidx] = true;
            count += 1;
            stack.push(nc);
            k += 1;
        }
        proof {
            lemma_close_popped(b, visited@, stack@, coord);
        }
    }
    proof {
        assert(stack@ =~= Seq::<Coord>::empty());
        lemma_area_final(b, start, visited@);
    }
    count
}

// ── Voronoi territory ───────────────────────────────────────────────────────

/// Result of a flood fill / Voronoi partition from all snake heads.
#[derive(Debug, Clone)]
pub struct FloodResult {
    /// Territory size for each snake (number of reachable cells).
    pub territory: [u32; MAX_SNAKES],
    /// How many food items each snake can reach first.
    pub reachable_food: [u32; MAX_SNAKES],
    /// Distance to nearest food for each snake (i32::MAX if none).
    pub nearest_food_dist: [i32; MAX_SNAKES],
    /// Total reachable cells for our snake (including contested).
    pub our_reachable: u32,
    /// Can our snake reach its own tail?
    pub can_reach_tail: bool,
    /// Distance to our tail.
    pub tail_distance: i32,
}

/// Owner value of a cell that no snake has claimed.
pub const UNCLAIMED: u8 = 255;

/// An upper bound on the number of queue entries of the territory search: one
/// per living snake head, plus at most nine claims of each cell.
pub const SEARCH_BOUND: usize = MAX_SNAKES + 9 * MAX_CELLS;

/// The state of the territory search.
#[verifier::ext_equal]
pub struct Bfs {
    pub owner: Seq<u8>,
    pub dist: Seq<i32>,
    pub queue: Seq<(Coord, u8, i32)>,
    pub head: int,
    pub territory: Seq<u32>,
    pub food: Seq<u32>,
    pub near: Seq<i32>,
    /// The cells our snake has reached first or at the same time as their owner.
    pub ours: Seq<bool>,
}

/// `st` with the reached-by-us marks replaced.
pub open spec fn with_ours(st: Bfs, ours: Seq<bool>) -> Bfs {
    Bfs {
        owner: st.owner,
        dist: st.dist,
        queue: st.queue,
        head: st.head,
        territory: st.territory,
        food: st.food,
        near: st.near,
        ours,
    }
}

/// Snake `si` reaching `nc` at distance `nd`: nothing happens when `nc` is off the
/// board, is a body segment that stays longer than `nd` turns or another snake's
/// head, or is already claimed at a smaller distance, or at the same distance by a
/// snake at least as long. Otherwise the cell changes hands (the previous owner's
/// territory, and its food count when the cell holds food, shrink by one), counts
/// towards the snake's territory and food, and is queued.
pub open spec fn claim(b: BoardView, st: Bfs, nc: Coord, si: u8, nd: i32) -> Bfs {
    let nidx = cell_index(nc);
    if !b.is_wrapped() && !nc.inside(b.width as int, b.height as int) {
        st
    } else if !(0 <= nidx < MAX_CELLS) {
        st
    } else {
        let cell = b.cells[nidx];
        let blocked = match cell {
            Cell::SnakeBody(_, ttl) => ttl as i32 > nd,
            Cell::SnakeHead(s) => s != si,
            _ => false,
        };
        let tie = st.dist[nidx] == nd && st.owner[nidx] != UNCLAIMED;
        let ours = if si as int == b.our_index as int {
            st.ours.update(nidx, true)
        } else {
            st.ours
        };
        if blocked || st.dist[nidx] < nd {
            st
        } else if tie && b.snakes[st.owner[nidx] as int].length >= b.snakes[si as int].length {
            with_ours(st, ours)
        } else {
            let old = st.owner[nidx] as int;
            let terr0 = if tie && st.territory[old] > 0 {
                st.territory.update(old, (st.territory[old] - 1) as u32)
            } else {
                st.territory
            };
            let fed = has_food(cell);
            let food0 = if tie && fed && st.food[old] > 0 {
                st.food.update(old, (st.food[old] - 1) as u32)
            } else {
                st.food
            };
            Bfs {
                owner: st.owner.update(nidx, si),
                dist: st.dist.update(nidx, nd),
                queue: st.queue.push((nc, si, nd)),
                head: st.head,
                territory: terr0.update(si as int, (terr0[si as int] + 1) as u32),
                food: if fed {
                    food0.update(si as int, (food0[si as int] + 1) as u32)
                } else {
                    food0
                },
                near: if fed && nd < st.near[si as int] {
                    st.near.update(si as int, nd)
                } else {
                    st.near
                },
                ours,
            }
        }
    }
}

/// Snake `si` reaching the neighbours `k..4` of `c` at distance `nd`, in order.
pub open spec fn claim_from(b: BoardView, st: Bfs, c: Coord, si: u8, nd: i32, k: int) -> Bfs
    decreases 4 - k,
{
    if k < 0 || k >= 4 {
        st
    } else {
        claim_from(b, claim(b, st, b.target(c, all_directions()[k]), si, nd), c, si, nd, k + 1)
    }
}

pub open spec fn with_head(st: Bfs, head: int) -> Bfs {
    Bfs {
        owner: st.owner,
        dist: st.dist,
        queue: st.queue,
        head,
        territory: st.territory,
        food: st.food,
        near: st.near,
        ours: st.ours,
    }
}

/// One search step: take the next queued entry and expand from it.
pub open spec fn bfs_step(b: BoardView, st: Bfs) -> Bfs {
    if st.head < 0 || st.head >= st.queue.len() {
        st
    } else {
        let e = st.queue[st.head];
        claim_from(b, with_head(st, st.head + 1), e.0, e.1, (e.2 + 1) as i32, 0)
    }
}

/// `n` search steps.
pub open spec fn bfs_iter(b: BoardView, st: Bfs, n: nat) -> Bfs
    decreases n,
{
    if n == 0 {
        st
    } else {
        bfs_step(b, bfs_iter(b, st, (n - 1) as nat))
    }
}

/// Seeds the search with the head of snake `si`, when it is alive.
pub open spec fn seed_one(b: BoardView, st: Bfs, si: int) -> Bfs {
    let s = b.snakes[si];
    let idx = cell_index(s.head);
    if s.alive && 0 <= idx < MAX_CELLS {
        Bfs {
            owner: st.owner.update(idx, si as u8),
            dist: st.dist.update(idx, 0),
            queue: st.queue.push((s.head, si as u8, 0i32)),
            head: st.head,
            territory: st.territory,
            food: st.food,
            near: st.near,
            ours: st.ours,
        }
    } else {
        st
    }
}

/// Seeds the search with the heads of the living snakes `si..n`, in order.
pub open spec fn seed_from(b: BoardView, st: Bfs, si: int, n: int) -> Bfs
    decreases n - si,
{
    if si < 0 || si >= n {
        st
    } else {
        let s = b.snakes[si];
        let idx = cell_index(s.head);
            seed_from(b, seed_one(b, st, si), si + 1, n)
    }
}

/// The empty search.
pub open spec fn bfs_start() -> Bfs {
    Bfs {
        owner: Seq::new(MAX_CELLS as nat, |i: int| UNCLAIMED),
        dist: Seq::new(MAX_CELLS as nat, |i: int| i32::MAX),
        queue: Seq::empty(),
        head: 0,
        territory: Seq::new(MAX_SNAKES as nat, |i: int| 0u32),
        food: Seq::new(MAX_SNAKES as nat, |i: int| 0u32),
        near: Seq::new(MAX_SNAKES as nat, |i: int| i32::MAX),
        ours: Seq::new(MAX_CELLS as nat, |i: int| false),
    }
}

/// The finished territory search of a board.
pub open spec fn bfs_final(b: BoardView) -> Bfs {
    bfs_iter(b, seed_from(b, bfs_start(), 0, b.snake_count as int), SEARCH_BOUND as nat)
}

/// Whether our snake owns its tail's cell when the search is over.
pub open spec fn tail_claimed(b: BoardView, st: Bfs) -> bool {
    let t = cell_index(b.snakes[b.our_index as int].tail);
    t < MAX_CELLS && st.owner[t] == b.our_index as u8
}

// ── Search invariants ───────────────────────────────────────────────────────

/// Number of snakes longer than `l` among the first `k`.
pub open spec fn count_longer(b: BoardView, l: i32, k: int) -> int
    decreases k,
{
    if k <= 0 {
        0
    } else {
        count_longer(b, l, k - 1) + if b.snakes[k - 1].length > l {
            1int
        } else {
            0int
        }
    }
}

/// How many more times a cell with this owner can be claimed.
pub open spec fn budget(b: BoardView, o: u8) -> int {
    if (o as int) < MAX_SNAKES {
        count_longer(b, b.snakes[o as int].length, MAX_SNAKES as int)
    } else {
        9
    }
}

pub open spec fn budget_sum(b: BoardView, owner: Seq<u8>, k: int) -> int
    decreases k,
{
    if k <= 0 {
        0
    } else {
        budget_sum(b, owner, k - 1) + budget(b, owner[k - 1])
    }
}

pub open spec fn last_dist(st: Bfs) -> int {
    if st.queue.len() > 0 {
        st.queue.last().2 as int
    } else {
        0
    }
}

/// The facts the search keeps between and during steps.
#[verifier::opaque]
pub open spec fn bfs_core(b: BoardView, st: Bfs) -> bool {
    &&& st.owner.len() == MAX_CELLS
    &&& st.dist.len() == MAX_CELLS
    &&& st.territory.len() == MAX_SNAKES
    &&& st.food.len() == MAX_SNAKES
    &&& st.near.len() == MAX_SNAKES
    &&& st.ours.len() == MAX_CELLS
    &&& forall|idx: int|
        0 <= idx < MAX_CELLS ==> ((#[trigger] st.owner[idx] == UNCLAIMED) <==> st.dist[idx] == i32::MAX)
    &&& forall|idx: int|
        0 <= idx < MAX_CELLS ==> #[trigger] st.owner[idx] == UNCLAIMED || (st.owner[idx] as int)
            < b.snake_count
    &&& forall|idx: int|
        0 <= idx < MAX_CELLS && #[trigger] st.owner[idx] != UNCLAIMED ==> 0 <= st.dist[idx] <= last_dist(
            st,
        )
    &&& forall|p: int|
        0 <= p < st.queue.len() ==> {
            &&& (#[trigger] st.queue[p]).0.inside(b.width as int, b.height as int)
            &&& (st.queue[p].1 as int) < b.snake_count
            &&& 0 <= st.queue[p].2 <= p
        }
    &&& forall|p: int, q: int| 0 <= p < q < st.queue.len() ==> #[trigger] st.queue[p].2 <= #[trigger] st.queue[q].2
    &&& st.queue.len() + budget_sum(b, st.owner, MAX_CELLS as int) <= SEARCH_BOUND
    &&& forall|i: int| 0 <= i < MAX_SNAKES ==> #[trigger] st.territory[i] <= st.queue.len()
    &&& forall|i: int| 0 <= i < MAX_SNAKES ==> #[trigger] st.food[i] <= st.queue.len()
}

/// Between steps: the entries still queued are at most one apart in distance.
pub open spec fn bfs_inv(b: BoardView, st: Bfs) -> bool {
    &&& bfs_core(b, st)
    &&& 0 <= st.head <= st.queue.len()
    &&& st.head < st.queue.len() ==> last_dist(st) <= st.queue[st.head].2 + 1
}

/// While expanding the entry before `head`, which has distance `d`.
pub open spec fn bfs_mid(b: BoardView, st: Bfs, d: int) -> bool {
    &&& bfs_core(b, st)
    &&& 1 <= st.head <= st.queue.len()
    &&& st.queue[st.head - 1].2 == d
    &&& last_dist(st) <= d + 1
}

proof fn lemma_count_longer_range(b: BoardView, l: i32, k: int)
    requires
        0 <= k,
    ensures
        0 <= count_longer(b, l, k) <= k,
    decreases k,
{
    if k > 0 {
        lemma_count_longer_range(b, l, k - 1);
    }
}

/// A snake is not longer than itself, so a claimed cell has at most seven
/// longer rivals; and a strictly longer snake has strictly fewer.
proof fn lemma_count_longer_facts(b: BoardView, si: int, l_old: i32, k: int)
    requires
        0 <= si < MAX_SNAKES,
        0 <= k <= MAX_SNAKES,
        b.snakes[si].length > l_old,
    ensures
        count_longer(b, b.snakes[si].length, k) <= count_longer(b, l_old, k),
        k > si ==> count_longer(b, b.snakes[si].length, k) < count_longer(b, l_old, k),
        k > si ==> count_longer(b, b.snakes[si].length, k) <= k - 1,
    decreases k,
{
    if k > 0 {
        lemma_count_longer_facts(b, si, l_old, k - 1);
        lemma_count_longer_range(b, b.snakes[si].length, k - 1);
    }
}

proof fn lemma_count_longer_self(b: BoardView, si: int, k: int)
    requires
        0 <= si < MAX_SNAKES,
        0 <= k <= MAX_SNAKES,
    ensures
        k > si ==> count_longer(b, b.snakes[si].length, k) <= k - 1,
        count_longer(b, b.snakes[si].length, k) <= k,
    decreases k,
{
    if k > 0 {
        lemma_count_longer_self(b, si, k - 1);
    }
}

proof fn lemma_budget_range(b: BoardView, o: u8)
    ensures
        0 <= budget(b, o) <= 9,
{
    if (o as int) < MAX_SNAKES {
        lemma_count_longer_range(b, b.snakes[o as int].length, MAX_SNAKES as int);
    }
}

proof fn lemma_budget_sum_range(b: BoardView, owner: Seq<u8>, k: int)
    requires
        0 <= k,
    ensures
        0 <= budget_sum(b, owner, k) <= 9 * k,
    decreases k,
{
    if k > 0 {
        lemma_budget_sum_range(b, owner, k - 1);
        lemma_budget_range(b, owner[k - 1]);
    }
}

proof fn lemma_budget_sum_update(b: BoardView, owner: Seq<u8>, idx: int, v: u8, k: int)
    requires
        0 <= idx < owner.len(),
        0 <= k <= owner.len(),
    ensures
        budget_sum(b, owner.update(idx, v), k) == budget_sum(b, owner, k) + if idx < k {
            budget(b, v) - budget(b, owner[idx])
        } else {
            0
        },
    decreases k,
{
    if k > 0 {
        lemma_budget_sum_update(b, owner, idx, v, k - 1);
    }
}

/// A claim during the expansion of an entry at distance `d` keeps the search's facts.
#[verifier::rlimit(40)]
proof fn lemma_claim(b: BoardView, st: Bfs, nc: Coord, si: u8, d: int)
    requires
        b.wf(),
        bfs_mid(b, st, d),
        (si as int) < b.snake_count,
        b.is_wrapped() ==> nc.inside(b.width as int, b.height as int),
    ensures
        bfs_mid(b, claim(b, st, nc, si, (d + 1) as i32), d),
        claim(b, st, nc, si, (d + 1) as i32).head == st.head,
        claim(b, st, nc, si, (d + 1) as i32).queue.len() >= st.queue.len(),
        d + 1 <= SEARCH_BOUND,
        0 <= d,
        st.queue.len() <= SEARCH_BOUND,
        st.owner.len() == MAX_CELLS,
        st.dist.len() == MAX_CELLS,
        st.territory.len() == MAX_SNAKES,
        st.food.len() == MAX_SNAKES,
        st.near.len() == MAX_SNAKES,
        forall|i: int| 0 <= i < MAX_SNAKES ==> #[trigger] st.territory[i] <= st.queue.len(),
        forall|i: int| 0 <= i < MAX_SNAKES ==> #[trigger] st.food[i] <= st.queue.len(),
        forall|idx: int|
            0 <= idx < MAX_CELLS ==> #[trigger] st.owner[idx] == UNCLAIMED || (st.owner[idx] as int)
                < b.snake_count,
{
    reveal(bfs_core);
    let nd = (d + 1) as i32;
    let nidx = cell_index(nc);
    lemma_budget_sum_range(b, st.owner, MAX_CELLS as int);
    assert(st.queue[st.head - 1].2 <= st.head - 1);
    assert(d + 1 <= st.queue.len());
    assert(0 <= st.queue[st.head - 1].2);
    assert(nd as int == d + 1);
    let st2 = claim(b, st, nc, si, nd);
    if st2.queue.len() != st.queue.len() {
        assert(nc.inside(b.width as int, b.height as int));
        lemma_index_roundtrip(nc, nidx);
        assert(0 <= nidx < MAX_CELLS);
        let tie = st.dist[nidx] == nd && st.owner[nidx] != UNCLAIMED;
        let old = st.owner[nidx];
        if old != UNCLAIMED {
            assert(st.dist[nidx] <= last_dist(st));
            assert(tie);
            lemma_count_longer_facts(b, si as int, b.snakes[old as int].length, MAX_SNAKES as int);
            assert(budget(b, si) < budget(b, old));
        } else {
            lemma_count_longer_range(b, b.snakes[si as int].length, MAX_SNAKES as int);
            lemma_count_longer_self(b, si as int, MAX_SNAKES as int);
            assert(budget(b, si) <= 7);
            assert(budget(b, old) == 9);
        }
        lemma_budget_sum_update(b, st.owner, nidx, si, MAX_CELLS as int);
        assert(st2.queue == st.queue.push((nc, si, nd)));
        assert(last_dist(st2) == nd);
        assert forall|p: int| 0 <= p < st2.queue.len() implies {
            &&& (#[trigger] st2.queue[p]).0.inside(b.width as int, b.height as int)
            &&& (st2.queue[p].1 as int) < b.snake_count
            &&& 0 <= st2.queue[p].2 <= p
        } by {
            if p < st.queue.len() {
                assert(st2.queue[p] == st.queue[p]);
            }
        }
        assert forall|p: int, q: int| 0 <= p < q < st2.queue.len() implies #[trigger] st2.queue[p].2
            <= #[trigger] st2.queue[q].2 by {
            if q < st.queue.len() {
                assert(st2.queue[p] == st.queue[p] && st2.queue[q] == st.queue[q]);
            } else {
                assert(st2.queue[p] == st.queue[p]);
                if p < st.queue.len() - 1 {
                    assert(st.queue[p].2 <= st.queue[st.queue.len() - 1].2);
                }
            }
        }
        assert forall|idx: int| 0 <= idx < MAX_CELLS && #[trigger] st2.owner[idx] != UNCLAIMED implies 0
            <= st2.dist[idx] <= last_dist(st2) by {
            if idx != nidx {
                assert(st2.owner[idx] == st.owner[idx]);
            }
        }
        assert forall|idx: int|
            0 <= idx < MAX_CELLS implies ((#[trigger] st2.owner[idx] == UNCLAIMED) <==> st2.dist[idx]
                == i32::MAX) by {
            if idx != nidx {
                assert(st2.owner[idx] == st.owner[idx]);
            }
        }
        assert forall|idx: int|
            0 <= idx < MAX_CELLS implies #[trigger] st2.owner[idx] == UNCLAIMED || (st2.owner[idx] as int)
                < b.snake_count by {
            if idx != nidx {
                assert(st2.owner[idx] == st.owner[idx]);
            }
        }
        assert forall|i: int| 0 <= i < MAX_SNAKES implies #[trigger] st2.territory[i] <= st2.queue.len() by {
        }
        assert forall|i: int| 0 <= i < MAX_SNAKES implies #[trigger] st2.food[i] <= st2.queue.len() by {
        }
        assert(st2.queue[st2.head - 1] == st.queue[st.head - 1]);
    }
}

/// Taking the next entry off the queue starts its expansion.
proof fn lemma_pop(b: BoardView, st: Bfs)
    requires
        bfs_inv(b, st),
        st.head < st.queue.len(),
    ensures
        bfs_mid(b, with_head(st, st.head + 1), st.queue[st.head].2 as int),
        st.queue[st.head].0.inside(b.width as int, b.height as int),
        (st.queue[st.head].1 as int) < b.snake_count,
        0 <= st.queue[st.head].2 < SEARCH_BOUND,
{
    reveal(bfs_core);
    let st1 = with_head(st, st.head + 1);
    assert(last_dist(st1) == last_dist(st));
    lemma_budget_sum_range(b, st.owner, MAX_CELLS as int);
    assert(st.queue[st.head].2 <= st.head);
    assert(bfs_core(b, st1));
}

/// Finishing an expansion returns to the between-steps facts.
proof fn lemma_unmid(b: BoardView, st: Bfs, d: int)
    requires
        bfs_mid(b, st, d),
    ensures
        bfs_inv(b, st),
{
    reveal(bfs_core);
    if st.head < st.queue.len() {
        assert(st.queue[st.head - 1].2 <= st.queue[st.head].2);
    }
}

/// The search never queues more than `SEARCH_BOUND` entries.
proof fn lemma_inv_bound(b: BoardView, st: Bfs)
    requires
        bfs_inv(b, st),
    ensures
        st.queue.len() <= SEARCH_BOUND,
        st.owner.len() == MAX_CELLS,
        st.dist.len() == MAX_CELLS,
        st.territory.len() == MAX_SNAKES,
        st.food.len() == MAX_SNAKES,
        st.near.len() == MAX_SNAKES,
{
    reveal(bfs_core);
    lemma_budget_sum_range(b, st.owner, MAX_CELLS as int);
}

/// Once the queue is exhausted, further steps change nothing.
proof fn lemma_iter_done(b: BoardView, s0: Bfs, h: nat, m: nat)
    requires
        h <= m,
        bfs_iter(b, s0, h).head >= bfs_iter(b, s0, h).queue.len(),
    ensures
        bfs_iter(b, s0, m) == bfs_iter(b, s0, h),
    decreases m,
{
    if m > h {
        lemma_iter_done(b, s0, h, (m - 1) as nat);
    }
}

/// The search facts while seeding: all queued entries are heads at distance 0.
pub open spec fn seed_inv(b: BoardView, st: Bfs, si: int) -> bool {
    &&& bfs_core(b, st)
    &&& st.head == 0
    &&& st.queue.len() <= si
    &&& forall|p: int| 0 <= p < st.queue.len() ==> (#[trigger] st.queue[p]).2 == 0
}

proof fn lemma_seed_start(b: BoardView)
    ensures
        seed_inv(b, bfs_start(), 0),
{
    reveal(bfs_core);
    lemma_budget_sum_range(b, bfs_start().owner, MAX_CELLS as int);
}

proof fn lemma_seed_one(b: BoardView, st: Bfs, si: int)
    requires
        b.wf(),
        0 <= si < b.snake_count,
        seed_inv(b, st, si),
    ensures
        seed_inv(b, seed_one(b, st, si), si + 1),
{
    reveal(bfs_core);
    let st1 = seed_one(b, st, si);
    lemma_budget_sum_range(b, st1.owner, MAX_CELLS as int);
    let s = b.snakes[si];
    let idx = cell_index(s.head);
    if s.alive && 0 <= idx < MAX_CELLS {
        assert(snake_fits(s, b.width as int, b.height as int));
        assert(last_dist(st1) == 0);
        assert forall|p: int| 0 <= p < st1.queue.len() implies (#[trigger] st1.queue[p]).2 == 0 by {
            if p < st.queue.len() {
                assert(st1.queue[p] == st.queue[p]);
            }
        }
        assert forall|p: int| 0 <= p < st1.queue.len() implies {
            &&& (#[trigger] st1.queue[p]).0.inside(b.width as int, b.height as int)
            &&& (st1.queue[p].1 as int) < b.snake_count
            &&& 0 <= st1.queue[p].2 <= p
        } by {
            if p < st.queue.len() {
                assert(st1.queue[p] == st.queue[p]);
            }
        }
        assert forall|idx2: int| 0 <= idx2 < MAX_CELLS && #[trigger] st1.owner[idx2] != UNCLAIMED implies 0
            <= st1.dist[idx2] <= last_dist(st1) by {
            if idx2 != idx {
                assert(st1.owner[idx2] == st.owner[idx2]);
                if st.queue.len() > 0 {
                    assert(st.queue[st.queue.len() - 1].2 == 0);
                }
            }
        }
        assert forall|p: int, q: int| 0 <= p < q < st1.queue.len() implies #[trigger] st1.queue[p].2
            <= #[trigger] st1.queue[q].2 by {
        }
    }
}

proof fn lemma_seed_done(b: BoardView, st: Bfs, n: int)
    requires
        seed_inv(b, st, n),
    ensures
        bfs_inv(b, st),
{
    reveal(bfs_core);
    if st.queue.len() > 0 {
        assert(st.queue[st.queue.len() - 1].2 == 0);
        assert(st.queue[0].2 == 0);
    }
}

/// The search state held in the flood fill's arrays.
pub open spec fn search_state(
    owner: [u8; MAX_CELLS],
    dist: [i32; MAX_CELLS],
    reached: [bool; MAX_CELLS],
    queue: Seq<(Coord, u8, i32)>,
    head: int,
    r: FloodResult,
) -> Bfs {
    Bfs {
        owner: owner@,
        dist: dist@,
        queue,
        head,
        territory: r.territory@,
        food: r.reachable_food@,
        near: r.nearest_food_dist@,
        ours: reached@,
    }
}

/// Snake `si` reaching `nc` at distance `nd` (see `claim`).
fn try_claim(
    board: &SimBoard,
    owner: &mut [u8; MAX_CELLS],
    dist: &mut [i32; MAX_CELLS],
    reached: &mut [bool; MAX_CELLS],
    queue: &mut Vec<(Coord, u8, i32)>,
    result: &mut FloodResult,
    Ghost(head): Ghost<int>,
    nc: Coord,
    si: u8,
    nd: i32,
)
    requires
        board@.wf(),
        bfs_mid(board@, search_state(*old(owner), *old(dist), *old(reached), old(queue)@, head, *old(result)), nd - 1),
        (si as int) < board@.snake_count,
        board@.is_wrapped() ==> nc.inside(board.width as int, board.height as int),
    ensures
        search_state(*final(owner), *final(dist), *final(reached), final(queue)@, head, *final(result)) == claim(
            board@,
            search_state(*old(owner), *old(dist), *old(reached), old(queue)@, head, *old(result)),
            nc,
            si,
            nd,
        ),
        bfs_mid(board@, search_state(*final(owner), *final(dist), *final(reached), final(queue)@, head, *final(result)), nd - 1),
        final(result).our_reachable == old(result).our_reachable,
        final(result).can_reach_tail == old(result).can_reach_tail,
        final(result).tail_distance == old(result).tail_distance,
{
    let ghost b = board@;
    let ghost st = search_state(*owner, *dist, *reached, queue@, head, *result);
    proof {
        lemma_claim(b, st, nc, si, nd - 1);
    }
    if !board.mode.is_wrapped() && !nc.in_bounds(board.width, board.height) {
        return;
    }
    proof {
        lemma_index_roundtrip(nc, cell_index(nc));
    }
    let nidx = (nc.y as usize) * MAX_DIM + (nc.x as usize);
    if nidx >= MAX_CELLS {
        return;
    }
    // Check if cell is passable
    let cell = board.cells[nidx];
    match cell {
        Cell::SnakeBody(_, ttl) => {
            // Can pass through body segments that will disappear before we arrive
            if (ttl as i32) > nd {
                return;
            }
        },
        Cell::SnakeHead(s) => {
            if s != si {
                return;
            }
        },
        _ => {},
    }
    // Check if we can claim this cell
    if dist[nidx] < nd {
        return;  // Already claimed by someone closer
    }
    // Our snake gets here no later than anyone else: the cell counts as reachable
    // for us, contested or not.
    if si as usize == board.our_index {
        reached[nidx] = true;
    }
    if dist[nidx] == nd && owner[nidx] != UNCLAIMED {
        // Tie: longer snake wins
        let old_owner = owner[nidx] as usize;
        let existing_len = board.snakes[old_owner].length;
        let our_len = board.snakes[si as usize].length;
        proof {
            assert(b.snakes[old_owner as int] == board.snakes@[old_owner as int]@);
            assert(b.snakes[si as int] == board.snakes@[si as int]@);
        }
        if existing_len >= our_len {
            proof {
                assert(reached@ =~= claim(b, st, nc, si, nd).ours);
            }
            return;
        }
        // We're longer, take it over (decrement old owner)
        if result.territory[old_owner] > 0 {
            result.territory[old_owner] = result.territory[old_owner] - 1;
        }
        // The old owner no longer reaches this food first
        if matches!(cell, Cell::Food | Cell::HazardFood) && result.reachable_food[old_owner] > 0 {
            result.reachable_food[old_owner] = result.reachable_food[old_owner] - 1;
        }
    }
    owner[nidx] = si;
    dist[nidx] = nd;
    result.territory[si as usize] = result.territory[si as usize] + 1;

    // Check for food
    if matches!(cell, Cell::Food | Cell::HazardFood) {
        result.reachable_food[si as usize] = result.reachable_food[si as usize] + 1;
        if nd < result.nearest_food_dist[si as usize] {
            result.nearest_food_dist[si as usize] = nd;
        }
    }
    queue.push((nc, si, nd));
    proof {
        let st2 = search_state(*owner, *dist, *reached, queue@, head, *result);
        assert(st2.owner =~= claim(b, st, nc, si, nd).owner);
        assert(st2.dist =~= claim(b, st, nc, si, nd).dist);
        assert(st2.territory =~= claim(b, st, nc, si, nd).territory);
        assert(st2.food =~= claim(b, st, nc, si, nd).food);
        assert(st2.near =~= claim(b, st, nc, si, nd).near);
        assert(st2.ours =~= claim(b, st, nc, si, nd).ours);
    }
}

/// Perform simultaneous BFS flood fill from all alive snake heads.
/// Each cell is claimed by the snake that reaches it first (Voronoi).
/// Ties go to the longer snake (advantage in head-to-head).
pub fn flood_fill(board: &SimBoard) -> (result: FloodResult)
    requires
        board@.wf(),
        board.our_index < board.snake_count,
    ensures
        result.territory@ == bfs_final(board@).territory,
        result.reachable_food@ == bfs_final(board@).food,
        result.nearest_food_dist@ == bfs_final(board@).near,
        result.our_reachable == count_true(bfs_final(board@).ours, MAX_CELLS as int),
        result.can_reach_tail == tail_claimed(board@, bfs_final(board@)),
        result.can_reach_tail == (bfs_final(board@).owner[cell_index(
            board@.snakes[board.our_index as int].tail,
        )] == board.our_index as u8),
        result.tail_distance == if tail_claimed(board@, bfs_final(board@)) {
            bfs_final(board@).dist[cell_index(board@.snakes[board.our_index as int].tail)]
        } else {
            i32::MAX
        },
{
    let ghost b = board@;
    let mut result = FloodResult {
        territory: [0; MAX_SNAKES],
        reachable_food: [0; MAX_SNAKES],
        nearest_food_dist: [i32::MAX; MAX_SNAKES],
        our_reachable: 0,
        can_reach_tail: false,
        tail_distance: i32::MAX,
    };
    // Owner of each cell: 255 = unclaimed
    let mut owner: [u8; MAX_CELLS] = [UNCLAIMED; MAX_CELLS];
    // Distance to each cell from its owner
    let mut dist: [i32; MAX_CELLS] = [i32::MAX; MAX_CELLS];
    // Cells our snake reaches no later than their owner
    let mut reached: [bool; MAX_CELLS] = [false; MAX_CELLS];
    // BFS queue: (coord, snake_index, distance)
    let mut queue: Vec<(Coord, u8, i32)> = Vec::with_capacity(MAX_CELLS);
    let mut head: usize = 0;
    proof {
        assert(owner@ =~= bfs_start().owner);
        assert(dist@ =~= bfs_start().dist);
        assert(reached@ =~= bfs_start().ours);
        assert(result.territory@ =~= bfs_start().territory);
        assert(result.reachable_food@ =~= bfs_start().food);
        assert(result.nearest_food_dist@ =~= bfs_start().near);
        assert(queue@ =~= bfs_start().queue);
        assert(search_state(owner, dist, reached, queue@, 0, result) =~= bfs_start());
        lemma_seed_start(b);
    }

    // Seed BFS with all alive snake heads
    let n = board.snake_count;
    let mut si: usize = 0;
    while si < n
        invariant
            b == board@,
            b.wf(),
            n == b.snake_count,
            si <= n,
            head == 0,
            seed_from(b, search_state(owner, dist, reached, queue@, 0, result), si as int, n as int) == seed_from(
                b,
                bfs_start(),
                0,
                n as int,
            ),
            seed_inv(b, search_state(owner, dist, reached, queue@, 0, result), si as int),
            result.our_reachable == 0,
            !result.can_reach_tail,
            result.tail_distance == i32::MAX,
        decreases n - si,
    {
        let ghost st = search_state(owner, dist, reached, queue@, 0, result);
        proof {
            lemma_seed_one(b, st, si as int);
            assert(b.snakes[si as int] == board.snakes@[si as int]@);
        }
        if board.snakes[si].alive {
            let hd = board.snakes[si].head;
            proof {
                assert(snake_fits(b.snakes[si as int], b.width as int, b.height as int));
                lemma_index_roundtrip(hd, cell_index(hd));
            }
            let idx = board.coord_to_idx(hd);
            if idx < MAX_CELLS {
                owner[idx] = si as u8;
                dist[idx] = 0;
                queue.push((hd, si as u8, 0));
            }
        }
        proof {
            let st1 = search_state(owner, dist, reached, queue@, 0, result);
            assert(st1.owner =~= seed_one(b, st, si as int).owner);
            assert(st1.dist =~= seed_one(b, st, si as int).dist);
            assert(st1 == seed_one(b, st, si as int));
        }
        si += 1;
    }
    let ghost seeded = search_state(owner, dist, reached, queue@, 0, result);
    proof {
        lemma_seed_done(b, seeded, n as int);
    }

    // BFS
    while head < queue.len()
        invariant
            b == board@,
            b.wf(),
            search_state(owner, dist, reached, queue@, head as int, result) == bfs_iter(b, seeded, head as nat),
            bfs_inv(b, search_state(owner, dist, reached, queue@, head as int, result)),
            result.our_reachable == 0,
            !result.can_reach_tail,
            result.tail_distance == i32::MAX,
        decreases SEARCH_BOUND - head,
    {
        let ghost st = search_state(owner, dist, reached, queue@, head as int, result);
        proof {
            lemma_pop(b, st);
            lemma_inv_bound(b, st);
        }
        let (coord, si, d) = queue[head];
        head += 1;
        let ghost popped = search_state(owner, dist, reached, queue@, head as int, result);
        assert(popped == with_head(st, st.head + 1));
        let neighbors = flood_neighbors(board, coord);
        let nd = d + 1;
        let mut k: usize = 0;
        while k < 4
            invariant
                b == board@,
                b.wf(),
                k <= 4,
                nd == d + 1,
                (si as int) < b.snake_count,
                forall|j: int| 0 <= j < 4 ==> neighbors@[j] == b.target(coord, #[trigger] all_directions()[j]),
                coord.inside(b.width as int, b.height as int),
                claim_from(b, search_state(owner, dist, reached, queue@, head as int, result), coord, si, nd, k as int)
                    == claim_from(b, popped, coord, si, nd, 0),
                bfs_mid(b, search_state(owner, dist, reached, queue@, head as int, result), d as int),
                result.our_reachable == 0,
                !result.can_reach_tail,
                result.tail_distance == i32::MAX,
            decreases 4 - k,
        {
            let nc = neighbors[k];
            proof {
                let dir = all_directions()[k as int];
                if b.is_wrapped() {
                    assert(nc == wrapped(stepped(coord, dir), b.width as int, b.height as int));
                }
            }
            try_claim(board, &mut owner, &mut dist, &mut reached, &mut queue, &mut result, Ghost(head as int), nc, si, nd);
            k += 1;
        }
        proof {
            let st2 = search_state(owner, dist, reached, queue@, head as int, result);
            lemma_unmid(b, st2, d as int);
            assert(st2 == bfs_step(b, st));
        }
    }

    // Calculate our-specific stats
    let our_idx = board.our_index;
    proof {
        let fin = search_state(owner, dist, reached, queue@, head as int, result);
        lemma_inv_bound(b, fin);
        lemma_iter_done(b, seeded, head as nat, SEARCH_BOUND as nat);
        assert(seeded == seed_from(b, bfs_start(), 0, n as int));
        assert(fin == bfs_final(b));
    }
    // Every cell our snake reaches, the contested ones included
    let mut total: u32 = 0;
    let mut c: usize = 0;
    while c < MAX_CELLS
        invariant
            c <= MAX_CELLS,
            total == count_true(reached@, c as int),
            total <= c,
        decreases MAX_CELLS - c,
    {
        if reached[c] {
            total = total + 1;
        }
        c += 1;
    }
    result.our_reachable = total;

    // Check tail reachability
    let our_tail = board.snakes[our_idx].tail;
    proof {
        assert(b.snakes[our_idx as int] == board.snakes@[our_idx as int]@);
        assert(snake_fits(b.snakes[our_idx as int], b.width as int, b.height as int));
        lemma_index_roundtrip(our_tail, cell_index(our_tail));
    }
    let tail_idx = board.coord_to_idx(our_tail);
    if tail_idx < MAX_CELLS && owner[tail_idx] == our_idx as u8 {
        result.can_reach_tail = true;
        result.tail_distance = dist[tail_idx];
    }
    result
}

// ── Territory law ───────────────────────────────────────────────────────────

/// Number of cells among the first `k` that snake `i` owns at a positive distance
/// (its own head cell, at distance 0, does not count).
pub open spec fn owned_count(owner: Seq<u8>, dist: Seq<i32>, i: u8, k: int) -> int
    decreases k,
{
    if k <= 0 {
        0
    } else {
        owned_count(owner, dist, i, k - 1) + if owner[k - 1] == i && dist[k - 1] > 0 {
            1int
        } else {
            0int
        }
    }
}

/// Every snake's territory is the number of cells it owns, its head cell excepted.
pub open spec fn territory_exact(st: Bfs) -> bool {
    forall|i: int|
        0 <= i < MAX_SNAKES ==> #[trigger] st.territory[i] as int == owned_count(
            st.owner,
            st.dist,
            i as u8,
            MAX_CELLS as int,
        )
}

proof fn lemma_owned_count_update(owner: Seq<u8>, dist: Seq<i32>, n: int, o: u8, dv: i32, i: u8, k: int)
    requires
        0 <= n < owner.len(),
        owner.len() == dist.len(),
        0 <= k <= owner.len(),
    ensures
        owned_count(owner.update(n, o), dist.update(n, dv), i, k) == owned_count(owner, dist, i, k)
            - (if n < k && owner[n] == i && dist[n] > 0 {
            1int
        } else {
            0int
        }) + (if n < k && o == i && dv > 0 {
            1int
        } else {
            0int
        }),
        n < k && owner[n] == i && dist[n] > 0 ==> owned_count(owner, dist, i, k) >= 1,
        owned_count(owner, dist, i, k) >= 0,
    decreases k,
{
    if k > 0 {
        lemma_owned_count_update(owner, dist, n, o, dv, i, k - 1);
    }
}

/// Number of food cells among the first `k` that snake `i` owns at a positive
/// distance.
pub open spec fn owned_food_count(b: BoardView, owner: Seq<u8>, dist: Seq<i32>, i: u8, k: int) -> int
    decreases k,
{
    if k <= 0 {
        0
    } else {
        owned_food_count(b, owner, dist, i, k - 1) + if owner[k - 1] == i && dist[k - 1] > 0
            && has_food(b.cells[k - 1]) {
            1int
        } else {
            0int
        }
    }
}

/// Every snake's food count is the number of food cells it owns.
pub open spec fn food_exact(b: BoardView, st: Bfs) -> bool {
    forall|i: int|
        0 <= i < MAX_SNAKES ==> #[trigger] st.food[i] as int == owned_food_count(
            b,
            st.owner,
            st.dist,
            i as u8,
            MAX_CELLS as int,
        )
}

proof fn lemma_owned_food_update(
    b: BoardView,
    owner: Seq<u8>,
    dist: Seq<i32>,
    n: int,
    o: u8,
    dv: i32,
    i: u8,
    k: int,
)
    requires
        0 <= n < owner.len(),
        owner.len() == dist.len(),
        0 <= k <= owner.len(),
    ensures
        owned_food_count(b, owner.update(n, o), dist.update(n, dv), i, k) == owned_food_count(
            b,
            owner,
            dist,
            i,
            k,
        ) - (if n < k && owner[n] == i && dist[n] > 0 && has_food(b.cells[n]) {
            1int
        } else {
            0int
        }) + (if n < k && o == i && dv > 0 && has_food(b.cells[n]) {
            1int
        } else {
            0int
        }),
        n < k && owner[n] == i && dist[n] > 0 && has_food(b.cells[n]) ==> owned_food_count(
            b,
            owner,
            dist,
            i,
            k,
        ) >= 1,
        owned_food_count(b, owner, dist, i, k) >= 0,
    decreases k,
{
    if k > 0 {
        lemma_owned_food_update(b, owner, dist, n, o, dv, i, k - 1);
    }
}

proof fn lemma_claim_food(b: BoardView, st: Bfs, nc: Coord, si: u8, d: int)
    requires
        b.wf(),
        bfs_mid(b, st, d),
        food_exact(b, st),
        (si as int) < b.snake_count,
        b.is_wrapped() ==> nc.inside(b.width as int, b.height as int),
    ensures
        food_exact(b, claim(b, st, nc, si, (d + 1) as i32)),
{
    lemma_claim(b, st, nc, si, d);
    reveal(bfs_core);
    let nd = (d + 1) as i32;
    let st2 = claim(b, st, nc, si, nd);
    if st2.queue.len() != st.queue.len() {
        let nidx = cell_index(nc);
        assert(nc.inside(b.width as int, b.height as int));
        lemma_index_roundtrip(nc, nidx);
        let old = st.owner[nidx];
        let tie = st.dist[nidx] == nd && st.owner[nidx] != UNCLAIMED;
        if old != UNCLAIMED {
            assert(st.dist[nidx] <= last_dist(st));
            assert(tie);
            assert(old != si);
        }
        assert forall|i: int| 0 <= i < MAX_SNAKES implies #[trigger] st2.food[i] as int
            == owned_food_count(b, st2.owner, st2.dist, i as u8, MAX_CELLS as int) by {
            lemma_owned_food_update(b, st.owner, st.dist, nidx, si, nd, i as u8, MAX_CELLS as int);
            assert(st.food[i] as int == owned_food_count(b, st.owner, st.dist, i as u8, MAX_CELLS as int));
            if tie && i == old as int && has_food(b.cells[nidx]) {
                assert(st.food[i] >= 1);
            }
        }
    }
}

proof fn lemma_claim_territory(b: BoardView, st: Bfs, nc: Coord, si: u8, d: int)
    requires
        b.wf(),
        bfs_mid(b, st, d),
        territory_exact(st),
        (si as int) < b.snake_count,
        b.is_wrapped() ==> nc.inside(b.width as int, b.height as int),
    ensures
        territory_exact(claim(b, st, nc, si, (d + 1) as i32)),
{
    lemma_claim(b, st, nc, si, d);
    reveal(bfs_core);
    let nd = (d + 1) as i32;
    let st2 = claim(b, st, nc, si, nd);
    if st2.queue.len() != st.queue.len() {
        let nidx = cell_index(nc);
        assert(nc.inside(b.width as int, b.height as int));
        lemma_index_roundtrip(nc, nidx);
        let old = st.owner[nidx];
        let tie = st.dist[nidx] == nd && st.owner[nidx] != UNCLAIMED;
        if old != UNCLAIMED {
            assert(st.dist[nidx] <= last_dist(st));
            assert(tie);
            assert(old != si);
        }
        assert forall|i: int| 0 <= i < MAX_SNAKES implies #[trigger] st2.territory[i] as int == owned_count(
            st2.owner,
            st2.dist,
            i as u8,
            MAX_CELLS as int,
        ) by {
            lemma_owned_count_update(st.owner, st.dist, nidx, si, nd, i as u8, MAX_CELLS as int);
            assert(st.territory[i] as int == owned_count(st.owner, st.dist, i as u8, MAX_CELLS as int));
            if tie && i == old as int {
                assert(st.territory[i] >= 1);
            }
        }
    }
}

proof fn lemma_claim_from_keeps(b: BoardView, st: Bfs, c: Coord, si: u8, d: int, k: int)
    requires
        b.wf(),
        bfs_mid(b, st, d),
        territory_exact(st),
        food_exact(b, st),
        (si as int) < b.snake_count,
        c.inside(b.width as int, b.height as int),
        0 <= k <= 4,
    ensures
        bfs_mid(b, claim_from(b, st, c, si, (d + 1) as i32, k), d),
        territory_exact(claim_from(b, st, c, si, (d + 1) as i32, k)),
        food_exact(b, claim_from(b, st, c, si, (d + 1) as i32, k)),
    decreases 4 - k,
{
    if k < 4 {
        let nc = b.target(c, all_directions()[k]);
        if b.is_wrapped() {
            assert(nc == wrapped(stepped(c, all_directions()[k]), b.width as int, b.height as int));
        }
        lemma_claim(b, st, nc, si, d);
        lemma_claim_territory(b, st, nc, si, d);
        lemma_claim_food(b, st, nc, si, d);
        lemma_claim_from_keeps(b, claim(b, st, nc, si, (d + 1) as i32), c, si, d, k + 1);
    }
}

proof fn lemma_step_keeps(b: BoardView, st: Bfs)
    requires
        b.wf(),
        bfs_inv(b, st),
        territory_exact(st),
        food_exact(b, st),
    ensures
        bfs_inv(b, bfs_step(b, st)),
        territory_exact(bfs_step(b, st)),
        food_exact(b, bfs_step(b, st)),
{
    if 0 <= st.head < st.queue.len() {
        lemma_pop(b, st);
        let e = st.queue[st.head];
        let popped = with_head(st, st.head + 1);
        assert(territory_exact(popped));
        assert(food_exact(b, popped));
        lemma_claim_from_keeps(b, popped, e.0, e.1, e.2 as int, 0);
        lemma_unmid(b, claim_from(b, popped, e.0, e.1, (e.2 + 1) as i32, 0), e.2 as int);
    }
}

proof fn lemma_iter_keeps(b: BoardView, s0: Bfs, n: nat)
    requires
        b.wf(),
        bfs_inv(b, s0),
        territory_exact(s0),
        food_exact(b, s0),
    ensures
        bfs_inv(b, bfs_iter(b, s0, n)),
        territory_exact(bfs_iter(b, s0, n)),
        food_exact(b, bfs_iter(b, s0, n)),
    decreases n,
{
    if n > 0 {
        lemma_iter_keeps(b, s0, (n - 1) as nat);
        lemma_step_keeps(b, bfs_iter(b, s0, (n - 1) as nat));
    }
}

proof fn lemma_seed_territory(b: BoardView, st: Bfs, si: int, n: int)
    requires
        b.wf(),
        0 <= si <= n,
        n == b.snake_count,
        seed_inv(b, st, si),
        forall|i: int| 0 <= i < MAX_SNAKES ==> #[trigger] st.territory[i] == 0,
        forall|i: int| 0 <= i < MAX_SNAKES ==> #[trigger] st.food[i] == 0,
        forall|idx: int| 0 <= idx < MAX_CELLS ==> #[trigger] st.dist[idx] == 0 || st.owner[idx] == UNCLAIMED,
    ensures
        seed_inv(b, seed_from(b, st, si, n), n),
        forall|i: int| 0 <= i < MAX_SNAKES ==> #[trigger] seed_from(b, st, si, n).territory[i] == 0,
        forall|i: int| 0 <= i < MAX_SNAKES ==> #[trigger] seed_from(b, st, si, n).food[i] == 0,
        forall|idx: int|
            0 <= idx < MAX_CELLS ==> #[trigger] seed_from(b, st, si, n).dist[idx] == 0 || seed_from(
                b,
                st,
                si,
                n,
            ).owner[idx] == UNCLAIMED,
    decreases n - si,
{
    if si < n {
        lemma_seed_one(b, st, si);
        let st1 = seed_one(b, st, si);
        reveal(bfs_core);
        assert forall|idx: int| 0 <= idx < MAX_CELLS implies #[trigger] st1.dist[idx] == 0 || st1.owner[idx]
            == UNCLAIMED by {
            let s = b.snakes[si];
            let hidx = cell_index(s.head);
            if !(s.alive && 0 <= hidx < MAX_CELLS && idx == hidx) {
                assert(st1.dist[idx] == st.dist[idx] && st1.owner[idx] == st.owner[idx]);
            }
        }
        lemma_seed_territory(b, st1, si + 1, n);
    }
}

proof fn lemma_owned_none(owner: Seq<u8>, dist: Seq<i32>, i: u8, k: int)
    requires
        0 <= k <= owner.len(),
        owner.len() == dist.len(),
        i != UNCLAIMED,
        forall|idx: int| 0 <= idx < owner.len() ==> dist[idx] == 0 || owner[idx] == UNCLAIMED,
    ensures
        owned_count(owner, dist, i, k) == 0,
    decreases k,
{
    if k > 0 {
        lemma_owned_none(owner, dist, i, k - 1);
    }
}

proof fn lemma_owned_food_none(b: BoardView, owner: Seq<u8>, dist: Seq<i32>, i: u8, k: int)
    requires
        0 <= k <= owner.len(),
        owner.len() == dist.len(),
        i != UNCLAIMED,
        forall|idx: int| 0 <= idx < owner.len() ==> dist[idx] == 0 || owner[idx] == UNCLAIMED,
    ensures
        owned_food_count(b, owner, dist, i, k) == 0,
    decreases k,
{
    if k > 0 {
        lemma_owned_food_none(b, owner, dist, i, k - 1);
    }
}

/// Once every living head is seeded, the counts agree with the (empty) claims.
proof fn lemma_seeded_exact(b: BoardView)
    requires
        b.wf(),
    ensures
        bfs_inv(b, seed_from(b, bfs_start(), 0, b.snake_count as int)),
        territory_exact(seed_from(b, bfs_start(), 0, b.snake_count as int)),
        food_exact(b, seed_from(b, bfs_start(), 0, b.snake_count as int)),
{
    let n = b.snake_count as int;
    lemma_seed_start(b);
    lemma_seed_territory(b, bfs_start(), 0, n);
    let seeded = seed_from(b, bfs_start(), 0, n);
    lemma_seed_done(b, seeded, n);
    reveal(bfs_core);
    assert forall|i: int| 0 <= i < MAX_SNAKES implies #[trigger] seeded.territory[i] as int == owned_count(
        seeded.owner,
        seeded.dist,
        i as u8,
        MAX_CELLS as int,
    ) by {
        lemma_owned_none(seeded.owner, seeded.dist, i as u8, MAX_CELLS as int);
    }
    assert forall|i: int| 0 <= i < MAX_SNAKES implies #[trigger] seeded.food[i] as int == owned_food_count(
        b,
        seeded.owner,
        seeded.dist,
        i as u8,
        MAX_CELLS as int,
    ) by {
        lemma_owned_food_none(b, seeded.owner, seeded.dist, i as u8, MAX_CELLS as int);
    }
}

/// Territory counts claimed cells: when the search is over, each snake's territory
/// is exactly the number of cells it owns, its own head cell excepted. A cell taken
/// over by a longer snake at the same distance moves from the old owner's count to
/// the new one's.
pub proof fn lemma_territory_counts_owned_cells(b: BoardView)
    requires
        b.wf(),
    ensures
        territory_exact(bfs_final(b)),
{
    lemma_seeded_exact(b);
    lemma_iter_keeps(b, seed_from(b, bfs_start(), 0, b.snake_count as int), SEARCH_BOUND as nat);
}

/// Reachable food counts the food a snake reaches first: when the search is over,
/// each snake's food count is exactly the number of food cells it owns. A food cell
/// taken over by a longer snake at the same distance moves from the old owner's
/// count to the new one's.
pub proof fn lemma_food_counts_owned_food(b: BoardView)
    requires
        b.wf(),
    ensures
        food_exact(b, bfs_final(b)),
{
    lemma_seeded_exact(b);
    lemma_iter_keeps(b, seed_from(b, bfs_start(), 0, b.snake_count as int), SEARCH_BOUND as nat);
}

// ── Voronoi law ─────────────────────────────────────────────────────────────

/// Whether snake `si` may step onto `c` at distance `nd` in the territory search:
/// `c` is on the board (or the board wraps), and is neither a body segment that
/// stays longer than `nd` turns nor another snake's head.
pub open spec fn enterable(b: BoardView, c: Coord, si: u8, nd: int) -> bool {
    &&& b.is_wrapped() || c.inside(b.width as int, b.height as int)
    &&& match b.cells[cell_index(c)] {
        Cell::SnakeBody(_, ttl) => ttl as int <= nd,
        Cell::SnakeHead(s) => s == si,
        _ => true,
    }
}

/// Cell `idx` is at distance at most `nd`, and, at exactly `nd`, belongs to snake
/// `si` or to a snake at least as long.
pub open spec fn settled(b: BoardView, st: Bfs, idx: int, si: u8, nd: int) -> bool {
    &&& st.dist[idx] <= nd
    &&& st.dist[idx] == nd ==> st.owner[idx] == si || b.snakes[st.owner[idx] as int].length
        >= b.snakes[si as int].length
}

/// Snake `e.1` standing on `e.0` at distance `e.2` cannot do better by one step in
/// direction `j`.
pub open spec fn settles(b: BoardView, st: Bfs, e: (Coord, u8, i32), j: int) -> bool {
    let x = b.target(e.0, all_directions()[j]);
    enterable(b, x, e.1, e.2 + 1) ==> {
        &&& settled(b, st, cell_index(x), e.1, e.2 + 1)
        &&& e.1 as int == b.our_index ==> st.dist[cell_index(x)] < e.2 + 1 || st.ours[cell_index(x)]
    }
}

/// `st2` is a later search state than `st`: no distance grew, a cell kept at the
/// same distance kept its owner or went to a longer snake, and the queue only grew.
pub open spec fn better(b: BoardView, st: Bfs, st2: Bfs) -> bool {
    &&& forall|idx: int|
        0 <= idx < MAX_CELLS ==> #[trigger] st2.dist[idx] <= st.dist[idx]
    &&& forall|idx: int|
        0 <= idx < MAX_CELLS && #[trigger] st2.dist[idx] == st.dist[idx] && st.owner[idx] != UNCLAIMED
            ==> st2.owner[idx] == st.owner[idx] || b.snakes[st2.owner[idx] as int].length
            > b.snakes[st.owner[idx] as int].length
    &&& forall|idx: int|
        0 <= idx < MAX_CELLS && #[trigger] st.dist[idx] == 0 && st.owner[idx] != UNCLAIMED ==> st2.owner[idx]
            == st.owner[idx]
    &&& forall|idx: int| 0 <= idx < MAX_CELLS && #[trigger] st.ours[idx] ==> st2.ours[idx]
    &&& st.queue.len() <= st2.queue.len()
    &&& forall|p: int| 0 <= p < st.queue.len() ==> #[trigger] st2.queue[p] == st.queue[p]
}

/// Facts on ownership that the search keeps: every owned cell has its queue entry,
/// queued snakes and owners are alive, and living heads are at distance 0.
pub open spec fn vor_core(b: BoardView, st: Bfs) -> bool {
    &&& forall|idx: int|
        0 <= idx < MAX_CELLS && #[trigger] st.owner[idx] != UNCLAIMED ==> exists|p: int|
            0 <= p < st.queue.len() && cell_index((#[trigger] st.queue[p]).0) == idx && st.queue[p].1
                == st.owner[idx] && st.queue[p].2 == st.dist[idx]
    &&& forall|p: int| 0 <= p < st.queue.len() ==> b.snakes[(#[trigger] st.queue[p]).1 as int].alive
    &&& near_ok(b, st)
    &&& forall|idx: int|
        0 <= idx < MAX_CELLS && #[trigger] st.owner[idx] as int == b.our_index && st.dist[idx] > 0 ==> st.ours[idx]
}

/// Every snake's nearest-food distance is at most the distance of each food cell
/// it owns (away from its head).
pub open spec fn near_ok(b: BoardView, st: Bfs) -> bool {
    forall|idx: int|
        0 <= idx < MAX_CELLS && #[trigger] st.owner[idx] != UNCLAIMED && st.dist[idx] > 0 && has_food(
            b.cells[idx],
        ) ==> st.near[st.owner[idx] as int] <= st.dist[idx]
}

/// Every living head among the first `n` snakes is at distance 0.
pub open spec fn heads_zero(b: BoardView, st: Bfs, n: int) -> bool {
    forall|s: int|
        0 <= s < n && (#[trigger] b.snakes[s]).alive ==> st.dist[cell_index(b.snakes[s].head)] == 0
}

/// The Voronoi invariant: the ownership facts, and every expanded entry settles
/// all four of its neighbours.
pub open spec fn vor_inv(b: BoardView, st: Bfs) -> bool {
    &&& vor_core(b, st)
    &&& heads_zero(b, st, b.snake_count as int)
    &&& forall|p: int, j: int|
        0 <= p < st.head && p < st.queue.len() && 0 <= j < 4 ==> #[trigger] settles(b, st, st.queue[p], j)
}

proof fn lemma_better_trans(b: BoardView, s1: Bfs, s2: Bfs, s3: Bfs)
    requires
        better(b, s1, s2),
        better(b, s2, s3),
        bfs_core(b, s1),
        bfs_core(b, s2),
    ensures
        better(b, s1, s3),
{
    reveal(bfs_core);
    assert forall|idx: int|
        0 <= idx < MAX_CELLS && #[trigger] s3.dist[idx] == s1.dist[idx] && s1.owner[idx] != UNCLAIMED implies s3.owner[
        idx] == s1.owner[idx] || b.snakes[s3.owner[idx] as int].length > b.snakes[s1.owner[idx] as int].length by {
        assert(s2.dist[idx] <= s1.dist[idx]);
        assert(s3.dist[idx] <= s2.dist[idx]);
        assert(s2.owner[idx] != UNCLAIMED);
    }
    assert forall|p: int| 0 <= p < s1.queue.len() implies #[trigger] s3.queue[p] == s1.queue[p] by {
        assert(s2.queue[p] == s1.queue[p]);
    }
    assert forall|idx: int|
        0 <= idx < MAX_CELLS && #[trigger] s1.dist[idx] == 0 && s1.owner[idx] != UNCLAIMED implies s3.owner[idx]
        == s1.owner[idx] by {
        assert(s2.dist[idx] <= 0);
        assert(s2.owner[idx] != UNCLAIMED);
        assert(s2.dist[idx] == 0);
    }
}

proof fn lemma_settles_kept(b: BoardView, st: Bfs, st2: Bfs, e: (Coord, u8, i32), j: int)
    requires
        better(b, st, st2),
        settles(b, st, e, j),
        0 <= j < 4,
        0 <= cell_index(b.target(e.0, all_directions()[j])) < MAX_CELLS,
        e.2 + 1 < i32::MAX,
        bfs_core(b, st),
    ensures
        settles(b, st2, e, j),
{
    reveal(bfs_core);
    let x = cell_index(b.target(e.0, all_directions()[j]));
    assert(st2.dist[x] <= st.dist[x]);
}

/// One claim moves the search to a later state, settles the cell it tries, and
/// keeps the ownership facts.
proof fn lemma_claim_vor(b: BoardView, st: Bfs, nc: Coord, si: u8, d: int)
    requires
        b.wf(),
        bfs_mid(b, st, d),
        (si as int) < b.snake_count,
        b.snakes[si as int].alive,
        b.is_wrapped() ==> nc.inside(b.width as int, b.height as int),
        vor_core(b, st),
        heads_zero(b, st, b.snake_count as int),
    ensures
        better(b, st, claim(b, st, nc, si, (d + 1) as i32)),
        vor_core(b, claim(b, st, nc, si, (d + 1) as i32)),
        heads_zero(b, claim(b, st, nc, si, (d + 1) as i32), b.snake_count as int),
        enterable(b, nc, si, d + 1) ==> settled(b, claim(b, st, nc, si, (d + 1) as i32), cell_index(nc), si, d + 1),
        enterable(b, nc, si, d + 1) ==> 0 <= cell_index(nc) < MAX_CELLS,
        enterable(b, nc, si, d + 1) && si as int == b.our_index ==> claim(b, st, nc, si, (d + 1) as i32).dist[
            cell_index(nc)] < d + 1 || claim(b, st, nc, si, (d + 1) as i32).ours[cell_index(nc)],
        bfs_mid(b, claim(b, st, nc, si, (d + 1) as i32), d),
        0 <= d,
        d + 1 <= SEARCH_BOUND,
{
    lemma_claim(b, st, nc, si, d);
    reveal(bfs_core);
    let nd = (d + 1) as i32;
    let st2 = claim(b, st, nc, si, nd);
    if nc.inside(b.width as int, b.height as int) {
        lemma_index_roundtrip(nc, cell_index(nc));
    }
    let nidx = cell_index(nc);
    if st2.queue.len() != st.queue.len() {
        assert(nc.inside(b.width as int, b.height as int));
        let old = st.owner[nidx];
        if old != UNCLAIMED {
            assert(st.dist[nidx] <= last_dist(st));
        }
        assert forall|idx: int| 0 <= idx < MAX_CELLS && #[trigger] st2.owner[idx] != UNCLAIMED implies exists|p: int|
            0 <= p < st2.queue.len() && cell_index((#[trigger] st2.queue[p]).0) == idx && st2.queue[p].1
                == st2.owner[idx] && st2.queue[p].2 == st2.dist[idx] by {
            if idx == nidx {
                assert(st2.queue[st.queue.len() as int] == (nc, si, nd));
            } else {
                let p = choose|p: int|
                    0 <= p < st.queue.len() && cell_index((#[trigger] st.queue[p]).0) == idx && st.queue[p].1
                        == st.owner[idx] && st.queue[p].2 == st.dist[idx];
                assert(st2.queue[p] == st.queue[p]);
            }
        }
        assert forall|p: int| 0 <= p < st2.queue.len() implies b.snakes[(#[trigger] st2.queue[p]).1 as int].alive by {
            if p < st.queue.len() {
                assert(st2.queue[p] == st.queue[p]);
            }
        }
        assert forall|s: int|
            0 <= s < b.snake_count && (#[trigger] b.snakes[s]).alive implies st2.dist[cell_index(
                b.snakes[s].head,
            )] == 0 by {
            let h = cell_index(b.snakes[s].head);
            assert(st.dist[h] == 0);
            if h == nidx {
                assert(false);
            }
        }
        assert forall|p: int| 0 <= p < st.queue.len() implies #[trigger] st2.queue[p] == st.queue[p] by {
        }
    } else {
        assert(st2.owner == st.owner);
        assert(st2.dist == st.dist);
        assert(st2.queue == st.queue);
    }
}

/// Trying the neighbours `k..4` of `c` moves the search to a later state, settles
/// them, and keeps the ownership facts.
proof fn lemma_claim_from_vor(b: BoardView, st: Bfs, c: Coord, si: u8, d: int, k: int)
    requires
        b.wf(),
        bfs_mid(b, st, d),
        (si as int) < b.snake_count,
        b.snakes[si as int].alive,
        c.inside(b.width as int, b.height as int),
        0 <= k <= 4,
        vor_core(b, st),
        heads_zero(b, st, b.snake_count as int),
    ensures
        bfs_mid(b, claim_from(b, st, c, si, (d + 1) as i32, k), d),
        better(b, st, claim_from(b, st, c, si, (d + 1) as i32, k)),
        vor_core(b, claim_from(b, st, c, si, (d + 1) as i32, k)),
        heads_zero(b, claim_from(b, st, c, si, (d + 1) as i32, k), b.snake_count as int),
        forall|j: int|
            k <= j < 4 ==> #[trigger] settles(
                b,
                claim_from(b, st, c, si, (d + 1) as i32, k),
                (c, si, d as i32),
                j,
            ),
    decreases 4 - k,
{
    if k < 4 {
        let nc = b.target(c, all_directions()[k]);
        if b.is_wrapped() {
            assert(nc == wrapped(stepped(c, all_directions()[k]), b.width as int, b.height as int));
        }
        lemma_claim_vor(b, st, nc, si, d);
        let st1 = claim(b, st, nc, si, (d + 1) as i32);
        lemma_claim_from_vor(b, st1, c, si, d, k + 1);
        let fin = claim_from(b, st1, c, si, (d + 1) as i32, k + 1);
        lemma_better_trans(b, st, st1, fin);
        assert((d as i32) + 1 == d + 1);
        assert forall|j: int| k <= j < 4 implies #[trigger] settles(b, fin, (c, si, d as i32), j) by {
            if j == k {
                assert(settles(b, st1, (c, si, d as i32), j));
                if enterable(b, nc, si, d + 1) {
                    lemma_settles_kept(b, st1, fin, (c, si, d as i32), j);
                }
            }
        }
    } else {
        assert(claim_from(b, st, c, si, (d + 1) as i32, k) == st);
        assert forall|p: int| 0 <= p < st.queue.len() implies #[trigger] st.queue[p] == st.queue[p] by {}
    }
}

/// Facts on a queued entry: it lies on the board, at a distance within the bound.
proof fn lemma_entry_facts(b: BoardView, st: Bfs, p: int)
    requires
        bfs_inv(b, st),
        0 <= p < st.queue.len(),
    ensures
        st.queue[p].0.inside(b.width as int, b.height as int),
        0 <= st.queue[p].2 <= SEARCH_BOUND,
        st.queue.len() <= SEARCH_BOUND,
{
    reveal(bfs_core);
    lemma_inv_bound(b, st);
}

proof fn lemma_step_vor(b: BoardView, st: Bfs)
    requires
        b.wf(),
        bfs_inv(b, st),
        vor_inv(b, st),
    ensures
        vor_inv(b, bfs_step(b, st)),
        better(b, st, bfs_step(b, st)),
        bfs_step(b, st).head >= st.head,
        st.head < st.queue.len() ==> bfs_step(b, st).head == st.head + 1,
{
    if 0 <= st.head < st.queue.len() {
        lemma_pop(b, st);
        let e = st.queue[st.head];
        let popped = with_head(st, st.head + 1);
        assert(b.snakes[e.1 as int].alive);
        assert(vor_core(b, popped));
        assert(heads_zero(b, popped, b.snake_count as int));
        lemma_claim_from_vor(b, popped, e.0, e.1, e.2 as int, 0);
        let fin = claim_from(b, popped, e.0, e.1, (e.2 + 1) as i32, 0);
        assert(fin == bfs_step(b, st));
        lemma_claim_from_keeps_head(b, popped, e.0, e.1, (e.2 + 1) as i32, 0);
        assert forall|p: int, j: int|
            0 <= p < fin.head && p < fin.queue.len() && 0 <= j < 4 implies #[trigger] settles(
            b,
            fin,
            fin.queue[p],
            j,
        ) by {
            assert(fin.queue[p] == st.queue[p]);
            if p < st.head {
                assert(settles(b, st, st.queue[p], j));
                assert(settles(b, popped, st.queue[p], j));
                let x = b.target(st.queue[p].0, all_directions()[j]);
                if enterable(b, x, st.queue[p].1, st.queue[p].2 + 1) {
                    lemma_entry_facts(b, st, p);
                    if !b.is_wrapped() {
                        lemma_index_roundtrip(x, cell_index(x));
                    } else {
                        lemma_wrap_inside(b, st.queue[p].0, j);
                        lemma_index_roundtrip(x, cell_index(x));
                    }
                    lemma_settles_kept(b, popped, fin, st.queue[p], j);
                }
            } else {
                assert(p == st.head);
                assert((e.0, e.1, e.2 as int as i32) == e);
            }
        }
    } else {
        assert forall|p: int| 0 <= p < st.queue.len() implies #[trigger] st.queue[p] == st.queue[p] by {}
    }
}

proof fn lemma_wrap_inside(b: BoardView, c: Coord, j: int)
    requires
        b.wf(),
        b.is_wrapped(),
        0 <= j < 4,
        c.inside(b.width as int, b.height as int),
    ensures
        b.target(c, all_directions()[j]).inside(b.width as int, b.height as int),
{
    let s = stepped(c, all_directions()[j]);
    lemma_wrap_axis_euclid(s.x as int, b.width as int);
    lemma_wrap_axis_euclid(s.y as int, b.height as int);
}

proof fn lemma_claim_from_keeps_head(b: BoardView, st: Bfs, c: Coord, si: u8, nd: i32, k: int)
    ensures
        claim_from(b, st, c, si, nd, k).head == st.head,
    decreases 4 - k,
{
    if 0 <= k < 4 {
        let nc = b.target(c, all_directions()[k]);
        lemma_claim_from_keeps_head(b, claim(b, st, nc, si, nd), c, si, nd, k + 1);
    }
}

proof fn lemma_seed_vor(b: BoardView, st: Bfs, si: int, n: int)
    requires
        b.wf(),
        0 <= si <= n,
        n == b.snake_count,
        seed_inv(b, st, si),
        vor_core(b, st),
        heads_zero(b, st, si),
    ensures
        vor_core(b, seed_from(b, st, si, n)),
        heads_zero(b, seed_from(b, st, si, n), n),
    decreases n - si,
{
    if si < n {
        lemma_seed_one(b, st, si);
        reveal(bfs_core);
        let st1 = seed_one(b, st, si);
        let sn = b.snakes[si];
        let idx = cell_index(sn.head);
        if sn.alive {
            assert(snake_fits(sn, b.width as int, b.height as int));
            lemma_index_roundtrip(sn.head, idx);
            assert(st1.queue[st.queue.len() as int] == (sn.head, si as u8, 0i32));
            assert forall|i: int| 0 <= i < MAX_CELLS && #[trigger] st1.owner[i] != UNCLAIMED implies exists|p: int|
                0 <= p < st1.queue.len() && cell_index((#[trigger] st1.queue[p]).0) == i && st1.queue[p].1
                    == st1.owner[i] && st1.queue[p].2 == st1.dist[i] by {
                if i != idx {
                    assert(st1.owner[i] == st.owner[i] && st1.dist[i] == st.dist[i]);
                    let p = choose|p: int|
                        0 <= p < st.queue.len() && cell_index((#[trigger] st.queue[p]).0) == i && st.queue[p].1
                            == st.owner[i] && st.queue[p].2 == st.dist[i];
                    assert(st1.queue[p] == st.queue[p]);
                } else {
                    let p = st.queue.len() as int;
                    assert(cell_index(st1.queue[p].0) == i);
                }
            }
            assert forall|p: int| 0 <= p < st1.queue.len() implies b.snakes[(#[trigger] st1.queue[p]).1 as int].alive by {
                if p < st.queue.len() {
                    assert(st1.queue[p] == st.queue[p]);
                }
            }
        }
        assert(heads_zero(b, st1, si + 1));
        lemma_seed_vor(b, st1, si + 1, n);
    }
}

proof fn lemma_iter_vor(b: BoardView, s0: Bfs, n: nat)
    requires
        b.wf(),
        bfs_inv(b, s0),
        territory_exact(s0),
        food_exact(b, s0),
        vor_inv(b, s0),
        s0.head == 0,
    ensures
        bfs_inv(b, bfs_iter(b, s0, n)),
        territory_exact(bfs_iter(b, s0, n)),
        food_exact(b, bfs_iter(b, s0, n)),
        vor_inv(b, bfs_iter(b, s0, n)),
        bfs_iter(b, s0, n).head >= n || bfs_iter(b, s0, n).head >= bfs_iter(b, s0, n).queue.len(),
        better(b, s0, bfs_iter(b, s0, n)),
    decreases n,
{
    if n == 0 {
        assert forall|p: int| 0 <= p < s0.queue.len() implies #[trigger] s0.queue[p] == s0.queue[p] by {}
    }
    if n > 0 {
        lemma_iter_vor(b, s0, (n - 1) as nat);
        let prev = bfs_iter(b, s0, (n - 1) as nat);
        lemma_step_keeps(b, prev);
        lemma_step_vor(b, prev);
        lemma_better_trans(b, s0, prev, bfs_step(b, prev));
        if prev.head >= prev.queue.len() {
            assert(bfs_step(b, prev) == prev);
        }
    }
}

/// Cell `idx` owned at the end of the search, and direction `j`: the owner standing
/// there cannot reach the neighbour in direction `j` any sooner than its owner
/// does, nor as soon when it is strictly longer.
pub open spec fn voronoi_at(b: BoardView, st: Bfs, idx: int, j: int) -> bool {
    let x = b.target(cell_coord(idx), all_directions()[j]);
    enterable(b, x, st.owner[idx], st.dist[idx] + 1) ==> settled(
        b,
        st,
        cell_index(x),
        st.owner[idx],
        st.dist[idx] + 1,
    )
}

/// The territory search is a Voronoi partition. When it is over: only living
/// snakes own cells; every living snake's head cell is owned at distance 0; and
/// no owner can improve on a neighbouring cell, which is at distance at most one
/// more than its own and, at exactly one more, belongs to that snake or to one at
/// least as long (ties go to the longer snake). Cells are entered only when the
/// move is allowed at that distance: on the board (or wrapping), not another
/// snake's head, not a body segment that stays longer.
pub proof fn lemma_territory_is_voronoi(b: BoardView)
    requires
        b.wf(),
    ensures
        forall|idx: int|
            0 <= idx < MAX_CELLS && #[trigger] bfs_final(b).owner[idx] != UNCLAIMED ==> (bfs_final(
                b,
            ).owner[idx] as int) < b.snake_count && b.snakes[bfs_final(b).owner[idx] as int].alive,
        forall|s: int|
            0 <= s < b.snake_count && (#[trigger] b.snakes[s]).alive ==> bfs_final(b).dist[cell_index(
                b.snakes[s].head,
            )] == 0 && bfs_final(b).owner[cell_index(b.snakes[s].head)] != UNCLAIMED,
        forall|idx: int, j: int|
            0 <= idx < MAX_CELLS && bfs_final(b).owner[idx] != UNCLAIMED && 0 <= j < 4
                ==> #[trigger] voronoi_at(b, bfs_final(b), idx, j),
{
    let n = b.snake_count as int;
    lemma_seeded_exact(b);
    lemma_seed_start(b);
    assert(vor_core(b, bfs_start()));
    lemma_seed_vor(b, bfs_start(), 0, n);
    let seeded = seed_from(b, bfs_start(), 0, n);
    lemma_seed_head(b, bfs_start(), 0, n);
    lemma_iter_vor(b, seeded, SEARCH_BOUND as nat);
    let fin = bfs_final(b);
    lemma_inv_bound(b, fin);
    reveal(bfs_core);
    assert forall|idx: int|
        0 <= idx < MAX_CELLS && #[trigger] fin.owner[idx] != UNCLAIMED implies (fin.owner[idx] as int)
        < b.snake_count && b.snakes[fin.owner[idx] as int].alive by {
        let p = choose|p: int|
            0 <= p < fin.queue.len() && cell_index((#[trigger] fin.queue[p]).0) == idx && fin.queue[p].1
                == fin.owner[idx] && fin.queue[p].2 == fin.dist[idx];
    }
    assert forall|s: int|
        0 <= s < b.snake_count && (#[trigger] b.snakes[s]).alive implies fin.dist[cell_index(b.snakes[s].head)]
        == 0 && fin.owner[cell_index(b.snakes[s].head)] != UNCLAIMED by {
        assert(snake_fits(b.snakes[s], b.width as int, b.height as int));
        lemma_index_roundtrip(b.snakes[s].head, 0);
    }
    assert forall|idx: int, j: int|
        0 <= idx < MAX_CELLS && fin.owner[idx] != UNCLAIMED && 0 <= j < 4 implies #[trigger] voronoi_at(
        b,
        fin,
        idx,
        j,
    ) by {
        let p = choose|p: int|
            0 <= p < fin.queue.len() && cell_index((#[trigger] fin.queue[p]).0) == idx && fin.queue[p].1
                == fin.owner[idx] && fin.queue[p].2 == fin.dist[idx];
        assert(settles(b, fin, fin.queue[p], j));
        lemma_entry_facts(b, fin, p);
        lemma_index_roundtrip(fin.queue[p].0, idx);
    }
}

proof fn lemma_seed_head(b: BoardView, st: Bfs, si: int, n: int)
    requires
        0 <= si <= n,
        st.head == 0,
    ensures
        seed_from(b, st, si, n).head == 0,
    decreases n - si,
{
    if si < n {
        lemma_seed_head(b, seed_one(b, st, si), si + 1, n);
    }
}

proof fn lemma_owned_absent(b: BoardView, owner: Seq<u8>, dist: Seq<i32>, i: u8, k: int)
    requires
        0 <= k <= owner.len(),
        forall|idx: int| 0 <= idx < k ==> #[trigger] owner[idx] != i,
    ensures
        owned_count(owner, dist, i, k) == 0,
        owned_food_count(b, owner, dist, i, k) == 0,
    decreases k,
{
    if k > 0 {
        lemma_owned_absent(b, owner, dist, i, k - 1);
    }
}

/// Only living snakes hold territory or food: when the search is over, a dead or
/// absent snake has territory 0 and food count 0.
pub proof fn lemma_dead_snakes_hold_nothing(b: BoardView, i: int)
    requires
        b.wf(),
        0 <= i < MAX_SNAKES,
        !(i < b.snake_count && b.snakes[i].alive),
    ensures
        bfs_final(b).territory[i] == 0,
        bfs_final(b).food[i] == 0,
{
    let fin = bfs_final(b);
    lemma_territory_is_voronoi(b);
    lemma_territory_counts_owned_cells(b);
    lemma_food_counts_owned_food(b);
    lemma_seeded_exact(b);
    lemma_iter_keeps(b, seed_from(b, bfs_start(), 0, b.snake_count as int), SEARCH_BOUND as nat);
    lemma_inv_bound(b, fin);
    assert forall|idx: int| 0 <= idx < MAX_CELLS implies #[trigger] fin.owner[idx] != i as u8 by {
        if fin.owner[idx] == i as u8 {
            assert(fin.owner[idx] != UNCLAIMED);
        }
    }
    lemma_owned_absent(b, fin.owner, fin.dist, i as u8, MAX_CELLS as int);
    assert(fin.territory[i] as int == owned_count(fin.owner, fin.dist, i as u8, MAX_CELLS as int));
    assert(fin.food[i] as int == owned_food_count(b, fin.owner, fin.dist, i as u8, MAX_CELLS as int));
}

// ── Cell counts ─────────────────────────────────────────────────────────────

/// Number of the first `k` cells that lie on a `w` x `h` board.
pub open spec fn board_cell_count(w: int, h: int, k: int) -> int
    decreases k,
{
    if k <= 0 {
        0
    } else {
        board_cell_count(w, h, k - 1) + if cell_coord(k - 1).inside(w, h) {
            1int
        } else {
            0int
        }
    }
}

proof fn lemma_board_row(w: int, h: int, y: int, x: int)
    requires
        1 <= w <= MAX_DIM,
        1 <= h <= MAX_DIM,
        0 <= y < MAX_DIM,
        0 <= x <= MAX_DIM,
    ensures
        board_cell_count(w, h, MAX_DIM * y + x) == board_cell_count(w, h, MAX_DIM * y) + if y < h {
            if x < w {
                x
            } else {
                w
            }
        } else {
            0
        },
    decreases x,
{
    if x > 0 {
        lemma_board_row(w, h, y, x - 1);
        let c = Coord { x: (x - 1) as i32, y: y as i32 };
        lemma_index_roundtrip(c, 0);
        assert(cell_index(c) == MAX_DIM * y + x - 1);
    }
}

/// A `w` x `h` board has `w * h` cells in the cell array.
proof fn lemma_board_cells(w: int, h: int, y: int)
    requires
        1 <= w <= MAX_DIM,
        1 <= h <= MAX_DIM,
        0 <= y <= MAX_DIM,
    ensures
        board_cell_count(w, h, MAX_DIM * y) == w * (if y < h {
            y
        } else {
            h
        }),
    decreases y,
{
    if y > 0 {
        lemma_board_cells(w, h, y - 1);
        lemma_board_row(w, h, y - 1, MAX_DIM as int);
        assert(MAX_DIM * (y - 1) + MAX_DIM == MAX_DIM * y);
        if y - 1 < h {
            assert(w * (y - 1) + w == w * y) by (nonlinear_arith);
        }
    }
}

/// Number of the first `k` cells owned by snake `i`, at any distance.
pub open spec fn held_count(owner: Seq<u8>, i: int, k: int) -> int
    decreases k,
{
    if k <= 0 {
        0
    } else {
        held_count(owner, i, k - 1) + if owner[k - 1] as int == i {
            1int
        } else {
            0int
        }
    }
}

/// `held_count` summed over the snakes `0..n`.
pub open spec fn held_sum(owner: Seq<u8>, n: int, k: int) -> int
    decreases n,
{
    if n <= 0 {
        0
    } else {
        held_sum(owner, n - 1, k) + held_count(owner, n - 1, k)
    }
}

/// Number of the first `k` cells owned by one of the snakes `0..n`.
pub open spec fn held_any(owner: Seq<u8>, n: int, k: int) -> int
    decreases k,
{
    if k <= 0 {
        0
    } else {
        held_any(owner, n, k - 1) + if (owner[k - 1] as int) < n {
            1int
        } else {
            0int
        }
    }
}

proof fn lemma_held_sum_step(owner: Seq<u8>, n: int, k: int)
    requires
        0 <= n,
        k > 0,
    ensures
        held_sum(owner, n, k) == held_sum(owner, n, k - 1) + if (owner[k - 1] as int) < n {
            1int
        } else {
            0int
        },
    decreases n,
{
    if n > 0 {
        lemma_held_sum_step(owner, n - 1, k);
    }
}

proof fn lemma_held_sum_any(owner: Seq<u8>, n: int, k: int)
    requires
        0 <= n,
        0 <= k,
    ensures
        held_sum(owner, n, k) == held_any(owner, n, k),
    decreases k,
{
    if k > 0 {
        lemma_held_sum_any(owner, n, k - 1);
        lemma_held_sum_step(owner, n, k);
    } else {
        lemma_held_sum_zero(owner, n);
    }
}

proof fn lemma_held_sum_zero(owner: Seq<u8>, n: int)
    ensures
        held_sum(owner, n, 0) == 0,
    decreases n,
{
    if n > 0 {
        lemma_held_sum_zero(owner, n - 1);
    }
}

/// Cells owned at distance 0 by snake `i` among the first `k`.
pub open spec fn home_count(owner: Seq<u8>, dist: Seq<i32>, i: u8, k: int) -> int
    decreases k,
{
    if k <= 0 {
        0
    } else {
        home_count(owner, dist, i, k - 1) + if owner[k - 1] == i && dist[k - 1] <= 0 {
            1int
        } else {
            0int
        }
    }
}

proof fn lemma_held_split(owner: Seq<u8>, dist: Seq<i32>, i: int, k: int)
    requires
        0 <= i < 256,
        0 <= k,
    ensures
        held_count(owner, i, k) == owned_count(owner, dist, i as u8, k) + home_count(owner, dist, i as u8, k),
        home_count(owner, dist, i as u8, k) >= 0,
    decreases k,
{
    if k > 0 {
        lemma_held_split(owner, dist, i, k - 1);
    }
}

proof fn lemma_home_at(owner: Seq<u8>, dist: Seq<i32>, i: u8, k: int, idx: int)
    requires
        0 <= idx < k,
        owner[idx] == i,
        dist[idx] <= 0,
    ensures
        home_count(owner, dist, i, k) >= 1,
    decreases k,
{
    if k - 1 > idx {
        lemma_home_at(owner, dist, i, k - 1, idx);
    } else {
        lemma_home_nonneg(owner, dist, i, k - 1);
    }
}

proof fn lemma_home_nonneg(owner: Seq<u8>, dist: Seq<i32>, i: u8, k: int)
    ensures
        home_count(owner, dist, i, k) >= 0,
    decreases k,
{
    if k > 0 {
        lemma_home_nonneg(owner, dist, i, k - 1);
    }
}

proof fn lemma_held_any_board(b: BoardView, st: Bfs, k: int)
    requires
        b.wf(),
        0 <= k <= MAX_CELLS,
        st.owner.len() == MAX_CELLS,
        forall|idx: int|
            0 <= idx < MAX_CELLS && (#[trigger] st.owner[idx] as int) < MAX_SNAKES ==> cell_coord(idx).inside(
                b.width as int,
                b.height as int,
            ),
    ensures
        held_any(st.owner, MAX_SNAKES as int, k) <= board_cell_count(b.width as int, b.height as int, k),
    decreases k,
{
    if k > 0 {
        lemma_held_any_board(b, st, k - 1);
    }
}

/// No two living snakes have their heads on the same cell.
pub open spec fn distinct_heads(b: BoardView) -> bool {
    forall|s: int, t: int|
        0 <= s < b.snake_count && 0 <= t < b.snake_count && s != t && (#[trigger] b.snakes[s]).alive
            && (#[trigger] b.snakes[t]).alive ==> b.snakes[s].head != b.snakes[t].head
}

/// Every living snake among the first `n` owns its head cell at distance 0.
pub open spec fn heads_owned(b: BoardView, st: Bfs, n: int) -> bool {
    forall|s: int|
        0 <= s < n && (#[trigger] b.snakes[s]).alive ==> st.owner[cell_index(b.snakes[s].head)] == s as u8
            && st.dist[cell_index(b.snakes[s].head)] == 0
}

proof fn lemma_seed_heads(b: BoardView, st: Bfs, si: int, n: int)
    requires
        b.wf(),
        distinct_heads(b),
        0 <= si <= n,
        n == b.snake_count,
        st.owner.len() == MAX_CELLS,
        st.dist.len() == MAX_CELLS,
        heads_owned(b, st, si),
    ensures
        heads_owned(b, seed_from(b, st, si, n), n),
    decreases n - si,
{
    if si < n {
        let st1 = seed_one(b, st, si);
        let sn = b.snakes[si];
        let h = cell_index(sn.head);
        if sn.alive {
            assert(snake_fits(sn, b.width as int, b.height as int));
            lemma_index_roundtrip(sn.head, h);
            assert forall|s: int| 0 <= s < si + 1 && (#[trigger] b.snakes[s]).alive implies st1.owner[cell_index(
                b.snakes[s].head,
            )] == s as u8 && st1.dist[cell_index(b.snakes[s].head)] == 0 by {
                if s != si {
                    assert(snake_fits(b.snakes[s], b.width as int, b.height as int));
                    lemma_index_roundtrip(b.snakes[s].head, 0);
                    assert(b.snakes[s].head != sn.head);
                    assert(cell_index(b.snakes[s].head) != h);
                }
            }
        }
        lemma_seed_heads(b, st1, si + 1, n);
    }
}

/// Territories plus the living snakes' head cells sum to the number of owned
/// cells, one owner per cell, for the snakes `0..n`.
proof fn lemma_territory_sum(b: BoardView, fin: Bfs, n: int)
    requires
        b.wf(),
        0 <= n <= MAX_SNAKES,
        fin.owner.len() == MAX_CELLS,
        fin.dist.len() == MAX_CELLS,
        territory_exact(fin),
        heads_owned(b, fin, b.snake_count as int),
        forall|i: int| b.snake_count <= i < MAX_SNAKES ==> !(#[trigger] b.snakes[i]).alive,
    ensures
        territory_total(fin, n) + b.alive_upto(n) <= held_sum(fin.owner, n, MAX_CELLS as int),
    decreases n,
{
    if n > 0 {
        lemma_territory_sum(b, fin, n - 1);
        lemma_held_split(fin.owner, fin.dist, n - 1, MAX_CELLS as int);
        assert(fin.territory[n - 1] as int == owned_count(fin.owner, fin.dist, (n - 1) as u8, MAX_CELLS as int));
        if b.snakes[n - 1].alive {
            let sn = b.snakes[n - 1];
            assert(n - 1 < b.snake_count);
            assert(snake_fits(sn, b.width as int, b.height as int));
            lemma_index_roundtrip(sn.head, 0);
            lemma_home_at(fin.owner, fin.dist, (n - 1) as u8, MAX_CELLS as int, cell_index(sn.head));
        }
    }
}

/// The sum of the territories of the snakes `0..n`.
pub open spec fn territory_total(st: Bfs, n: int) -> int
    decreases n,
{
    if n <= 0 {
        0
    } else {
        territory_total(st, n - 1) + st.territory[n - 1] as int
    }
}

/// Territory fits on the board: when no two living heads share a cell, the
/// territories of all snakes plus one head cell per living snake add up to at
/// most the number of cells on the board.
pub proof fn lemma_territory_fits_board(b: BoardView)
    requires
        b.wf(),
        distinct_heads(b),
    ensures
        territory_total(bfs_final(b), MAX_SNAKES as int) + b.alive_total() <= b.width * b.height,
{
    let n = b.snake_count as int;
    lemma_seeded_exact(b);
    lemma_seed_start(b);
    assert(vor_core(b, bfs_start()));
    lemma_seed_vor(b, bfs_start(), 0, n);
    let seeded = seed_from(b, bfs_start(), 0, n);
    lemma_seed_head(b, bfs_start(), 0, n);
    lemma_seed_heads(b, bfs_start(), 0, n);
    lemma_iter_vor(b, seeded, SEARCH_BOUND as nat);
    lemma_territory_counts_owned_cells(b);
    let fin = bfs_final(b);
    lemma_inv_bound(b, fin);
    reveal(bfs_core);
    lemma_territory_is_voronoi(b);
    assert(heads_owned(b, fin, n)) by {
        assert forall|s: int| 0 <= s < n && (#[trigger] b.snakes[s]).alive implies fin.owner[cell_index(
            b.snakes[s].head,
        )] == s as u8 && fin.dist[cell_index(b.snakes[s].head)] == 0 by {
            let h = cell_index(b.snakes[s].head);
            assert(snake_fits(b.snakes[s], b.width as int, b.height as int));
            lemma_index_roundtrip(b.snakes[s].head, h);
            assert(seeded.dist[h] == 0);
            assert(seeded.owner[h] != UNCLAIMED);
        }
    }
    assert forall|i: int| b.snake_count <= i < MAX_SNAKES implies !(#[trigger] b.snakes[i]).alive by {
        assert(b.snakes[i] == crate::board::absent_snake());
    }
    lemma_territory_sum(b, fin, MAX_SNAKES as int);
    lemma_alive_upto_same(b, n);
    lemma_held_sum_any(fin.owner, MAX_SNAKES as int, MAX_CELLS as int);
    assert forall|idx: int|
        0 <= idx < MAX_CELLS && (#[trigger] fin.owner[idx] as int) < MAX_SNAKES implies cell_coord(idx).inside(
        b.width as int,
        b.height as int,
    ) by {
        let p = choose|p: int|
            0 <= p < fin.queue.len() && cell_index((#[trigger] fin.queue[p]).0) == idx && fin.queue[p].1
                == fin.owner[idx] && fin.queue[p].2 == fin.dist[idx];
        lemma_entry_facts(b, fin, p);
        lemma_index_roundtrip(fin.queue[p].0, idx);
    }
    lemma_held_any_board(b, fin, MAX_CELLS as int);
    lemma_board_cells(b.width as int, b.height as int, MAX_DIM as int);
    assert(MAX_DIM * MAX_DIM == MAX_CELLS);
}

/// Counting living snakes past the used slots adds nothing.
proof fn lemma_alive_upto_same(b: BoardView, n: int)
    requires
        b.wf(),
        n == b.snake_count,
    ensures
        b.alive_upto(MAX_SNAKES as int) == b.alive_total(),
{
    lemma_alive_upto_tail(b, n, MAX_SNAKES as int);
}

proof fn lemma_alive_upto_tail(b: BoardView, n: int, k: int)
    requires
        b.wf(),
        n == b.snake_count,
        n <= k <= MAX_SNAKES,
    ensures
        b.alive_upto(k) == b.alive_upto(n),
    decreases k,
{
    if k > n {
        lemma_alive_upto_tail(b, n, k - 1);
        assert(b.snakes[k - 1] == crate::board::absent_snake());
    }
}

// ── What the flood fill enters ─────────────────────────────────────────────

/// The flood fill always reaches its starting cell when that cell is on the board.
pub proof fn lemma_area_reaches_start(b: BoardView, start: Coord)
    ensures
        area_reaches(b, start, start),
{
    let p = seq![start];
    assert(area_path(b, p));
    assert(p.last() == start);
}

/// The flood fill passes into every neighbouring board cell that is empty, holds
/// food, a hazard or both, or holds a body segment that leaves within a turn; only
/// heads and longer-staying body segments stop it.
pub proof fn lemma_area_enters_free_cells(b: BoardView, start: Coord, c: Coord, d: Direction)
    requires
        area_reaches(b, start, c),
        b.target(c, d).inside(b.width as int, b.height as int),
        match b.cells[cell_index(b.target(c, d))] {
            Cell::Empty | Cell::Food | Cell::Hazard | Cell::HazardFood => true,
            Cell::SnakeBody(_, ttl) => ttl <= 1,
            Cell::SnakeHead(_) => false,
        },
    ensures
        area_reaches(b, start, b.target(c, d)),
{
    let c2 = b.target(c, d);
    let p = choose|p: Seq<Coord>| area_path(b, p) && p[0] == start && #[trigger] p.last() == c;
    let p2 = p.push(c2);
    assert(area_step(b, c, c2));
    assert forall|i: int| 0 <= i < p2.len() - 1 implies area_step(b, #[trigger] p2[i], p2[i + 1]) by {
        if i < p.len() - 1 {
            assert(p2[i] == p[i] && p2[i + 1] == p[i + 1]);
        } else {
            assert(p2[i] == c);
        }
    }
    assert(p2.last() == c2);
    assert(p2[0] == start);
}

/// The nearest-food distance is a lower bound: when the search is over, each
/// snake's nearest-food distance is at most the distance of every food cell it
/// owns.
pub proof fn lemma_nearest_food_bound(b: BoardView)
    requires
        b.wf(),
    ensures
        forall|idx: int|
            0 <= idx < MAX_CELLS && #[trigger] bfs_final(b).owner[idx] != UNCLAIMED && has_food(b.cells[idx])
                && bfs_final(b).dist[idx] > 0 ==> bfs_final(b).near[bfs_final(b).owner[idx] as int]
                <= bfs_final(b).dist[idx],
{
    let n = b.snake_count as int;
    lemma_seeded_exact(b);
    lemma_seed_start(b);
    assert(vor_core(b, bfs_start()));
    lemma_seed_vor(b, bfs_start(), 0, n);
    let seeded = seed_from(b, bfs_start(), 0, n);
    lemma_seed_head(b, bfs_start(), 0, n);
    lemma_iter_vor(b, seeded, SEARCH_BOUND as nat);
}

/// Every cell the flood fill reaches, other than its start, lies on the board and
/// is passable: not a head, and not a body segment that stays more than one turn.
pub proof fn lemma_area_reaches_passable(b: BoardView, start: Coord, c: Coord)
    requires
        area_reaches(b, start, c),
        c != start,
    ensures
        c.inside(b.width as int, b.height as int),
        match b.cells[cell_index(c)] {
            Cell::SnakeHead(_) => false,
            Cell::SnakeBody(_, ttl) => ttl <= 1,
            _ => true,
        },
{
    let p = choose|p: Seq<Coord>| area_path(b, p) && p[0] == start && #[trigger] p.last() == c;
    assert(p.len() >= 2);
    assert(area_step(b, p[p.len() - 2], p[p.len() - 1]));
}

proof fn lemma_reached_upto_bounds(b: BoardView, start: Coord, k: int)
    requires
        0 <= k <= MAX_CELLS,
    ensures
        reached_upto(b, start, k) <= board_cell_count(b.width as int, b.height as int, k),
        start.inside(b.width as int, b.height as int) && 0 <= start.x < MAX_DIM && 0 <= start.y < MAX_DIM
            && cell_index(start) < k ==> reached_upto(b, start, k) >= 1,
        reached_upto(b, start, k) >= 0,
    decreases k,
{
    if k > 0 {
        lemma_reached_upto_bounds(b, start, k - 1);
        if start.inside(b.width as int, b.height as int) && 0 <= start.x < MAX_DIM && 0 <= start.y < MAX_DIM
            && cell_index(start) == k - 1 {
            lemma_index_roundtrip(start, k - 1);
            lemma_area_reaches_start(b, start);
            assert(reached_index(b, start, k - 1));
        }
    }
}

/// The flood-fill area counts at least its starting cell when that cell is on the
/// board, and at most the cells of the board.
pub proof fn lemma_area_bounds(b: BoardView, start: Coord)
    requires
        b.wf(),
    ensures
        start.inside(b.width as int, b.height as int) ==> area_of(b, start) >= 1,
        0 <= area_of(b, start) <= b.width * b.height,
{
    lemma_reached_upto_bounds(b, start, MAX_CELLS as int);
    lemma_board_cells(b.width as int, b.height as int, MAX_DIM as int);
    assert(MAX_DIM * MAX_DIM == MAX_CELLS);
    if start.inside(b.width as int, b.height as int) {
        lemma_index_roundtrip(start, 0);
    }
}

proof fn lemma_count_covers_owned(v: Seq<bool>, owner: Seq<u8>, dist: Seq<i32>, i: u8, k: int)
    requires
        0 <= k,
        forall|idx: int| 0 <= idx < k && owner[idx] == i && dist[idx] > 0 ==> #[trigger] v[idx],
    ensures
        count_true(v, k) >= owned_count(owner, dist, i, k),
    decreases k,
{
    if k > 0 {
        lemma_count_covers_owned(v, owner, dist, i, k - 1);
    }
}

/// Reachable cells for our snake: when the search is over, every cell our snake
/// owns away from its head counts, and so does every cell it reaches at the same
/// time as the owner (a contested cell lost on a tie): a cell next to one of ours
/// that our snake may enter one step later, and that is at exactly that distance.
/// So our reachable count is at least our territory.
pub proof fn lemma_our_reachable_counts(b: BoardView)
    requires
        b.wf(),
    ensures
        forall|idx: int|
            0 <= idx < MAX_CELLS && #[trigger] bfs_final(b).owner[idx] as int == b.our_index
                && bfs_final(b).dist[idx] > 0 ==> bfs_final(b).ours[idx],
        forall|idx: int, j: int|
            0 <= idx < MAX_CELLS && bfs_final(b).owner[idx] as int == b.our_index && 0 <= j < 4 && enterable(
                b,
                b.target(cell_coord(idx), all_directions()[j]),
                bfs_final(b).owner[idx],
                bfs_final(b).dist[idx] + 1,
            ) && bfs_final(b).dist[cell_index(b.target(cell_coord(idx), all_directions()[j]))]
                == bfs_final(b).dist[idx] + 1 ==> #[trigger] bfs_final(b).ours[cell_index(
                b.target(cell_coord(idx), all_directions()[j]),
            )],
        count_true(bfs_final(b).ours, MAX_CELLS as int) >= bfs_final(b).territory[b.our_index as int],
{
    let n = b.snake_count as int;
    lemma_seeded_exact(b);
    lemma_seed_start(b);
    assert(vor_core(b, bfs_start()));
    lemma_seed_vor(b, bfs_start(), 0, n);
    let seeded = seed_from(b, bfs_start(), 0, n);
    lemma_seed_head(b, bfs_start(), 0, n);
    lemma_iter_vor(b, seeded, SEARCH_BOUND as nat);
    lemma_territory_counts_owned_cells(b);
    let fin = bfs_final(b);
    lemma_inv_bound(b, fin);
    reveal(bfs_core);
    assert forall|idx: int, j: int|
        0 <= idx < MAX_CELLS && fin.owner[idx] as int == b.our_index && 0 <= j < 4 && enterable(
            b,
            b.target(cell_coord(idx), all_directions()[j]),
            fin.owner[idx],
            fin.dist[idx] + 1,
        ) && fin.dist[cell_index(b.target(cell_coord(idx), all_directions()[j]))] == fin.dist[idx] + 1 implies #[trigger] fin.ours[cell_index(
        b.target(cell_coord(idx), all_directions()[j]),
    )] by {
        let p = choose|p: int|
            0 <= p < fin.queue.len() && cell_index((#[trigger] fin.queue[p]).0) == idx && fin.queue[p].1
                == fin.owner[idx] && fin.queue[p].2 == fin.dist[idx];
        assert(settles(b, fin, fin.queue[p], j));
        lemma_entry_facts(b, fin, p);
        lemma_index_roundtrip(fin.queue[p].0, idx);
    }
    lemma_count_covers_owned(fin.ours, fin.owner, fin.dist, b.our_index as u8, MAX_CELLS as int);
}

} // verus!
