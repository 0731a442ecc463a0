//! Coordinates, directions, game modes and the game state that the server receives.
use vstd::prelude::*;
use vstd::string::*;

verus! {

// ── Coordinates ──────────────────────────────────────────────────────────────

/// A cell position on the board; `x` grows to the right, `y` grows upwards.
#[derive(Debug, Clone, Copy, PartialEq, Eq, Structural, Hash)]
pub struct Coord {
    pub x: i32,
    pub y: i32,
}

/// Absolute value of an integer.
pub open spec fn abs_int(v: int) -> int {
    if v < 0 { -v } else { v }
}

/// The coordinate one step away from `c` in direction `dir` (no wrapping).
pub open spec fn stepped(c: Coord, dir: Direction) -> Coord {
    match dir {
        Direction::Up => Coord { x: c.x, y: (c.y + 1) as i32 },
        Direction::Down => Coord { x: c.x, y: (c.y - 1) as i32 },
        Direction::Left => Coord { x: (c.x - 1) as i32, y: c.y },
        Direction::Right => Coord { x: (c.x + 1) as i32, y: c.y },
    }
}

/// The remainder of `a` by `d` as integer `%` computes it: the sign of `a`, and
/// the magnitude of `|a|` modulo `|d|`.
pub open spec fn rem_toward_zero(a: int, d: int) -> int {
    if a >= 0 {
        a % abs_int(d)
    } else {
        -((-a) % abs_int(d))
    }
}

/// `((v % n) + n) % n` with the integer remainder above.
pub open spec fn wrap_axis(v: int, n: int) -> int {
    rem_toward_zero(rem_toward_zero(v, n) + n, n)
}

/// `((v % n) + n) % n`.
fn wrap_value(v: i32, n: i32) -> (r: i32)
    requires
        n != 0,
        !(n == -1 && v == i32::MIN),
        i32::MIN <= rem_toward_zero(v as int, n as int) + n <= i32::MAX,
    ensures
        r == wrap_axis(v as int, n as int),
{
    let m = v.checked_rem(n).unwrap();
    assert(m == rem_toward_zero(v as int, n as int));
    let s = m + n;
    let r = s.checked_rem(n).unwrap();
    r
}

/// For a positive modulus, wrapping an axis gives the Euclidean remainder.
pub proof fn lemma_wrap_axis_euclid(v: int, n: int)
    requires
        n > 0,
    ensures
        wrap_axis(v, n) == v % n,
        0 <= wrap_axis(v, n) < n,
{
    if v >= 0 {
        let r = v % n;
        assert(0 <= r < n);
        vstd::arithmetic::div_mod::lemma_fundamental_div_mod_converse(r + n, n, 1, r);
    } else {
        let q = (-v) / n;
        let s = (-v) % n;
        vstd::arithmetic::div_mod::lemma_fundamental_div_mod(-v, n);
        assert(-v == n * q + s);
        assert(0 <= s < n);
        if s == 0 {
            assert(v == (-q) * n + 0) by (nonlinear_arith)
                requires
                    -v == n * q + s,
                    s == 0,
            ;
            vstd::arithmetic::div_mod::lemma_fundamental_div_mod_converse(v, n, -q, 0);
            vstd::arithmetic::div_mod::lemma_fundamental_div_mod_converse(n, n, 1, 0);
        } else {
            assert(v == (-q - 1) * n + (n - s)) by (nonlinear_arith)
                requires
                    -v == n * q + s,
            ;
            vstd::arithmetic::div_mod::lemma_fundamental_div_mod_converse(v, n, -q - 1, n - s);
            vstd::arithmetic::div_mod::lemma_fundamental_div_mod_converse(n - s, n, 0, n - s);
        }
    }
}

proof fn lemma_wrap_unit(v: int, n: int)
    requires
        1 <= n,
        -1 <= v <= n,
    ensures
        v % n == if v == -1 {
            n - 1
        } else if v == n {
            0
        } else {
            v
        },
{
    if v == -1 {
        vstd::arithmetic::div_mod::lemma_fundamental_div_mod_converse(v, n, -1, n - 1);
    } else if v == n {
        vstd::arithmetic::div_mod::lemma_fundamental_div_mod_converse(v, n, 1, 0);
    } else {
        vstd::arithmetic::div_mod::lemma_small_mod(v as nat, n as nat);
    }
}

/// A step on a `width` x `height` torus from a cell on the board: it lands on the
/// board, the opposite step brings it back, and where the plain step stays on the
/// board the wrapped step is that step. (`apply_move_wrapped` computes `wrapped`
/// of the plain step on such boards.)
pub proof fn lemma_wrapped_step(c: Coord, d: Direction, width: int, height: int)
    requires
        1 <= width <= i32::MAX,
        1 <= height <= i32::MAX,
        c.inside(width, height),
    ensures
        wrapped(stepped(c, d), width, height).inside(width, height),
        wrapped(stepped(wrapped(stepped(c, d), width, height), d.reverse()), width, height) == c,
        stepped(c, d).inside(width, height) ==> wrapped(stepped(c, d), width, height) == stepped(c, d),
{
    let s = stepped(c, d);
    lemma_wrap_unit(s.x as int, width);
    lemma_wrap_unit(s.y as int, height);
    let t = wrapped(s, width, height);
    let s2 = stepped(t, d.reverse());
    lemma_wrap_unit(s2.x as int, width);
    lemma_wrap_unit(s2.y as int, height);
}

/// `c` brought back onto a `width` x `height` torus (Euclidean remainder on each axis).
pub open spec fn wrapped(c: Coord, width: int, height: int) -> Coord {
    Coord { x: ((c.x as int) % width) as i32, y: ((c.y as int) % height) as i32 }
}

impl Coord {
    /// A coordinate from which a single step in any direction stays within `i32`.
    pub open spec fn can_step(self) -> bool {
        i32::MIN < self.x < i32::MAX && i32::MIN < self.y < i32::MAX
    }

    /// A coordinate from which a step in direction `dir` stays within `i32`.
    pub open spec fn can_step_to(self, dir: Direction) -> bool {
        match dir {
            Direction::Up => self.y < i32::MAX,
            Direction::Down => self.y > i32::MIN,
            Direction::Left => self.x > i32::MIN,
            Direction::Right => self.x < i32::MAX,
        }
    }

    /// Manhattan distance, as a mathematical integer.
    pub open spec fn manhattan(self, other: Coord) -> int {
        abs_int(self.x - other.x) + abs_int(self.y - other.y)
    }

    /// Whether the coordinate lies on a `width` x `height` board.
    pub open spec fn inside(self, width: int, height: int) -> bool {
        0 <= self.x < width && 0 <= self.y < height
    }

    pub fn new(x: i32, y: i32) -> (c: Coord)
        ensures
            c.x == x,
            c.y == y,
    {
        Coord { x, y }
    }

    /// Manhattan distance to another coordinate.
    pub fn dist(&self, other: &Coord) -> (d: i32)
        requires
            i32::MIN < self.x - other.x <= i32::MAX,
            i32::MIN < self.y - other.y <= i32::MAX,
            self.manhattan(*other) <= i32::MAX,
        ensures
            d == self.manhattan(*other),
    {
        let dx = self.x - other.x;
        let dy = self.y - other.y;
        let ax = if dx < 0 { -dx } else { dx };
        let ay = if dy < 0 { -dy } else { dy };
        ax + ay
    }

    /// Move one step in the given direction.
    pub fn apply_move(&self, dir: Direction) -> (c: Coord)
        requires
            self.can_step_to(dir),
        ensures
            c == stepped(*self, dir),
    {
        match dir {
            Direction::Up => Coord::new(self.x, self.y + 1),
            Direction::Down => Coord::new(self.x, self.y - 1),
            Direction::Left => Coord::new(self.x - 1, self.y),
            Direction::Right => Coord::new(self.x + 1, self.y),
        }
    }

    /// Move one step in the given direction, wrapping around the board edges.
    pub fn apply_move_wrapped(&self, dir: Direction, width: i32, height: i32) -> (c: Coord)
        requires
            self.can_step_to(dir),
            width != 0,
            height != 0,
            !(width == -1 && stepped(*self, dir).x == i32::MIN),
            !(height == -1 && stepped(*self, dir).y == i32::MIN),
            i32::MIN <= rem_toward_zero(stepped(*self, dir).x as int, width as int) + width <= i32::MAX,
            i32::MIN <= rem_toward_zero(stepped(*self, dir).y as int, height as int) + height <= i32::MAX,
        ensures
            c.x == wrap_axis(stepped(*self, dir).x as int, width as int),
            c.y == wrap_axis(stepped(*self, dir).y as int, height as int),
            width > 0 && height > 0 ==> c == wrapped(stepped(*self, dir), width as int, height as int)
                && c.inside(width as int, height as int),
    {
        let mut c = self.apply_move(dir);
        c.x = wrap_value(c.x, width);
        c.y = wrap_value(c.y, height);
        proof {
            let s = stepped(*self, dir);
            if width > 0 {
                lemma_wrap_axis_euclid(s.x as int, width as int);
            }
            if height > 0 {
                lemma_wrap_axis_euclid(s.y as int, height as int);
            }
        }
        c
    }

    /// All 4 cardinal neighbors, in the order up, down, left, right (no bounds checking).
    pub fn neighbors(&self) -> (n: [Coord; 4])
        requires
            self.can_step(),
        ensures
            forall|k: int| 0 <= k < 4 ==> n@[k] == stepped(*self, #[trigger] all_directions()[k]),
    {
        [
            Coord::new(self.x, self.y + 1),
            Coord::new(self.x, self.y - 1),
            Coord::new(self.x - 1, self.y),
            Coord::new(self.x + 1, self.y),
        ]
    }

    /// Check if within bounds of a board.
    pub fn in_bounds(&self, width: i32, height: i32) -> (b: bool)
        ensures
            b == self.inside(width as int, height as int),
    {
        self.x >= 0 && self.x < width && self.y >= 0 && self.y < height
    }
}

// ── Direction ────────────────────────────────────────────────────────────────

#[derive(Debug, Clone, Copy, PartialEq, Eq, Structural, Hash)]
pub enum Direction {
    Up,
    Down,
    Left,
    Right,
}

/// The four directions in the order in which moves are tried.
pub open spec fn all_directions() -> Seq<Direction> {
    seq![Direction::Up, Direction::Down, Direction::Left, Direction::Right]
}

impl Direction {
    pub const ALL: [Direction; 4] = [
        Direction::Up,
        Direction::Down,
        Direction::Left,
        Direction::Right,
    ];

    pub open spec fn reverse(self) -> Direction {
        match self {
            Direction::Up => Direction::Down,
            Direction::Down => Direction::Up,
            Direction::Left => Direction::Right,
            Direction::Right => Direction::Left,
        }
    }

    /// The lowercase name used on the wire.
    pub open spec fn name(self) -> Seq<char> {
        match self {
            Direction::Up => "up"@,
            Direction::Down => "down"@,
            Direction::Left => "left"@,
            Direction::Right => "right"@,
        }
    }

    /// Return the opposite direction.
    pub fn opposite(self) -> (d: Direction)
        ensures
            d == self.reverse(),
    {
        match self {
            Direction::Up => Direction::Down,
            Direction::Down => Direction::Up,
            Direction::Left => Direction::Right,
            Direction::Right => Direction::Left,
        }
    }

    /// The lowercase name of the direction ("up", "down", "left" or "right").
    pub fn to_string(&self) -> (s: String)
        ensures
            s@ == self.name(),
    {
        match self {
            Direction::Up => String::from_str("up"),
            Direction::Down => String::from_str("down"),
            Direction::Left => String::from_str("left"),
            Direction::Right => String::from_str("right"),
        }
    }
}

/// `Direction::ALL` lists the four directions in the order up, down, left, right.
pub proof fn lemma_all_directions()
    ensures
        Direction::ALL@ == all_directions(),
        forall|d: Direction| all_directions().contains(d),
{
    assert(Direction::ALL@ =~= all_directions());
    assert forall|d: Direction| all_directions().contains(d) by {
        match d {
            Direction::Up => assert(all_directions()[0] == d),
            Direction::Down => assert(all_directions()[1] == d),
            Direction::Left => assert(all_directions()[2] == d),
            Direction::Right => assert(all_directions()[3] == d),
        }
    }
}

/// The opposite of the opposite of a direction is the direction itself, and no
/// direction is its own opposite.
pub proof fn lemma_opposite_involution(d: Direction)
    ensures
        d.reverse().reverse() == d,
        d.reverse() != d,
{
}

/// A step followed by a step in the opposite direction returns to the start (and
/// that step back stays within `i32`), and a single step always covers Manhattan
/// distance one.
pub proof fn lemma_step_then_back(c: Coord, d: Direction)
    requires
        c.can_step_to(d),
    ensures
        stepped(c, d).can_step_to(d.reverse()),
        stepped(stepped(c, d), d.reverse()) == c,
        c.manhattan(stepped(c, d)) == 1,
        stepped(c, d) != c,
{
}

/// Manhattan distance is symmetric and zero exactly on equal coordinates.
pub proof fn lemma_manhattan_symmetric(a: Coord, b: Coord)
    ensures
        a.manhattan(b) == b.manhattan(a),
        a.manhattan(b) >= 0,
        a.manhattan(b) == 0 <==> a == b,
{
}

// ── Battlesnake API types ───────────────────────────────────────────────────

#[derive(Debug)]
pub struct GameState {
    pub game: Game,
    pub turn: u32,
    pub board: Board,
    pub you: Snake,
}

#[derive(Debug)]
pub struct Game {
    pub id: String,
    pub ruleset: Ruleset,
    pub timeout: u32,
}

#[derive(Debug)]
pub struct Ruleset {
    pub name: String,
    pub version: String,
    pub settings: Option<RulesetSettings>,
}

#[derive(Debug)]
pub struct RulesetSettings {
    pub hazard_damage_per_turn: Option<i32>,
}

#[derive(Debug)]
pub struct Board {
    pub height: i32,
    pub width: i32,
    pub food: Vec<Coord>,
    pub hazards: Vec<Coord>,
    pub snakes: Vec<Snake>,
}

#[derive(Debug, Clone)]
pub struct Snake {
    pub id: String,
    pub name: String,
    pub health: i32,
    pub body: Vec<Coord>,
    pub head: Coord,
    pub length: i32,
    pub shout: Option<String>,
}

impl Snake {
    pub fn tail(&self) -> (t: Coord)
        requires
            self.body.len() > 0,
        ensures
            t == self.body@.last(),
    {
        self.body[self.body.len() - 1]
    }

    pub fn is_alive(&self) -> (b: bool)
        ensures
            b == (self.health > 0 && self.body.len() > 0),
    {
        self.health > 0 && self.body.len() != 0
    }
}

// ── API response types ──────────────────────────────────────────────────────

pub struct InfoResponse {
    pub apiversion: &'static str,
    pub author: &'static str,
    pub color: &'static str,
    pub head: &'static str,
    pub tail: &'static str,
    pub version: &'static str,
}

pub struct MoveResponse {
    pub mv: Direction,
    pub shout: Option<String>,
}

/// The snake's customization and metadata, answered on `GET /`.
pub fn snake_info() -> (r: InfoResponse)
    ensures
        r.apiversion@ == "1"@,
        r.author@ == "ouroboros"@,
        r.color@ == "#e63946"@,
        r.head@ == "evil"@,
        r.tail@ == "bolt"@,
        r.version@ == "1.0.0"@,
{
    InfoResponse {
        apiversion: "1",
        author: "ouroboros",
        color: "#e63946",
        head: "evil",
        tail: "bolt",
        version: "1.0.0",
    }
}

// ── Game mode ───────────────────────────────────────────────────────────────

#[derive(Debug, Clone, Copy, PartialEq, Eq, Structural)]
pub enum GameMode {
    Standard,
    Royale,
    Constrictor,
    Wrapped,
    Solo,
}

/// Whether two strings hold the same characters.
pub fn str_equal(a: &str, b: &str) -> (r: bool)
    ensures
        r == (a@ == b@),
{
    let n = a.unicode_len();
    let m = b.unicode_len();
    if n != m {
        return false;
    }
    let mut i: usize = 0;
    while i < n
        invariant
            n == a@.len(),
            m == b@.len(),
            n == m,
            i <= n,
            forall|j: int| 0 <= j < i ==> a@[j] == b@[j],
        decreases n - i,
    {
        if a.get_char(i) != b.get_char(i) {
            return false;
        }
        i += 1;
    }
    assert(a@ =~= b@);
    true
}

impl GameMode {
    /// The mode named by a ruleset name; unknown names give `Standard`.
    pub open spec fn named(name: Seq<char>) -> GameMode {
        if name == "royale"@ {
            GameMode::Royale
        } else if name == "constrictor"@ {
            GameMode::Constrictor
        } else if name == "wrapped"@ {
            GameMode::Wrapped
        } else if name == "solo"@ {
            GameMode::Solo
        } else {
            GameMode::Standard
        }
    }

    pub fn from_ruleset(name: &str) -> (m: GameMode)
        ensures
            m == GameMode::named(name@),
    {
        if str_equal(name, "royale") {
            GameMode::Royale
        } else if str_equal(name, "constrictor") {
            GameMode::Constrictor
        } else if str_equal(name, "wrapped") {
            GameMode::Wrapped
        } else if str_equal(name, "solo") {
            GameMode::Solo
        } else {
            GameMode::Standard
        }
    }

    pub fn is_wrapped(&self) -> (b: bool)
        ensures
            b == (*self == GameMode::Wrapped),
    {
        *self == GameMode::Wrapped
    }
}

} // verus!
