//! The per-tick state machine of a board: gravity and lock delay, rotation with kicks,
//! shifting, hard drop, hold, and spawning.
use vstd::prelude::*;
use crate::kinds::{MinoKind, Mino, Pos, RotationState, Hold, rotated, activated, is_standard};
use crate::tables::{ShapeTable, KickTable, offset_ok, shape_slot, kick_slot};
use crate::matrix::{Matrix, Bounds, fits, locked, has_free_space, cell, lock_piece, MAX_DIM};
use crate::queue::{PieceQueue, took};
use crate::controller::{Controller, Settings, CELL_UNITS, fall_rate};

verus! {

/// A direction in which a piece is probed.
#[derive(Debug, Clone, Copy, PartialEq, Eq, Structural)]
pub enum Direction {
    Left,
    Right,
    Down,
}

/// Column step of a direction.
pub open spec fn step_x(d: Direction) -> int {
    match d {
        Direction::Left => -1,
        Direction::Right => 1,
        Direction::Down => 0,
    }
}

/// Row step of a direction.
pub open spec fn step_y(d: Direction) -> int {
    match d {
        Direction::Down => -1,
        _ => 0,
    }
}

/// The shape fits after `o` steps in direction `d` from `(x, y)`.
pub open spec fn fits_after(g: Seq<Seq<MinoKind>>, shape: Seq<Pos>, x: int, y: int, d: Direction, o: int) -> bool {
    fits(g, shape, x + o * step_x(d), y + o * step_y(d))
}

/// `n` steps in direction `d` is as far as the shape can go: every step up to it fits and
/// the next does not.
pub open spec fn is_reach(g: Seq<Seq<MinoKind>>, shape: Seq<Pos>, x: int, y: int, d: Direction, n: int) -> bool {
    &&& n >= 0
    &&& forall|j: int| 0 <= j <= n ==> #[trigger] fits_after(g, shape, x, y, d, j)
    &&& !fits_after(g, shape, x, y, d, n + 1)
}

/// How far the shape can go in direction `d`.
pub open spec fn reach(g: Seq<Seq<MinoKind>>, shape: Seq<Pos>, x: int, y: int, d: Direction) -> int {
    choose|n: int| is_reach(g, shape, x, y, d, n)
}

/// There is one farthest step.
pub proof fn lemma_reach_unique(g: Seq<Seq<MinoKind>>, shape: Seq<Pos>, x: int, y: int, d: Direction, n: int)
    requires
        is_reach(g, shape, x, y, d, n),
    ensures
        reach(g, shape, x, y, d) == n,
{
    let m = reach(g, shape, x, y, d);
    assert(is_reach(g, shape, x, y, d, m));
    if m < n {
        assert(fits_after(g, shape, x, y, d, m + 1));
    } else if m > n {
        assert(fits_after(g, shape, x, y, d, n + 1));
    }
}

/// Offsets that fit in `g` lie within the grid's extent.
proof fn lemma_fit_bounds(g: Seq<Seq<MinoKind>>, shape: Seq<Pos>, x: int, y: int)
    requires
        crate::matrix::grid_wf(g),
        shape.len() > 0,
        offset_ok(shape[0]),
        fits(g, shape, x, y),
    ensures
        -(crate::tables::OFFSET_LIMIT as int) <= x < MAX_DIM + crate::tables::OFFSET_LIMIT,
        -(crate::tables::OFFSET_LIMIT as int) <= y < MAX_DIM + crate::tables::OFFSET_LIMIT,
{
    assert(cell(g, shape[0].x + x, shape[0].y + y) == Some(MinoKind::E));
}

/// The number of steps the shape can go in direction `d` from `(x, y)`, or `None` where it
/// does not fit at `(x, y)` already.
fn maximum_valid(matrix: &Matrix, shape: &Vec<Pos>, x: i32, y: i32, d: Direction) -> (r: Option<i32>)
    requires
        matrix.wf(),
        shape@.len() > 0,
        forall|i: int| 0 <= i < shape@.len() ==> offset_ok(#[trigger] shape@[i]),
    ensures
        r is None <==> !fits(matrix.grid(), shape@, x as int, y as int),
        r matches Some(n) ==> is_reach(matrix.grid(), shape@, x as int, y as int, d, n as int),
{
    let ghost g = matrix.grid();
    let (dx, dy): (i64, i64) = match d {
        Direction::Left => (-1, 0),
        Direction::Right => (1, 0),
        Direction::Down => (0, -1),
    };
    let mut o: i64 = 0;
    assert(offset_ok(shape@[0]));
    while o < 0x2_0000_0000 && matrix.free_at(shape, x as i64 + o * dx, y as i64 + o * dy)
        invariant
            matrix.wf(),
            g == matrix.grid(),
            shape@.len() > 0,
            offset_ok(shape@[0]),
            forall|i: int| 0 <= i < shape@.len() ==> offset_ok(#[trigger] shape@[i]),
            dx == step_x(d),
            dy == step_y(d),
            0 <= o <= 0x2_0000_0000,
            forall|j: int| 0 <= j < o ==> #[trigger] fits_after(g, shape@, x as int, y as int, d, j),
        decreases 0x2_0000_0000 - o,
    {
        assert(fits_after(g, shape@, x as int, y as int, d, o as int));
        proof {
            lemma_fit_bounds(g, shape@, x + o * dx, y + o * dy);
        }
        o = o + 1;
    }
    proof {
        if o == 0x2_0000_0000 {
            assert(fits_after(g, shape@, x as int, y as int, d, o - 1));
            lemma_fit_bounds(g, shape@, x + (o - 1) * dx, y + (o - 1) * dy);
        }
    }
    assert(!fits_after(g, shape@, x as int, y as int, d, o as int));
    if o == 0 {
        assert(x + 0 * dx == x && y + 0 * dy == y);
        None
    } else {
        proof {
            assert(fits_after(g, shape@, x as int, y as int, d, o - 1));
            assert(fits_after(g, shape@, x as int, y as int, d, 0));
            assert(x + 0 * dx == x && y + 0 * dy == y);
            lemma_fit_bounds(g, shape@, x + (o - 1) * dx, y + (o - 1) * dy);
        }
        Some((o - 1) as i32)
    }
}

/// Column of the spawn position.
pub const SPAWN_X: i32 = 4;

/// Row of the spawn position.
pub const SPAWN_Y: i32 = 22;

/// A new piece of kind `kind` at the spawn position, pointing up.
pub open spec fn spawn_mino(kind: MinoKind) -> Mino {
    Mino { kind, position: Pos { x: SPAWN_X, y: SPAWN_Y }, rotation: RotationState::Up }
}

/// A new piece of kind `kind` at the spawn position, pointing up.
pub fn default_mino(kind: MinoKind) -> (r: Mino)
    ensures
        r == spawn_mino(kind),
{
    Mino { kind, position: Pos { x: SPAWN_X, y: SPAWN_Y }, rotation: RotationState::Up }
}

/// Accumulators that turn time into drops and lock-delay expiry.
#[derive(Debug, Clone, Copy, PartialEq, Eq, Structural)]
pub struct DropClock {
    /// Distance fallen and not yet applied, in thousandths of a cell.
    pub fall: u64,
    /// Time spent grounded, in milliseconds.
    pub lock: u64,
}

impl Default for DropClock {
    fn default() -> (r: Self)
        ensures
            r == (DropClock { fall: 0, lock: 0 }),
    {
        DropClock { fall: 0, lock: 0 }
    }
}

/// The state of one board.
pub struct Board {
    pub matrix: Matrix,
    pub bounds: Bounds,
    pub active: Option<Mino>,
    pub hold: Hold,
    pub queue: PieceQueue,
    pub drop_clock: DropClock,
    pub settings: Settings,
}

/// `m` lies on empty cells of `g` only.
pub open spec fn piece_fits(g: Seq<Seq<MinoKind>>, t: ShapeTable, m: Mino) -> bool {
    fits(g, t.shape(m.kind, m.rotation), m.position.x as int, m.position.y as int)
}

/// `m` moved by `(dx, dy)`.
pub open spec fn moved(m: Mino, dx: int, dy: int) -> Mino {
    Mino { position: Pos { x: (m.position.x + dx) as i32, y: (m.position.y + dy) as i32 }, ..m }
}

/// The fields other than the matrix, the active piece, the hold slot, the queue and the
/// clock are equal.
pub open spec fn same_setup(b0: Board, b1: Board) -> bool {
    b1.bounds == b0.bounds && b1.settings == b0.settings
}

/// `b1` is `b0` after an attempt to spawn `piece`, which succeeded iff `r`.
pub open spec fn spawned(b0: Board, b1: Board, t: ShapeTable, piece: Mino, r: bool) -> bool {
    &&& r == piece_fits(b0.matrix.grid(), t, piece)
    &&& same_setup(b0, b1)
    &&& b1.matrix == b0.matrix
    &&& b1.hold == b0.hold
    &&& b1.queue == b0.queue
    &&& r ==> b1.active == Some(piece) && b1.drop_clock == (DropClock { fall: 0, lock: 0 })
    &&& !r ==> b1.active == b0.active && b1.drop_clock == b0.drop_clock
}

/// `b1` is `b0` after its active piece dropped as far as it goes and locked, and the next
/// piece of the queue was spawned; `r` is whether that spawn succeeded.
pub open spec fn dropped_and_locked(b0: Board, b1: Board, t: ShapeTable, r: bool) -> bool {
    let m = b0.active->0;
    let shape = t.shape(m.kind, m.rotation);
    let n = reach(b0.matrix.grid(), shape, m.position.x as int, m.position.y as int, Direction::Down);
    let g = locked(b0.matrix.grid(), shape, m.position.x as int, m.position.y - n, m.kind);
    let next = b0.queue.upcoming()[0];
    &&& same_setup(b0, b1)
    &&& b1.matrix.grid() == g
    &&& r == piece_fits(g, t, spawn_mino(next))
    &&& r ==> b1.active == Some(spawn_mino(next)) && took(b0.queue, b1.queue, next)
        && b1.hold == activated(b0.hold) && b1.drop_clock == (DropClock { fall: 0, lock: 0 })
    &&& !r ==> b1.active is None && b1.queue == b0.queue && b1.hold == b0.hold
        && b1.drop_clock == b0.drop_clock
}

/// Clamps `v` into `[lo, hi]`.
pub open spec fn clamp(v: int, lo: int, hi: int) -> int {
    if v < lo { lo } else if v > hi { hi } else { v }
}

/// `b1` is `b0` after its active piece shifted by the requested amount, clamped to how far it
/// can go either way; `r` is whether it moved.
pub open spec fn shifted(b0: Board, b1: Board, c: Controller, t: ShapeTable, r: bool) -> bool {
    let m = b0.active->0;
    let g = b0.matrix.grid();
    let shape = t.shape(m.kind, m.rotation);
    let left = reach(g, shape, m.position.x as int, m.position.y as int, Direction::Left);
    let right = reach(g, shape, m.position.x as int, m.position.y as int, Direction::Right);
    let s = clamp(c.shift as int, -left, right);
    &&& r == (s != 0)
    &&& b1.active == Some(moved(m, s, 0))
    &&& same_setup(b0, b1)
    &&& b1.matrix == b0.matrix && b1.hold == b0.hold && b1.queue == b0.queue && b1.drop_clock == b0.drop_clock
}

/// The offsets tried, in order, when `m` rotates to `to`.
pub open spec fn kick_candidates(k: KickTable, m: Mino, to: RotationState) -> Seq<Pos> {
    seq![Pos { x: 0, y: 0 }] + k.kicks_of(m.kind, m.rotation, to)
}

/// Candidate `i` is the first candidate offset under which `m` turned to `to` fits.
pub open spec fn first_fit(g: Seq<Seq<MinoKind>>, t: ShapeTable, m: Mino, to: RotationState, cands: Seq<Pos>, i: int) -> bool {
    &&& 0 <= i < cands.len()
    &&& fits(g, t.shape(m.kind, to), m.position.x + cands[i].x, m.position.y + cands[i].y)
    &&& forall|j: int| 0 <= j < i ==> !fits(g, t.shape(m.kind, to), m.position.x + #[trigger] cands[j].x, m.position.y + cands[j].y)
}

/// `b1` is `b0` after the rotation that the controller asks for, if any, resolved by trying
/// the candidate offsets in order; `r` is whether the piece turned.
pub open spec fn rotated_by(b0: Board, b1: Board, c: Controller, k: KickTable, t: ShapeTable, r: bool) -> bool {
    let m = b0.active->0;
    let g = b0.matrix.grid();
    &&& same_setup(b0, b1)
    &&& b1.matrix == b0.matrix && b1.hold == b0.hold && b1.queue == b0.queue && b1.drop_clock == b0.drop_clock
    &&& match c.rotation {
        None => !r && b1.active == b0.active,
        Some(cmd) => {
            let to = rotated(m.rotation, cmd);
            let cands = kick_candidates(k, m, to);
            &&& r == exists|i: int| first_fit(g, t, m, to, cands, i)
            &&& r ==> exists|i: int| first_fit(g, t, m, to, cands, i)
                && b1.active == Some(Mino { rotation: to, ..moved(m, cands[i].x as int, cands[i].y as int) })
            &&& !r ==> b1.active == b0.active
        },
    }
}

/// `b1` is `b0` after a hold request: the active piece goes to the hold slot, inactive, and
/// `r` is the piece that comes out (the held one, or else the next of the queue); nothing
/// changes while the held piece is inactive.
pub open spec fn held(b0: Board, b1: Board, r: Option<MinoKind>) -> bool {
    let m = b0.active->0;
    &&& same_setup(b0, b1)
    &&& b1.matrix == b0.matrix && b1.drop_clock == b0.drop_clock
    &&& match b0.hold {
        Hold::Empty => r == Some(b0.queue.upcoming()[0]) && took(b0.queue, b1.queue, r->0)
            && b1.hold == Hold::Inactive(m.kind) && b1.active is None,
        Hold::Ready(p) => r == Some(p) && b1.queue == b0.queue
            && b1.hold == Hold::Inactive(m.kind) && b1.active is None,
        Hold::Inactive(_) => r is None && b1.queue == b0.queue && b1.hold == b0.hold
            && b1.active == b0.active,
    }
}

/// A held piece is a standard kind.
pub open spec fn hold_standard(h: Hold) -> bool {
    match h {
        Hold::Empty => true,
        Hold::Ready(p) => is_standard(p),
        Hold::Inactive(p) => is_standard(p),
    }
}

/// `b` with the lock accumulator set to `v`.
pub open spec fn with_lock(b: Board, v: u64) -> Board {
    Board { drop_clock: DropClock { lock: v, ..b.drop_clock }, ..b }
}

/// How far the active piece of `b` can fall.
pub open spec fn fall_room(b: Board, t: ShapeTable) -> int {
    let m = b.active->0;
    reach(b.matrix.grid(), t.shape(m.kind, m.rotation), m.position.x as int, m.position.y as int, Direction::Down)
}

/// The active piece of `b` is grounded and its lock delay runs out in a tick of `dt`
/// milliseconds.
pub open spec fn lock_due(b: Board, t: ShapeTable, dt: u32) -> bool {
    fall_room(b, t) == 0 && b.drop_clock.lock.saturating_add(dt as u64) > b.settings.lock_delay
}

/// `b1` is `b0` after a tick of `dt` milliseconds of gravity or lock delay that did not lock
/// its active piece: a grounded piece accumulates lock time; a falling one accumulates
/// distance and falls by its whole cells, no farther than it can.
pub open spec fn fell(b0: Board, b1: Board, c: Controller, t: ShapeTable, dt: u32) -> bool {
    let m = b0.active->0;
    let n = fall_room(b0, t);
    let f = b0.drop_clock.fall.saturating_add(fall_rate(b0.settings, c.soft_drop));
    let whole = (f / CELL_UNITS) as int;
    if n == 0 {
        b1 == with_lock(b0, b0.drop_clock.lock.saturating_add(dt as u64))
    } else if f > CELL_UNITS {
        b1 == Board {
            drop_clock: DropClock { fall: (f % CELL_UNITS) as u64, ..b0.drop_clock },
            active: Some(moved(m, 0, -(if whole < n { whole } else { n }))),
            ..b0
        }
    } else {
        b1 == Board { drop_clock: DropClock { fall: f, ..b0.drop_clock }, ..b0 }
    }
}

/// The board `b3` after the lock accumulator is reset when the piece turned or moved.
pub open spec fn lock_reset(b3: Board, moved_or_turned: bool) -> Board {
    if moved_or_turned { with_lock(b3, 0) } else { b3 }
}

/// `b1` is `b4` after a hold request, if any, is served; `over` is whether a spawn failed.
pub open spec fn finished(b4: Board, b1: Board, c: Controller, t: ShapeTable, over: bool) -> bool {
    if c.hold {
        exists|b5: Board, p: Option<MinoKind>| #[trigger] held(b4, b5, p)
            && (p is None ==> b1 == b5 && !over)
            && (p matches Some(k) ==> spawned(b5, b1, t, spawn_mino(k), !over))
    } else {
        b1 == b4 && !over
    }
}

/// `b1` is `b0` after one tick of `dt` milliseconds under the controller `c`; `over` is
/// whether the game ended because a new piece could not spawn.
pub open spec fn ticked(b0: Board, b1: Board, c: Controller, k: KickTable, t: ShapeTable, dt: u32, over: bool) -> bool {
    if b0.active is None {
        b1 == b0 && !over
    } else if c.hard_drop {
        dropped_and_locked(b0, b1, t, !over)
    } else if lock_due(b0, t, dt) {
        dropped_and_locked(with_lock(b0, b0.drop_clock.lock.saturating_add(dt as u64)), b1, t, !over)
    } else {
        exists|ba: Board, bb: Board, bc: Board, r1: bool, r2: bool|
            #[trigger] fell(b0, ba, c, t, dt) && #[trigger] rotated_by(ba, bb, c, k, t, r1)
            && #[trigger] shifted(bb, bc, c, t, r2) && finished(lock_reset(bc, r1 || r2), b1, c, t, over)
    }
}

impl Board {
    /// The matrix and queue are sound, and an active piece is a standard kind on empty
    /// cells.
    pub open spec fn wf(&self, t: ShapeTable) -> bool {
        &&& t.wf()
        &&& self.matrix.wf()
        &&& self.queue.wf()
        &&& self.active matches Some(m) ==> is_standard(m.kind) && piece_fits(self.matrix.grid(), t, m)
        &&& hold_standard(self.hold)
    }

    /// An empty default-sized board with no active piece, whose queue is seeded with `seed`.
    pub fn new(settings: Settings, seed: u64) -> (r: Board)
        ensures
            r.matrix.wf(),
            r.queue.wf(),
            r.matrix.grid() == crate::matrix::empty_grid(crate::matrix::DEFAULT_WIDTH as nat, crate::matrix::DEFAULT_HEIGHT as nat),
            r.active is None,
            r.hold == Hold::Empty,
            r.drop_clock == (DropClock { fall: 0, lock: 0 }),
            r.settings == settings,
            r.bounds.wf(),
            r.queue.drawn().len() == 0,
    {
        Board {
            matrix: Matrix::new(crate::matrix::DEFAULT_WIDTH, crate::matrix::DEFAULT_HEIGHT),
            bounds: Bounds::default(),
            active: None,
            hold: Hold::Empty,
            queue: PieceQueue::new(seed, crate::queue::DEFAULT_WINDOW_SIZE),
            drop_clock: DropClock::default(),
            settings,
        }
    }

    /// Empties the hold slot, removes the active piece and starts a new queue seeded with
    /// `seed`.
    pub fn clear_board(&mut self, seed: u64)
        ensures
            final(self).hold == Hold::Empty,
            final(self).active is None,
            final(self).queue.wf(),
            final(self).queue.drawn().len() == 0,
            final(self).matrix == old(self).matrix,
            final(self).drop_clock == old(self).drop_clock,
            same_setup(*old(self), *final(self)),
    {
        self.hold = Hold::Empty;
        self.active = None;
        self.queue = PieceQueue::new(seed, crate::queue::DEFAULT_WINDOW_SIZE);
    }

    /// Whether the board can be played on: an active piece is a standard kind on empty
    /// cells, and a held piece is a standard kind.
    pub fn is_playable(&self, shape_table: &ShapeTable) -> (r: bool)
        requires
            self.matrix.wf(),
            self.queue.wf(),
            shape_table.wf(),
        ensures
            r == self.wf(*shape_table),
    {
        let hold_ok = match self.hold {
            Hold::Empty => true,
            Hold::Ready(p) => p != MinoKind::E && p != MinoKind::G,
            Hold::Inactive(p) => p != MinoKind::E && p != MinoKind::G,
        };
        match self.active {
            None => hold_ok,
            Some(m) => hold_ok && m.kind != MinoKind::E && m.kind != MinoKind::G && has_free_space(&self.matrix, m, shape_table),
        }
    }

    /// Puts `piece` on the board if it lies on empty cells only; returns whether it did.
    pub fn spawn_piece(&mut self, piece: Mino, shape_table: &ShapeTable) -> (r: bool)
        requires
            old(self).wf(*shape_table),
            is_standard(piece.kind),
        ensures
            final(self).wf(*shape_table),
            spawned(*old(self), *final(self), *shape_table, piece, r),
    {
        let ok = has_free_space(&self.matrix, piece, shape_table);
        if ok {
            self.drop_clock = DropClock::default();
            self.active = Some(piece);
        }
        ok
    }

    /// How far `active` can fall.
    fn drop_height(&self, shape_table: &ShapeTable, active: Mino) -> (r: i32)
        requires
            self.wf(*shape_table),
            is_standard(active.kind),
            piece_fits(self.matrix.grid(), *shape_table, active),
        ensures
            is_reach(self.matrix.grid(), shape_table.shape(active.kind, active.rotation),
                active.position.x as int, active.position.y as int, Direction::Down, r as int),
    {
        let shape = shape_table.get(active.kind, active.rotation);
        proof {
            lemma_shape_sound(*shape_table, active.kind, active.rotation);
        }
        let r = maximum_valid(&self.matrix, shape, active.position.x, active.position.y, Direction::Down);
        r.unwrap()
    }

    /// Drops the active piece as far as it goes, locks it and spawns the next piece of the
    /// queue; returns whether that spawn succeeded.
    pub fn hard_drop(&mut self, shape_table: &ShapeTable) -> (r: bool)
        requires
            old(self).wf(*shape_table),
            old(self).active is Some,
        ensures
            final(self).wf(*shape_table),
            dropped_and_locked(*old(self), *final(self), *shape_table, r),
    {
        let ghost b0 = *self;
        let mut active = self.active.unwrap();
        let ghost shape = shape_table.shape(active.kind, active.rotation);
        let h = self.drop_height(shape_table, active);
        proof {
            lemma_reach_unique(b0.matrix.grid(), shape, active.position.x as int, active.position.y as int, Direction::Down, h as int);
            assert(fits_after(b0.matrix.grid(), shape, active.position.x as int, active.position.y as int, Direction::Down, h as int));
            assert(step_x(Direction::Down) == 0 && step_y(Direction::Down) == -1);
            assert((h as int) * 0 == 0 && (h as int) * (-1int) == -(h as int)) by (nonlinear_arith);
            assert(fits(b0.matrix.grid(), shape, active.position.x as int, active.position.y - h));
            lemma_shape_sound(*shape_table, active.kind, active.rotation);
            lemma_fit_bounds(b0.matrix.grid(), shape, active.position.x as int, active.position.y - h);
        }
        active.position.y = active.position.y - h;
        self.active = None;
        lock_piece(&mut self.matrix, active, shape_table);
        let new_piece = self.queue.peek();
        let spawned = self.spawn_piece(default_mino(new_piece), shape_table);
        if spawned {
            self.queue.take();
            self.hold.activate();
        }
        spawned
    }

    /// Shifts the active piece as the controller asks, as far as it can go; returns whether it
    /// moved.
    pub fn shift(&mut self, controller: &Controller, shape_table: &ShapeTable) -> (r: bool)
        requires
            old(self).wf(*shape_table),
            old(self).active is Some,
        ensures
            final(self).wf(*shape_table),
            shifted(*old(self), *final(self), *controller, *shape_table, r),
    {
        let ghost b0 = *self;
        let m = self.active.unwrap();
        let ghost g = self.matrix.grid();
        let ghost shape = shape_table.shape(m.kind, m.rotation);
        let ghost x = m.position.x as int;
        let ghost y = m.position.y as int;
        let s = shape_table.get(m.kind, m.rotation);
        proof {
            lemma_shape_sound(*shape_table, m.kind, m.rotation);
        }
        let left = maximum_valid(&self.matrix, s, m.position.x, m.position.y, Direction::Left).unwrap();
        let right = maximum_valid(&self.matrix, s, m.position.x, m.position.y, Direction::Right).unwrap();
        proof {
            lemma_reach_unique(g, shape, x, y, Direction::Left, left as int);
            lemma_reach_unique(g, shape, x, y, Direction::Right, right as int);
        }
        let shift_size: i32 = if controller.shift < -left {
            -left
        } else if controller.shift > right {
            right
        } else {
            controller.shift
        };
        proof {
            if shift_size < 0 {
                assert(fits_after(g, shape, x, y, Direction::Left, -shift_size));
            } else {
                assert(fits_after(g, shape, x, y, Direction::Right, shift_size as int));
            }
            lemma_fit_bounds(g, shape, x + shift_size, y);
        }
        let moved_piece = Mino { position: Pos { x: m.position.x + shift_size, y: m.position.y }, ..m };
        self.active = Some(moved_piece);
        shift_size != 0
    }

    /// Turns the active piece as the controller asks, trying each candidate offset in
    /// order and taking the first under which it fits; returns whether it turned.
    pub fn rotate(&mut self, controller: &Controller, kick_table: &KickTable, shape_table: &ShapeTable) -> (r: bool)
        requires
            old(self).wf(*shape_table),
            kick_table.wf(),
            old(self).active is Some,
        ensures
            final(self).wf(*shape_table),
            rotated_by(*old(self), *final(self), *controller, *kick_table, *shape_table, r),
    {
        let m = self.active.unwrap();
        let cmd = match controller.rotation {
            None => return false,
            Some(cmd) => cmd,
        };
        let to = cmd.apply(m.rotation);
        let ghost g = self.matrix.grid();
        let ghost shape = shape_table.shape(m.kind, to);
        let ghost cands = kick_candidates(*kick_table, m, to);
        let kicks = kick_table.get(m.kind, m.rotation, to);
        let s = shape_table.get(m.kind, to);
        proof {
            lemma_shape_sound(*shape_table, m.kind, to);
            assert forall|i: int| 0 <= i < kicks@.len() implies offset_ok(#[trigger] kicks@[i]) by {
                assert(offset_ok(kick_table.kicks@[kick_slot(m.kind, m.rotation, to)]@[i]));
            }
        }
        assert(cands[0] == Pos { x: 0, y: 0 });
        if self.matrix.free_at(s, m.position.x as i64, m.position.y as i64) {
            proof {
                assert(first_fit(g, *shape_table, m, to, cands, 0));
            }
            self.active = Some(Mino { kind: m.kind, position: m.position, rotation: to });
            assert(self.active == Some(Mino { rotation: to, ..moved(m, cands[0].x as int, cands[0].y as int) }));
            return true;
        }
        let mut i: usize = 0;
        while i < kicks.len()
            invariant
                self.wf(*shape_table),
                self.active == Some(m),
                *self == *old(self),
                controller.rotation == Some(cmd),
                to == rotated(m.rotation, cmd),
                cands == kick_candidates(*kick_table, m, to),
                g == self.matrix.grid(),
                shape == shape_table.shape(m.kind, to),
                s@ == shape,
                s@.len() > 0,
                forall|j: int| 0 <= j < s@.len() ==> offset_ok(#[trigger] s@[j]),
                forall|j: int| 0 <= j < kicks@.len() ==> offset_ok(#[trigger] kicks@[j]),
                cands == seq![Pos { x: 0, y: 0 }] + kicks@,
                i <= kicks@.len(),
                forall|j: int| 0 <= j <= i ==> !fits(g, shape, m.position.x + #[trigger] cands[j].x, m.position.y + cands[j].y),
            decreases kicks@.len() - i,
        {
            let o = kicks[i];
            assert(o == cands[i + 1]);
            assert(offset_ok(kicks@[i as int]));
            let cx = m.position.x as i64 + o.x as i64;
            let cy = m.position.y as i64 + o.y as i64;
            if self.matrix.free_at(s, cx, cy) {
                proof {
                    lemma_fit_bounds(g, shape, cx as int, cy as int);
                    assert(first_fit(g, *shape_table, m, to, cands, i + 1));
                }
                self.active = Some(Mino { kind: m.kind, position: Pos { x: cx as i32, y: cy as i32 }, rotation: to });
                assert(self.active == Some(Mino { rotation: to, ..moved(m, cands[i + 1].x as int, cands[i + 1].y as int) }));
                assert(exists|j: int| first_fit(g, *shape_table, m, to, cands, j)
                    && self.active == Some(Mino { rotation: to, ..moved(m, cands[j].x as int, cands[j].y as int) }));
                return true;
            }
            i = i + 1;
        }
        proof {
            assert forall|j: int| !first_fit(g, *shape_table, m, to, cands, j) by {
                if 0 <= j < cands.len() {
                    assert(!fits(g, shape, m.position.x + cands[j].x, m.position.y + cands[j].y));
                }
            }
        }
        false
    }

    /// Lets gravity or lock delay act on the active piece for a tick of `dt` milliseconds;
    /// returns whether the lock delay ran out, in which case only the lock time was added.
    fn apply_gravity(&mut self, controller: &Controller, shape_table: &ShapeTable, dt: u32) -> (due: bool)
        requires
            old(self).wf(*shape_table),
            old(self).active is Some,
        ensures
            final(self).wf(*shape_table),
            final(self).active is Some,
            due == lock_due(*old(self), *shape_table, dt),
            due ==> *final(self) == with_lock(*old(self), old(self).drop_clock.lock.saturating_add(dt as u64)),
            !due ==> fell(*old(self), *final(self), *controller, *shape_table, dt),
    {
        let ghost b0 = *self;
        let m = self.active.unwrap();
        let ghost shape = shape_table.shape(m.kind, m.rotation);
        let n = self.drop_height(shape_table, m);
        proof {
            lemma_reach_unique(b0.matrix.grid(), shape, m.position.x as int, m.position.y as int, Direction::Down, n as int);
        }
        if n == 0 {
            self.drop_clock.lock = self.drop_clock.lock.saturating_add(dt as u64);
            return self.drop_clock.lock > self.settings.lock_delay as u64;
        }
        let f = self.drop_clock.fall.saturating_add(self.settings.fall_per_tick(controller.soft_drop));
        self.drop_clock.fall = f;
        if f > CELL_UNITS {
            self.drop_clock.fall = f % CELL_UNITS;
            let whole = f / CELL_UNITS;
            let d: i32 = if whole < n as u64 { whole as i32 } else { n };
            proof {
                assert(fits_after(b0.matrix.grid(), shape, m.position.x as int, m.position.y as int, Direction::Down, d as int));
                assert((d as int) * 0 == 0 && (d as int) * (-1int) == -(d as int)) by (nonlinear_arith);
                lemma_shape_sound(*shape_table, m.kind, m.rotation);
                lemma_fit_bounds(b0.matrix.grid(), shape, m.position.x as int, m.position.y - d);
            }
            self.active = Some(Mino { position: Pos { x: m.position.x, y: m.position.y - d }, ..m });
        }
        false
    }

    /// Runs one tick of `dt` milliseconds under `controller`: a hard drop, or else gravity
    /// and lock delay, then rotation, shifting and hold. Returns whether the game ended
    /// because a new piece could not spawn.
    pub fn update_board(&mut self, controller: &Controller, kick_table: &KickTable, shape_table: &ShapeTable, dt: u32) -> (game_over: bool)
        requires
            old(self).wf(*shape_table),
            kick_table.wf(),
        ensures
            final(self).wf(*shape_table),
            ticked(*old(self), *final(self), *controller, *kick_table, *shape_table, dt, game_over),
    {
        if self.active.is_none() {
            return false;
        }
        if controller.hard_drop {
            return !self.hard_drop(shape_table);
        }
        let ghost b0 = *self;
        if self.apply_gravity(controller, shape_table, dt) {
            return !self.hard_drop(shape_table);
        }
        let ghost ba = *self;
        let rotation_success = self.rotate(controller, kick_table, shape_table);
        let ghost bb = *self;
        let shift_success = self.shift(controller, shape_table);
        let ghost bc = *self;
        if rotation_success || shift_success {
            self.drop_clock.lock = 0;
        }
        let ghost b4 = *self;
        assert(b4 == lock_reset(bc, rotation_success || shift_success));
        let mut over = false;
        if controller.hold {
            if let Some(replace) = self.switch_hold_active() {
                let ghost b5 = *self;
                let ok = self.spawn_piece(default_mino(replace), shape_table);
                over = !ok;
                assert(held(b4, b5, Some(replace)) && spawned(b5, *self, *shape_table, spawn_mino(replace), !over));
            } else {
                assert(held(b4, *self, None));
            }
        }
        assert(finished(b4, *self, *controller, *shape_table, over));
        assert(fell(b0, ba, *controller, *shape_table, dt) && rotated_by(ba, bb, *controller, *kick_table, *shape_table, rotation_success)
            && shifted(bb, bc, *controller, *shape_table, shift_success));
        over
    }

    /// Swaps the active piece into the hold slot unless the held piece is inactive; returns
    /// the piece to spawn in its place.
    pub fn switch_hold_active(&mut self) -> (r: Option<MinoKind>)
        requires
            old(self).queue.wf(),
            old(self).active is Some,
        ensures
            held(*old(self), *final(self), r),
            final(self).queue.wf(),
            r matches Some(k) ==> (old(self).hold matches Hold::Ready(p) ==> k == p) && (old(self).hold is Empty ==> is_standard(k)),
    {
        match self.hold {
            Hold::Empty => {
                let m = self.active.unwrap();
                self.active = None;
                self.hold = Hold::Inactive(m.kind);
                Some(self.queue.take())
            },
            Hold::Ready(piece) => {
                let m = self.active.unwrap();
                self.active = None;
                self.hold = Hold::Inactive(m.kind);
                Some(piece)
            },
            Hold::Inactive(_) => None,
        }
    }
}

/// The shape of a standard kind is non-empty and within the offset limit.
proof fn lemma_shape_sound(t: ShapeTable, k: MinoKind, r: RotationState)
    requires
        t.wf(),
    ensures
        is_standard(k) ==> t.shape(k, r).len() > 0,
        forall|i: int| 0 <= i < t.shape(k, r).len() ==> offset_ok(#[trigger] t.shape(k, r)[i]),
{
    assert forall|i: int| 0 <= i < t.shape(k, r).len() implies offset_ok(#[trigger] t.shape(k, r)[i]) by {
        assert(offset_ok(t.shapes@[shape_slot(k, r)]@[i]));
    }
}

/// Kick resolution is deterministic: two rotation attempts from the same board under the
/// same request and tables turn the piece the same way, to the same offset.
pub proof fn lemma_rotation_deterministic(b0: Board, b1: Board, b2: Board, c: Controller, k: KickTable, t: ShapeTable, r1: bool, r2: bool)
    requires
        b0.active is Some,
        rotated_by(b0, b1, c, k, t, r1),
        rotated_by(b0, b2, c, k, t, r2),
    ensures
        r1 == r2,
        b1.active == b2.active,
        b1.matrix == b2.matrix,
{
    if let Some(cmd) = c.rotation {
        let m = b0.active->0;
        let g = b0.matrix.grid();
        let to = rotated(m.rotation, cmd);
        let cands = kick_candidates(k, m, to);
        if r1 {
            let i = choose|i: int| first_fit(g, t, m, to, cands, i)
                && b1.active == Some(Mino { rotation: to, ..moved(m, cands[i].x as int, cands[i].y as int) });
            let j = choose|j: int| first_fit(g, t, m, to, cands, j)
                && b2.active == Some(Mino { rotation: to, ..moved(m, cands[j].x as int, cands[j].y as int) });
            lemma_first_fit_unique(g, t, m, to, cands, i, j);
        }
    }
}

/// At most one candidate is the first that fits.
pub proof fn lemma_first_fit_unique(g: Seq<Seq<MinoKind>>, t: ShapeTable, m: Mino, to: RotationState, cands: Seq<Pos>, i: int, j: int)
    requires
        first_fit(g, t, m, to, cands, i),
        first_fit(g, t, m, to, cands, j),
    ensures
        i == j,
{
    if i < j {
        assert(!fits(g, t.shape(m.kind, to), m.position.x + cands[i].x, m.position.y + cands[i].y));
    } else if j < i {
        assert(!fits(g, t.shape(m.kind, to), m.position.x + cands[j].x, m.position.y + cands[j].y));
    }
}

/// A piece that fits on a sound grid can go some farthest number of steps in every
/// direction, and `reach` is that number.
pub proof fn lemma_reach_exists(g: Seq<Seq<MinoKind>>, shape: Seq<Pos>, x: int, y: int, d: Direction)
    requires
        crate::matrix::grid_wf(g),
        shape.len() > 0,
        forall|i: int| 0 <= i < shape.len() ==> offset_ok(#[trigger] shape[i]),
        fits(g, shape, x, y),
    ensures
        is_reach(g, shape, x, y, d, reach(g, shape, x, y, d)),
{
    assert(fits_after(g, shape, x, y, d, 0)) by {
        assert(x + 0 * step_x(d) == x && y + 0 * step_y(d) == y);
    }
    lemma_reach_from(g, shape, x, y, d, 0);
}

/// The absolute value of `v`.
pub open spec fn abs_int(v: int) -> int {
    if v < 0 { -v } else { v }
}

/// From a step `o` up to which the shape fits, a farthest step exists.
proof fn lemma_reach_from(g: Seq<Seq<MinoKind>>, shape: Seq<Pos>, x: int, y: int, d: Direction, o: int)
    requires
        crate::matrix::grid_wf(g),
        shape.len() > 0,
        offset_ok(shape[0]),
        0 <= o,
        forall|j: int| 0 <= j <= o ==> #[trigger] fits_after(g, shape, x, y, d, j),
    ensures
        exists|n: int| is_reach(g, shape, x, y, d, n),
    decreases 3 * MAX_DIM + 3 * crate::tables::OFFSET_LIMIT + abs_int(x) + abs_int(y) - o,
{
    assert(fits_after(g, shape, x, y, d, o));
    lemma_fit_bounds(g, shape, x + o * step_x(d), y + o * step_y(d));
    assert(o <= 2 * MAX_DIM + 2 * crate::tables::OFFSET_LIMIT + abs_int(x) + abs_int(y)) by {
        if d == Direction::Left {
            assert(step_x(d) == -1);
            assert(o * (-1int) == -o) by (nonlinear_arith);
        } else if d == Direction::Right {
            assert(step_x(d) == 1);
            assert(o * 1int == o) by (nonlinear_arith);
        } else {
            assert(step_y(d) == -1);
            assert(o * (-1int) == -o) by (nonlinear_arith);
        }
    }
    if !fits_after(g, shape, x, y, d, o + 1) {
        assert(is_reach(g, shape, x, y, d, o));
    } else {
        lemma_reach_from(g, shape, x, y, d, o + 1);
    }
}

} // verus!
