//! The cell grid: lookup, collision checks, locking pieces and clearing full rows.
use vstd::prelude::*;
use crate::kinds::{MinoKind, Mino, Pos};
use crate::tables::{ShapeTable, offset_ok};

verus! {

/// Largest width or height of a matrix: with table offsets up to `OFFSET_LIMIT`, every
/// position at which a piece fits stays within `i32`.
pub const MAX_DIM: usize = 0x4000_0000;

/// Width of a default matrix.
pub const DEFAULT_WIDTH: usize = 10;

/// Height of a default matrix, with room above the playfield.
pub const DEFAULT_HEIGHT: usize = 40;

/// Height of the playable part of a default matrix.
pub const DEFAULT_LEGAL_HEIGHT: usize = 20;

/// The cell at column `x` and row `y`, or `None` where that lies outside the grid.
pub open spec fn cell(g: Seq<Seq<MinoKind>>, x: int, y: int) -> Option<MinoKind> {
    if 0 <= y < g.len() && 0 <= x < g[y].len() {
        Some(g[y][x])
    } else {
        None
    }
}

/// Every cell of `shape`, moved by `(x, y)`, is an empty cell of the grid.
pub open spec fn fits(g: Seq<Seq<MinoKind>>, shape: Seq<Pos>, x: int, y: int) -> bool {
    forall|i: int| 0 <= i < shape.len() ==> cell(g, shape[i].x + x, shape[i].y + y) == Some(MinoKind::E)
}

/// Every cell of `shape`, moved by `(x, y)`, lies in the grid.
pub open spec fn inside(g: Seq<Seq<MinoKind>>, shape: Seq<Pos>, x: int, y: int) -> bool {
    forall|i: int| 0 <= i < shape.len() ==> #[trigger] cell(g, shape[i].x + x, shape[i].y + y) is Some
}

/// A non-empty rectangle within the size limits.
pub open spec fn grid_wf(g: Seq<Seq<MinoKind>>) -> bool {
    &&& 0 < g.len() <= MAX_DIM
    &&& 0 < g[0].len() <= MAX_DIM
    &&& forall|y: int| 0 <= y < g.len() ==> #[trigger] g[y].len() == g[0].len()
}

/// A row of `w` empty cells.
pub open spec fn empty_row(w: nat) -> Seq<MinoKind> {
    Seq::new(w, |_i: int| MinoKind::E)
}

/// `h` rows of `w` empty cells.
pub open spec fn empty_grid(w: nat, h: nat) -> Seq<Seq<MinoKind>> {
    Seq::new(h, |_i: int| empty_row(w))
}

/// A row without an empty cell.
pub open spec fn row_full(r: Seq<MinoKind>) -> bool {
    forall|i: int| 0 <= i < r.len() ==> r[i] != MinoKind::E
}

/// The rows that are not full, in order.
pub open spec fn kept_rows(g: Seq<Seq<MinoKind>>) -> Seq<Seq<MinoKind>> {
    g.filter(|r: Seq<MinoKind>| !row_full(r))
}

/// The grid after its full rows are removed, the rows above move down, and empty rows fill
/// the top.
pub open spec fn cleared(g: Seq<Seq<MinoKind>>) -> Seq<Seq<MinoKind>> {
    kept_rows(g) + empty_grid(g[0].len(), (g.len() - kept_rows(g).len()) as nat)
}

/// The grid after `k` is written into each cell of `shape` moved by `(x, y)`, in order.
pub open spec fn stamped(g: Seq<Seq<MinoKind>>, shape: Seq<Pos>, x: int, y: int, k: MinoKind) -> Seq<Seq<MinoKind>>
    decreases shape.len(),
{
    if shape.len() == 0 {
        g
    } else {
        let s = stamped(g, shape.drop_last(), x, y, k);
        let cx = shape.last().x + x;
        let cy = shape.last().y + y;
        s.update(cy, s[cy].update(cx, k))
    }
}

/// The grid after a piece of kind `k` with `shape` at `(x, y)` locks.
pub open spec fn locked(g: Seq<Seq<MinoKind>>, shape: Seq<Pos>, x: int, y: int, k: MinoKind) -> Seq<Seq<MinoKind>> {
    cleared(stamped(g, shape, x, y, k))
}

/// Extent of the grid and of its playable part.
#[derive(Debug, Clone, Copy, PartialEq, Eq, Structural)]
pub struct Bounds {
    pub true_bounds: Pos,
    pub legal_bounds: Pos,
}

impl Bounds {
    /// The playable part lies within the grid.
    pub open spec fn wf(&self) -> bool {
        0 <= self.legal_bounds.x <= self.true_bounds.x && 0 <= self.legal_bounds.y <= self.true_bounds.y
    }
}

impl Default for Bounds {
    fn default() -> (r: Self)
        ensures
            r.wf(),
            r.true_bounds == (Pos { x: DEFAULT_WIDTH as i32, y: DEFAULT_HEIGHT as i32 }),
            r.legal_bounds == (Pos { x: DEFAULT_WIDTH as i32, y: DEFAULT_LEGAL_HEIGHT as i32 }),
    {
        Bounds {
            true_bounds: Pos { x: DEFAULT_WIDTH as i32, y: DEFAULT_HEIGHT as i32 },
            legal_bounds: Pos { x: DEFAULT_WIDTH as i32, y: DEFAULT_LEGAL_HEIGHT as i32 },
        }
    }
}

/// The grid of cells, by row (row 0 at the bottom) and then by column.
#[derive(Debug, Clone)]
pub struct Matrix {
    pub data: Vec<Vec<MinoKind>>,
}

/// The rows as sequences of cells.
pub open spec fn rows_view(rows: Seq<Vec<MinoKind>>) -> Seq<Seq<MinoKind>> {
    Seq::new(rows.len(), |i: int| rows[i]@)
}

impl Default for Matrix {
    fn default() -> (r: Self)
        ensures
            r.wf(),
            r.grid() == empty_grid(DEFAULT_WIDTH as nat, DEFAULT_HEIGHT as nat),
    {
        Matrix::new(DEFAULT_WIDTH, DEFAULT_HEIGHT)
    }
}

/// A row of `w` empty cells.
fn new_row(w: usize) -> (r: Vec<MinoKind>)
    ensures
        r@ == empty_row(w as nat),
{
    let mut r: Vec<MinoKind> = Vec::new();
    let mut i: usize = 0;
    while i < w
        invariant
            i <= w,
            r@ == empty_row(i as nat),
        decreases w - i,
    {
        r.push(MinoKind::E);
        i = i + 1;
        assert(r@ =~= empty_row(i as nat));
    }
    r
}

/// Whether `row` holds no empty cell.
fn row_is_full(row: &Vec<MinoKind>) -> (r: bool)
    ensures
        r == row_full(row@),
{
    let mut i: usize = 0;
    while i < row.len()
        invariant
            i <= row@.len(),
            forall|j: int| 0 <= j < i ==> row@[j] != MinoKind::E,
        decreases row@.len() - i,
    {
        if row[i] == MinoKind::E {
            return false;
        }
        i = i + 1;
    }
    true
}

impl Matrix {
    /// The cells as a sequence of rows.
    pub open spec fn grid(&self) -> Seq<Seq<MinoKind>> {
        rows_view(self.data@)
    }

    pub open spec fn wf(&self) -> bool {
        grid_wf(self.grid())
    }

    /// A matrix of `width` by `height` empty cells.
    pub fn new(width: usize, height: usize) -> (r: Matrix)
        requires
            0 < width <= MAX_DIM,
            0 < height <= MAX_DIM,
        ensures
            r.wf(),
            r.grid() == empty_grid(width as nat, height as nat),
    {
        let mut data: Vec<Vec<MinoKind>> = Vec::new();
        let mut i: usize = 0;
        while i < height
            invariant
                i <= height,
                rows_view(data@) == empty_grid(width as nat, i as nat),
            decreases height - i,
        {
            let row = new_row(width);
            let ghost prev = data@;
            assert(rows_view(prev).len() == prev.len());
            assert(prev.len() == i);
            data.push(row);
            assert(data@ == prev.push(row));
            i = i + 1;
            assert forall|j: int| 0 <= j < i implies #[trigger] rows_view(data@)[j] == empty_grid(width as nat, i as nat)[j] by {
                if j < i - 1 {
                    assert(data@[j] == prev[j]);
                    assert(rows_view(prev)[j] == empty_grid(width as nat, (i - 1) as nat)[j]);
                }
            }
            assert(rows_view(data@) =~= empty_grid(width as nat, i as nat));
        }
        Matrix { data }
    }

    /// The cell at `(x, y)` given as 64-bit coordinates.
    fn cell_at(&self, x: i64, y: i64) -> (r: Option<MinoKind>)
        requires
            self.wf(),
        ensures
            r == cell(self.grid(), x as int, y as int),
    {
        if x < 0 || y < 0 || x >= MAX_DIM as i64 || y >= MAX_DIM as i64 {
            return None;
        }
        if y as usize >= self.data.len() {
            return None;
        }
        let row = &self.data[y as usize];
        assert(row@ == self.grid()[y as int]);
        if x as usize >= row.len() {
            return None;
        }
        Some(row[x as usize])
    }

    /// The cell at `ix`, or `None` where that lies outside the grid.
    pub fn get(&self, ix: Pos) -> (r: Option<MinoKind>)
        requires
            self.wf(),
        ensures
            r == cell(self.grid(), ix.x as int, ix.y as int),
    {
        self.cell_at(ix.x as i64, ix.y as i64)
    }

    /// Whether every cell of `shape` moved by `(x, y)` is empty.
    pub(crate) fn free_at(&self, shape: &Vec<Pos>, x: i64, y: i64) -> (r: bool)
        requires
            self.wf(),
            forall|i: int| 0 <= i < shape@.len() ==> offset_ok(#[trigger] shape@[i]),
            -0x100_0000_0000 <= x <= 0x100_0000_0000,
            -0x100_0000_0000 <= y <= 0x100_0000_0000,
        ensures
            r == fits(self.grid(), shape@, x as int, y as int),
    {
        let mut i: usize = 0;
        while i < shape.len()
            invariant
                self.wf(),
                i <= shape@.len(),
                forall|j: int| 0 <= j < shape@.len() ==> offset_ok(#[trigger] shape@[j]),
                -0x100_0000_0000 <= x <= 0x100_0000_0000,
                -0x100_0000_0000 <= y <= 0x100_0000_0000,
                forall|j: int| 0 <= j < i ==> cell(self.grid(), shape@[j].x + x, shape@[j].y + y) == Some(MinoKind::E),
            decreases shape@.len() - i,
        {
            let p = shape[i];
            assert(offset_ok(shape@[i as int]));
            if self.cell_at(p.x as i64 + x, p.y as i64 + y) != Some(MinoKind::E) {
                return false;
            }
            i = i + 1;
        }
        true
    }
}

/// Whether the piece `mino` would lie on empty cells of `matrix` only.
pub fn has_free_space(matrix: &Matrix, mino: Mino, shape_table: &ShapeTable) -> (r: bool)
    requires
        matrix.wf(),
        shape_table.wf(),
    ensures
        r == fits(matrix.grid(), shape_table.shape(mino.kind, mino.rotation), mino.position.x as int, mino.position.y as int),
{
    let shape = shape_table.get(mino.kind, mino.rotation);
    proof {
        assert forall|i: int| 0 <= i < shape@.len() implies offset_ok(#[trigger] shape@[i]) by {
            assert(offset_ok(shape_table.shapes@[crate::tables::shape_slot(mino.kind, mino.rotation)]@[i]));
        }
    }
    matrix.free_at(shape, mino.position.x as i64, mino.position.y as i64)
}

impl Matrix {
    /// Writes `k` into the cell at `(x, y)`.
    fn set_cell(&mut self, x: usize, y: usize, k: MinoKind)
        requires
            old(self).wf(),
            y < old(self).grid().len(),
            x < old(self).grid()[y as int].len(),
        ensures
            final(self).wf(),
            final(self).grid() == old(self).grid().update(y as int, old(self).grid()[y as int].update(x as int, k)),
    {
        let ghost g = self.grid();
        self.data[y][x] = k;
        assert(self.grid() =~= g.update(y as int, g[y as int].update(x as int, k)));
    }

    /// Removes the full rows, moving the rows above them down and filling the top with empty
    /// rows. Rows that stay keep their order.
    fn clear_lines(&mut self)
        requires
            old(self).wf(),
        ensures
            final(self).wf(),
            final(self).grid() == cleared(old(self).grid()),
    {
        let ghost g0 = self.grid();
        let n = self.data.len();
        let w = self.data[0].len();
        let mut real_ix: usize = 0;
        let mut i: usize = 0;
        while i < n
            invariant
                g0 == old(self).grid(),
                grid_wf(g0),
                n == g0.len(),
                w == g0[0].len(),
                i <= n,
                real_ix == kept_rows(g0.take(i as int)).len(),
                self.data@.len() == n,
                forall|r: int| 0 <= r < n ==> #[trigger] self.grid()[r].len() == w,
                self.grid() == kept_rows(g0.take(i as int)) + g0.skip(i as int)
                    + empty_grid(w as nat, (i - real_ix) as nat),
            decreases n - i,
        {
            let ghost g = self.grid();
            proof {
                assert(g0.take(i + 1) == g0.take(i as int).push(g0[i as int]));
                g0.take(i as int).lemma_filter_push(g0[i as int], |r: Seq<MinoKind>| !row_full(r));
                assert(kept_rows(g0.take(i as int)).len() <= i) by {
                    g0.take(i as int).filter_lemma(|r: Seq<MinoKind>| !row_full(r));
                }
                assert(g[real_ix as int] == g0[i as int]);
                assert(real_ix < n);
            }
            if row_is_full(&self.data[real_ix]) {
                self.data.remove(real_ix);
                let ghost g1 = self.grid();
                assert(g1 =~= g.remove(real_ix as int));
                assert(g.remove(real_ix as int) =~= kept_rows(g0.take(i as int)) + g0.skip(i + 1)
                    + empty_grid(w as nat, (i - real_ix) as nat));
                let row = new_row(w);
                self.data.push(row);
                assert(self.grid() =~= g1.push(empty_row(w as nat)));
                assert(self.grid() =~= kept_rows(g0.take(i + 1)) + g0.skip(i + 1)
                    + empty_grid(w as nat, (i + 1 - real_ix) as nat));
            } else {
                real_ix = real_ix + 1;
                assert(self.grid() =~= kept_rows(g0.take(i + 1)) + g0.skip(i + 1)
                    + empty_grid(w as nat, (i + 1 - real_ix) as nat));
            }
            i = i + 1;
        }
        assert(g0.take(n as int) == g0);
        assert(self.grid() =~= cleared(g0));
    }
}

/// Writes the piece `mino` into `matrix`, then clears the rows that became full.
pub fn lock_piece(matrix: &mut Matrix, mino: Mino, shape_table: &ShapeTable)
    requires
        old(matrix).wf(),
        shape_table.wf(),
        inside(old(matrix).grid(), shape_table.shape(mino.kind, mino.rotation), mino.position.x as int, mino.position.y as int),
    ensures
        final(matrix).wf(),
        final(matrix).grid() == locked(old(matrix).grid(), shape_table.shape(mino.kind, mino.rotation),
            mino.position.x as int, mino.position.y as int, mino.kind),
{
    let shape = shape_table.get(mino.kind, mino.rotation);
    let ghost g0 = matrix.grid();
    let ghost x = mino.position.x as int;
    let ghost y = mino.position.y as int;
    let mut i: usize = 0;
    while i < shape.len()
        invariant
            shape_table.wf(),
            shape@ == shape_table.shape(mino.kind, mino.rotation),
            g0 == old(matrix).grid(),
            x == mino.position.x,
            y == mino.position.y,
            inside(g0, shape@, x, y),
            i <= shape@.len(),
            matrix.wf(),
            matrix.grid().len() == g0.len(),
            forall|r: int| 0 <= r < g0.len() ==> #[trigger] matrix.grid()[r].len() == g0[r].len(),
            matrix.grid() == stamped(g0, shape@.take(i as int), x, y, mino.kind),
        decreases shape@.len() - i,
    {
        let p = shape[i];
        assert(cell(g0, shape@[i as int].x + x, shape@[i as int].y + y) is Some);
        let cx = (p.x as i64 + mino.position.x as i64) as usize;
        let cy = (p.y as i64 + mino.position.y as i64) as usize;
        matrix.set_cell(cx, cy, mino.kind);
        assert(shape@.take(i + 1).drop_last() == shape@.take(i as int));
        i = i + 1;
    }
    assert(shape@.take(shape@.len() as int) == shape@);
    matrix.clear_lines();
}

/// Number of non-empty cells in a row.
pub open spec fn row_filled(r: Seq<MinoKind>) -> int
    decreases r.len(),
{
    if r.len() == 0 {
        0
    } else {
        row_filled(r.drop_last()) + if r.last() != MinoKind::E { 1int } else { 0int }
    }
}

/// Number of non-empty cells in a grid.
pub open spec fn filled(g: Seq<Seq<MinoKind>>) -> int
    decreases g.len(),
{
    if g.len() == 0 {
        0
    } else {
        filled(g.drop_last()) + row_filled(g.last())
    }
}

/// Number of full rows that clearing removes from `g`.
pub open spec fn cleared_count(g: Seq<Seq<MinoKind>>) -> int {
    g.len() - kept_rows(g).len()
}

/// Locking a piece loses at most the cells of the rows it clears: the count of non-empty
/// cells falls by no more than the number of cleared rows times the row width.
pub proof fn lemma_lock_count(g: Seq<Seq<MinoKind>>, shape: Seq<Pos>, x: int, y: int, k: MinoKind)
    requires
        grid_wf(g),
        inside(g, shape, x, y),
        k != MinoKind::E,
    ensures
        filled(locked(g, shape, x, y, k)) >= filled(g) - cleared_count(stamped(g, shape, x, y, k)) * g[0].len(),
{
    lemma_stamp_count(g, shape, x, y, k);
    let st = stamped(g, shape, x, y, k);
    lemma_clear_count(st, g[0].len());
    lemma_concat_filled(kept_rows(st), empty_grid(st[0].len(), (st.len() - kept_rows(st).len()) as nat));
    lemma_empty_filled(st[0].len(), (st.len() - kept_rows(st).len()) as nat);
}

/// Writing a non-empty kind into a cell does not lower the row's count.
proof fn lemma_row_update(r: Seq<MinoKind>, i: int, k: MinoKind)
    requires
        0 <= i < r.len(),
        k != MinoKind::E,
    ensures
        row_filled(r.update(i, k)) >= row_filled(r),
    decreases r.len(),
{
    let u = r.update(i, k);
    if i == r.len() - 1 {
        assert(u.drop_last() =~= r.drop_last());
    } else {
        lemma_row_update(r.drop_last(), i, k);
        assert(u.drop_last() =~= r.drop_last().update(i, k));
    }
}

/// Replacing a row changes the grid's count by the difference of the rows' counts.
proof fn lemma_grid_update(g: Seq<Seq<MinoKind>>, y: int, r: Seq<MinoKind>)
    requires
        0 <= y < g.len(),
    ensures
        filled(g.update(y, r)) == filled(g) - row_filled(g[y]) + row_filled(r),
    decreases g.len(),
{
    let u = g.update(y, r);
    if y == g.len() - 1 {
        assert(u.drop_last() =~= g.drop_last());
    } else {
        lemma_grid_update(g.drop_last(), y, r);
        assert(u.drop_last() =~= g.drop_last().update(y, r));
    }
}

/// Stamping keeps the grid's extent and does not lower its count.
proof fn lemma_stamp_count(g: Seq<Seq<MinoKind>>, shape: Seq<Pos>, x: int, y: int, k: MinoKind)
    requires
        inside(g, shape, x, y),
        k != MinoKind::E,
    ensures
        filled(stamped(g, shape, x, y, k)) >= filled(g),
        stamped(g, shape, x, y, k).len() == g.len(),
        forall|r: int| 0 <= r < g.len() ==> #[trigger] stamped(g, shape, x, y, k)[r].len() == g[r].len(),
    decreases shape.len(),
{
    if shape.len() > 0 {
        let d = shape.drop_last();
        assert forall|i: int| 0 <= i < d.len() implies #[trigger] cell(g, d[i].x + x, d[i].y + y) is Some by {
            assert(d[i] == shape[i]);
        }
        lemma_stamp_count(g, d, x, y, k);
        let s = stamped(g, d, x, y, k);
        let cx = shape.last().x + x;
        let cy = shape.last().y + y;
        assert(cell(g, shape[shape.len() - 1].x + x, shape[shape.len() - 1].y + y) is Some);
        lemma_row_update(s[cy], cx, k);
        lemma_grid_update(s, cy, s[cy].update(cx, k));
    }
}

/// A full row counts all its cells.
proof fn lemma_full_row(r: Seq<MinoKind>)
    requires
        row_full(r),
    ensures
        row_filled(r) == r.len(),
    decreases r.len(),
{
    if r.len() > 0 {
        assert(row_full(r.drop_last()));
        lemma_full_row(r.drop_last());
    }
}

/// Empty rows count nothing.
proof fn lemma_empty_filled(w: nat, h: nat)
    ensures
        filled(empty_grid(w, h)) == 0,
    decreases h,
{
    if h > 0 {
        lemma_empty_filled(w, (h - 1) as nat);
        assert(empty_grid(w, h).drop_last() =~= empty_grid(w, (h - 1) as nat));
        lemma_empty_row(w);
    }
}

/// An empty row counts nothing.
proof fn lemma_empty_row(w: nat)
    ensures
        row_filled(empty_row(w)) == 0,
    decreases w,
{
    if w > 0 {
        lemma_empty_row((w - 1) as nat);
        assert(empty_row(w).drop_last() =~= empty_row((w - 1) as nat));
    }
}

/// The count of two grids stacked is the sum of their counts.
proof fn lemma_concat_filled(a: Seq<Seq<MinoKind>>, b: Seq<Seq<MinoKind>>)
    ensures
        filled(a + b) == filled(a) + filled(b),
    decreases b.len(),
{
    if b.len() == 0 {
        assert(a + b =~= a);
    } else {
        lemma_concat_filled(a, b.drop_last());
        assert((a + b).drop_last() =~= a + b.drop_last());
    }
}

/// Removing the full rows of a grid of width `w` removes `w` cells for each.
proof fn lemma_clear_count(g: Seq<Seq<MinoKind>>, w: nat)
    requires
        forall|r: int| 0 <= r < g.len() ==> #[trigger] g[r].len() == w,
    ensures
        filled(g) == filled(kept_rows(g)) + cleared_count(g) * w,
        kept_rows(g).len() <= g.len(),
    decreases g.len(),
{
    if g.len() > 0 {
        let d = g.drop_last();
        lemma_clear_count(d, w);
        assert(g =~= d.push(g.last()));
        d.lemma_filter_push(g.last(), |r: Seq<MinoKind>| !row_full(r));
        if row_full(g.last()) {
            lemma_full_row(g.last());
            assert(cleared_count(g) == cleared_count(d) + 1);
            assert(cleared_count(g) * w == cleared_count(d) * w + w) by (nonlinear_arith)
                requires cleared_count(g) == cleared_count(d) + 1;
            assert(filled(g) == filled(d) + row_filled(g.last()));
            assert(filled(g) == filled(kept_rows(g)) + cleared_count(g) * w);
        } else {
            assert(kept_rows(g) == kept_rows(d).push(g.last()));
            assert(kept_rows(g).drop_last() =~= kept_rows(d));
            assert(filled(kept_rows(g)) == filled(kept_rows(d)) + row_filled(g.last()));
            assert(filled(g) == filled(d) + row_filled(g.last()));
            assert(cleared_count(g) == cleared_count(d));
        }
    } else {
        g.filter_lemma(|r: Seq<MinoKind>| !row_full(r));
        assert(kept_rows(g).len() == 0);
        assert(cleared_count(g) == 0);
    }
}

/// A piece whose shape lies within an empty grid at the spawn position fits there: on an
/// empty matrix, spawning never fails for want of free space.
pub proof fn lemma_spawn_on_empty(w: nat, h: nat, shape: Seq<Pos>, x: int, y: int)
    requires
        inside(empty_grid(w, h), shape, x, y),
    ensures
        fits(empty_grid(w, h), shape, x, y),
{
    assert forall|i: int| 0 <= i < shape.len() implies cell(empty_grid(w, h), shape[i].x + x, shape[i].y + y) == Some(MinoKind::E) by {
        assert(cell(empty_grid(w, h), shape[i].x + x, shape[i].y + y) is Some);
    }
}

/// One row clears: when the bottom row is the only full row after the piece is written,
/// locking moves every row above it down by one and leaves an empty row on top.
pub proof fn lemma_single_row_clear(g: Seq<Seq<MinoKind>>, shape: Seq<Pos>, x: int, y: int, k: MinoKind)
    requires
        grid_wf(g),
        inside(g, shape, x, y),
        k != MinoKind::E,
        row_full(stamped(g, shape, x, y, k)[0]),
        forall|r: int| 1 <= r < g.len() ==> !row_full(#[trigger] stamped(g, shape, x, y, k)[r]),
    ensures
        locked(g, shape, x, y, k).len() == g.len(),
        forall|r: int| 0 <= r < g.len() - 1 ==> #[trigger] locked(g, shape, x, y, k)[r] == stamped(g, shape, x, y, k)[r + 1],
        locked(g, shape, x, y, k)[g.len() - 1] == empty_row(g[0].len()),
        cleared_count(stamped(g, shape, x, y, k)) == 1,
{
    let st = stamped(g, shape, x, y, k);
    lemma_stamp_count(g, shape, x, y, k);
    let rest = st.skip(1);
    assert forall|r: int| 0 <= r < rest.len() implies !row_full(#[trigger] rest[r]) by {
        assert(rest[r] == st[r + 1]);
    }
    lemma_none_full(rest);
    let head = seq![st[0]];
    assert(st =~= head + rest);
    broadcast use Seq::filter_distributes_over_add;
    assert(st.filter(|r: Seq<MinoKind>| !row_full(r)) == head.filter(|r: Seq<MinoKind>| !row_full(r)) + rest.filter(|r: Seq<MinoKind>| !row_full(r)));
    Seq::<Seq<MinoKind>>::empty().lemma_filter_push(st[0], |r: Seq<MinoKind>| !row_full(r));
    assert(Seq::<Seq<MinoKind>>::empty().push(st[0]) =~= head);
    Seq::<Seq<MinoKind>>::empty().filter_lemma(|r: Seq<MinoKind>| !row_full(r));
    assert(head.filter(|r: Seq<MinoKind>| !row_full(r)) =~= Seq::<Seq<MinoKind>>::empty());
    assert(kept_rows(st) =~= rest);
    assert(st[0].len() == g[0].len());
}

/// Filtering rows none of which is full keeps them all.
proof fn lemma_none_full(t: Seq<Seq<MinoKind>>)
    requires
        forall|r: int| 0 <= r < t.len() ==> !row_full(#[trigger] t[r]),
    ensures
        kept_rows(t) == t,
    decreases t.len(),
{
    if t.len() == 0 {
        t.filter_lemma(|r: Seq<MinoKind>| !row_full(r));
        assert(kept_rows(t) =~= t);
    } else {
        let d = t.drop_last();
        assert forall|r: int| 0 <= r < d.len() implies !row_full(#[trigger] d[r]) by {
            assert(d[r] == t[r]);
        }
        lemma_none_full(d);
        assert(t =~= d.push(t.last()));
        d.lemma_filter_push(t.last(), |r: Seq<MinoKind>| !row_full(r));
        assert(!row_full(t[t.len() - 1]));
    }
}

} // verus!
