//! Recording board history: per-cell matrix diffs, their inverses, and the items of the
//! event log.
use vstd::prelude::*;
use crate::kinds::{MinoKind, Mino, Pos, Hold};
use crate::matrix::{Matrix, cell, grid_wf, rows_view, MAX_DIM};
use crate::queue::PieceQueue;

verus! {

/// One changed cell: its location, the value before and the value after.
#[derive(Debug, Clone, Copy, PartialEq, Eq, Structural)]
pub struct MatrixUpdate {
    pub loc: Pos,
    pub old: MinoKind,
    pub new: MinoKind,
}

/// The update that takes the cell back.
pub open spec fn inverted(u: MatrixUpdate) -> MatrixUpdate {
    MatrixUpdate { loc: u.loc, old: u.new, new: u.old }
}

impl MatrixUpdate {
    /// The update that takes the cell back.
    pub fn invert(self) -> (r: Self)
        ensures
            r == inverted(self),
    {
        MatrixUpdate { loc: self.loc, old: self.new, new: self.old }
    }
}

/// The grid after `u` writes its new value; a location outside the grid changes nothing.
pub open spec fn apply_update(g: Seq<Seq<MinoKind>>, u: MatrixUpdate) -> Seq<Seq<MinoKind>> {
    if cell(g, u.loc.x as int, u.loc.y as int) is Some {
        g.update(u.loc.y as int, g[u.loc.y as int].update(u.loc.x as int, u.new))
    } else {
        g
    }
}

/// The grid after the updates `us`, in order.
pub open spec fn apply_updates(g: Seq<Seq<MinoKind>>, us: Seq<MatrixUpdate>) -> Seq<Seq<MinoKind>>
    decreases us.len(),
{
    if us.len() == 0 {
        g
    } else {
        apply_update(apply_updates(g, us.drop_last()), us.last())
    }
}

/// Undo after redo: an update followed by its inverse leaves the grid as it was, when the
/// cell held the update's old value.
pub proof fn lemma_invert_round_trip(g: Seq<Seq<MinoKind>>, u: MatrixUpdate)
    requires
        cell(g, u.loc.x as int, u.loc.y as int) == Some(u.old),
    ensures
        apply_update(apply_update(g, u), inverted(u)) == g,
{
    let g1 = apply_update(g, u);
    assert(cell(g1, u.loc.x as int, u.loc.y as int) is Some);
    assert(apply_update(g1, inverted(u)) =~= g) by {
        let y = u.loc.y as int;
        assert(apply_update(g1, inverted(u))[y] =~= g[y]);
    }
}

/// The changed cells of row `y` among its first `upto` columns, by column.
pub open spec fn row_diff(o: Seq<MinoKind>, n: Seq<MinoKind>, y: int, upto: int) -> Seq<MatrixUpdate>
    decreases upto,
{
    if upto <= 0 {
        Seq::empty()
    } else {
        let prev = row_diff(o, n, y, upto - 1);
        let x = upto - 1;
        if o[x] != n[x] {
            prev.push(MatrixUpdate { loc: Pos { x: x as i32, y: y as i32 }, old: o[x], new: n[x] })
        } else {
            prev
        }
    }
}

/// The changed cells among the first `rows` rows, in row-major order.
pub open spec fn grid_diff_upto(o: Seq<Seq<MinoKind>>, n: Seq<Seq<MinoKind>>, rows: int) -> Seq<MatrixUpdate>
    decreases rows,
{
    if rows <= 0 {
        Seq::empty()
    } else {
        grid_diff_upto(o, n, rows - 1) + row_diff(o[rows - 1], n[rows - 1], rows - 1, o[rows - 1].len() as int)
    }
}

/// Every cell that differs between `o` and `n`, in row-major order, with both values.
pub open spec fn grid_diff(o: Seq<Seq<MinoKind>>, n: Seq<Seq<MinoKind>>) -> Seq<MatrixUpdate> {
    grid_diff_upto(o, n, o.len() as int)
}

/// Two grids of the same size.
pub open spec fn same_shape(a: Seq<Seq<MinoKind>>, b: Seq<Seq<MinoKind>>) -> bool {
    &&& a.len() == b.len()
    &&& forall|y: int| 0 <= y < a.len() ==> #[trigger] a[y].len() == b[y].len()
}

/// Compares `new` with `previous` cell by cell, copying `new` into `previous`; returns the changed
/// cells in row-major order.
pub fn diff_and_copy(new: &Vec<Vec<MinoKind>>, previous: &mut Vec<Vec<MinoKind>>) -> (r: Vec<MatrixUpdate>)
    requires
        grid_wf(rows_view(new@)),
        same_shape(rows_view(new@), rows_view(previous@)),
    ensures
        rows_view(final(previous)@) == rows_view(new@),
        r@ == grid_diff(rows_view(old(previous)@), rows_view(new@)),
{
    let ghost o = rows_view(previous@);
    let ghost n = rows_view(new@);
    let mut out: Vec<MatrixUpdate> = Vec::new();
    let mut y: usize = 0;
    while y < new.len()
        invariant
            o == rows_view(old(previous)@),
            n == rows_view(new@),
            grid_wf(n),
            same_shape(n, o),
            previous@.len() == n.len(),
            y <= n.len(),
            forall|r: int| 0 <= r < y ==> #[trigger] rows_view(previous@)[r] == n[r],
            forall|r: int| y <= r < n.len() ==> #[trigger] rows_view(previous@)[r] == o[r],
            out@ == grid_diff_upto(o, n, y as int),
        decreases n.len() - y,
    {
        let ghost prev_rows = previous@;
        assert(rows_view(prev_rows)[y as int] == o[y as int]);
        let mut row: Vec<MinoKind> = Vec::new();
        std::mem::swap(&mut row, &mut previous[y]);
        assert(row@ == prev_rows[y as int]@);
        let ghost orow = row@;
        assert(orow == o[y as int]);
        let nrow = &new[y];
        assert(nrow@ == n[y as int]);
        let ghost base = out@;
        let mut x: usize = 0;
        while x < nrow.len()
            invariant
                orow == o[y as int],
                nrow@ == n[y as int],
                orow.len() == nrow@.len(),
                row@.len() == nrow@.len(),
                y < n.len() <= MAX_DIM,
                nrow@.len() <= MAX_DIM,
                x <= nrow@.len(),
                row@ == nrow@.take(x as int) + orow.skip(x as int),
                out@ == base + row_diff(orow, nrow@, y as int, x as int),
            decreases nrow@.len() - x,
        {
            let before = row[x];
            let after = nrow[x];
            assert(before == orow[x as int]);
            if before != after {
                out.push(MatrixUpdate { loc: Pos { x: x as i32, y: y as i32 }, old: before, new: after });
                row.set(x, after);
            }
            x = x + 1;
            assert(row@ =~= nrow@.take(x as int) + orow.skip(x as int));
            assert(out@ =~= base + row_diff(orow, nrow@, y as int, x as int));
        }
        assert(row@ =~= nrow@);
        previous.set(y, row);
        y = y + 1;
        assert(out@ =~= grid_diff_upto(o, n, y as int));
        assert forall|r: int| y <= r < n.len() implies #[trigger] rows_view(previous@)[r] == o[r] by {
            assert(previous@[r] == prev_rows[r]);
            assert(rows_view(prev_rows)[r] == o[r]);
        }
        assert forall|r: int| 0 <= r < y implies #[trigger] rows_view(previous@)[r] == n[r] by {
            if r < y - 1 {
                assert(previous@[r] == prev_rows[r]);
                assert(rows_view(prev_rows)[r] == n[r]);
            }
        }
    }
    assert(rows_view(previous@) =~= n);
    out
}

/// What a record item changes.
pub enum RecordData {
    ActiveChange(Option<Mino>),
    QueueChange(PieceQueue),
    Hold(Hold),
    MatrixChange(MatrixUpdate),
}

/// A change stamped with the tick, counted from the start of the game, at which it happened.
pub struct RecordItem {
    pub time: u64,
    pub data: RecordData,
}

/// A queue held by an item is sound.
pub open spec fn item_wf(i: RecordItem) -> bool {
    i.data matches RecordData::QueueChange(q) ==> q.wf()
}

/// The items of a segment are sound and their times do not decrease.
pub open spec fn items_wf(items: Seq<RecordItem>) -> bool {
    &&& forall|i: int| 0 <= i < items.len() ==> item_wf(#[trigger] items[i])
    &&& forall|i: int, j: int| 0 <= i <= j < items.len() ==> #[trigger] items[i].time <= #[trigger] items[j].time
}

/// Which parts of a board changed during a tick.
#[derive(Debug, Clone, Copy, PartialEq, Eq, Structural)]
pub struct Changes {
    pub active: bool,
    pub queue: bool,
    pub hold: bool,
    pub matrix: bool,
}

/// A run of record items of one uninterrupted session, and the tick at which it branched
/// off the segment before it.
pub struct RecordSegment {
    pub data: Vec<RecordItem>,
    pub branch_time: u64,
    /// The segments that branched off this one: the time at which each begins and its id,
    /// sorted by time.
    pub children: Vec<(u64, usize)>,
    /// The number that the complete record gave this segment.
    pub id: usize,
}

/// Child entries sorted by branch time.
pub open spec fn children_sorted(c: Seq<(u64, usize)>) -> bool {
    forall|i: int, j: int| 0 <= i <= j < c.len() ==> (#[trigger] c[i]).0 <= (#[trigger] c[j]).0
}

/// `loc` is the first child entry whose time comes after `t`, or the length.
pub open spec fn is_first_after_key(c: Seq<(u64, usize)>, t: u64, loc: int) -> bool {
    &&& 0 <= loc <= c.len()
    &&& forall|i: int| 0 <= i < loc ==> (#[trigger] c[i]).0 <= t
    &&& loc < c.len() ==> c[loc].0 > t
}

impl RecordSegment {
    /// A segment of `data` that branched off at `branch_time`, with no children yet.
    pub fn new(data: Vec<RecordItem>, branch_time: u64) -> (r: RecordSegment)
        ensures
            r.data == data,
            r.branch_time == branch_time,
            r.children@.len() == 0,
            r.id == 0,
    {
        RecordSegment { data, branch_time, children: Vec::new(), id: 0 }
    }
}

/// The segment that live play appends to.
pub struct PartialRecord {
    pub segment: RecordSegment,
}

/// The items of a tick at `time` for the changed parts of a board, in order: active piece,
/// queue, hold slot, then one item per changed cell.
pub open spec fn tick_items_ok(items: Seq<RecordItem>, time: u64, active: Option<Mino>, queue: PieceQueue, hold: Hold,
    diff: Seq<MatrixUpdate>, ch: Changes) -> bool
{
    let na: int = if ch.active { 1 } else { 0 };
    let nq: int = if ch.queue { 1 } else { 0 };
    let nh: int = if ch.hold { 1 } else { 0 };
    let nm: int = if ch.matrix { diff.len() as int } else { 0 };
    &&& items.len() == na + nq + nh + nm
    &&& forall|i: int| 0 <= i < items.len() ==> (#[trigger] items[i]).time == time
    &&& ch.active ==> items[0].data == RecordData::ActiveChange(active)
    &&& ch.queue ==> (items[na].data matches RecordData::QueueChange(q) && q@ == queue@ && q.wf() == queue.wf())
    &&& ch.hold ==> items[na + nq].data == RecordData::Hold(hold)
    &&& forall|j: int| 0 <= j < nm ==> (#[trigger] items[tick_head_len(ch) + j]).data == RecordData::MatrixChange(diff[j])
}

/// The number of items a tick appends before its cell changes.
pub open spec fn tick_head_len(ch: Changes) -> int {
    (if ch.active { 1int } else { 0int }) + (if ch.queue { 1int } else { 0int }) + (if ch.hold { 1int } else { 0int })
}

/// The number of items a tick appends.
pub open spec fn tick_len(diff: Seq<MatrixUpdate>, ch: Changes) -> int {
    (if ch.active { 1int } else { 0int }) + (if ch.queue { 1int } else { 0int }) + (if ch.hold { 1int } else { 0int })
        + (if ch.matrix { diff.len() as int } else { 0int })
}

impl PartialRecord {
    /// An empty segment that branches off at `branch_time`.
    pub fn new(branch_time: u64) -> (r: PartialRecord)
        ensures
            r.segment.data@.len() == 0,
            r.segment.branch_time == branch_time,
            r.segment.children@.len() == 0,
    {
        PartialRecord { segment: RecordSegment::new(Vec::new(), branch_time) }
    }

    /// Appends the items of a tick at `time` for the parts of the board that changed; the
    /// matrix is compared with `previous`, the matrix of the tick before, which then becomes
    /// a copy of it.
    pub fn record(&mut self, time: u64, active: Option<Mino>, queue: &PieceQueue, hold: Hold, matrix: &Matrix,
        previous: &mut Vec<Vec<MinoKind>>, changes: Changes)
        requires
            matrix.wf(),
            same_shape(matrix.grid(), rows_view(old(previous)@)),
        ensures
            final(self).segment.branch_time == old(self).segment.branch_time,
            changes.matrix ==> rows_view(final(previous)@) == matrix.grid(),
            !changes.matrix ==> *final(previous) == *old(previous),
            final(self).segment.data@.len() == old(self).segment.data@.len()
                + tick_len(grid_diff(rows_view(old(previous)@), matrix.grid()), changes),
            final(self).segment.data@ == old(self).segment.data@
                + final(self).segment.data@.skip(old(self).segment.data@.len() as int),
            tick_items_ok(final(self).segment.data@.skip(old(self).segment.data@.len() as int), time, active, *queue, hold,
                grid_diff(rows_view(old(previous)@), matrix.grid()), changes),
            items_wf(old(self).segment.data@) && queue.wf()
                && (forall|i: int| 0 <= i < old(self).segment.data@.len() ==> (#[trigger] old(self).segment.data@[i]).time <= time)
                ==> items_wf(final(self).segment.data@),
    {
        let ghost base = self.segment.data@;
        let ghost diff = grid_diff(rows_view(previous@), matrix.grid());
        if changes.active {
            self.segment.data.push(RecordItem { time, data: RecordData::ActiveChange(active) });
        }
        if changes.queue {
            self.segment.data.push(RecordItem { time, data: RecordData::QueueChange(queue.snapshot()) });
        }
        if changes.hold {
            self.segment.data.push(RecordItem { time, data: RecordData::Hold(hold) });
        }
        let ghost head = self.segment.data@;
        if changes.matrix {
            let updates = diff_and_copy(&matrix.data, previous);
            let mut i: usize = 0;
            while i < updates.len()
                invariant
                    i <= updates@.len(),
                    updates@ == diff,
                    self.segment.branch_time == old(self).segment.branch_time,
                    self.segment.data@ == head + Seq::new(i as nat, |j: int| RecordItem { time, data: RecordData::MatrixChange(updates@[j]) }),
                decreases updates@.len() - i,
            {
                self.segment.data.push(RecordItem { time, data: RecordData::MatrixChange(updates[i]) });
                i = i + 1;
                assert(self.segment.data@ =~= head + Seq::new(i as nat, |j: int| RecordItem { time, data: RecordData::MatrixChange(updates@[j]) }));
            }
        }
        let ghost tail = self.segment.data@.skip(base.len() as int);
        assert(self.segment.data@.take(base.len() as int) =~= base);
        assert(self.segment.data@ =~= base + tail);
        proof {
            let na: int = if changes.active { 1 } else { 0 };
            let nq: int = if changes.queue { 1 } else { 0 };
            let nh: int = if changes.hold { 1 } else { 0 };
            assert(head.len() == base.len() + na + nq + nh);
            assert forall|j: int| 0 <= j < (if changes.matrix { diff.len() as int } else { 0 }) implies
                (#[trigger] tail[tick_head_len(changes) + j]).data == RecordData::MatrixChange(diff[j]) by {
                assert(tick_head_len(changes) == na + nq + nh);
                assert(tail[tick_head_len(changes) + j] == self.segment.data@[head.len() + j]);
            }
            if items_wf(base) && queue.wf() && (forall|i: int| 0 <= i < base.len() ==> (#[trigger] base[i]).time <= time) {
                lemma_tick_items_wf(tail, time, active, *queue, hold, diff, changes);
                lemma_append_sorted(base, tail, time);
            }
        }
    }

    /// Closes the segment.
    pub fn finish(self) -> (r: RecordSegment)
        ensures
            r == self.segment,
    {
        self.segment
    }
}

impl crate::update::Board {
    /// Writes the value that `record` holds into the board.
    pub fn apply_record(&mut self, record: &RecordItem)
        requires
            old(self).matrix.wf(),
        ensures
            final(self).matrix.wf(),
            final(self).bounds == old(self).bounds,
            final(self).settings == old(self).settings,
            final(self).drop_clock == old(self).drop_clock,
            applied(*old(self), *final(self), record.data),
    {
        match &record.data {
            RecordData::ActiveChange(new_position) => {
                self.active = *new_position;
            },
            RecordData::QueueChange(new_queue) => {
                self.queue = new_queue.snapshot();
            },
            RecordData::Hold(replace_with) => {
                self.hold = *replace_with;
            },
            RecordData::MatrixChange(update) => {
                self.matrix.apply_update(*update);
            },
        }
    }

    /// Takes back a change that `apply_record` made: a cell change is inverted; any other
    /// item's value is written as it is.
    pub fn undo_record(&mut self, record: &RecordItem)
        requires
            old(self).matrix.wf(),
        ensures
            final(self).matrix.wf(),
            final(self).bounds == old(self).bounds,
            final(self).settings == old(self).settings,
            final(self).drop_clock == old(self).drop_clock,
            applied(*old(self), *final(self), undone(record.data)),
    {
        match &record.data {
            RecordData::MatrixChange(update) => {
                self.matrix.apply_update(update.invert());
            },
            _ => self.apply_record(record),
        }
    }
}

/// The change that takes back `d`: a cell change is inverted; any other change stays.
pub open spec fn undone(d: RecordData) -> RecordData {
    match d {
        RecordData::MatrixChange(u) => RecordData::MatrixChange(inverted(u)),
        _ => d,
    }
}

/// What replay restores of a board: its cells, active piece, hold slot and queue.
pub struct ReplayState {
    pub grid: Seq<Seq<MinoKind>>,
    pub active: Option<Mino>,
    pub hold: Hold,
    pub queue: crate::queue::QueueModel,
}

/// The replayed parts of a board.
pub open spec fn state_of(b: crate::update::Board) -> ReplayState {
    ReplayState { grid: b.matrix.grid(), active: b.active, hold: b.hold, queue: b.queue@ }
}

/// The state after the change `d` is written in.
pub open spec fn apply_data(s: ReplayState, d: RecordData) -> ReplayState {
    match d {
        RecordData::ActiveChange(a) => ReplayState { active: a, ..s },
        RecordData::QueueChange(q) => ReplayState { queue: q@, ..s },
        RecordData::Hold(h) => ReplayState { hold: h, ..s },
        RecordData::MatrixChange(u) => ReplayState { grid: apply_update(s.grid, u), ..s },
    }
}

/// `b1` is `b0` with the change `d` written in; a queue keeps or takes its soundness with
/// its value.
pub open spec fn applied(b0: crate::update::Board, b1: crate::update::Board, d: RecordData) -> bool {
    &&& state_of(b1) == apply_data(state_of(b0), d)
    &&& d matches RecordData::QueueChange(q) ==> b1.queue.wf() == q.wf()
    &&& !(d is QueueChange) ==> b1.queue == b0.queue
}

impl Matrix {
    /// Writes the new value of `u` into its cell; a location outside the grid changes
    /// nothing.
    pub fn apply_update(&mut self, u: MatrixUpdate)
        requires
            old(self).wf(),
        ensures
            final(self).wf(),
            final(self).grid() == apply_update(old(self).grid(), u),
    {
        if u.loc.x < 0 || u.loc.y < 0 {
            return;
        }
        let x = u.loc.x as usize;
        let y = u.loc.y as usize;
        if y >= self.data.len() || x >= self.data[y].len() {
            return;
        }
        let ghost g = self.grid();
        assert(self.data@[y as int]@ == g[y as int]);
        self.data[y][x] = u.new;
        assert(self.grid() =~= g.update(y as int, g[y as int].update(x as int, u.new)));
    }
}

/// The segments that the player is viewing, oldest first, and where each begins in the
/// flattened index space.
pub struct CompleteRecord {
    pub segments: Vec<RecordSegment>,
    pub separations: Vec<usize>,
    /// Segments that a branch took out of the chain; their parents still list them.
    pub retired: Vec<RecordSegment>,
    /// The id that the next segment gets.
    pub next_id: usize,
}

/// The items that segment `s` of the chain contributes: those before the next segment's
/// separation, or all of them for the last segment.
pub open spec fn contribution(segs: Seq<RecordSegment>, seps: Seq<usize>, s: int) -> Seq<RecordItem> {
    if s + 1 < segs.len() {
        segs[s].data@.take(seps[s + 1] - seps[s])
    } else {
        segs[s].data@
    }
}

/// The items of the first `k` segments of the chain, in the flattened index space.
pub open spec fn flat_upto(segs: Seq<RecordSegment>, seps: Seq<usize>, k: int) -> Seq<RecordItem>
    decreases k,
{
    if k <= 0 {
        Seq::empty()
    } else {
        flat_upto(segs, seps, k - 1) + contribution(segs, seps, k - 1)
    }
}

/// The first index of `items` whose time is at least `t`, or the length if there is none.
pub open spec fn is_first_at_or_after(items: Seq<RecordItem>, t: u64, j: int) -> bool {
    &&& 0 <= j <= items.len()
    &&& forall|i: int| 0 <= i < j ==> (#[trigger] items[i]).time < t
    &&& j < items.len() ==> items[j].time >= t
}

impl CompleteRecord {
    /// The record's items in the flattened index space.
    pub open spec fn items(&self) -> Seq<RecordItem> {
        flat_upto(self.segments@, self.separations@, self.segments@.len() as int)
    }

    /// One separation per segment, the first at 0, each segment non-empty and sound, and each
    /// separation at most the previous one plus the previous segment's length.
    pub open spec fn wf(&self) -> bool {
        let segs = self.segments@;
        let seps = self.separations@;
        &&& segs.len() == seps.len()
        &&& segs.len() > 0 ==> seps[0] == 0
        &&& forall|s: int| 0 <= s < segs.len() ==> (#[trigger] segs[s]).data@.len() > 0 && items_wf(segs[s].data@)
        &&& forall|s: int| 0 <= s < segs.len() ==> (#[trigger] segs[s]).data@[0].time >= segs[s].branch_time
            && children_sorted(segs[s].children@)
        &&& forall|s: int| 0 <= s && s + 1 < segs.len() ==>
            #[trigger] seps[s] <= seps[s + 1] && seps[s + 1] - seps[s] <= segs[s].data@.len()
        &&& forall|s: int| 0 <= s < segs.len() ==> #[trigger] seps[s] + segs[s].data@.len() <= usize::MAX
    }

    /// An empty record.
    pub fn new() -> (r: CompleteRecord)
        ensures
            r.wf(),
            r.items().len() == 0,
    {
        CompleteRecord { segments: Vec::new(), separations: Vec::new(), retired: Vec::new(), next_id: 0 }
    }

    /// Number of items in the flattened index space.
    pub fn len(&self) -> (r: usize)
        requires
            self.wf(),
        ensures
            r == self.items().len(),
    {
        proof {
            lemma_flat_len(self.segments@, self.separations@, self.segments@.len() as int);
        }
        let n = self.segments.len();
        if n == 0 {
            return 0;
        }
        self.separations[n - 1] + self.segments[n - 1].data.len()
    }

    /// The time of the last item; `None` for an empty record.
    pub fn last_frame(&self) -> (r: Option<u64>)
        requires
            self.wf(),
        ensures
            r is None <==> self.items().len() == 0,
            r matches Some(t) ==> t == self.items().last().time,
    {
        proof {
            lemma_flat_len(self.segments@, self.separations@, self.segments@.len() as int);
        }
        let n = self.segments.len();
        if n == 0 {
            return None;
        }
        let last = &self.segments[n - 1];
        proof {
            let segs = self.segments@;
            let seps = self.separations@;
            assert(segs[n - 1].data@.len() > 0);
            let k = n as int;
            assert(flat_upto(segs, seps, k) == flat_upto(segs, seps, k - 1) + segs[k - 1].data@);
        }
        Some(last.data[last.data.len() - 1].time)
    }

    /// The item at flattened index `index`.
    pub fn get(&self, index: usize) -> (r: &RecordItem)
        requires
            self.wf(),
            index < self.items().len(),
        ensures
            *r == self.items()[index as int],
    {
        let ghost segs = self.segments@;
        let ghost seps = self.separations@;
        proof {
            lemma_flat_len(segs, seps, segs.len() as int);
        }
        proof {
            lemma_seps_sorted(segs, seps);
        }
        // the last segment whose separation is at most `index`
        let mut lo: usize = 0;
        let mut hi: usize = self.segments.len();
        while hi - lo > 1
            invariant
                self.wf(),
                segs == self.segments@,
                seps == self.separations@,
                segs.len() > 0,
                lo < hi <= segs.len(),
                seps[lo as int] <= index,
                forall|t: int| hi <= t < segs.len() ==> seps[t] > index,
                forall|a: int, b: int| 0 <= a <= b < seps.len() ==> seps[a] <= seps[b],
            decreases hi - lo,
        {
            let mid = lo + (hi - lo) / 2;
            if self.separations[mid] <= index {
                lo = mid;
            } else {
                hi = mid;
            }
        }
        let s = lo;
        proof {
            lemma_flat_index(segs, seps, s as int, index as int);
        }
        &self.segments[s].data[index - self.separations[s]]
    }

    /// Appends a finished segment to the chain, numbered with the next id. It branches off
    /// the last segment at the first item whose time is at least the new segment's first time
    /// (or after all of them): the flattened index space keeps the items before that point,
    /// and the last segment lists the new one among its children, by that time.
    pub fn add_segment(&mut self, segment: RecordSegment)
        requires
            old(self).wf(),
            segment.data@.len() > 0,
            items_wf(segment.data@),
            segment.data@[0].time >= segment.branch_time,
            children_sorted(segment.children@),
            old(self).items().len() + segment.data@.len() <= usize::MAX,
            old(self).next_id < usize::MAX,
        ensures
            final(self).wf(),
            final(self).next_id == old(self).next_id + 1,
            final(self).retired == old(self).retired,
            final(self).segments@.len() == old(self).segments@.len() + 1,
            ({
                let n = old(self).segments@.len() as int;
                let added = final(self).segments@[n];
                &&& added.data == segment.data
                &&& added.branch_time == segment.branch_time
                &&& added.children == segment.children
                &&& added.id == old(self).next_id
                &&& forall|s: int| 0 <= s < n - 1 ==> final(self).segments@[s] == old(self).segments@[s]
            }),
            old(self).segments@.len() == 0 ==> final(self).items() == segment.data@
                && final(self).separations@ == seq![0usize],
            old(self).segments@.len() > 0 ==> exists|j: int|
                is_first_at_or_after(old(self).segments@.last().data@, segment.data@[0].time, j)
                && final(self).items() == old(self).items().take(old(self).separations@.last() + j) + segment.data@
                && final(self).separations@ == old(self).separations@.push((old(self).separations@.last() + j) as usize),
            old(self).segments@.len() > 0 ==> ({
                let n = old(self).segments@.len() as int;
                let p0 = old(self).segments@[n - 1];
                let p1 = final(self).segments@[n - 1];
                &&& p1.data == p0.data
                &&& p1.branch_time == p0.branch_time
                &&& p1.id == p0.id
                &&& exists|loc: int| is_first_after_key(p0.children@, segment.data@[0].time, loc)
                    && p1.children@ == p0.children@.insert(loc, (segment.data@[0].time, old(self).next_id))
            }),
    {
        let ghost segs = self.segments@;
        let ghost seps = self.separations@;
        proof {
            lemma_flat_len(segs, seps, segs.len() as int);
        }
        let id = self.next_id;
        let mut segment = segment;
        segment.id = id;
        let n = self.segments.len();
        if n == 0 {
            self.segments.push(segment);
            self.separations.push(0);
            self.next_id = id + 1;
            proof {
                assert(flat_upto(self.segments@, self.separations@, 0) =~= Seq::<RecordItem>::empty());
                assert(self.items() =~= self.segments@[0].data@);
                assert(self.separations@ =~= seq![0usize]);
            }
            return;
        }
        let first_frame = segment.data[0].time;
        let mut parent = self.segments.pop().unwrap();
        assert(parent == segs[n - 1]);
        let mut j: usize = 0;
        while j < parent.data.len() && parent.data[j].time < first_frame
            invariant
                j <= parent.data@.len(),
                forall|i: int| 0 <= i < j ==> (#[trigger] parent.data@[i]).time < first_frame,
            decreases parent.data@.len() - j,
        {
            j = j + 1;
        }
        assert(is_first_at_or_after(segs.last().data@, first_frame, j as int));
        let mut loc: usize = 0;
        while loc < parent.children.len() && parent.children[loc].0 <= first_frame
            invariant
                loc <= parent.children@.len(),
                forall|i: int| 0 <= i < loc ==> (#[trigger] parent.children@[i]).0 <= first_frame,
            decreases parent.children@.len() - loc,
        {
            loc = loc + 1;
        }
        let ghost c0 = parent.children@;
        assert(is_first_after_key(c0, first_frame, loc as int));
        parent.children.insert(loc, (first_frame, id));
        proof {
            lemma_insert_sorted(c0, first_frame, id, loc as int);
        }
        let separation = self.separations[n - 1] + j;
        self.segments.push(parent);
        self.segments.push(segment);
        self.separations.push(separation);
        self.next_id = id + 1;
        proof {
            let segs2 = self.segments@;
            let seps2 = self.separations@;
            let k = n as int;
            assert forall|s: int| 0 <= s < k - 1 implies segs2[s] == segs[s] by {}
            lemma_flat_prefix_same(segs, seps, segs2, seps2, k - 1);
            assert(contribution(segs2, seps2, k - 1) == segs[k - 1].data@.take(j as int));
            assert(flat_upto(segs, seps, k) == flat_upto(segs, seps, k - 1) + segs[k - 1].data@);
            lemma_flat_len(segs, seps, k - 1);
            assert(flat_upto(segs, seps, k).take(seps[k - 1] + j) =~= flat_upto(segs, seps, k - 1) + segs[k - 1].data@.take(j as int));
            assert(self.items() == flat_upto(segs2, seps2, k) + segs2[k].data@);
            assert(self.items() =~= old(self).items().take(seps.last() + j) + segs2[k].data@);
            assert(seps2 =~= seps.push(separation));
            assert forall|s: int| 0 <= s < segs2.len() implies (#[trigger] segs2[s]).data@.len() > 0 && items_wf(segs2[s].data@)
                && segs2[s].data@[0].time >= segs2[s].branch_time && children_sorted(segs2[s].children@) by {
                if s < k - 1 {
                    assert(segs2[s] == segs[s]);
                }
            }
        }
    }

    /// Takes the segments from the first one whose first item comes after `frame` out of the
    /// chain, with their separations, and keeps them as retired segments; a branch begins at
    /// `frame`.
    pub fn prune_after(&mut self, frame: u64)
        requires
            old(self).wf(),
        ensures
            final(self).wf(),
            final(self).next_id == old(self).next_id,
            exists|p: int| 0 <= p <= old(self).segments@.len()
                && (forall|s: int| 0 <= s < p ==> (#[trigger] old(self).segments@[s]).data@[0].time <= frame)
                && (p < old(self).segments@.len() ==> old(self).segments@[p].data@[0].time > frame)
                && final(self).segments@ == old(self).segments@.take(p)
                && final(self).separations@ == old(self).separations@.take(p)
                && final(self).retired@ == old(self).retired@ + old(self).segments@.skip(p),
    {
        let mut p: usize = 0;
        while p < self.segments.len() && self.segments[p].data[0].time <= frame
            invariant
                self.wf(),
                *self == *old(self),
                p <= self.segments@.len(),
                forall|s: int| 0 <= s < p ==> (#[trigger] self.segments@[s]).data@[0].time <= frame,
            decreases self.segments@.len() - p,
        {
            p = p + 1;
        }
        let ghost segs = self.segments@;
        let ghost seps = self.separations@;
        let ghost r0 = self.retired@;
        proof {
            lemma_flat_len(segs, seps, segs.len() as int);
        }
        let mut i: usize = p;
        assert(segs.len() == self.segments.len());
        while self.segments.len() > p
            invariant
                p <= i <= segs.len(),
                segs.len() <= usize::MAX,
                self.segments@ == segs.take(p as int) + segs.skip(i as int),
                self.retired@ == r0 + segs.subrange(p as int, i as int),
                self.separations@ == seps,
                self.next_id == old(self).next_id,
            decreases self.segments@.len(),
        {
            assert(i < segs.len());
            assert(self.segments@[p as int] == segs[i as int]);
            let seg = self.segments.remove(p);
            self.retired.push(seg);
            i = i + 1;
            assert(self.segments@ =~= segs.take(p as int) + segs.skip(i as int));
            assert(self.retired@ =~= r0 + segs.subrange(p as int, i as int));
        }
        self.separations.truncate(p);
        proof {
            assert(i == segs.len());
            let segs2 = self.segments@;
            let seps2 = self.separations@;
            assert(segs2 =~= segs.take(p as int));
            assert(seps2 =~= seps.take(p as int));
            assert(self.retired@ =~= r0 + segs.skip(p as int));
            if p > 0 {
                let k = p as int;
                lemma_flat_len(segs, seps, k - 1);
                if k < segs.len() {
                    assert(seps[k - 1] <= seps[k]);
                }
            }
        }
    }
}

/// Inserting a child at its place by time keeps the children sorted.
proof fn lemma_insert_sorted(c: Seq<(u64, usize)>, t: u64, id: usize, loc: int)
    requires
        children_sorted(c),
        is_first_after_key(c, t, loc),
    ensures
        children_sorted(c.insert(loc, (t, id))),
{
    let d = c.insert(loc, (t, id));
    assert forall|i: int, j: int| 0 <= i <= j < d.len() implies (#[trigger] d[i]).0 <= (#[trigger] d[j]).0 by {
        if i < loc {
            assert(d[i] == c[i]);
            if j < loc {
                assert(d[j] == c[j]);
            } else if j > loc {
                assert(d[j] == c[j - 1]);
                assert(c[i].0 <= c[j - 1].0);
            }
        } else if i == loc {
            if j > loc {
                assert(d[j] == c[j - 1]);
                assert(c[loc].0 <= c[j - 1].0);
            }
        } else {
            assert(d[i] == c[i - 1] && d[j] == c[j - 1]);
        }
    }
}

/// Segment `s` begins at separation `s` of the flattened index space.
proof fn lemma_flat_len(segs: Seq<RecordSegment>, seps: Seq<usize>, k: int)
    requires
        segs.len() == seps.len(),
        0 <= k <= segs.len(),
        segs.len() > 0 ==> seps[0] == 0,
        forall|s: int| 0 <= s && s + 1 < segs.len() ==>
            #[trigger] seps[s] <= seps[s + 1] && seps[s + 1] - seps[s] <= segs[s].data@.len(),
    ensures
        k < segs.len() ==> flat_upto(segs, seps, k).len() == seps[k],
        k == segs.len() && k > 0 ==> flat_upto(segs, seps, k).len() == seps[k - 1] + segs[k - 1].data@.len(),
        k == 0 ==> flat_upto(segs, seps, k).len() == 0,
    decreases k,
{
    if k > 0 {
        lemma_flat_len(segs, seps, k - 1);
        if k - 1 + 1 < segs.len() {
            assert(seps[k - 1] <= seps[k]);
        }
    }
}

/// Chains that agree on their first `k` segments and on the separations that those use
/// flatten them alike.
proof fn lemma_flat_prefix_same(segs: Seq<RecordSegment>, seps: Seq<usize>, segs2: Seq<RecordSegment>, seps2: Seq<usize>, k: int)
    requires
        0 <= k,
        k < segs.len() <= segs2.len(),
        k < seps.len() <= seps2.len(),
        forall|s: int| 0 <= s < k ==> #[trigger] segs2[s] == segs[s] && seps2[s] == seps[s] && seps2[s + 1] == seps[s + 1],
    ensures
        flat_upto(segs2, seps2, k) == flat_upto(segs, seps, k),
    decreases k,
{
    if k > 0 {
        lemma_flat_prefix_same(segs, seps, segs2, seps2, k - 1);
        assert(contribution(segs2, seps2, k - 1) == contribution(segs, seps, k - 1));
    }
}

/// An index at or after separation `s` and before the next one is found in segment `s`.
proof fn lemma_flat_index(segs: Seq<RecordSegment>, seps: Seq<usize>, s: int, i: int)
    requires
        segs.len() == seps.len(),
        0 <= s < segs.len(),
        seps[0] == 0,
        forall|t: int| 0 <= t && t + 1 < segs.len() ==>
            #[trigger] seps[t] <= seps[t + 1] && seps[t + 1] - seps[t] <= segs[t].data@.len(),
        seps[s] <= i,
        forall|t: int| s < t < segs.len() ==> seps[t] > i,
        i < flat_upto(segs, seps, segs.len() as int).len(),
    ensures
        0 <= i - seps[s] < segs[s].data@.len(),
        flat_upto(segs, seps, segs.len() as int)[i] == segs[s].data@[i - seps[s]],
{
    lemma_flat_len(segs, seps, segs.len() as int);
    lemma_flat_len(segs, seps, s);
    lemma_flat_len(segs, seps, s + 1);
    lemma_flat_extend(segs, seps, s + 1, segs.len() as int);
    let whole = flat_upto(segs, seps, segs.len() as int);
    let part = flat_upto(segs, seps, s + 1);
    assert(part == flat_upto(segs, seps, s) + contribution(segs, seps, s));
    if s + 1 < segs.len() {
        assert(seps[s + 1] > i);
        assert(seps[s] <= seps[s + 1] && seps[s + 1] - seps[s] <= segs[s].data@.len());
    }
    assert(i < part.len());
    assert(whole[i] == whole.take(part.len() as int)[i]);
    assert(part[i] == contribution(segs, seps, s)[i - seps[s]]);
}

/// A longer prefix of the chain extends a shorter one.
proof fn lemma_flat_extend(segs: Seq<RecordSegment>, seps: Seq<usize>, k: int, m: int)
    requires
        0 <= k <= m <= segs.len(),
    ensures
        flat_upto(segs, seps, k).len() <= flat_upto(segs, seps, m).len(),
        flat_upto(segs, seps, m).take(flat_upto(segs, seps, k).len() as int) == flat_upto(segs, seps, k),
    decreases m - k,
{
    if k < m {
        lemma_flat_extend(segs, seps, k, m - 1);
        let a = flat_upto(segs, seps, m - 1);
        assert(flat_upto(segs, seps, m) == a + contribution(segs, seps, m - 1));
        assert(flat_upto(segs, seps, m).take(flat_upto(segs, seps, k).len() as int)
            =~= a.take(flat_upto(segs, seps, k).len() as int));
    } else {
        assert(flat_upto(segs, seps, m).take(flat_upto(segs, seps, k).len() as int) =~= flat_upto(segs, seps, k));
    }
}

/// Every item of a sound record is sound.
pub proof fn lemma_items_wf(r: &CompleteRecord)
    requires
        r.wf(),
    ensures
        forall|k: int| 0 <= k < r.items().len() ==> item_wf(#[trigger] r.items()[k]),
{
    lemma_flat_wf(r.segments@, r.separations@, r.segments@.len() as int);
}

/// The first `k` segments of a sound chain flatten to sound items.
proof fn lemma_flat_wf(segs: Seq<RecordSegment>, seps: Seq<usize>, k: int)
    requires
        0 <= k <= segs.len(),
        forall|s: int| 0 <= s < segs.len() ==> (#[trigger] segs[s]).data@.len() > 0 && items_wf(segs[s].data@),
        forall|s: int| 0 <= s && s + 1 < segs.len() ==>
            #[trigger] seps[s] <= seps[s + 1] && seps[s + 1] - seps[s] <= segs[s].data@.len(),
    ensures
        forall|i: int| 0 <= i < flat_upto(segs, seps, k).len() ==> item_wf(#[trigger] flat_upto(segs, seps, k)[i]),
    decreases k,
{
    if k > 0 {
        lemma_flat_wf(segs, seps, k - 1);
        let a = flat_upto(segs, seps, k - 1);
        let c = contribution(segs, seps, k - 1);
        assert(items_wf(segs[k - 1].data@));
        if k < segs.len() {
            assert(seps[k - 1] <= seps[k] && seps[k] - seps[k - 1] <= segs[k - 1].data@.len());
        }
        assert(c.len() <= segs[k - 1].data@.len());
        assert forall|i: int| 0 <= i < flat_upto(segs, seps, k).len() implies item_wf(#[trigger] flat_upto(segs, seps, k)[i]) by {
            if i >= a.len() {
                assert(flat_upto(segs, seps, k)[i] == c[i - a.len()]);
                assert(c[i - a.len()] == segs[k - 1].data@[i - a.len()]);
            } else {
                assert(flat_upto(segs, seps, k)[i] == a[i]);
            }
        }
    }
}

/// Updates applied one list after another are the updates of both lists applied in turn.
proof fn lemma_apply_concat(g: Seq<Seq<MinoKind>>, a: Seq<MatrixUpdate>, b: Seq<MatrixUpdate>)
    ensures
        apply_updates(g, a + b) == apply_updates(apply_updates(g, a), b),
    decreases b.len(),
{
    if b.len() == 0 {
        assert(a + b =~= a);
    } else {
        lemma_apply_concat(g, a, b.drop_last());
        assert((a + b).drop_last() =~= a + b.drop_last());
    }
}

/// The changes of row `y` among its first `upto` columns turn that row, where it held `o`,
/// into `n` on those columns.
proof fn lemma_row_diff(g: Seq<Seq<MinoKind>>, o: Seq<MinoKind>, n: Seq<MinoKind>, y: int, upto: int)
    requires
        0 <= y < g.len() <= MAX_DIM,
        g[y] == o,
        o.len() == n.len() <= MAX_DIM,
        0 <= upto <= o.len(),
    ensures
        apply_updates(g, row_diff(o, n, y, upto)) == g.update(y, n.take(upto) + o.skip(upto)),
    decreases upto,
{
    if upto == 0 {
        assert(n.take(0) + o.skip(0) =~= o);
        assert(g.update(y, o) =~= g);
    } else {
        let x = upto - 1;
        lemma_row_diff(g, o, n, y, x);
        let prev = row_diff(o, n, y, x);
        let h = g.update(y, n.take(x) + o.skip(x));
        if o[x] != n[x] {
            let u = MatrixUpdate { loc: Pos { x: x as i32, y: y as i32 }, old: o[x], new: n[x] };
            assert(row_diff(o, n, y, upto) == prev.push(u));
            assert(prev.push(u).drop_last() =~= prev);
            assert(cell(h, x, y) is Some);
            assert(h[y].update(x, n[x]) =~= n.take(upto) + o.skip(upto));
            assert(apply_update(h, u) =~= g.update(y, n.take(upto) + o.skip(upto)));
        } else {
            assert(n.take(x) + o.skip(x) =~= n.take(upto) + o.skip(upto));
        }
    }
}

/// The changes among the first `rows` rows turn those rows of `o` into those of `n`.
proof fn lemma_grid_diff(o: Seq<Seq<MinoKind>>, n: Seq<Seq<MinoKind>>, rows: int)
    requires
        grid_wf(n),
        same_shape(n, o),
        0 <= rows <= o.len(),
    ensures
        apply_updates(o, grid_diff_upto(o, n, rows)) == n.take(rows) + o.skip(rows),
    decreases rows,
{
    if rows == 0 {
        assert(n.take(0) + o.skip(0) =~= o);
    } else {
        let y = rows - 1;
        lemma_grid_diff(o, n, y);
        let g = n.take(y) + o.skip(y);
        lemma_apply_concat(o, grid_diff_upto(o, n, y), row_diff(o[y], n[y], y, o[y].len() as int));
        assert(g[y] == o[y]);
        assert(n[y].len() == n[0].len());
        lemma_row_diff(g, o[y], n[y], y, o[y].len() as int);
        assert(n[y].take(o[y].len() as int) + o[y].skip(o[y].len() as int) =~= n[y]);
        assert(g.update(y, n[y]) =~= n.take(rows) + o.skip(rows));
    }
}

/// Diff round trip: applying the diff of two grids of one size to the first gives the
/// second.
pub proof fn lemma_diff_round_trip(o: Seq<Seq<MinoKind>>, n: Seq<Seq<MinoKind>>)
    requires
        grid_wf(n),
        same_shape(n, o),
    ensures
        apply_updates(o, grid_diff(o, n)) == n,
{
    lemma_grid_diff(o, n, o.len() as int);
    assert(n.take(o.len() as int) + o.skip(o.len() as int) =~= n);
}

/// The separations of a sound chain do not decrease.
proof fn lemma_seps_sorted(segs: Seq<RecordSegment>, seps: Seq<usize>)
    requires
        segs.len() == seps.len(),
        forall|s: int| 0 <= s && s + 1 < segs.len() ==>
            #[trigger] seps[s] <= seps[s + 1] && seps[s + 1] - seps[s] <= segs[s].data@.len(),
    ensures
        forall|a: int, b: int| 0 <= a <= b < seps.len() ==> seps[a] <= seps[b],
{
    assert forall|a: int, b: int| 0 <= a <= b < seps.len() implies seps[a] <= seps[b] by {
        lemma_seps_step(segs, seps, a, b);
    }
}

/// One pair of `lemma_seps_sorted`, by induction on the distance.
proof fn lemma_seps_step(segs: Seq<RecordSegment>, seps: Seq<usize>, a: int, b: int)
    requires
        segs.len() == seps.len(),
        forall|s: int| 0 <= s && s + 1 < segs.len() ==>
            #[trigger] seps[s] <= seps[s + 1] && seps[s + 1] - seps[s] <= segs[s].data@.len(),
        0 <= a <= b < seps.len(),
    ensures
        seps[a] <= seps[b],
    decreases b - a,
{
    if a < b {
        lemma_seps_step(segs, seps, a, b - 1);
        assert(seps[b - 1] <= seps[b]);
    }
}

/// The items of a tick hold a sound queue when the board's queue is sound.
proof fn lemma_tick_items_wf(items: Seq<RecordItem>, time: u64, active: Option<Mino>, queue: PieceQueue, hold: Hold,
    diff: Seq<MatrixUpdate>, ch: Changes)
    requires
        tick_items_ok(items, time, active, queue, hold, diff, ch),
        queue.wf(),
    ensures
        forall|i: int| 0 <= i < items.len() ==> item_wf(#[trigger] items[i]),
{
    let na: int = if ch.active { 1 } else { 0 };
    let nq: int = if ch.queue { 1 } else { 0 };
    let nh: int = if ch.hold { 1 } else { 0 };
    assert forall|i: int| 0 <= i < items.len() implies item_wf(#[trigger] items[i]) by {
        if i >= na + nq + nh {
            let j = i - tick_head_len(ch);
            assert(items[tick_head_len(ch) + j].data == RecordData::MatrixChange(diff[j]));
        }
    }
}

/// Sound items at `time` appended to sound items no later than `time` stay sound and sorted.
proof fn lemma_append_sorted(base: Seq<RecordItem>, tail: Seq<RecordItem>, time: u64)
    requires
        items_wf(base),
        forall|i: int| 0 <= i < base.len() ==> (#[trigger] base[i]).time <= time,
        forall|i: int| 0 <= i < tail.len() ==> (#[trigger] tail[i]).time == time,
        forall|i: int| 0 <= i < tail.len() ==> item_wf(#[trigger] tail[i]),
    ensures
        items_wf(base + tail),
{
    let fin = base + tail;
    assert forall|i: int| 0 <= i < fin.len() implies item_wf(#[trigger] fin[i]) by {
        if i >= base.len() {
            assert(fin[i] == tail[i - base.len()]);
        }
    }
    assert forall|i: int, j: int| 0 <= i <= j < fin.len() implies #[trigger] fin[i].time <= #[trigger] fin[j].time by {
        if j >= base.len() {
            assert(fin[j] == tail[j - base.len()]);
            if i >= base.len() {
                assert(fin[i] == tail[i - base.len()]);
            }
        }
    }
}

/// Whether two rows hold the same cells.
fn same_cells(a: &Vec<MinoKind>, b: &Vec<MinoKind>) -> (r: bool)
    ensures
        r == (a@ == b@),
{
    if a.len() != b.len() {
        return false;
    }
    let mut i: usize = 0;
    while i < a.len()
        invariant
            a@.len() == b@.len(),
            i <= a@.len(),
            forall|j: int| 0 <= j < i ==> a@[j] == b@[j],
        decreases a@.len() - i,
    {
        if a[i] != b[i] {
            return false;
        }
        i = i + 1;
    }
    assert(a@ =~= b@);
    true
}

/// Whether two grids hold the same cells.
fn same_rows(a: &Vec<Vec<MinoKind>>, b: &Vec<Vec<MinoKind>>) -> (r: bool)
    ensures
        r == (rows_view(a@) == rows_view(b@)),
{
    if a.len() != b.len() {
        assert(rows_view(a@).len() != rows_view(b@).len());
        return false;
    }
    let mut i: usize = 0;
    while i < a.len()
        invariant
            a@.len() == b@.len(),
            i <= a@.len(),
            forall|j: int| 0 <= j < i ==> rows_view(a@)[j] == rows_view(b@)[j],
        decreases a@.len() - i,
    {
        if !same_cells(&a[i], &b[i]) {
            assert(rows_view(a@)[i as int] != rows_view(b@)[i as int]);
            return false;
        }
        i = i + 1;
    }
    assert(rows_view(a@) =~= rows_view(b@));
    true
}

impl Changes {
    /// Which parts of a board differ between the values before a tick and after it: the
    /// active piece, the hold slot, the upcoming pieces, and the cells.
    pub fn detect(active0: Option<Mino>, active1: Option<Mino>, hold0: Hold, hold1: Hold,
        window0: &Vec<MinoKind>, window1: &Vec<MinoKind>, matrix0: &Vec<Vec<MinoKind>>, matrix1: &Vec<Vec<MinoKind>>) -> (r: Changes)
        ensures
            r.active == (active0 != active1),
            r.hold == (hold0 != hold1),
            r.queue == (window0@ != window1@),
            r.matrix == (rows_view(matrix0@) != rows_view(matrix1@)),
    {
        let active = match (active0, active1) {
            (None, None) => false,
            (Some(a), Some(b)) => a != b,
            _ => true,
        };
        Changes {
            active,
            queue: !same_cells(window0, window1),
            hold: hold0 != hold1,
            matrix: !same_rows(matrix0, matrix1),
        }
    }
}

/// `a` comes before `b` in row-major order.
pub open spec fn before_in_scan(a: Pos, b: Pos) -> bool {
    a.y < b.y || (a.y == b.y && a.x < b.x)
}

/// Every entry names a cell of the first `rows` rows that differs, with its two values.
pub open spec fn entries_exact(d: Seq<MatrixUpdate>, o: Seq<Seq<MinoKind>>, n: Seq<Seq<MinoKind>>, rows: int) -> bool {
    forall|i: int| 0 <= i < d.len() ==> entry_exact(#[trigger] d[i], o, n, rows)
}

/// `u` names a cell of the first `rows` rows that differs, with its two values.
pub open spec fn entry_exact(u: MatrixUpdate, o: Seq<Seq<MinoKind>>, n: Seq<Seq<MinoKind>>, rows: int) -> bool {
    &&& 0 <= u.loc.y < rows && 0 <= u.loc.x < o[u.loc.y as int].len()
    &&& u.old == o[u.loc.y as int][u.loc.x as int]
    &&& u.new == n[u.loc.y as int][u.loc.x as int]
    &&& u.old != u.new
}

/// Entries in strictly increasing row-major order, so no cell twice.
pub open spec fn scan_ordered(d: Seq<MatrixUpdate>) -> bool {
    forall|i: int, j: int| 0 <= i < j < d.len() ==> before_in_scan(#[trigger] d[i].loc, #[trigger] d[j].loc)
}

/// The entries name the cell at `(x, y)`.
pub open spec fn names_cell(d: Seq<MatrixUpdate>, x: int, y: int) -> bool {
    exists|i: int| 0 <= i < d.len() && #[trigger] d[i].loc == (Pos { x: x as i32, y: y as i32 })
}

/// Every differing cell of the first `rows` rows is named.
pub open spec fn covers_changes(d: Seq<MatrixUpdate>, o: Seq<Seq<MinoKind>>, n: Seq<Seq<MinoKind>>, rows: int) -> bool {
    forall|y: int, x: int| 0 <= y < rows && 0 <= x < o[y].len() && o[y][x] != n[y][x] ==> #[trigger] names_cell(d, x, y)
}

/// The diff lists each cell that differs between `o` and `n` exactly once, in row-major
/// order, with its two values, and no other cell.
pub proof fn lemma_diff_exact(o: Seq<Seq<MinoKind>>, n: Seq<Seq<MinoKind>>)
    requires
        grid_wf(n),
        same_shape(n, o),
    ensures
        entries_exact(grid_diff(o, n), o, n, o.len() as int),
        scan_ordered(grid_diff(o, n)),
        covers_changes(grid_diff(o, n), o, n, o.len() as int),
{
    lemma_grid_diff_exact(o, n, o.len() as int);
}

/// `lemma_diff_exact` for the first `rows` rows.
proof fn lemma_grid_diff_exact(o: Seq<Seq<MinoKind>>, n: Seq<Seq<MinoKind>>, rows: int)
    requires
        grid_wf(n),
        same_shape(n, o),
        0 <= rows <= o.len(),
    ensures
        entries_exact(grid_diff_upto(o, n, rows), o, n, rows),
        scan_ordered(grid_diff_upto(o, n, rows)),
        covers_changes(grid_diff_upto(o, n, rows), o, n, rows),
    decreases rows,
{
    if rows > 0 {
        let y = rows - 1;
        lemma_grid_diff_exact(o, n, y);
        let a = grid_diff_upto(o, n, y);
        assert(n[y].len() == n[0].len());
        let b = row_diff(o[y], n[y], y, o[y].len() as int);
        lemma_row_entries(o, n, y, o[y].len() as int);
        lemma_row_ordered(o[y], n[y], y, o[y].len() as int);
        lemma_row_covers(o[y], n[y], y, o[y].len() as int);
        lemma_concat_entries(a, b, o, n, y);
        lemma_concat_ordered(a, b, o, n, y);
        lemma_concat_covers(a, b, o, n, y);
    }
}

/// The entries of a row's diff name cells of that row that differ.
proof fn lemma_row_entries(o: Seq<Seq<MinoKind>>, n: Seq<Seq<MinoKind>>, y: int, upto: int)
    requires
        0 <= y < o.len() <= MAX_DIM,
        o[y].len() == n[y].len() <= MAX_DIM,
        0 <= upto <= o[y].len(),
    ensures
        forall|i: int| 0 <= i < row_diff(o[y], n[y], y, upto).len() ==>
            entry_exact(#[trigger] row_diff(o[y], n[y], y, upto)[i], o, n, y + 1)
            && row_diff(o[y], n[y], y, upto)[i].loc.y == y && row_diff(o[y], n[y], y, upto)[i].loc.x < upto,
    decreases upto,
{
    if upto > 0 {
        lemma_row_entries(o, n, y, upto - 1);
    }
}

/// The entries of a row's diff go by increasing column.
proof fn lemma_row_ordered(o: Seq<MinoKind>, n: Seq<MinoKind>, y: int, upto: int)
    requires
        o.len() == n.len() <= MAX_DIM,
        0 <= y < MAX_DIM,
        0 <= upto <= o.len(),
    ensures
        forall|i: int| 0 <= i < row_diff(o, n, y, upto).len() ==>
            (#[trigger] row_diff(o, n, y, upto)[i]).loc.x < upto && row_diff(o, n, y, upto)[i].loc.y == y,
        scan_ordered(row_diff(o, n, y, upto)),
    decreases upto,
{
    if upto > 0 {
        lemma_row_ordered(o, n, y, upto - 1);
        let prev = row_diff(o, n, y, upto - 1);
        let d = row_diff(o, n, y, upto);
        assert forall|i: int, j: int| 0 <= i < j < d.len() implies before_in_scan(#[trigger] d[i].loc, #[trigger] d[j].loc) by {
            assert(d[i] == prev[i]);
            if j < prev.len() {
                assert(d[j] == prev[j]);
            }
        }
        assert forall|i: int| 0 <= i < d.len() implies (#[trigger] d[i]).loc.x < upto && d[i].loc.y == y by {
            if i < prev.len() {
                assert(d[i] == prev[i]);
            }
        }
    }
}

/// Every differing cell of a row is named by the row's diff.
proof fn lemma_row_covers(o: Seq<MinoKind>, n: Seq<MinoKind>, y: int, upto: int)
    requires
        o.len() == n.len() <= MAX_DIM,
        0 <= y < MAX_DIM,
        0 <= upto <= o.len(),
    ensures
        forall|x: int| 0 <= x < upto && o[x] != n[x] ==> #[trigger] names_cell(row_diff(o, n, y, upto), x, y),
    decreases upto,
{
    if upto > 0 {
        lemma_row_covers(o, n, y, upto - 1);
        let prev = row_diff(o, n, y, upto - 1);
        let d = row_diff(o, n, y, upto);
        assert forall|x: int| 0 <= x < upto && o[x] != n[x] implies #[trigger] names_cell(d, x, y) by {
            if x < upto - 1 {
                assert(names_cell(prev, x, y));
                let i = choose|i: int| 0 <= i < prev.len() && #[trigger] prev[i].loc == (Pos { x: x as i32, y: y as i32 });
                assert(d[i] == prev[i]);
            } else {
                assert(d[prev.len() as int].loc == (Pos { x: x as i32, y: y as i32 }));
            }
        }
    }
}

/// Row `y`'s entries after those of the rows below keep every entry exact.
proof fn lemma_concat_entries(a: Seq<MatrixUpdate>, b: Seq<MatrixUpdate>, o: Seq<Seq<MinoKind>>, n: Seq<Seq<MinoKind>>, y: int)
    requires
        entries_exact(a, o, n, y),
        forall|i: int| 0 <= i < b.len() ==> entry_exact(#[trigger] b[i], o, n, y + 1),
    ensures
        entries_exact(a + b, o, n, y + 1),
{
    let d = a + b;
    assert forall|i: int| 0 <= i < d.len() implies entry_exact(#[trigger] d[i], o, n, y + 1) by {
        if i < a.len() {
            assert(d[i] == a[i]);
        } else {
            assert(d[i] == b[i - a.len()]);
        }
    }
}

/// Row `y`'s entries after those of the rows below keep the row-major order.
proof fn lemma_concat_ordered(a: Seq<MatrixUpdate>, b: Seq<MatrixUpdate>, o: Seq<Seq<MinoKind>>, n: Seq<Seq<MinoKind>>, y: int)
    requires
        entries_exact(a, o, n, y),
        scan_ordered(a),
        scan_ordered(b),
        forall|i: int| 0 <= i < b.len() ==> (#[trigger] b[i]).loc.y == y,
    ensures
        scan_ordered(a + b),
{
    let d = a + b;
    assert forall|i: int, j: int| 0 <= i < j < d.len() implies before_in_scan(#[trigger] d[i].loc, #[trigger] d[j].loc) by {
        if j < a.len() {
            assert(d[i] == a[i] && d[j] == a[j]);
        } else if i < a.len() {
            assert(d[i] == a[i] && d[j] == b[j - a.len()]);
            assert(entry_exact(a[i], o, n, y));
        } else {
            assert(d[i] == b[i - a.len()] && d[j] == b[j - a.len()]);
        }
    }
}

/// Row `y`'s entries after those of the rows below name every differing cell up to row `y`.
proof fn lemma_concat_covers(a: Seq<MatrixUpdate>, b: Seq<MatrixUpdate>, o: Seq<Seq<MinoKind>>, n: Seq<Seq<MinoKind>>, y: int)
    requires
        covers_changes(a, o, n, y),
        forall|x: int| 0 <= x < o[y].len() && o[y][x] != n[y][x] ==> #[trigger] names_cell(b, x, y),
    ensures
        covers_changes(a + b, o, n, y + 1),
{
    let d = a + b;
    assert forall|yy: int, x: int| 0 <= yy < y + 1 && 0 <= x < o[yy].len() && o[yy][x] != n[yy][x]
        implies #[trigger] names_cell(d, x, yy) by {
        if yy < y {
            assert(names_cell(a, x, yy));
            let i = choose|i: int| 0 <= i < a.len() && #[trigger] a[i].loc == (Pos { x: x as i32, y: yy as i32 });
            assert(d[i] == a[i]);
        } else {
            assert(names_cell(b, x, yy));
            let i = choose|i: int| 0 <= i < b.len() && #[trigger] b[i].loc == (Pos { x: x as i32, y: yy as i32 });
            assert(d[a.len() + i] == b[i]);
        }
    }
}

} // verus!
