//! Replaying a record: moving the viewed tick forwards or backwards and bringing a board to
//! it, per-cell changes by inversion and the sparse fields by look-back.
use vstd::prelude::*;
use crate::record::{CompleteRecord, RecordItem, RecordData, ReplayState, state_of, apply_data, undone,
    item_wf, lemma_items_wf};
use crate::update::Board;
use crate::controller::Controller;

verus! {

/// Ticks in a second.
pub const TICKS_PER_SECOND: u64 = 60;

/// Whole ticks, at 60 a second, in `elapsed_ms` milliseconds.
pub fn discretized_time(elapsed_ms: u64) -> (r: u64)
    ensures
        r == elapsed_ms as int * 60 / 1000,
{
    let q = elapsed_ms / 1000;
    let rem = elapsed_ms % 1000;
    assert(q * 60 + rem * 60 / 1000 == elapsed_ms as int * 60 / 1000) by (nonlinear_arith)
        requires
            q == elapsed_ms as int / 1000,
            rem == elapsed_ms as int % 1000,
    {
        assert(elapsed_ms as int == 1000 * q + rem);
        assert(elapsed_ms as int * 60 == 1000 * (60 * q) + rem * 60);
    }
    assert(q * 60 <= u64::MAX);
    q * 60 + rem * 60 / 1000
}

/// How a playing replay reads the record.
#[derive(Debug, Clone, Copy, PartialEq, Eq, Structural)]
pub struct ActiveReplayMeta {
    /// The record tick at which playing began.
    pub record_frame: u64,
    /// The clock tick at which playing began.
    pub real_frame: u64,
    /// Whether time runs backwards.
    pub reverse: bool,
}

/// Where a replay stands.
#[derive(Debug, Clone, Copy, PartialEq, Eq, Structural)]
pub struct ReplayInfo {
    /// The record tick shown.
    pub frame: u64,
    /// The index after the last item applied.
    pub ix: usize,
    /// The index that `ix` must reach to be on time.
    pub next_ix: usize,
    pub playing: Option<ActiveReplayMeta>,
}

/// `j` is the first index from `ix` on whose item comes after `frame`, or the length.
pub open spec fn is_forward_target(items: Seq<RecordItem>, ix: int, frame: u64, j: int) -> bool {
    &&& ix <= j <= items.len()
    &&& forall|k: int| ix <= k < j ==> (#[trigger] items[k]).time <= frame
    &&& j < items.len() ==> items[j].time > frame
}

/// `j` is one past the last index whose item comes at or before `frame`, or 0: on a record
/// sorted by time, the partition point that keeps the items at `frame` applied.
pub open spec fn is_backward_target(items: Seq<RecordItem>, frame: u64, j: int) -> bool {
    &&& 0 <= j <= items.len()
    &&& j > 0 ==> items[j - 1].time <= frame
    &&& forall|k: int| j <= k < items.len() ==> (#[trigger] items[k]).time > frame
}

/// A replay positioned at the end of `record`, paused.
pub fn initialize_replay(record: &CompleteRecord) -> (r: ReplayInfo)
    requires
        record.wf(),
    ensures
        r.ix == record.items().len(),
        r.next_ix == record.items().len(),
        r.playing is None,
        r.frame == (if record.items().len() == 0 { 0 } else { record.items().last().time }),
{
    let n = record.len();
    let frame = match record.last_frame() {
        Some(t) => t,
        None => 0,
    };
    ReplayInfo { frame, ix: n, next_ix: n, playing: None }
}

/// Starts or pauses playing on the play request, and starts or stops playing backwards on
/// the reverse request, at clock tick `now`.
pub fn adjust_replay(info: &mut ReplayInfo, play_pressed: bool, reverse_pressed: bool, now: u64)
    ensures
        final(info).frame == old(info).frame,
        final(info).ix == old(info).ix,
        final(info).next_ix == old(info).next_ix,
        ({
            let after_play = if play_pressed {
                if old(info).playing is Some { None } else {
                    Some(ActiveReplayMeta { record_frame: old(info).frame, real_frame: now, reverse: false })
                }
            } else {
                old(info).playing
            };
            final(info).playing == if reverse_pressed {
                if after_play matches Some(m) && m.reverse { None } else {
                    Some(ActiveReplayMeta { record_frame: old(info).frame, real_frame: now, reverse: true })
                }
            } else {
                after_play
            }
        }),
{
    let record_frame = info.frame;
    if play_pressed {
        if info.playing.is_some() {
            info.playing = None;
        } else {
            info.playing = Some(ActiveReplayMeta { record_frame, real_frame: now, reverse: false });
        }
    }
    if reverse_pressed {
        let backwards = match info.playing {
            Some(m) => m.reverse,
            None => false,
        };
        if backwards {
            info.playing = None;
        } else {
            info.playing = Some(ActiveReplayMeta { record_frame, real_frame: now, reverse: true });
        }
    }
}

/// Moves a playing replay to the record tick that clock tick `now` stands for, finds the
/// index it must reach, and pauses it at either end of the record.
pub fn advance_frame(info: &mut ReplayInfo, record: &CompleteRecord, now: u64)
    requires
        record.wf(),
        old(info).ix <= record.items().len(),
        old(info).next_ix <= record.items().len(),
    ensures
        final(info).ix == old(info).ix,
        final(info).next_ix <= record.items().len(),
        old(info).playing is None ==> *final(info) == *old(info),
        old(info).playing matches Some(m) ==> {
            let elapsed = now.saturating_sub(m.real_frame);
            let frame = if m.reverse { m.record_frame.saturating_sub(elapsed) } else { m.record_frame.saturating_add(elapsed) };
            let items = record.items();
            &&& final(info).frame == frame
            &&& frame == old(info).frame ==> final(info).next_ix == old(info).next_ix
            &&& frame != old(info).frame && m.reverse ==> is_backward_target(items, frame, final(info).next_ix as int)
            &&& frame != old(info).frame && !m.reverse ==> is_forward_target(items, old(info).ix as int, frame, final(info).next_ix as int)
            &&& final(info).playing == if (old(info).ix == items.len() && !m.reverse) || (old(info).ix == 0 && m.reverse) {
                None
            } else {
                Some(m)
            }
        },
{
    let m = match info.playing {
        None => return,
        Some(m) => m,
    };
    let ghost items = record.items();
    let len = record.len();
    let elapsed = now.saturating_sub(m.real_frame);
    let frame = if m.reverse { m.record_frame.saturating_sub(elapsed) } else { m.record_frame.saturating_add(elapsed) };
    if frame != info.frame {
        info.frame = frame;
        if m.reverse {
            let lim = len;
            let mut j = lim;
            while j > 0 && record.get(j - 1).time > frame
                invariant
                    record.wf(),
                    items == record.items(),
                    lim == items.len(),
                    j <= lim,
                    forall|k: int| j <= k < lim ==> (#[trigger] items[k]).time > frame,
                decreases j,
            {
                j = j - 1;
            }
            info.next_ix = j;
        } else {
            let mut j = info.ix;
            while j < len && record.get(j).time <= frame
                invariant
                    record.wf(),
                    items == record.items(),
                    len == items.len(),
                    info.ix <= j <= len,
                    forall|k: int| info.ix <= k < j ==> (#[trigger] items[k]).time <= frame,
                decreases len - j,
            {
                j = j + 1;
            }
            info.next_ix = j;
        }
    }
    if (info.ix == len && !m.reverse) || (info.ix == 0 && m.reverse) {
        info.playing = None;
    }
}

/// Applies `items[lo..hi)` in order.
pub open spec fn apply_range(s: ReplayState, items: Seq<RecordItem>, lo: int, hi: int) -> ReplayState
    decreases hi - lo,
{
    if hi <= lo {
        s
    } else {
        apply_data(apply_range(s, items, lo, hi - 1), items[hi - 1].data)
    }
}

/// The state after the change `d` is taken back if it is a cell change.
pub open spec fn undo_cell(s: ReplayState, d: RecordData) -> ReplayState {
    if d is MatrixChange { apply_data(s, undone(d)) } else { s }
}

/// Takes back the cell changes among `items[lo..hi)`, last first.
pub open spec fn undo_range(s: ReplayState, items: Seq<RecordItem>, lo: int, hi: int) -> ReplayState
    decreases hi - lo,
{
    if hi <= lo {
        s
    } else {
        undo_cell(undo_range(s, items, lo + 1, hi), items[lo].data)
    }
}

/// The sparse fields of a board, which replay restores by look-back.
#[derive(Debug, Clone, Copy, PartialEq, Eq, Structural)]
pub enum ChangeKind {
    Active,
    Hold,
    Queue,
}

/// `d` changes the field `kind`.
pub open spec fn is_change_of(d: RecordData, kind: ChangeKind) -> bool {
    match kind {
        ChangeKind::Active => d is ActiveChange,
        ChangeKind::Hold => d is Hold,
        ChangeKind::Queue => d is QueueChange,
    }
}

/// The last index below `n` whose item changes the field `kind`.
pub open spec fn last_change(items: Seq<RecordItem>, n: int, kind: ChangeKind) -> Option<int>
    decreases n,
{
    if n <= 0 {
        None
    } else if is_change_of(items[n - 1].data, kind) {
        Some(n - 1)
    } else {
        last_change(items, n - 1, kind)
    }
}

/// The state with the value of the last change of field `kind` below `n`, if any.
pub open spec fn look_back(s: ReplayState, items: Seq<RecordItem>, n: int, kind: ChangeKind) -> ReplayState {
    match last_change(items, n, kind) {
        Some(k) => apply_data(s, items[k].data),
        None => s,
    }
}

/// The state that playing backwards from `ix` to `next_ix` gives: the active piece, hold
/// slot and queue of the last items before `next_ix`, and the cell changes of
/// `[next_ix, ix)` taken back, last first.
pub open spec fn rewound(s: ReplayState, items: Seq<RecordItem>, next_ix: int, ix: int) -> ReplayState {
    let s1 = look_back(s, items, next_ix, ChangeKind::Active);
    let s2 = look_back(s1, items, next_ix, ChangeKind::Hold);
    let s3 = look_back(s2, items, next_ix, ChangeKind::Queue);
    undo_range(s3, items, next_ix, ix)
}

/// The last index below `n` whose item changes the field `kind`.
fn find_last_change(record: &CompleteRecord, n: usize, kind: ChangeKind) -> (r: Option<usize>)
    requires
        record.wf(),
        n <= record.items().len(),
    ensures
        r matches Some(k) ==> k < n && last_change(record.items(), n as int, kind) == Some(k as int),
        r is None ==> last_change(record.items(), n as int, kind) is None,
{
    let ghost items = record.items();
    let mut k = n;
    while k > 0
        invariant
            record.wf(),
            items == record.items(),
            k <= n <= items.len(),
            last_change(items, n as int, kind) == last_change(items, k as int, kind),
        decreases k,
    {
        let item = record.get(k - 1);
        let hit = match kind {
            ChangeKind::Active => matches!(item.data, RecordData::ActiveChange(_)),
            ChangeKind::Hold => matches!(item.data, RecordData::Hold(_)),
            ChangeKind::Queue => matches!(item.data, RecordData::QueueChange(_)),
        };
        if hit {
            return Some(k - 1);
        }
        k = k - 1;
    }
    None
}

/// Brings `board` to the index that the replay must reach: forwards, the items between
/// are applied in order; backwards, the active piece, hold slot and queue take the values of
/// their last changes before that index, and the cell changes between are taken back, last
/// first.
pub fn replay(board: &mut Board, record: &CompleteRecord, info: &mut ReplayInfo)
    requires
        record.wf(),
        old(board).matrix.wf(),
        old(board).queue.wf(),
        old(info).ix <= record.items().len(),
        old(info).next_ix <= record.items().len(),
    ensures
        final(board).matrix.wf(),
        final(board).queue.wf(),
        final(board).bounds == old(board).bounds,
        final(board).settings == old(board).settings,
        final(board).drop_clock == old(board).drop_clock,
        *final(info) == (ReplayInfo { ix: old(info).next_ix, ..*old(info) }),
        old(info).playing is None ==> state_of(*final(board)) == state_of(*old(board)),
        old(info).playing matches Some(m) && m.reverse ==> state_of(*final(board))
            == rewound(state_of(*old(board)), record.items(), old(info).next_ix as int, old(info).ix as int),
        old(info).playing matches Some(m) && !m.reverse ==> state_of(*final(board))
            == apply_range(state_of(*old(board)), record.items(), old(info).ix as int, old(info).next_ix as int),
{
    let ghost items = record.items();
    proof {
        lemma_items_wf(record);
    }
    if let Some(meta) = info.playing {
        if meta.reverse {
            let ghost s0 = state_of(*board);
            apply_last_change(board, record, info.next_ix, ChangeKind::Active);
            apply_last_change(board, record, info.next_ix, ChangeKind::Hold);
            apply_last_change(board, record, info.next_ix, ChangeKind::Queue);
            let ghost s3 = state_of(*board);
            let mut k = info.ix;
            while k > info.next_ix
                invariant
                    record.wf(),
                    items == record.items(),
                    forall|j: int| 0 <= j < items.len() ==> item_wf(#[trigger] items[j]),
                    k <= info.ix <= items.len(),
                    info.next_ix <= k || k == info.ix,
                    board.matrix.wf(),
                    board.queue.wf(),
                    board.bounds == old(board).bounds,
                    board.settings == old(board).settings,
                    board.drop_clock == old(board).drop_clock,
                    *info == *old(info),
                    state_of(*board) == undo_range(s3, items, k as int, info.ix as int),
                decreases k,
            {
                let item = record.get(k - 1);
                if let RecordData::MatrixChange(_) = item.data {
                    board.undo_record(item);
                }
                k = k - 1;
            }
        } else {
            let mut k = info.ix;
            while k < info.next_ix
                invariant
                    record.wf(),
                    items == record.items(),
                    forall|j: int| 0 <= j < items.len() ==> item_wf(#[trigger] items[j]),
                    info.ix <= k,
                    info.next_ix <= items.len(),
                    k <= info.next_ix || k == info.ix,
                    board.matrix.wf(),
                    board.queue.wf(),
                    board.bounds == old(board).bounds,
                    board.settings == old(board).settings,
                    board.drop_clock == old(board).drop_clock,
                    *info == *old(info),
                    state_of(*board) == apply_range(state_of(*old(board)), items, info.ix as int, k as int),
                decreases info.next_ix - k,
            {
                let item = record.get(k);
                board.apply_record(item);
                k = k + 1;
            }
        }
    }
    info.ix = info.next_ix;
}

/// Writes into `board` the last change of field `kind` below `n`, if there is one.
fn apply_last_change(board: &mut Board, record: &CompleteRecord, n: usize, kind: ChangeKind)
    requires
        record.wf(),
        n <= record.items().len(),
        old(board).matrix.wf(),
        old(board).queue.wf(),
    ensures
        final(board).matrix.wf(),
        final(board).queue.wf(),
        final(board).bounds == old(board).bounds,
        final(board).settings == old(board).settings,
        final(board).drop_clock == old(board).drop_clock,
        state_of(*final(board)) == look_back(state_of(*old(board)), record.items(), n as int, kind),
{
    proof {
        lemma_items_wf(record);
    }
    if let Some(k) = find_last_change(record, n, kind) {
        assert(item_wf(record.items()[k as int]));
        board.apply_record(record.get(k));
    }
}

/// Whether the player leaves a replay to play on from it: any request but a hard drop,
/// while a piece is active.
pub fn should_branch(controller: &Controller, active_piece_exists: bool) -> (r: bool)
    ensures
        r == ((controller.shift != 0 || controller.soft_drop || controller.rotation is Some || controller.hold)
            && !controller.hard_drop && active_piece_exists),
{
    controller.any_activation() && !controller.hard_drop && active_piece_exists
}

/// What live play needs to go on from a replay.
pub struct Branch {
    /// The segment that live play appends to.
    pub partial: crate::record::PartialRecord,
    /// The matrix of the tick before, which the first live tick is compared with.
    pub previous: Vec<Vec<crate::kinds::MinoKind>>,
    /// The clock tick that stands for record tick 0.
    pub first_frame: u64,
}

/// Leaves the replay at its current tick: drops the segments that begin after it, starts a
/// new segment there, and takes the current matrix as the previous tick's.
pub fn begin_new_segment(record: &mut CompleteRecord, info: &ReplayInfo, matrix: &crate::matrix::Matrix, now: u64) -> (r: Branch)
    requires
        old(record).wf(),
        matrix.wf(),
    ensures
        final(record).wf(),
        exists|p: int| 0 <= p <= old(record).segments@.len()
            && (forall|s: int| 0 <= s < p ==> (#[trigger] old(record).segments@[s]).data@[0].time <= info.frame)
            && (p < old(record).segments@.len() ==> old(record).segments@[p].data@[0].time > info.frame)
            && final(record).segments@ == old(record).segments@.take(p)
            && final(record).separations@ == old(record).separations@.take(p)
            && final(record).retired@ == old(record).retired@ + old(record).segments@.skip(p),
        final(record).next_id == old(record).next_id,
        r.partial.segment.data@.len() == 0,
        r.partial.segment.children@.len() == 0,
        r.partial.segment.branch_time == info.frame,
        crate::matrix::rows_view(r.previous@) == matrix.grid(),
        r.first_frame == now.saturating_sub(info.frame),
{
    record.prune_after(info.frame);
    let previous = copy_rows(&matrix.data);
    Branch {
        partial: crate::record::PartialRecord::new(info.frame),
        previous,
        first_frame: now.saturating_sub(info.frame),
    }
}

/// A copy of the rows.
fn copy_rows(rows: &Vec<Vec<crate::kinds::MinoKind>>) -> (r: Vec<Vec<crate::kinds::MinoKind>>)
    ensures
        crate::matrix::rows_view(r@) == crate::matrix::rows_view(rows@),
{
    let mut out: Vec<Vec<crate::kinds::MinoKind>> = Vec::new();
    let mut i: usize = 0;
    while i < rows.len()
        invariant
            i <= rows@.len(),
            out@.len() == i,
            forall|j: int| 0 <= j < i ==> (#[trigger] out@[j])@ == rows@[j]@,
        decreases rows@.len() - i,
    {
        let row = rows[i].clone();
        assert(row@ =~= rows@[i as int]@);
        out.push(row);
        i = i + 1;
    }
    assert(crate::matrix::rows_view(out@) =~= crate::matrix::rows_view(rows@));
    out
}

/// Closes the live segment and appends it to the record; an empty segment is dropped.
pub fn finalize_record(complete: &mut CompleteRecord, finished: crate::record::PartialRecord)
    requires
        old(complete).wf(),
        crate::record::items_wf(finished.segment.data@),
        finished.segment.data@.len() > 0 ==> finished.segment.data@[0].time >= finished.segment.branch_time,
        crate::record::children_sorted(finished.segment.children@),
        old(complete).items().len() + finished.segment.data@.len() <= usize::MAX,
        old(complete).next_id < usize::MAX,
    ensures
        final(complete).wf(),
        finished.segment.data@.len() == 0 ==> *final(complete) == *old(complete),
        finished.segment.data@.len() > 0 ==> final(complete).segments@.len() == old(complete).segments@.len() + 1
            && final(complete).segments@.last().data == finished.segment.data
            && final(complete).segments@.last().id == old(complete).next_id,
        finished.segment.data@.len() > 0 && old(complete).segments@.len() == 0 ==>
            final(complete).items() == finished.segment.data@ && final(complete).separations@ == seq![0usize],
        finished.segment.data@.len() > 0 && old(complete).segments@.len() > 0 ==> exists|j: int|
            crate::record::is_first_at_or_after(old(complete).segments@.last().data@, finished.segment.data@[0].time, j)
            && final(complete).items() == old(complete).items().take(old(complete).separations@.last() + j)
                + finished.segment.data@
            && final(complete).separations@ == old(complete).separations@.push((old(complete).separations@.last() + j) as usize),
{
    let segment = finished.finish();
    if segment.data.len() > 0 {
        complete.add_segment(segment);
    }
}

/// The cell changes of `items[lo..hi)` each find their cell holding their old value when
/// applied in order from `s`.
pub open spec fn cells_consistent(s: ReplayState, items: Seq<RecordItem>, lo: int, hi: int) -> bool {
    forall|k: int| lo <= k < hi ==> ((#[trigger] items[k]).data matches RecordData::MatrixChange(u)
        ==> crate::matrix::cell(apply_range(s, items, lo, k).grid, u.loc.x as int, u.loc.y as int) == Some(u.old))
}

/// The field `kind` of `s` is what the record says before `lo`: it holds the value of the
/// last change before `lo`, or, with no such change, no change in `items[lo..hi)` touches it.
pub open spec fn field_settled(s: ReplayState, items: Seq<RecordItem>, lo: int, hi: int, kind: ChangeKind) -> bool {
    &&& look_back(s, items, lo, kind) == s
    &&& last_change(items, lo, kind) is None ==>
        forall|k: int| lo <= k < hi ==> !is_change_of(#[trigger] items[k].data, kind)
}

/// Forward then backward: playing a record from `lo` to `hi` and back again gives the state
/// it started from, when its cell changes match the cells they change and its active piece,
/// hold slot and queue are those that the record holds before `lo`.
pub proof fn lemma_forward_backward(s: ReplayState, items: Seq<RecordItem>, lo: int, hi: int)
    requires
        0 <= lo <= hi <= items.len(),
        cells_consistent(s, items, lo, hi),
        field_settled(s, items, lo, hi, ChangeKind::Active),
        field_settled(s, items, lo, hi, ChangeKind::Hold),
        field_settled(s, items, lo, hi, ChangeKind::Queue),
    ensures
        rewound(apply_range(s, items, lo, hi), items, lo, hi) == s,
{
    let s1 = apply_range(s, items, lo, hi);
    let a = look_back(s1, items, lo, ChangeKind::Active);
    let b = look_back(a, items, lo, ChangeKind::Hold);
    let c = look_back(b, items, lo, ChangeKind::Queue);
    lemma_look_back_field(s, s1, items, lo, hi, ChangeKind::Active);
    assert(a.grid == s1.grid && a.active == s.active && a.hold == s1.hold && a.queue == s1.queue);
    lemma_look_back_field(s, a, items, lo, hi, ChangeKind::Hold);
    assert(b.grid == s1.grid && b.active == s.active && b.hold == s.hold && b.queue == s1.queue);
    lemma_look_back_field(s, b, items, lo, hi, ChangeKind::Queue);
    assert(c.grid == s1.grid && c.active == s.active && c.hold == s.hold && c.queue == s.queue);
    lemma_undo_grid(s, c, items, lo, hi, lo);
    lemma_undo_keeps(c, items, lo, hi);
    let r = undo_range(c, items, lo, hi);
    assert(r.grid == s.grid);
    assert(r == rewound(s1, items, lo, hi));
}

/// `last_change` finds a change of the field below `n`.
proof fn lemma_last_change(items: Seq<RecordItem>, n: int, kind: ChangeKind)
    ensures
        last_change(items, n, kind) matches Some(m) ==> 0 <= m < n && is_change_of(items[m].data, kind),
        last_change(items, n, kind) is None ==> forall|k: int| 0 <= k < n ==> !is_change_of(#[trigger] items[k].data, kind),
    decreases n,
{
    if n > 0 {
        lemma_last_change(items, n - 1, kind);
    }
}

/// Applying a range changes a sparse field only through changes of that field, and the
/// matrix only through cell changes.
proof fn lemma_forward_fields(s: ReplayState, items: Seq<RecordItem>, lo: int, hi: int)
    requires
        0 <= lo <= hi <= items.len(),
    ensures
        (forall|k: int| lo <= k < hi ==> !(#[trigger] items[k].data is ActiveChange)) ==> apply_range(s, items, lo, hi).active == s.active,
        (forall|k: int| lo <= k < hi ==> !(#[trigger] items[k].data is Hold)) ==> apply_range(s, items, lo, hi).hold == s.hold,
        (forall|k: int| lo <= k < hi ==> !(#[trigger] items[k].data is QueueChange)) ==> apply_range(s, items, lo, hi).queue == s.queue,
    decreases hi - lo,
{
    if lo < hi {
        lemma_forward_fields(s, items, lo, hi - 1);
    }
}

/// After a look-back of field `kind` from the forward state, that field is back to its
/// value in `s`, and the other parts are those of `t`.
proof fn lemma_look_back_field(s: ReplayState, t: ReplayState, items: Seq<RecordItem>, lo: int, hi: int, kind: ChangeKind)
    requires
        0 <= lo <= hi <= items.len(),
        field_settled(s, items, lo, hi, kind),
        kind == ChangeKind::Active ==> (t.active == apply_range(s, items, lo, hi).active),
        kind == ChangeKind::Hold ==> (t.hold == apply_range(s, items, lo, hi).hold),
        kind == ChangeKind::Queue ==> (t.queue == apply_range(s, items, lo, hi).queue),
    ensures
        ({
            let r = look_back(t, items, lo, kind);
            &&& r.grid == t.grid
            &&& kind == ChangeKind::Active ==> r.active == s.active && r.hold == t.hold && r.queue == t.queue
            &&& kind == ChangeKind::Hold ==> r.hold == s.hold && r.active == t.active && r.queue == t.queue
            &&& kind == ChangeKind::Queue ==> r.queue == s.queue && r.active == t.active && r.hold == t.hold
        }),
{
    lemma_last_change(items, lo, kind);
    lemma_forward_fields(s, items, lo, hi);
}

/// Taking back cell changes leaves the sparse fields alone.
proof fn lemma_undo_keeps(t: ReplayState, items: Seq<RecordItem>, lo: int, hi: int)
    ensures
        undo_range(t, items, lo, hi).active == t.active,
        undo_range(t, items, lo, hi).hold == t.hold,
        undo_range(t, items, lo, hi).queue == t.queue,
    decreases hi - lo,
{
    if lo < hi {
        lemma_undo_keeps(t, items, lo + 1, hi);
    }
}

/// Taking back the cell changes of `items[m..hi)` from the forward grid gives the grid
/// reached at `m`.
proof fn lemma_undo_grid(s: ReplayState, t: ReplayState, items: Seq<RecordItem>, lo: int, hi: int, m: int)
    requires
        0 <= lo <= m <= hi <= items.len(),
        cells_consistent(s, items, lo, hi),
        t.grid == apply_range(s, items, lo, hi).grid,
    ensures
        undo_range(t, items, m, hi).grid == apply_range(s, items, lo, m).grid,
    decreases hi - m,
{
    if m < hi {
        lemma_undo_grid(s, t, items, lo, hi, m + 1);
        let prev = apply_range(s, items, lo, m);
        let d = items[m].data;
        assert(d matches RecordData::MatrixChange(u)
            ==> crate::matrix::cell(prev.grid, u.loc.x as int, u.loc.y as int) == Some(u.old));
        lemma_undo_step(prev, undo_range(t, items, m + 1, hi), d);
    }
}

/// Taking back one change after applying it gives the grid back.
proof fn lemma_undo_step(prev: ReplayState, x: ReplayState, d: RecordData)
    requires
        x.grid == apply_data(prev, d).grid,
        d matches RecordData::MatrixChange(u)
            ==> crate::matrix::cell(prev.grid, u.loc.x as int, u.loc.y as int) == Some(u.old),
    ensures
        undo_cell(x, d).grid == prev.grid,
{
    if let RecordData::MatrixChange(u) = d {
        crate::record::lemma_invert_round_trip(prev.grid, u);
    }
}

/// The state after playing forwards through the ticks that end at each mark in turn.
pub open spec fn forward_steps(s: ReplayState, items: Seq<RecordItem>, marks: Seq<int>) -> ReplayState
    decreases marks.len(),
{
    if marks.len() <= 1 {
        s
    } else {
        apply_range(forward_steps(s, items, marks.drop_last()), items, marks[marks.len() - 2], marks.last())
    }
}

/// The state after playing backwards from the last mark through each earlier mark in turn.
pub open spec fn backward_steps(t: ReplayState, items: Seq<RecordItem>, marks: Seq<int>) -> ReplayState
    decreases marks.len(),
{
    if marks.len() <= 1 {
        t
    } else {
        backward_steps(rewound(t, items, marks[marks.len() - 2], marks.last()), items, marks.drop_last())
    }
}

/// Marks that do not decrease and lie within the record.
pub open spec fn marks_ok(items: Seq<RecordItem>, marks: Seq<int>) -> bool {
    &&& marks.len() > 0
    &&& 0 <= marks[0]
    &&& marks.last() <= items.len()
    &&& forall|i: int, j: int| 0 <= i <= j < marks.len() ==> #[trigger] marks[i] <= #[trigger] marks[j]
}

/// Forward then backward, tick by tick: playing a record forwards through any sequence of
/// ticks and then backwards through the same ticks gives the state it started from, under
/// the conditions of `lemma_forward_backward` between the first and last mark.
pub proof fn lemma_traversal_in_ticks(s: ReplayState, items: Seq<RecordItem>, marks: Seq<int>)
    requires
        marks_ok(items, marks),
        cells_consistent(s, items, marks[0], marks.last()),
        field_settled(s, items, marks[0], marks.last(), ChangeKind::Active),
        field_settled(s, items, marks[0], marks.last(), ChangeKind::Hold),
        field_settled(s, items, marks[0], marks.last(), ChangeKind::Queue),
    ensures
        backward_steps(forward_steps(s, items, marks), items, marks) == s,
{
    if marks.len() > 1 {
        lemma_forward_steps(s, items, marks);
        let t = forward_steps(s, items, marks);
        assert(settled_kinds(items, marks[0], marks.last())) by {
            assert forall|kind: ChangeKind| #[trigger] last_change(items, marks[0], kind) is Some
                || last_change(items, marks.last(), kind) is None by {
                lemma_none_stays_none(s, items, marks[0], marks.last(), kind);
            }
        }
        lemma_backward_steps(t, items, marks);
        lemma_forward_backward(s, items, marks[0], marks.last());
    }
}

/// A settled field without a change before `lo` has none before `hi` either.
proof fn lemma_none_stays_none(s: ReplayState, items: Seq<RecordItem>, lo: int, hi: int, kind: ChangeKind)
    requires
        0 <= lo <= hi,
        kind == ChangeKind::Active || kind == ChangeKind::Hold || kind == ChangeKind::Queue,
        field_settled(s, items, lo, hi, kind),
    ensures
        last_change(items, lo, kind) is Some || last_change(items, hi, kind) is None,
{
    lemma_last_change(items, lo, kind);
    lemma_last_change(items, hi, kind);
    if last_change(items, lo, kind) is None {
        if let Some(k) = last_change(items, hi, kind) {
            assert(is_change_of(items[k].data, kind));
            if k >= lo {
                assert(!is_change_of(items[k].data, kind));
            }
        }
    }
}

/// Playing forwards tick by tick is playing the whole range at once.
proof fn lemma_forward_steps(s: ReplayState, items: Seq<RecordItem>, marks: Seq<int>)
    requires
        marks_ok(items, marks),
    ensures
        forward_steps(s, items, marks) == apply_range(s, items, marks[0], marks.last()),
    decreases marks.len(),
{
    if marks.len() > 1 {
        let d = marks.drop_last();
        assert(marks_ok(items, d)) by {
            assert forall|i: int, j: int| 0 <= i <= j < d.len() implies #[trigger] d[i] <= #[trigger] d[j] by {
                assert(d[i] == marks[i] && d[j] == marks[j]);
            }
            assert(d.last() == marks[marks.len() - 2]);
            assert(marks[marks.len() - 2] <= marks[marks.len() - 1]);
        }
        lemma_forward_steps(s, items, d);
        assert(d[0] == marks[0]);
        assert(marks[0] <= marks[marks.len() - 2]);
        lemma_forward_split(s, items, marks[0], marks[marks.len() - 2], marks.last());
    }
}

/// Applying `[a, b)` and then `[b, c)` is applying `[a, c)`.
pub proof fn lemma_forward_split(s: ReplayState, items: Seq<RecordItem>, a: int, b: int, c: int)
    requires
        a <= b <= c,
    ensures
        apply_range(apply_range(s, items, a, b), items, b, c) == apply_range(s, items, a, c),
    decreases c - b,
{
    if b < c {
        lemma_forward_split(s, items, a, b, c - 1);
    }
}

/// Playing backwards tick by tick is playing the whole range back at once, when each sparse
/// field with no change before the first mark has none before the last either.
proof fn lemma_backward_steps(t: ReplayState, items: Seq<RecordItem>, marks: Seq<int>)
    requires
        marks_ok(items, marks),
        marks.len() >= 2,
        settled_kinds(items, marks[0], marks.last()),
    ensures
        backward_steps(t, items, marks) == rewound(t, items, marks[0], marks.last()),
    decreases marks.len(),
{
    if marks.len() > 1 {
        let n = marks.len();
        let d = marks.drop_last();
        let m = marks[n - 2];
        let hi = marks[n - 1];
        let lo = marks[0];
        assert(marks_ok(items, d)) by {
            assert forall|i: int, j: int| 0 <= i <= j < d.len() implies #[trigger] d[i] <= #[trigger] d[j] by {
                assert(d[i] == marks[i] && d[j] == marks[j]);
            }
            assert(d.last() == m);
            assert(m <= hi);
        }
        assert(lo <= m) by {
            assert(marks[0] <= marks[n - 2]);
        }
        assert(d[0] == lo && d.last() == m);
        lemma_settled_narrow(items, lo, m, hi);
        let t1 = rewound(t, items, m, hi);
        if n == 2 {
            assert(backward_steps(t1, items, d) == t1);
        } else {
            lemma_backward_steps(t1, items, d);
            lemma_backward_split(t, items, lo, m, hi);
        }
    }
}

/// For each sparse field, a change before `lo` exists or none comes before `hi`.
pub open spec fn settled_kinds(items: Seq<RecordItem>, lo: int, hi: int) -> bool {
    forall|kind: ChangeKind| #[trigger] last_change(items, lo, kind) is Some || last_change(items, hi, kind) is None
}

/// The settled condition holds for any end between the two.
proof fn lemma_settled_narrow(items: Seq<RecordItem>, lo: int, m: int, hi: int)
    requires
        0 <= lo <= m <= hi,
        settled_kinds(items, lo, hi),
    ensures
        settled_kinds(items, lo, m),
{
    assert forall|kind: ChangeKind| #[trigger] last_change(items, lo, kind) is Some || last_change(items, m, kind) is None by {
        if last_change(items, lo, kind) is None {
            assert(last_change(items, hi, kind) is None);
            lemma_last_change(items, hi, kind);
            lemma_last_change(items, m, kind);
        }
    }
}

/// Rewinding from `hi` to `m` and then from `m` to `lo` is rewinding from `hi` to `lo`.
proof fn lemma_backward_split(t: ReplayState, items: Seq<RecordItem>, lo: int, m: int, hi: int)
    requires
        0 <= lo <= m <= hi,
        settled_kinds(items, lo, m),
    ensures
        rewound(rewound(t, items, m, hi), items, lo, m) == rewound(t, items, lo, hi),
{
    let a = rewound(t, items, m, hi);
    let lb_a = look_back(look_back(look_back(a, items, lo, ChangeKind::Active), items, lo, ChangeKind::Hold), items, lo, ChangeKind::Queue);
    let lb_t = look_back(look_back(look_back(t, items, lo, ChangeKind::Active), items, lo, ChangeKind::Hold), items, lo, ChangeKind::Queue);
    let lbm_t = look_back(look_back(look_back(t, items, m, ChangeKind::Active), items, m, ChangeKind::Hold), items, m, ChangeKind::Queue);
    lemma_look_backs(a, items, lo);
    lemma_look_backs(t, items, lo);
    lemma_look_backs(t, items, m);
    lemma_undo_keeps(lbm_t, items, m, hi);
    lemma_undo_keeps(lb_a, items, lo, m);
    lemma_undo_keeps(lb_t, items, lo, hi);
    lemma_undo_same_grid(lb_a, a, items, lo, m);
    lemma_undo_same_grid(lbm_t, t, items, m, hi);
    lemma_undo_same_grid(lb_t, t, items, lo, hi);
    lemma_undo_compose(t, items, lo, m, hi);
    lemma_undo_same_grid(a, undo_range(t, items, m, hi), items, lo, m);
    assert(last_change(items, lo, ChangeKind::Active) is Some || last_change(items, m, ChangeKind::Active) is None);
    assert(last_change(items, lo, ChangeKind::Hold) is Some || last_change(items, m, ChangeKind::Hold) is None);
    assert(last_change(items, lo, ChangeKind::Queue) is Some || last_change(items, m, ChangeKind::Queue) is None);
    lemma_last_change(items, lo, ChangeKind::Active);
    lemma_last_change(items, lo, ChangeKind::Hold);
    lemma_last_change(items, lo, ChangeKind::Queue);
    let l = undo_range(lb_a, items, lo, m);
    let r = undo_range(lb_t, items, lo, hi);
    assert(l.grid == r.grid);
    assert(l.active == r.active);
    assert(l.hold == r.hold);
    assert(l.queue == r.queue);
}

/// The three look-backs at `n` set each sparse field to its last change below `n`, if any,
/// and leave the grid.
proof fn lemma_look_backs(t: ReplayState, items: Seq<RecordItem>, n: int)
    ensures
        ({
            let r = look_back(look_back(look_back(t, items, n, ChangeKind::Active), items, n, ChangeKind::Hold), items, n, ChangeKind::Queue);
            &&& r.grid == t.grid
            &&& r.active == match last_change(items, n, ChangeKind::Active) { Some(k) => apply_data(t, items[k].data).active, None => t.active }
            &&& r.hold == match last_change(items, n, ChangeKind::Hold) { Some(k) => apply_data(t, items[k].data).hold, None => t.hold }
            &&& r.queue == match last_change(items, n, ChangeKind::Queue) { Some(k) => apply_data(t, items[k].data).queue, None => t.queue }
        }),
{
    lemma_last_change(items, n, ChangeKind::Active);
    lemma_last_change(items, n, ChangeKind::Hold);
    lemma_last_change(items, n, ChangeKind::Queue);
}

/// What taking back cell changes does to the grid depends on the grid alone.
proof fn lemma_undo_same_grid(x: ReplayState, y: ReplayState, items: Seq<RecordItem>, lo: int, hi: int)
    requires
        x.grid == y.grid,
    ensures
        undo_range(x, items, lo, hi).grid == undo_range(y, items, lo, hi).grid,
    decreases hi - lo,
{
    if lo < hi {
        lemma_undo_same_grid(x, y, items, lo + 1, hi);
    }
}

/// Taking back `[m, hi)` and then `[lo, m)` is taking back `[lo, hi)`.
proof fn lemma_undo_compose(x: ReplayState, items: Seq<RecordItem>, lo: int, m: int, hi: int)
    requires
        lo <= m <= hi,
    ensures
        undo_range(undo_range(x, items, m, hi), items, lo, m) == undo_range(x, items, lo, hi),
    decreases m - lo,
{
    if lo < m {
        lemma_undo_compose(x, items, lo + 1, m, hi);
    }
}

/// Item times that do not decrease.
pub open spec fn times_sorted(items: Seq<RecordItem>) -> bool {
    forall|i: int, j: int| 0 <= i <= j < items.len() ==> #[trigger] items[i].time <= #[trigger] items[j].time
}

/// On a sorted record the backward target is the partition point at `frame`.
pub proof fn lemma_backward_partition(items: Seq<RecordItem>, frame: u64, j: int)
    requires
        times_sorted(items),
        is_backward_target(items, frame, j),
    ensures
        forall|k: int| 0 <= k < j ==> (#[trigger] items[k]).time <= frame,
        forall|k: int| j <= k < items.len() ==> (#[trigger] items[k]).time > frame,
{
    assert forall|k: int| 0 <= k < j implies (#[trigger] items[k]).time <= frame by {
        assert(items[k].time <= items[j - 1].time);
    }
}

/// On a sorted record whose items before `ix` come at or before `frame`, the forward target
/// is the partition point at `frame`.
pub proof fn lemma_forward_partition(items: Seq<RecordItem>, ix: int, frame: u64, j: int)
    requires
        times_sorted(items),
        0 <= ix,
        forall|k: int| 0 <= k < ix ==> (#[trigger] items[k]).time <= frame,
        is_forward_target(items, ix, frame, j),
    ensures
        forall|k: int| 0 <= k < j ==> (#[trigger] items[k]).time <= frame,
        forall|k: int| j <= k < items.len() ==> (#[trigger] items[k]).time > frame,
{
    assert forall|k: int| j <= k < items.len() implies (#[trigger] items[k]).time > frame by {
        assert(items[j].time <= items[k].time);
    }
}

/// Forward then backward from a replayed state: when the board is the record replayed from
/// `init` up to `marks[0]`, every cell change finds its old value when replayed from `init`,
/// and the active piece, hold slot and queue each changed before `marks[0]`, playing forwards
/// through the ticks ending at the marks and back again gives that board.
pub proof fn lemma_replay_round_trip(init: ReplayState, items: Seq<RecordItem>, marks: Seq<int>)
    requires
        marks_ok(items, marks),
        cells_consistent(init, items, 0, marks.last()),
        last_change(items, marks[0], ChangeKind::Active) is Some,
        last_change(items, marks[0], ChangeKind::Hold) is Some,
        last_change(items, marks[0], ChangeKind::Queue) is Some,
    ensures
        ({
            let s = apply_range(init, items, 0, marks[0]);
            backward_steps(forward_steps(s, items, marks), items, marks) == s
        }),
{
    let lo = marks[0];
    let hi = marks.last();
    let s = apply_range(init, items, 0, lo);
    assert(lo <= hi) by {
        assert(marks[0] <= marks[marks.len() - 1]);
    }
    lemma_consistent_suffix(init, items, lo, hi);
    lemma_settled_by_record(init, items, lo, ChangeKind::Active);
    lemma_settled_by_record(init, items, lo, ChangeKind::Hold);
    lemma_settled_by_record(init, items, lo, ChangeKind::Queue);
    assert(field_settled(s, items, lo, hi, ChangeKind::Active));
    assert(field_settled(s, items, lo, hi, ChangeKind::Hold));
    assert(field_settled(s, items, lo, hi, ChangeKind::Queue));
    lemma_traversal_in_ticks(s, items, marks);
}

/// Cell changes consistent from the start stay consistent from any later point reached by
/// replaying.
proof fn lemma_consistent_suffix(init: ReplayState, items: Seq<RecordItem>, lo: int, hi: int)
    requires
        0 <= lo <= hi,
        cells_consistent(init, items, 0, hi),
    ensures
        cells_consistent(apply_range(init, items, 0, lo), items, lo, hi),
{
    let s = apply_range(init, items, 0, lo);
    assert forall|k: int| lo <= k < hi implies ((#[trigger] items[k]).data matches RecordData::MatrixChange(u)
        ==> crate::matrix::cell(apply_range(s, items, lo, k).grid, u.loc.x as int, u.loc.y as int) == Some(u.old)) by {
        lemma_forward_split(init, items, 0, lo, k);
    }
}

/// A state replayed from the start of the record holds the value of the last change of each
/// field: writing that change again leaves it.
proof fn lemma_settled_by_record(init: ReplayState, items: Seq<RecordItem>, n: int, kind: ChangeKind)
    requires
        0 <= n <= items.len(),
    ensures
        last_change(items, n, kind) is Some ==> look_back(apply_range(init, items, 0, n), items, n, kind)
            == apply_range(init, items, 0, n),
    decreases n,
{
    if n > 0 {
        lemma_settled_by_record(init, items, n - 1, kind);
        lemma_last_change(items, n - 1, kind);
        lemma_last_change(items, n, kind);
    }
}

} // verus!
