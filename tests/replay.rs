use stack_practice::controller::{Controller, Settings};
use stack_practice::kinds::{Hold, Mino, MinoKind, Pos, RotationState};
use stack_practice::queue::PieceQueue;
use stack_practice::record::{Changes, CompleteRecord, PartialRecord, RecordData, RecordItem, RecordSegment};
use stack_practice::replay::{
    advance_frame, begin_new_segment, discretized_time, finalize_record, initialize_replay, replay,
    should_branch, ActiveReplayMeta, ReplayInfo,
};
use stack_practice::tables::{KickTableLoader, ShapeTable};
use stack_practice::update::{default_mino, Board};

const STANDARD: [MinoKind; 7] = [
    MinoKind::T,
    MinoKind::O,
    MinoKind::L,
    MinoKind::J,
    MinoKind::S,
    MinoKind::Z,
    MinoKind::I,
];

fn p(x: i32, y: i32) -> Pos {
    Pos { x, y }
}

/// Every standard piece is a 2 by 2 square in every rotation state.
fn square_table() -> ShapeTable {
    let mut slots = vec![Vec::new(); 36];
    for k in 1..8 {
        for r in 0..4 {
            slots[k * 4 + r] = vec![p(0, 0), p(1, 0), p(0, 1), p(1, 1)];
        }
    }
    ShapeTable::new(slots).unwrap()
}

fn is_bag(s: &[MinoKind]) -> bool {
    s.len() == 7 && STANDARD.iter().all(|k| s.iter().filter(|x| *x == k).count() == 1)
}

#[test]
fn every_bag_holds_each_standard_kind_once() {
    for seed in 0..20 {
        let mut q = PieceQueue::new(seed, 5);
        assert!(q.window().len() >= 5);
        for _ in 0..4 {
            let mut drawn = Vec::new();
            for _ in 0..7 {
                let k = q.take();
                drawn.push(k);
                assert!(q.window().len() >= 5);
            }
            assert!(is_bag(&drawn));
        }
    }
}

#[test]
fn peek_shows_the_next_take() {
    let mut q = PieceQueue::new(42, 5);
    for _ in 0..10 {
        let next = q.peek();
        assert_eq!(q.window()[0], next);
        assert_eq!(q.take(), next);
    }
}

#[test]
fn window_size_is_kept() {
    let mut q = PieceQueue::new(1, 12);
    for _ in 0..30 {
        q.take();
        assert!(q.window().len() >= 12);
        assert!(q.window().len() <= 12 + 7);
    }
}

#[test]
fn same_seed_same_pieces() {
    let mut a = PieceQueue::new(77, 5);
    let mut b = PieceQueue::new(77, 5);
    for _ in 0..21 {
        assert_eq!(a.take(), b.take());
    }
    let mut c = a.snapshot();
    for _ in 0..21 {
        assert_eq!(a.take(), c.take());
    }
}

#[test]
fn bags_are_shuffled() {
    let unshuffled = vec![
        MinoKind::Z,
        MinoKind::S,
        MinoKind::T,
        MinoKind::L,
        MinoKind::J,
        MinoKind::I,
        MinoKind::O,
    ];
    let mut differ = 0;
    for seed in 0..20 {
        let q = PieceQueue::new(seed, 7);
        if q.window()[..7] != unshuffled[..] {
            differ += 1;
        }
    }
    assert!(differ > 0);
}

#[test]
fn ticks_at_sixty_a_second() {
    assert_eq!(discretized_time(0), 0);
    assert_eq!(discretized_time(16), 0);
    assert_eq!(discretized_time(17), 1);
    assert_eq!(discretized_time(1000), 60);
    assert_eq!(discretized_time(2500), 150);
    assert_eq!(discretized_time(u64::MAX), u64::MAX / 1000 * 60 + (u64::MAX % 1000) * 60 / 1000);
}

struct Snapshot {
    data: Vec<Vec<MinoKind>>,
    active: Option<Mino>,
    hold: Hold,
    window: Vec<MinoKind>,
}

fn snapshot(b: &Board) -> Snapshot {
    Snapshot { data: b.matrix.data.clone(), active: b.active, hold: b.hold, window: b.queue.window().clone() }
}

fn same(b: &Board, s: &Snapshot) -> bool {
    b.matrix.data == s.data && b.active == s.active && b.hold == s.hold && b.queue.window() == &s.window
}

/// Plays a short game with a recorder attached; returns the record and the final board.
fn play() -> (CompleteRecord, Board) {
    let t = square_table();
    let k = KickTableLoader::load(vec![Vec::new(); 144]).unwrap();
    let mut b = Board::new(Settings::default(), 4);
    let mut previous = b.matrix.data.clone();
    let mut partial = PartialRecord::new(0);
    let first = b.queue.take();
    assert!(b.spawn_piece(default_mino(first), &t));
    let all = Changes { active: true, queue: true, hold: true, matrix: true };
    partial.record(0, b.active, &b.queue, b.hold, &b.matrix, &mut previous, all);
    let inputs = [
        Controller { shift: -4, ..Controller::idle() },
        Controller { hard_drop: true, ..Controller::idle() },
        Controller { hold: true, ..Controller::idle() },
        Controller { shift: 3, hard_drop: true, ..Controller::idle() },
        Controller { hard_drop: true, ..Controller::idle() },
    ];
    for (n, c) in inputs.iter().enumerate() {
        let before = snapshot(&b);
        b.update_board(c, &k, &t, 16);
        let changes = Changes {
            active: b.active != before.active,
            queue: b.queue.window() != &before.window,
            hold: b.hold != before.hold,
            matrix: b.matrix.data != before.data,
        };
        partial.record(n as u64 + 1, b.active, &b.queue, b.hold, &b.matrix, &mut previous, changes);
    }
    let mut complete = CompleteRecord::new();
    finalize_record(&mut complete, partial);
    (complete, b)
}

fn play_to(board: &mut Board, record: &CompleteRecord, info: &mut ReplayInfo, next_ix: usize, reverse: bool) {
    info.playing = Some(ActiveReplayMeta { record_frame: 0, real_frame: 0, reverse });
    info.next_ix = next_ix;
    replay(board, record, info);
    assert_eq!(info.ix, next_ix);
}

#[test]
fn recording_emits_items_in_order() {
    let (record, _) = play();
    let n = record.len();
    assert!(n > 4);
    assert!(matches!(record.get(0).data, RecordData::ActiveChange(Some(_))));
    assert!(matches!(record.get(1).data, RecordData::QueueChange(_)));
    assert!(matches!(record.get(2).data, RecordData::Hold(Hold::Empty)));
    for i in 1..n {
        assert!(record.get(i - 1).time <= record.get(i).time);
    }
    assert_eq!(record.last_frame(), Some(record.get(n - 1).time));
}

#[test]
fn forward_replay_rebuilds_the_game() {
    let (record, played) = play();
    let mut b = Board::new(Settings::default(), 1000);
    let mut info = ReplayInfo { frame: 0, ix: 0, next_ix: 0, playing: None };
    play_to(&mut b, &record, &mut info, record.len(), false);
    assert!(same(&b, &snapshot(&played)));
}

#[test]
fn forward_then_backward_restores_the_state() {
    let (record, _) = play();
    let mut b = Board::new(Settings::default(), 1000);
    let mut info = ReplayInfo { frame: 0, ix: 0, next_ix: 0, playing: None };
    for mid in 3..record.len() {
        play_to(&mut b, &record, &mut info, mid, false);
        let at_mid = snapshot(&b);
        play_to(&mut b, &record, &mut info, record.len(), false);
        play_to(&mut b, &record, &mut info, mid, true);
        assert!(same(&b, &at_mid));
    }
}

#[test]
fn paused_replay_leaves_the_board() {
    let (record, played) = play();
    let mut b = Board::new(Settings::default(), 1000);
    let mut info = ReplayInfo { frame: 0, ix: 0, next_ix: 0, playing: None };
    play_to(&mut b, &record, &mut info, record.len(), false);
    info.playing = None;
    info.next_ix = 2;
    replay(&mut b, &record, &mut info);
    assert!(same(&b, &snapshot(&played)));
    assert_eq!(info.ix, 2);
}

#[test]
fn advancing_finds_the_index_of_a_frame() {
    let (record, _) = play();
    let n = record.len();
    let mut info = initialize_replay(&record);
    assert_eq!(info.ix, n);
    assert_eq!(info.frame, record.last_frame().unwrap());
    // backwards from the end to frame 2: one past the last item at or before frame 2
    info.playing = Some(ActiveReplayMeta { record_frame: 5, real_frame: 100, reverse: true });
    advance_frame(&mut info, &record, 103);
    assert_eq!(info.frame, 2);
    let expect = (0..n).filter(|i| record.get(*i).time <= 2).count();
    assert_eq!(info.next_ix, expect);
    assert!(info.playing.is_some());
    // forwards from the start to frame 2: the first item after frame 2
    let mut fwd = ReplayInfo { frame: 0, ix: 0, next_ix: 0, playing: None };
    fwd.playing = Some(ActiveReplayMeta { record_frame: 0, real_frame: 10, reverse: false });
    advance_frame(&mut fwd, &record, 12);
    assert_eq!(fwd.frame, 2);
    let expect = (0..n).filter(|i| record.get(*i).time <= 2).count();
    assert_eq!(fwd.next_ix, expect);
    // at the end a forward replay pauses
    let mut end = ReplayInfo { frame: 0, ix: n, next_ix: n, playing: None };
    end.playing = Some(ActiveReplayMeta { record_frame: 0, real_frame: 0, reverse: false });
    advance_frame(&mut end, &record, 50);
    assert!(end.playing.is_none());
    assert_eq!(end.next_ix, n);
}

#[test]
fn segments_index_through_their_separations() {
    let item = |time: u64, x: i32| RecordItem {
        time,
        data: RecordData::ActiveChange(Some(Mino { kind: MinoKind::T, position: p(x, 0), rotation: RotationState::Up })),
    };
    let mut record = CompleteRecord::new();
    assert_eq!(record.len(), 0);
    assert_eq!(record.last_frame(), None);
    record.add_segment(RecordSegment::new(vec![item(0, 0), item(1, 1), item(2, 2), item(3, 3)], 0));
    record.add_segment(RecordSegment::new(vec![item(2, 10), item(4, 11)], 2));
    assert_eq!(record.separations, vec![0, 2]);
    assert_eq!(record.len(), 4);
    let xs: Vec<i32> = (0..4)
        .map(|i| match record.get(i).data {
            RecordData::ActiveChange(Some(m)) => m.position.x,
            _ => -1,
        })
        .collect();
    assert_eq!(xs, vec![0, 1, 10, 11]);
    assert_eq!(record.last_frame(), Some(4));
    // branching at frame 1 drops the segment that begins at frame 2
    let info = ReplayInfo { frame: 1, ix: 2, next_ix: 2, playing: None };
    let m = stack_practice::matrix::Matrix::new(10, 40);
    assert_eq!(record.segments[0].children, vec![(2, 1)]);
    assert_eq!(record.segments[1].id, 1);
    let branch = begin_new_segment(&mut record, &info, &m, 30);
    assert_eq!(record.segments.len(), 1);
    assert_eq!(record.separations, vec![0]);
    // the branch that was left is kept, and its parent still lists it
    assert_eq!(record.retired.len(), 1);
    assert_eq!(record.retired[0].id, 1);
    assert_eq!(record.segments[0].children, vec![(2, 1)]);
    assert_eq!(record.len(), 4);
    assert_eq!(branch.first_frame, 29);
    assert_eq!(branch.partial.segment.branch_time, 1);
    assert_eq!(branch.previous, m.data);
}

#[test]
fn branching_needs_an_active_input() {
    let idle = Controller::idle();
    assert!(!should_branch(&idle, true));
    assert!(should_branch(&Controller { shift: 1, ..idle }, true));
    assert!(!should_branch(&Controller { shift: 1, ..idle }, false));
    assert!(!should_branch(&Controller { hard_drop: true, ..idle }, true));
    assert!(should_branch(&Controller { hold: true, ..idle }, true));
}

#[test]
fn three_segments_index_through_the_chain() {
    let item = |time: u64, x: i32| RecordItem {
        time,
        data: RecordData::ActiveChange(Some(Mino { kind: MinoKind::O, position: p(x, 0), rotation: RotationState::Up })),
    };
    let mut record = CompleteRecord::new();
    record.add_segment(RecordSegment::new(vec![item(0, 0), item(1, 1), item(2, 2)], 0));
    record.add_segment(RecordSegment::new(vec![item(1, 10), item(3, 11), item(5, 12)], 1));
    record.add_segment(RecordSegment::new(vec![item(4, 20), item(6, 21)], 4));
    assert_eq!(record.separations, vec![0, 1, 3]);
    assert_eq!(record.len(), 5);
    let xs: Vec<i32> = (0..record.len())
        .map(|i| match record.get(i).data {
            RecordData::ActiveChange(Some(m)) => m.position.x,
            _ => -1,
        })
        .collect();
    assert_eq!(xs, vec![0, 10, 11, 20, 21]);
    // a segment that starts after every item of the last one keeps all of them
    record.add_segment(RecordSegment::new(vec![item(9, 30)], 9));
    assert_eq!(record.separations, vec![0, 1, 3, 5]);
    assert_eq!(record.len(), 6);
    assert!(matches!(record.get(5).data, RecordData::ActiveChange(Some(m)) if m.position.x == 30));
}

#[test]
fn children_are_kept_sorted_by_branch_time() {
    let item = |time: u64| RecordItem { time, data: RecordData::Hold(Hold::Empty) };
    let mut record = CompleteRecord::new();
    record.add_segment(RecordSegment::new(vec![item(0), item(2), item(4), item(6)], 0));
    record.add_segment(RecordSegment::new(vec![item(4), item(5)], 4));
    let info = ReplayInfo { frame: 3, ix: 2, next_ix: 2, playing: None };
    let m = stack_practice::matrix::Matrix::new(10, 40);
    let _ = begin_new_segment(&mut record, &info, &m, 10);
    record.add_segment(RecordSegment::new(vec![item(3)], 3));
    let info = ReplayInfo { frame: 2, ix: 1, next_ix: 1, playing: None };
    let _ = begin_new_segment(&mut record, &info, &m, 10);
    record.add_segment(RecordSegment::new(vec![item(2)], 2));
    assert_eq!(record.segments[0].children, vec![(2, 3), (3, 2), (4, 1)]);
    assert_eq!(record.retired.len(), 2);
    assert_eq!(record.next_id, 4);
}

#[test]
fn both_directions_show_items_at_the_target_tick() {
    let item = |time: u64, x: i32| RecordItem {
        time,
        data: RecordData::ActiveChange(Some(Mino { kind: MinoKind::O, position: p(x, 0), rotation: RotationState::Up })),
    };
    let mut record = CompleteRecord::new();
    record.add_segment(RecordSegment::new(vec![item(0, 0), item(5, 5), item(9, 9)], 0));
    // forwards from the start to tick 5
    let mut fwd = ReplayInfo { frame: 0, ix: 0, next_ix: 0, playing: None };
    fwd.playing = Some(ActiveReplayMeta { record_frame: 0, real_frame: 0, reverse: false });
    advance_frame(&mut fwd, &record, 5);
    assert_eq!(fwd.next_ix, 2);
    // backwards from the end to tick 5
    let mut back = initialize_replay(&record);
    back.playing = Some(ActiveReplayMeta { record_frame: 9, real_frame: 0, reverse: true });
    advance_frame(&mut back, &record, 4);
    assert_eq!(back.frame, 5);
    assert_eq!(back.next_ix, 2);
    let mut b = Board::new(Settings::default(), 1);
    let mut info = ReplayInfo { frame: 0, ix: 0, next_ix: 0, playing: None };
    play_to(&mut b, &record, &mut info, 3, false);
    play_to(&mut b, &record, &mut info, back.next_ix, true);
    assert_eq!(b.active.unwrap().position, p(5, 0));
}

#[test]
fn a_full_window_is_left_alone() {
    let mut q = PieceQueue::new(3, 5);
    let mut reference = q.snapshot();
    let before = q.window().clone();
    // taking one piece from a window of 7 leaves 6, enough: no bag is added
    assert_eq!(before.len(), 7);
    q.take();
    assert_eq!(q.window()[..], before[1..]);
    // the generator was not used: the next bags match a copy that also took one piece
    reference.take();
    for _ in 0..20 {
        assert_eq!(q.take(), reference.take());
    }
}

#[test]
fn backward_target_is_the_partition_point_from_any_index() {
    let item = |time: u64| RecordItem { time, data: RecordData::Hold(Hold::Empty) };
    let mut record = CompleteRecord::new();
    record.add_segment(RecordSegment::new(vec![item(0), item(0)], 0));
    let mut info = ReplayInfo { frame: 3, ix: 0, next_ix: 0, playing: None };
    info.playing = Some(ActiveReplayMeta { record_frame: 3, real_frame: 0, reverse: true });
    advance_frame(&mut info, &record, 10);
    assert_eq!(info.frame, 0);
    assert_eq!(info.next_ix, 2);
}

#[test]
fn changes_are_detected_from_values() {
    let a = Some(Mino { kind: MinoKind::T, position: p(4, 22), rotation: RotationState::Up });
    let b = Some(Mino { kind: MinoKind::T, position: p(4, 21), rotation: RotationState::Up });
    let w = vec![MinoKind::T, MinoKind::O];
    let w2 = vec![MinoKind::O, MinoKind::L];
    let m = vec![vec![MinoKind::E; 3]; 2];
    let mut m2 = m.clone();
    let none = Changes::detect(a, a, Hold::Empty, Hold::Empty, &w, &w, &m, &m);
    assert_eq!(none, Changes { active: false, queue: false, hold: false, matrix: false });
    m2[1][2] = MinoKind::G;
    let all = Changes::detect(a, b, Hold::Empty, Hold::Ready(MinoKind::S), &w, &w2, &m, &m2);
    assert_eq!(all, Changes { active: true, queue: true, hold: true, matrix: true });
    let gone = Changes::detect(a, None, Hold::Empty, Hold::Empty, &w, &w, &m, &m);
    assert_eq!(gone, Changes { active: true, queue: false, hold: false, matrix: false });
}
