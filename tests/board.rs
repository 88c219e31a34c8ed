use stack_practice::controller::{combine_shift, Controller, Repeatable, Settings};
use stack_practice::kinds::{Hold, Mino, MinoKind, Pos, RotateCommand, RotationState};
use stack_practice::matrix::{has_free_space, lock_piece, Matrix};
use stack_practice::record::{diff_and_copy, MatrixUpdate};
use stack_practice::tables::{KickTable, KickTableLoader, ShapeTable};
use stack_practice::update::{default_mino, Board};

const KINDS: [MinoKind; 9] = [
    MinoKind::E,
    MinoKind::T,
    MinoKind::O,
    MinoKind::L,
    MinoKind::J,
    MinoKind::S,
    MinoKind::Z,
    MinoKind::I,
    MinoKind::G,
];

const ROTATIONS: [RotationState; 4] = [
    RotationState::Up,
    RotationState::Right,
    RotationState::Down,
    RotationState::Left,
];

fn p(x: i32, y: i32) -> Pos {
    Pos { x, y }
}

/// Cells of each standard piece pointing up; the other states are quarter turns about the
/// origin.
fn up_shape(k: MinoKind) -> Vec<Pos> {
    match k {
        MinoKind::T => vec![p(-1, 0), p(0, 0), p(1, 0), p(0, 1)],
        MinoKind::O => vec![p(0, 0), p(1, 0), p(0, 1), p(1, 1)],
        MinoKind::L => vec![p(-1, 0), p(0, 0), p(1, 0), p(1, 1)],
        MinoKind::J => vec![p(-1, 0), p(0, 0), p(1, 0), p(-1, 1)],
        MinoKind::S => vec![p(-1, 0), p(0, 0), p(0, 1), p(1, 1)],
        MinoKind::Z => vec![p(-1, 1), p(0, 1), p(0, 0), p(1, 0)],
        MinoKind::I => vec![p(-1, 0), p(0, 0), p(1, 0), p(2, 0)],
        _ => vec![],
    }
}

fn turned(v: &[Pos], quarter_turns: usize) -> Vec<Pos> {
    v.iter()
        .map(|c| {
            let mut q = *c;
            for _ in 0..quarter_turns {
                q = p(q.y, -q.x);
            }
            q
        })
        .collect()
}

fn shape_table() -> ShapeTable {
    let mut slots = Vec::new();
    for k in KINDS {
        for r in 0..4 {
            slots.push(turned(&up_shape(k), r));
        }
    }
    ShapeTable::new(slots).expect("a valid shape table")
}

fn kick_table(entries: &[(MinoKind, RotationState, RotationState, Vec<Pos>)]) -> KickTable {
    let mut slots = vec![Vec::new(); 9 * 16];
    for (k, from, to, kicks) in entries {
        slots[k.index() * 16 + from.index() * 4 + to.index()] = kicks.clone();
    }
    KickTableLoader::load(slots).expect("a valid kick table")
}

fn filled_cells(m: &Matrix) -> usize {
    m.data.iter().flatten().filter(|c| **c != MinoKind::E).count()
}

fn board(seed: u64) -> Board {
    Board::new(Settings::default(), seed)
}

#[test]
fn spawn_fits_on_empty_matrix_for_every_piece_and_rotation() {
    let t = shape_table();
    let m = Matrix::new(10, 40);
    for k in [MinoKind::T, MinoKind::O, MinoKind::L, MinoKind::J, MinoKind::S, MinoKind::Z, MinoKind::I] {
        for r in ROTATIONS {
            let mino = Mino { kind: k, position: p(4, 22), rotation: r };
            assert!(has_free_space(&m, mino, &t));
        }
    }
}

#[test]
fn matrix_get_reports_outside_cells_as_none() {
    let m = Matrix::new(10, 40);
    assert_eq!(m.get(p(0, 0)), Some(MinoKind::E));
    assert_eq!(m.get(p(9, 39)), Some(MinoKind::E));
    assert_eq!(m.get(p(-1, 0)), None);
    assert_eq!(m.get(p(0, -1)), None);
    assert_eq!(m.get(p(10, 0)), None);
    assert_eq!(m.get(p(0, 40)), None);
}

#[test]
fn collision_with_filled_cell_and_wall() {
    let t = shape_table();
    let mut m = Matrix::new(10, 40);
    let i = Mino { kind: MinoKind::I, position: p(1, 0), rotation: RotationState::Up };
    assert!(has_free_space(&m, i, &t));
    let against_wall = Mino { position: p(0, 0), ..i };
    assert!(!has_free_space(&m, against_wall, &t));
    m.data[0][3] = MinoKind::G;
    assert!(!has_free_space(&m, i, &t));
}

#[test]
fn hard_drop_of_i_on_empty_matrix() {
    let t = shape_table();
    let k = kick_table(&[]);
    let mut b = board(7);
    assert!(b.spawn_piece(default_mino(MinoKind::I), &t));
    let mut previous = b.matrix.data.clone();
    let next = b.queue.window()[0];
    let c = Controller { hard_drop: true, ..Controller::idle() };
    let over = b.update_board(&c, &k, &t, 16);
    assert!(!over);
    assert_eq!(filled_cells(&b.matrix), 4);
    for x in 3..7 {
        assert_eq!(b.matrix.data[0][x], MinoKind::I);
    }
    assert_eq!(b.matrix.data[1].iter().filter(|c| **c != MinoKind::E).count(), 0);
    assert_eq!(b.active, Some(default_mino(next)));
    let diff = diff_and_copy(&b.matrix.data, &mut previous);
    assert_eq!(diff.len(), 4);
    for (n, u) in diff.iter().enumerate() {
        assert_eq!(*u, MatrixUpdate { loc: p(3 + n as i32, 0), old: MinoKind::E, new: MinoKind::I });
    }
    assert_eq!(previous, b.matrix.data);
}

#[test]
fn locking_the_missing_cell_clears_one_row() {
    let t = shape_table();
    let mut m = Matrix::new(10, 40);
    for x in 0..10 {
        if x != 9 {
            m.data[0][x] = MinoKind::G;
        }
    }
    m.data[1][0] = MinoKind::T;
    m.data[2][0] = MinoKind::S;
    let before = m.data.clone();
    // an I pointing right covers column 9 from row 0 to row 3
    let i = Mino { kind: MinoKind::I, position: p(9, 2), rotation: RotationState::Right };
    assert!(has_free_space(&m, i, &t));
    lock_piece(&mut m, i, &t);
    assert_eq!(m.data[0], {
        let mut r = vec![MinoKind::E; 10];
        r[0] = MinoKind::T;
        r[9] = MinoKind::I;
        r
    });
    assert_eq!(m.data[1][0], MinoKind::S);
    assert_eq!(m.data[1][9], MinoKind::I);
    assert_eq!(m.data[2][9], MinoKind::I);
    assert_eq!(m.data[3][9], MinoKind::E);
    assert!(m.data[39].iter().all(|c| *c == MinoKind::E));
    assert_eq!(filled_cells(&m), 5);
    let mut previous = before.clone();
    let diff = diff_and_copy(&m.data, &mut previous);
    let mut changed = 0;
    for y in 0..40 {
        for x in 0..10 {
            if before[y][x] != m.data[y][x] {
                changed += 1;
            }
        }
    }
    assert_eq!(diff.len(), changed);
    for u in &diff {
        assert_ne!(u.old, u.new);
        assert_eq!(before[u.loc.y as usize][u.loc.x as usize], u.old);
        assert_eq!(m.data[u.loc.y as usize][u.loc.x as usize], u.new);
    }
}

#[test]
fn lock_count_drops_by_at_most_cleared_rows() {
    let t = shape_table();
    let mut m = Matrix::new(10, 40);
    for x in 0..9 {
        m.data[0][x] = MinoKind::G;
        m.data[1][x] = MinoKind::G;
    }
    let before = filled_cells(&m);
    let i = Mino { kind: MinoKind::I, position: p(9, 2), rotation: RotationState::Right };
    lock_piece(&mut m, i, &t);
    // two rows cleared, 20 cells gone, 4 placed
    assert_eq!(filled_cells(&m), before + 4 - 20);
    assert!(filled_cells(&m) + 2 * 10 >= before);
}

#[test]
fn diff_round_trip_reproduces_the_grid() {
    let t = shape_table();
    let mut m = Matrix::new(10, 40);
    m.data[0][0] = MinoKind::G;
    let before = m.data.clone();
    let l = Mino { kind: MinoKind::L, position: p(5, 0), rotation: RotationState::Up };
    lock_piece(&mut m, l, &t);
    let mut previous = before.clone();
    let diff = diff_and_copy(&m.data, &mut previous);
    let mut replayed = Matrix { data: before };
    for u in &diff {
        replayed.apply_update(*u);
    }
    assert_eq!(replayed.data, m.data);
}

#[test]
fn invert_round_trip() {
    let mut m = Matrix::new(10, 40);
    let u = MatrixUpdate { loc: p(2, 3), old: MinoKind::E, new: MinoKind::Z };
    assert_eq!(u.invert(), MatrixUpdate { loc: p(2, 3), old: MinoKind::Z, new: MinoKind::E });
    m.apply_update(u);
    assert_eq!(m.data[3][2], MinoKind::Z);
    m.apply_update(u.invert());
    assert_eq!(m.data, Matrix::new(10, 40).data);
}

#[test]
fn update_outside_the_grid_changes_nothing() {
    let mut m = Matrix::new(10, 40);
    m.apply_update(MatrixUpdate { loc: p(10, 0), old: MinoKind::E, new: MinoKind::Z });
    m.apply_update(MatrixUpdate { loc: p(-1, 0), old: MinoKind::E, new: MinoKind::Z });
    assert_eq!(m.data, Matrix::new(10, 40).data);
}

#[test]
fn rotation_uses_first_fitting_kick() {
    let t = shape_table();
    let k = kick_table(&[(
        MinoKind::T,
        RotationState::Up,
        RotationState::Right,
        vec![p(5, 5), p(1, 0), p(2, 0)],
    )]);
    let mut b = board(3);
    // a T on the floor cannot turn in place: pointing right it would reach below the floor
    b.active = Some(Mino { kind: MinoKind::T, position: p(1, 0), rotation: RotationState::Up });
    let mut b2 = board(3);
    b2.matrix.data = b.matrix.data.clone();
    b2.active = b.active;
    let c = Controller { rotation: Some(RotateCommand::Right), ..Controller::idle() };
    let r1 = b.rotate(&c, &k, &t);
    let r2 = b2.rotate(&c, &k, &t);
    assert_eq!(r1, r2);
    assert_eq!(b.active, b2.active);
    assert!(r1);
    // T pointing right at (1,0) covers (1,1) (1,0) (1,-1) (2,0): (1,-1) is outside, so the
    // zero kick fails; (5,5) fits, so it is taken before (1,0)
    assert_eq!(b.active, Some(Mino { kind: MinoKind::T, position: p(6, 5), rotation: RotationState::Right }));
}

#[test]
fn rotation_without_fitting_candidate_is_rejected() {
    let t = shape_table();
    let k = kick_table(&[]);
    let mut b = board(3);
    let start = Mino { kind: MinoKind::I, position: p(4, 0), rotation: RotationState::Up };
    b.active = Some(start);
    let c = Controller { rotation: Some(RotateCommand::Left), ..Controller::idle() };
    // I pointing left covers rows -1..2 of column 4, below the floor
    assert!(!b.rotate(&c, &k, &t));
    assert_eq!(b.active, Some(start));
}

#[test]
fn rotation_in_open_space() {
    let t = shape_table();
    let k = kick_table(&[]);
    let mut b = board(3);
    b.active = Some(Mino { kind: MinoKind::T, position: p(4, 10), rotation: RotationState::Up });
    let c = Controller { rotation: Some(RotateCommand::R180), ..Controller::idle() };
    assert!(b.rotate(&c, &k, &t));
    assert_eq!(b.active.unwrap().rotation, RotationState::Down);
    assert_eq!(b.active.unwrap().position, p(4, 10));
}

#[test]
fn shift_is_clamped_at_the_walls() {
    let t = shape_table();
    let mut b = board(1);
    b.active = Some(Mino { kind: MinoKind::O, position: p(4, 10), rotation: RotationState::Up });
    let c = Controller { shift: -20, ..Controller::idle() };
    assert!(b.shift(&c, &t));
    assert_eq!(b.active.unwrap().position, p(0, 10));
    let c = Controller { shift: 20, ..Controller::idle() };
    assert!(b.shift(&c, &t));
    assert_eq!(b.active.unwrap().position, p(8, 10));
    assert!(!b.shift(&c, &t));
    let c = Controller { shift: -3, ..Controller::idle() };
    assert!(b.shift(&c, &t));
    assert_eq!(b.active.unwrap().position, p(5, 10));
}

#[test]
fn gravity_drops_whole_cells_and_keeps_the_remainder() {
    let t = shape_table();
    let k = kick_table(&[]);
    let mut b = Board::new(Settings { gravity_power: 600, ..Settings::default() }, 1);
    b.active = Some(Mino { kind: MinoKind::O, position: p(4, 10), rotation: RotationState::Up });
    let c = Controller::idle();
    b.update_board(&c, &k, &t, 16);
    assert_eq!(b.active.unwrap().position, p(4, 10));
    assert_eq!(b.drop_clock.fall, 600);
    b.update_board(&c, &k, &t, 16);
    assert_eq!(b.active.unwrap().position, p(4, 9));
    assert_eq!(b.drop_clock.fall, 200);
}

#[test]
fn soft_drop_multiplies_gravity_and_stops_at_the_floor() {
    let t = shape_table();
    let k = kick_table(&[]);
    let mut b = board(1);
    b.active = Some(Mino { kind: MinoKind::O, position: p(4, 2), rotation: RotationState::Up });
    let c = Controller { soft_drop: true, ..Controller::idle() };
    // 10 * 20 = 200 thousandths a tick: six ticks make 1.2 cells
    for _ in 0..6 {
        b.update_board(&c, &k, &t, 16);
    }
    assert_eq!(b.active.unwrap().position, p(4, 1));
    assert_eq!(b.drop_clock.fall, 200);
    let mut fast = Board::new(Settings { gravity_power: 5000, ..Settings::default() }, 1);
    fast.active = Some(Mino { kind: MinoKind::O, position: p(4, 2), rotation: RotationState::Up });
    fast.update_board(&Controller::idle(), &k, &t, 16);
    assert_eq!(fast.active.unwrap().position, p(4, 0));
}

#[test]
fn lock_delay_locks_a_grounded_piece() {
    let t = shape_table();
    let k = kick_table(&[]);
    let mut b = board(1);
    b.active = Some(Mino { kind: MinoKind::O, position: p(4, 0), rotation: RotationState::Up });
    let c = Controller::idle();
    b.update_board(&c, &k, &t, 300);
    assert_eq!(b.drop_clock.lock, 300);
    assert_eq!(filled_cells(&b.matrix), 0);
    b.update_board(&c, &k, &t, 300);
    assert_eq!(filled_cells(&b.matrix), 4);
    assert_eq!(b.drop_clock.lock, 0);
    assert_eq!(b.active.unwrap().position, p(4, 22));
}

#[test]
fn moving_resets_the_lock_clock() {
    let t = shape_table();
    let k = kick_table(&[]);
    let mut b = board(1);
    b.active = Some(Mino { kind: MinoKind::O, position: p(4, 0), rotation: RotationState::Up });
    b.update_board(&Controller::idle(), &k, &t, 300);
    assert_eq!(b.drop_clock.lock, 300);
    b.update_board(&Controller { shift: 1, ..Controller::idle() }, &k, &t, 100);
    assert_eq!(b.drop_clock.lock, 0);
    assert_eq!(b.active.unwrap().position, p(5, 0));
}

#[test]
fn hold_swaps_and_blocks_until_the_next_lock() {
    let t = shape_table();
    let k = kick_table(&[]);
    let mut b = board(11);
    let first = b.queue.take();
    assert!(b.spawn_piece(default_mino(first), &t));
    let next = b.queue.window()[0];
    let c = Controller { hold: true, ..Controller::idle() };
    assert!(!b.update_board(&c, &k, &t, 16));
    assert_eq!(b.hold, Hold::Inactive(first));
    assert_eq!(b.active, Some(default_mino(next)));
    // a second hold is refused while the held piece is inactive
    assert!(!b.update_board(&c, &k, &t, 16));
    assert_eq!(b.hold, Hold::Inactive(first));
    assert_eq!(b.active.unwrap().kind, next);
    // a lock makes it ready again
    let drop = Controller { hard_drop: true, ..Controller::idle() };
    assert!(!b.update_board(&drop, &k, &t, 16));
    assert_eq!(b.hold, Hold::Ready(first));
    let current = b.active.unwrap().kind;
    assert!(!b.update_board(&c, &k, &t, 16));
    assert_eq!(b.hold, Hold::Inactive(current));
    assert_eq!(b.active, Some(default_mino(first)));
}

#[test]
fn hold_activate_only_touches_inactive() {
    let mut h = Hold::Inactive(MinoKind::S);
    h.activate();
    assert_eq!(h, Hold::Ready(MinoKind::S));
    h.activate();
    assert_eq!(h, Hold::Ready(MinoKind::S));
    let mut e = Hold::Empty;
    e.activate();
    assert_eq!(e, Hold::Empty);
}

#[test]
fn blocked_spawn_ends_the_game() {
    let t = shape_table();
    let k = kick_table(&[]);
    let mut b = board(5);
    b.active = Some(Mino { kind: MinoKind::O, position: p(0, 0), rotation: RotationState::Up });
    for y in 20..24 {
        for x in 2..8 {
            b.matrix.data[y][x] = MinoKind::G;
        }
    }
    let window = b.queue.window().clone();
    let drop = Controller { hard_drop: true, ..Controller::idle() };
    assert!(b.update_board(&drop, &k, &t, 16));
    assert_eq!(b.active, None);
    assert_eq!(b.queue.window(), &window);
    // a board without an active piece does nothing
    assert!(!b.update_board(&drop, &k, &t, 16));
}

#[test]
fn rotation_states_form_a_cycle() {
    for r in ROTATIONS {
        assert_eq!(r.rotate_left().rotate_right(), r);
        assert_eq!(r.rotate_right().rotate_right(), r.rotate_180());
        assert_eq!(r.rotate_180().rotate_180(), r);
    }
    assert_eq!(RotationState::Up.rotate_right(), RotationState::Right);
    assert_eq!(RotationState::Up.rotate_left(), RotationState::Left);
    assert_eq!(RotationState::default(), RotationState::Up);
    assert_eq!(RotateCommand::R180.apply(RotationState::Left), RotationState::Right);
}

#[test]
fn malformed_tables_are_rejected() {
    assert!(ShapeTable::new(vec![Vec::new(); 35]).is_none());
    let mut slots: Vec<Vec<Pos>> = vec![Vec::new(); 36];
    assert!(ShapeTable::new(slots.clone()).is_none());
    for k in 1..8 {
        for r in 0..4 {
            slots[k * 4 + r] = vec![p(0, 0)];
        }
    }
    assert!(ShapeTable::new(slots.clone()).is_some());
    slots[6] = vec![p(0x4000_0000, -0x4000_0000)];
    assert!(ShapeTable::new(slots.clone()).is_some());
    slots[5] = vec![p(0x4000_0001, 0)];
    assert!(ShapeTable::new(slots).is_none());
    assert!(KickTableLoader::load(vec![Vec::new(); 143]).is_none());
    let mut kicks: Vec<Vec<Pos>> = vec![Vec::new(); 144];
    assert!(KickTableLoader::load(kicks.clone()).is_some());
    kicks[3] = vec![p(0, -0x4000_0001)];
    assert!(KickTableLoader::load(kicks).is_none());
    assert_eq!(KickTableLoader.extensions(), vec!["kick-table"]);
}

#[test]
fn clear_board_resets_hold_and_active() {
    let mut b = board(2);
    b.hold = Hold::Ready(MinoKind::T);
    b.active = Some(default_mino(MinoKind::L));
    b.clear_board(9);
    assert_eq!(b.hold, Hold::Empty);
    assert_eq!(b.active, None);
    assert!(b.queue.window().len() >= 5);
}

#[test]
fn settings_rates() {
    let s = Settings::default();
    assert_eq!(s.fall_per_tick(false), 20);
    assert_eq!(s.fall_per_tick(true), 200);
    assert_eq!(s.first_repeat_delay(), 1000);
    assert_eq!(Settings { initial_delay: 0, ..s }.first_repeat_delay(), 100);
}

#[test]
fn held_key_repeats_after_its_delay() {
    let s = Settings::default();
    let mut k = Repeatable::new();
    assert_eq!(k.update(16, 1000, &s, true), 1);
    assert_eq!(k.repeat_at, Some(1000));
    assert_eq!(k.activated_at, 1000);
    assert_eq!(k.update(16, 1016, &s, true), 0);
    // the time left is kept modulo the repeat delay: 984 % 100
    assert_eq!(k.repeat_at, Some(84));
    // 1250 ms against 84 left: one repeat when it runs out, then 1166 more is 11 more
    assert_eq!(k.update(1250, 2266, &s, true), 12);
    assert_eq!(k.repeat_at, Some(66));
    assert_eq!(k.update(16, 2282, &s, false), 0);
    assert_eq!(k.repeat_at, None);
    let quick = Settings { initial_delay: 0, ..s };
    let mut q = Repeatable::new();
    q.update(16, 5, &quick, true);
    assert_eq!(q.repeat_at, Some(100));

    let held = |at: u64| Repeatable { activated_at: at, repeat_at: Some(5) };
    let up = Repeatable::new();
    assert_eq!(combine_shift(&held(1), &held(2), 1, 2), 2);
    assert_eq!(combine_shift(&held(2), &held(1), 1, 2), -1);
    assert_eq!(combine_shift(&held(2), &held(2), 1, 2), -1);
    assert_eq!(combine_shift(&held(1), &up, 3, 0), -3);
    assert_eq!(combine_shift(&up, &up, 0, 0), 0);
}
