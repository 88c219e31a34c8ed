//! Shape and kick tables: declarative data mapping a piece kind and rotation state to the
//! cells a piece covers, and a rotation to the offsets tried when it is blocked.
use vstd::prelude::*;
use crate::kinds::{MinoKind, RotationState, Pos, kind_index, quarter_turns, is_standard};

verus! {

/// Largest absolute value of a coordinate in a table entry; together with `MAX_DIM` it keeps
/// piece positions within `i32`.
pub const OFFSET_LIMIT: i32 = 0x4000_0000;

/// Number of piece kinds.
pub const KIND_COUNT: usize = 9;

/// Number of rotation states.
pub const ROTATION_COUNT: usize = 4;

/// A coordinate pair that a table may hold.
pub open spec fn offset_ok(p: Pos) -> bool {
    -OFFSET_LIMIT <= p.x <= OFFSET_LIMIT && -OFFSET_LIMIT <= p.y <= OFFSET_LIMIT
}

/// Every offset of every entry is within the limit.
pub open spec fn offsets_ok(entries: Seq<Vec<Pos>>) -> bool {
    forall|i: int, j: int|
        0 <= i < entries.len() && 0 <= j < entries[i]@.len() ==> offset_ok(#[trigger] entries[i]@[j])
}

/// Slot of a shape entry.
pub open spec fn shape_slot(k: MinoKind, r: RotationState) -> int {
    (kind_index(k) * 4 + quarter_turns(r)) as int
}

/// Slot of a kick entry.
pub open spec fn kick_slot(k: MinoKind, from: RotationState, to: RotationState) -> int {
    (kind_index(k) * 16 + quarter_turns(from) * 4 + quarter_turns(to)) as int
}

/// Key of a shape entry.
#[derive(Debug, PartialEq, Eq, Hash, Clone, Copy, Structural)]
pub struct ShapeParameters {
    pub kind: MinoKind,
    pub rotation: RotationState,
}

/// Key of a kick entry.
#[derive(Debug, PartialEq, Eq, Hash, Clone, Copy, Structural)]
pub struct KickParameters {
    pub kind: MinoKind,
    pub from: RotationState,
    pub to: RotationState,
}

/// Cell offsets of each piece kind in each rotation state, one slot per pair, in the order
/// of `shape_slot`.
#[derive(Debug, Clone)]
pub struct ShapeTable {
    pub shapes: Vec<Vec<Pos>>,
}

/// What a shape table must hold: a slot per pair, a non-empty shape for each standard kind in
/// each rotation state, and offsets within the limit.
pub open spec fn valid_shapes(shapes: Seq<Vec<Pos>>) -> bool {
    &&& shapes.len() == KIND_COUNT * ROTATION_COUNT
    &&& offsets_ok(shapes)
    &&& forall|k: MinoKind, r: RotationState|
        is_standard(k) ==> #[trigger] shapes[shape_slot(k, r)]@.len() > 0
}

impl ShapeTable {
    pub open spec fn wf(&self) -> bool {
        valid_shapes(self.shapes@)
    }

    /// The offsets of kind `k` in rotation state `r`.
    pub open spec fn shape(&self, k: MinoKind, r: RotationState) -> Seq<Pos> {
        self.shapes@[shape_slot(k, r)]@
    }

    /// Builds a table from its slots; `None` when they are not a valid table.
    pub fn new(shapes: Vec<Vec<Pos>>) -> (r: Option<ShapeTable>)
        ensures
            r is Some <==> valid_shapes(shapes@),
            r matches Some(t) ==> t.shapes@ == shapes@,
    {
        if shapes.len() != KIND_COUNT * ROTATION_COUNT {
            return None;
        }
        let mut i: usize = 0;
        while i < shapes.len()
            invariant
                shapes@.len() == KIND_COUNT * ROTATION_COUNT,
                0 <= i <= shapes@.len(),
                forall|a: int, b: int|
                    0 <= a < i && 0 <= b < shapes@[a]@.len() ==> offset_ok(#[trigger] shapes@[a]@[b]),
                forall|a: int| 0 <= a < i && a % 4 < 4 && 1 <= a / 4 < 8 ==> #[trigger] shapes@[a]@.len() > 0,
            decreases shapes@.len() - i,
        {
            let row = &shapes[i];
            if 4 <= i && i < 32 && row.len() == 0 {
                proof {
                    let k = kind_of_slot(i as int);
                    let r = rot_of_slot(i as int);
                    assert(shape_slot(k, r) == i);
                }
                return None;
            }
            let mut j: usize = 0;
            while j < row.len()
                invariant
                    i < shapes@.len(),
                    row@ == shapes@[i as int]@,
                    0 <= j <= row@.len(),
                    forall|b: int| 0 <= b < j ==> offset_ok(#[trigger] row@[b]),
                decreases row@.len() - j,
            {
                let p = row[j];
                if p.x < -OFFSET_LIMIT || p.x > OFFSET_LIMIT || p.y < -OFFSET_LIMIT || p.y > OFFSET_LIMIT {
                    assert(!offset_ok(shapes@[i as int]@[j as int]));
                    return None;
                }
                j = j + 1;
            }
            i = i + 1;
        }
        proof {
            assert forall|k: MinoKind, r: RotationState|
                is_standard(k) implies #[trigger] shapes@[shape_slot(k, r)]@.len() > 0 by {
                let s = shape_slot(k, r);
                assert(s % 4 < 4 && 1 <= s / 4 < 8);
            }
        }
        Some(ShapeTable { shapes })
    }

    /// The offsets of kind `kind` in rotation state `rotation`.
    pub fn get(&self, kind: MinoKind, rotation: RotationState) -> (r: &Vec<Pos>)
        requires
            self.wf(),
        ensures
            r@ == self.shape(kind, rotation),
    {
        &self.shapes[kind.index() * 4 + rotation.index()]
    }
}

/// The kind whose shape entries include slot `s`.
pub open spec fn kind_of_slot(s: int) -> MinoKind {
    let k = s / 4;
    if k == 0 { MinoKind::E }
    else if k == 1 { MinoKind::T }
    else if k == 2 { MinoKind::O }
    else if k == 3 { MinoKind::L }
    else if k == 4 { MinoKind::J }
    else if k == 5 { MinoKind::S }
    else if k == 6 { MinoKind::Z }
    else if k == 7 { MinoKind::I }
    else { MinoKind::G }
}

/// The rotation state of shape slot `s`.
pub open spec fn rot_of_slot(s: int) -> RotationState {
    let r = s % 4;
    if r == 0 { RotationState::Up }
    else if r == 1 { RotationState::Right }
    else if r == 2 { RotationState::Down }
    else { RotationState::Left }
}

/// Translations tried, after the zero offset, when a piece rotates, one slot per
/// kind and pair of rotation states in the order of `kick_slot`; an empty slot is an absent
/// entry.
#[derive(Debug, Clone)]
pub struct KickTable {
    pub kicks: Vec<Vec<Pos>>,
}

/// What a kick table must hold: a slot per triple and offsets within the limit.
pub open spec fn valid_kicks(kicks: Seq<Vec<Pos>>) -> bool {
    kicks.len() == KIND_COUNT * ROTATION_COUNT * ROTATION_COUNT && offsets_ok(kicks)
}

impl KickTable {
    pub open spec fn wf(&self) -> bool {
        valid_kicks(self.kicks@)
    }

    /// The kicks of kind `k` rotating from `from` to `to`.
    pub open spec fn kicks_of(&self, k: MinoKind, from: RotationState, to: RotationState) -> Seq<Pos> {
        self.kicks@[kick_slot(k, from, to)]@
    }

    /// The kicks of kind `kind` rotating from `from` to `to`.
    pub fn get(&self, kind: MinoKind, from: RotationState, to: RotationState) -> (r: &Vec<Pos>)
        requires
            self.wf(),
        ensures
            r@ == self.kicks_of(kind, from, to),
    {
        &self.kicks[kind.index() * 16 + from.index() * 4 + to.index()]
    }
}

/// Builds kick tables out of their slots, checking them as they are loaded.
pub struct KickTableLoader;

impl KickTableLoader {
    /// The table held in `kicks`; `None` when they are not a valid table.
    pub fn load(kicks: Vec<Vec<Pos>>) -> (r: Option<KickTable>)
        ensures
            r is Some <==> valid_kicks(kicks@),
            r matches Some(t) ==> t.kicks@ == kicks@,
    {
        if kicks.len() != KIND_COUNT * ROTATION_COUNT * ROTATION_COUNT {
            return None;
        }
        let mut i: usize = 0;
        while i < kicks.len()
            invariant
                0 <= i <= kicks@.len(),
                forall|a: int, b: int|
                    0 <= a < i && 0 <= b < kicks@[a]@.len() ==> offset_ok(#[trigger] kicks@[a]@[b]),
            decreases kicks@.len() - i,
        {
            let row = &kicks[i];
            let mut j: usize = 0;
            while j < row.len()
                invariant
                    i < kicks@.len(),
                    row@ == kicks@[i as int]@,
                    0 <= j <= row@.len(),
                    forall|b: int| 0 <= b < j ==> offset_ok(#[trigger] row@[b]),
                decreases row@.len() - j,
            {
                let p = row[j];
                if p.x < -OFFSET_LIMIT || p.x > OFFSET_LIMIT || p.y < -OFFSET_LIMIT || p.y > OFFSET_LIMIT {
                    assert(!offset_ok(kicks@[i as int]@[j as int]));
                    return None;
                }
                j = j + 1;
            }
            i = i + 1;
        }
        Some(KickTable { kicks })
    }

    /// File extensions that hold kick tables.
    pub fn extensions(&self) -> (r: Vec<&'static str>)
        ensures
            r@.len() == 1,
            r@[0]@ == "kick-table"@,
    {
        let mut r: Vec<&'static str> = Vec::new();
        r.push("kick-table");
        r
    }
}

} // verus!
