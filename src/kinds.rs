//! Piece kinds, rotation states, positions and the hold slot.
use vstd::prelude::*;

verus! {

/// The content of a matrix cell, or the kind of a piece. `E` is an empty cell and `G` a
/// garbage cell; the other seven are the standard pieces.
#[derive(Debug, PartialEq, Eq, Hash, Clone, Copy, Structural)]
pub enum MinoKind {
    E,
    T,
    O,
    L,
    J,
    S,
    Z,
    I,
    G,
}

/// Position of a kind in declaration order.
pub open spec fn kind_index(k: MinoKind) -> nat {
    match k {
        MinoKind::E => 0,
        MinoKind::T => 1,
        MinoKind::O => 2,
        MinoKind::L => 3,
        MinoKind::J => 4,
        MinoKind::S => 5,
        MinoKind::Z => 6,
        MinoKind::I => 7,
        MinoKind::G => 8,
    }
}

/// The seven kinds that the piece queue hands out.
pub open spec fn is_standard(k: MinoKind) -> bool {
    k != MinoKind::E && k != MinoKind::G
}

impl MinoKind {
    /// Position of the kind in declaration order (`E` is 0, `G` is 8).
    pub fn index(self) -> (r: usize)
        ensures
            r == kind_index(self),
    {
        match self {
            MinoKind::E => 0,
            MinoKind::T => 1,
            MinoKind::O => 2,
            MinoKind::L => 3,
            MinoKind::J => 4,
            MinoKind::S => 5,
            MinoKind::Z => 6,
            MinoKind::I => 7,
            MinoKind::G => 8,
        }
    }
}

/// Orientation of a piece.
#[derive(Debug, PartialEq, Eq, Hash, Clone, Copy, Structural)]
pub enum RotationState {
    Up,
    Right,
    Down,
    Left,
}

/// Quarter turns clockwise from `Up`.
pub open spec fn quarter_turns(r: RotationState) -> nat {
    match r {
        RotationState::Up => 0,
        RotationState::Right => 1,
        RotationState::Down => 2,
        RotationState::Left => 3,
    }
}

/// The rotation state that lies `n` quarter turns clockwise from `Up`.
pub open spec fn from_quarter_turns(n: nat) -> RotationState {
    if n % 4 == 0 {
        RotationState::Up
    } else if n % 4 == 1 {
        RotationState::Right
    } else if n % 4 == 2 {
        RotationState::Down
    } else {
        RotationState::Left
    }
}

impl Default for RotationState {
    fn default() -> (r: Self)
        ensures
            r == RotationState::Up,
    {
        RotationState::Up
    }
}

impl RotationState {
    /// Position of the state in declaration order.
    pub fn index(self) -> (r: usize)
        ensures
            r == quarter_turns(self),
    {
        match self {
            RotationState::Up => 0,
            RotationState::Right => 1,
            RotationState::Down => 2,
            RotationState::Left => 3,
        }
    }

    /// Half a turn.
    pub fn rotate_180(self) -> (r: Self)
        ensures
            r == from_quarter_turns(quarter_turns(self) + 2),
    {
        match self {
            RotationState::Up => RotationState::Down,
            RotationState::Right => RotationState::Left,
            RotationState::Down => RotationState::Up,
            RotationState::Left => RotationState::Right,
        }
    }

    /// A quarter turn counter-clockwise.
    pub fn rotate_left(self) -> (r: Self)
        ensures
            r == from_quarter_turns(quarter_turns(self) + 3),
    {
        match self {
            RotationState::Up => RotationState::Left,
            RotationState::Right => RotationState::Up,
            RotationState::Down => RotationState::Right,
            RotationState::Left => RotationState::Down,
        }
    }

    /// A quarter turn clockwise.
    pub fn rotate_right(self) -> (r: Self)
        ensures
            r == from_quarter_turns(quarter_turns(self) + 1),
    {
        match self {
            RotationState::Up => RotationState::Right,
            RotationState::Right => RotationState::Down,
            RotationState::Down => RotationState::Left,
            RotationState::Left => RotationState::Up,
        }
    }
}

/// A rotation request of the controller.
#[derive(Debug, PartialEq, Eq, Clone, Copy, Structural)]
pub enum RotateCommand {
    Left,
    Right,
    R180,
}

/// The rotation state reached from `from` by the command `c`.
pub open spec fn rotated(from: RotationState, c: RotateCommand) -> RotationState {
    match c {
        RotateCommand::Left => from_quarter_turns(quarter_turns(from) + 3),
        RotateCommand::Right => from_quarter_turns(quarter_turns(from) + 1),
        RotateCommand::R180 => from_quarter_turns(quarter_turns(from) + 2),
    }
}

impl RotateCommand {
    /// The rotation state reached from `from` by this command.
    pub fn apply(self, from: RotationState) -> (r: RotationState)
        ensures
            r == rotated(from, self),
    {
        match self {
            RotateCommand::Left => from.rotate_left(),
            RotateCommand::Right => from.rotate_right(),
            RotateCommand::R180 => from.rotate_180(),
        }
    }
}

/// An integer position or offset on the grid, in cells; `y` grows upwards.
#[derive(Debug, PartialEq, Eq, Hash, Clone, Copy, Structural)]
pub struct Pos {
    pub x: i32,
    pub y: i32,
}

/// The falling piece.
#[derive(Debug, PartialEq, Eq, Clone, Copy, Structural)]
pub struct Mino {
    pub kind: MinoKind,
    pub position: Pos,
    pub rotation: RotationState,
}

/// The hold slot. An `Inactive` piece cannot be swapped back in before the next lock.
#[derive(Debug, PartialEq, Eq, Clone, Copy, Structural)]
pub enum Hold {
    Empty,
    Ready(MinoKind),
    Inactive(MinoKind),
}

/// The hold slot after a lock.
pub open spec fn activated(h: Hold) -> Hold {
    match h {
        Hold::Inactive(p) => Hold::Ready(p),
        _ => h,
    }
}

impl Default for Hold {
    fn default() -> (r: Self)
        ensures
            r == Hold::Empty,
    {
        Hold::Empty
    }
}

impl Hold {
    /// Makes an inactive held piece available again.
    pub fn activate(&mut self)
        ensures
            *final(self) == activated(*old(self)),
    {
        if let Hold::Inactive(p) = *self {
            *self = Hold::Ready(p);
        }
    }
}

} // verus!
