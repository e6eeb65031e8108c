use vstd::prelude::*;
use crate::board::{Board, collides_g, drop_to_g, occ_grid};
use crate::piece::{
    FallingPiece, Piece, PieceMovement, PieceState, RotationState, TspinStatus, rotate_offset,
};
use crate::row::Row;

verus! {

/// The orientation after a clockwise turn.
pub open spec fn cw_of(r: RotationState) -> RotationState {
    match r {
        RotationState::North => RotationState::East,
        RotationState::East => RotationState::South,
        RotationState::South => RotationState::West,
        RotationState::West => RotationState::North,
    }
}

/// The orientation after a counterclockwise turn.
pub open spec fn ccw_of(r: RotationState) -> RotationState {
    match r {
        RotationState::North => RotationState::West,
        RotationState::West => RotationState::South,
        RotationState::South => RotationState::East,
        RotationState::East => RotationState::North,
    }
}

/// The `i`-th offset of the Super Rotation System for piece `p` in orientation `r`; a turn
/// from one orientation to another tries the differences of their offsets in turn.
pub open spec fn srs_offset(p: Piece, r: RotationState, i: int) -> (int, int) {
    match p {
        Piece::O => match r {
            RotationState::North => (0, 0),
            RotationState::East => (0, -1),
            RotationState::South => (-1, -1),
            RotationState::West => (-1, 0),
        },
        Piece::I => match r {
            RotationState::North => if i == 0 {
                (0, 0)
            } else if i == 1 || i == 3 {
                (-1, 0)
            } else {
                (2, 0)
            },
            RotationState::East => if i == 0 {
                (-1, 0)
            } else if i <= 2 {
                (0, 0)
            } else if i == 3 {
                (0, 1)
            } else {
                (0, -2)
            },
            RotationState::South => if i == 0 {
                (-1, 1)
            } else if i == 1 {
                (1, 1)
            } else if i == 2 {
                (-2, 1)
            } else if i == 3 {
                (1, 0)
            } else {
                (-2, 0)
            },
            RotationState::West => if i <= 2 {
                (0, 1)
            } else if i == 3 {
                (0, -1)
            } else {
                (0, 2)
            },
        },
        _ => match r {
            RotationState::East => if i == 0 {
                (0, 0)
            } else if i == 1 {
                (1, 0)
            } else if i == 2 {
                (1, -1)
            } else if i == 3 {
                (0, 2)
            } else {
                (1, 2)
            },
            RotationState::West => if i == 0 {
                (0, 0)
            } else if i == 1 {
                (-1, 0)
            } else if i == 2 {
                (-1, -1)
            } else if i == 3 {
                (0, 2)
            } else {
                (-1, 2)
            },
            _ => (0, 0),
        },
    }
}

fn srs_offset_exec(p: Piece, r: RotationState, i: usize) -> (o: (i32, i32))
    requires
        i < 5,
    ensures
        o.0 as int == srs_offset(p, r, i as int).0,
        o.1 as int == srs_offset(p, r, i as int).1,
        -2 <= o.0 <= 2,
        -2 <= o.1 <= 2,
{
    match p {
        Piece::O => match r {
            RotationState::North => (0, 0),
            RotationState::East => (0, -1),
            RotationState::South => (-1, -1),
            RotationState::West => (-1, 0),
        },
        Piece::I => match r {
            RotationState::North => if i == 0 {
                (0, 0)
            } else if i == 1 || i == 3 {
                (-1, 0)
            } else {
                (2, 0)
            },
            RotationState::East => if i == 0 {
                (-1, 0)
            } else if i <= 2 {
                (0, 0)
            } else if i == 3 {
                (0, 1)
            } else {
                (0, -2)
            },
            RotationState::South => if i == 0 {
                (-1, 1)
            } else if i == 1 {
                (1, 1)
            } else if i == 2 {
                (-2, 1)
            } else if i == 3 {
                (1, 0)
            } else {
                (-2, 0)
            },
            RotationState::West => if i <= 2 {
                (0, 1)
            } else if i == 3 {
                (0, -1)
            } else {
                (0, 2)
            },
        },
        _ => match r {
            RotationState::East => if i == 0 {
                (0, 0)
            } else if i == 1 {
                (1, 0)
            } else if i == 2 {
                (1, -1)
            } else if i == 3 {
                (0, 2)
            } else {
                (1, 2)
            },
            RotationState::West => if i == 0 {
                (0, 0)
            } else if i == 1 {
                (-1, 0)
            } else if i == 2 {
                (-1, -1)
            } else if i == 3 {
                (0, 2)
            } else {
                (-1, 2)
            },
            _ => (0, 0),
        },
    }
}

/// The piece turned to orientation `to` and moved by the `i`-th kick.
pub open spec fn kicked(p: FallingPiece, to: RotationState, i: int) -> FallingPiece {
    let a = srs_offset(p.kind.0, p.kind.1, i);
    let b = srs_offset(p.kind.0, to, i);
    FallingPiece {
        kind: PieceState(p.kind.0, to),
        x: (p.x + a.0 - b.0) as i32,
        y: (p.y + a.1 - b.1) as i32,
        tspin: p.tspin,
    }
}

/// One if the cell at offset `o` from the piece's center is filled or off the playfield.
pub open spec fn corner(g: Seq<Seq<bool>>, c: FallingPiece, o: (int, int)) -> int {
    if occ_grid(g, c.x + o.0, c.y + o.1) {
        1
    } else {
        0
    }
}

/// The spin a turn that landed with kick `i` makes: a T with three of its four corners filled
/// spins fully when both corners it points to are filled or the last kick was used, and a
/// little otherwise; any other turn makes no spin.
pub open spec fn spin_status(g: Seq<Seq<bool>>, c: FallingPiece, i: int) -> TspinStatus {
    if c.kind.0 != Piece::T {
        TspinStatus::NoSpin
    } else {
        let front = corner(g, c, rotate_offset((-1, 1), c.kind.1)) + corner(g, c, rotate_offset((1, 1), c.kind.1));
        let back = corner(g, c, rotate_offset((-1, -1), c.kind.1)) + corner(g, c, rotate_offset((1, -1), c.kind.1));
        if front + back >= 3 {
            if front == 2 || i == 4 {
                TspinStatus::Full
            } else {
                TspinStatus::Mini
            }
        } else {
            TspinStatus::NoSpin
        }
    }
}

/// Trying the kicks from the `i`-th on: the first that fits, with its spin, or `None`.
pub open spec fn turn_from(g: Seq<Seq<bool>>, p: FallingPiece, to: RotationState, i: int) -> Option<FallingPiece>
    decreases 5 - i,
{
    if i >= 5 || i < 0 {
        None
    } else {
        let c = kicked(p, to, i);
        if !collides_g(g, c, 0, 0) {
            Some(FallingPiece { tspin: spin_status(g, c, i), ..c })
        } else {
            turn_from(g, p, to, i + 1)
        }
    }
}

/// Where turning `p` to orientation `to` on grid `g` puts it, or `None` when every kick is
/// blocked.
pub open spec fn turned(g: Seq<Seq<bool>>, p: FallingPiece, to: RotationState) -> Option<FallingPiece> {
    turn_from(g, p, to, 0)
}

/// The piece lies within a thousand cells of the playfield on both axes.
pub open spec fn near_field(p: FallingPiece) -> bool {
    -1000 <= p.x <= 1000 && -1000 <= p.y <= 1000
}

/// Where one input moves piece `p` on grid `g`, or `None` when it cannot move it.
pub open spec fn apply_spec(g: Seq<Seq<bool>>, m: PieceMovement, p: FallingPiece) -> Option<FallingPiece> {
    match m {
        PieceMovement::Left => if !collides_g(g, p, -1, 0) {
            Some(FallingPiece { x: (p.x - 1) as i32, tspin: TspinStatus::NoSpin, ..p })
        } else {
            None
        },
        PieceMovement::Right => if !collides_g(g, p, 1, 0) {
            Some(FallingPiece { x: (p.x + 1) as i32, tspin: TspinStatus::NoSpin, ..p })
        } else {
            None
        },
        PieceMovement::Cw => turned(g, p, cw_of(p.kind.1)),
        PieceMovement::Ccw => turned(g, p, ccw_of(p.kind.1)),
        PieceMovement::SonicDrop => if drop_to_g(g, p, p.y as int) < p.y {
            Some(FallingPiece { y: drop_to_g(g, p, p.y as int) as i32, tspin: TspinStatus::NoSpin, ..p })
        } else {
            None
        },
    }
}

/// The counted corners of a T centred at a piece lie within one cell of it.
fn corner_exec<R: Row>(board: &Board<R>, c: &FallingPiece, o: (i32, i32)) -> (n: u32)
    requires
        board.inv(),
        -1010 <= c.x <= 1010,
        -1010 <= c.y <= 1010,
        -1 <= o.0 <= 1,
        -1 <= o.1 <= 1,
    ensures
        n as int == corner(board.grid(), *c, (o.0 as int, o.1 as int)),
{
    if board.occupied(c.x + o.0, c.y + o.1) {
        1
    } else {
        0
    }
}

fn turned_offset(o: (i32, i32), r: RotationState) -> (t: (i32, i32))
    requires
        -1 <= o.0 <= 1,
        -1 <= o.1 <= 1,
    ensures
        t.0 as int == rotate_offset((o.0 as int, o.1 as int), r).0,
        t.1 as int == rotate_offset((o.0 as int, o.1 as int), r).1,
        -1 <= t.0 <= 1,
        -1 <= t.1 <= 1,
{
    match r {
        RotationState::North => o,
        RotationState::East => (o.1, -o.0),
        RotationState::South => (-o.0, -o.1),
        RotationState::West => (-o.1, o.0),
    }
}

/// The spin of a turn that landed with kick `i`, as `spin_status` says.
fn spin_exec<R: Row>(board: &Board<R>, c: &FallingPiece, i: usize) -> (s: TspinStatus)
    requires
        board.inv(),
        -1010 <= c.x <= 1010,
        -1010 <= c.y <= 1010,
    ensures
        s == spin_status(board.grid(), *c, i as int),
{
    if c.kind.0 != Piece::T {
        return TspinStatus::NoSpin;
    }
    let r = c.kind.1;
    let front = corner_exec(board, c, turned_offset((-1, 1), r)) + corner_exec(board, c, turned_offset((1, 1), r));
    let back = corner_exec(board, c, turned_offset((-1, -1), r)) + corner_exec(board, c, turned_offset((1, -1), r));
    if front + back >= 3 {
        if front == 2 || i == 4 {
            TspinStatus::Full
        } else {
            TspinStatus::Mini
        }
    } else {
        TspinStatus::NoSpin
    }
}

/// The piece turned to orientation `to` and moved by the `i`-th kick.
fn kick_exec(p: &FallingPiece, to: RotationState, i: usize) -> (c: FallingPiece)
    requires
        near_field(*p),
        i < 5,
    ensures
        c == kicked(*p, to, i as int),
        c.in_range(),
        -1010 <= c.x <= 1010,
        -1010 <= c.y <= 1010,
{
    let a = srs_offset_exec(p.kind.0, p.kind.1, i);
    let b = srs_offset_exec(p.kind.0, to, i);
    FallingPiece { kind: PieceState(p.kind.0, to), x: p.x + a.0 - b.0, y: p.y + a.1 - b.1, tspin: p.tspin }
}

impl FallingPiece {
    /// Turns the piece to orientation `to` with the first kick that fits, as `turned` says;
    /// returns whether it turned.
    pub fn turn<R: Row>(&mut self, board: &Board<R>, to: RotationState) -> (moved: bool)
        requires
            board.inv(),
            near_field(*old(self)),
        ensures
            match turned(board.grid(), *old(self), to) {
                Some(q) => moved && *final(self) == q,
                None => !moved && *final(self) == *old(self),
            },
    {
        let start = *self;
        let mut i: usize = 0;
        while i < 5
            invariant
                i <= 5,
                board.inv(),
                near_field(start),
                start == *old(self),
                *self == start,
                turned(board.grid(), start, to) == turn_from(board.grid(), start, to, i as int),
            decreases 5 - i,
        {
            let c = kick_exec(&start, to, i);
            proof {
                crate::moves::lemma_blocked(*board, c);
            }
            if !board.obstructed(&c) {
                let spin = spin_exec(board, &c, i);
                *self = FallingPiece { tspin: spin, ..c };
                return true;
            }
            i = i + 1;
        }
        false
    }

    /// Turns the piece clockwise; returns whether it turned.
    pub fn cw<R: Row>(&mut self, board: &Board<R>) -> (moved: bool)
        requires
            board.inv(),
            near_field(*old(self)),
        ensures
            match apply_spec(board.grid(), PieceMovement::Cw, *old(self)) {
                Some(q) => moved && *final(self) == q,
                None => !moved && *final(self) == *old(self),
            },
    {
        let to = match self.kind.1 {
            RotationState::North => RotationState::East,
            RotationState::East => RotationState::South,
            RotationState::South => RotationState::West,
            RotationState::West => RotationState::North,
        };
        self.turn(board, to)
    }

    /// Turns the piece counterclockwise; returns whether it turned.
    pub fn ccw<R: Row>(&mut self, board: &Board<R>) -> (moved: bool)
        requires
            board.inv(),
            near_field(*old(self)),
        ensures
            match apply_spec(board.grid(), PieceMovement::Ccw, *old(self)) {
                Some(q) => moved && *final(self) == q,
                None => !moved && *final(self) == *old(self),
            },
    {
        let to = match self.kind.1 {
            RotationState::North => RotationState::West,
            RotationState::West => RotationState::South,
            RotationState::South => RotationState::East,
            RotationState::East => RotationState::North,
        };
        self.turn(board, to)
    }
}

impl PieceMovement {
    /// Carries out this input on `piece`, as `apply_spec` says; returns whether the piece moved.
    pub fn apply<R: Row>(self, piece: &mut FallingPiece, board: &Board<R>) -> (moved: bool)
        requires
            board.inv(),
            near_field(*old(piece)),
        ensures
            match apply_spec(board.grid(), self, *old(piece)) {
                Some(q) => moved && *final(piece) == q,
                None => !moved && *final(piece) == *old(piece),
            },
    {
        match self {
            PieceMovement::Left => piece.shift(board, -1, 0),
            PieceMovement::Right => piece.shift(board, 1, 0),
            PieceMovement::Cw => piece.cw(board),
            PieceMovement::Ccw => piece.ccw(board),
            PieceMovement::SonicDrop => {
                proof {
                    crate::piece::lemma_offset_small(piece.kind, 0);
                }
                piece.sonic_drop(board)
            },
        }
    }
}

} // verus!
