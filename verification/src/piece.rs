use vstd::prelude::*;

verus! {

/// The seven tetrominoes.
#[derive(Copy, Clone, Debug, PartialEq, Eq, Hash, Structural)]
pub enum Piece {
    I,
    O,
    T,
    L,
    J,
    S,
    Z,
}

/// Orientation of a piece; `North` is the spawn orientation.
#[derive(Copy, Clone, Debug, PartialEq, Eq, Hash, Structural)]
pub enum RotationState {
    North,
    South,
    East,
    West,
}

/// The contents of one cell of a colored playfield.
#[derive(Copy, Clone, Debug, PartialEq, Eq, Hash, Structural)]
pub enum CellColor {
    I,
    O,
    T,
    L,
    J,
    S,
    Z,
    Garbage,
    Unclearable,
    Empty,
}

/// How a placed piece got into its final position.
#[derive(Copy, Clone, Debug, PartialEq, Eq, Hash, Structural)]
pub enum TspinStatus {
    NoSpin,
    Mini,
    Full,
}

/// A single input of a movement plan.
#[derive(Copy, Clone, Debug, PartialEq, Eq, Hash, Structural)]
pub enum PieceMovement {
    Left,
    Right,
    Cw,
    Ccw,
    SonicDrop,
}

/// A piece together with its orientation.
#[derive(Copy, Clone, Debug, PartialEq, Eq, Hash, Structural)]
pub struct PieceState(pub Piece, pub RotationState);

/// A piece at a position of the playfield. `(x, y)` is the rotation center; `y` grows upwards.
#[derive(Copy, Clone, Debug, PartialEq, Eq, Hash, Structural)]
pub struct FallingPiece {
    pub kind: PieceState,
    pub x: i32,
    pub y: i32,
    pub tspin: TspinStatus,
}

/// The color that a piece leaves on a colored playfield.
pub open spec fn piece_color(p: Piece) -> CellColor {
    match p {
        Piece::I => CellColor::I,
        Piece::O => CellColor::O,
        Piece::T => CellColor::T,
        Piece::L => CellColor::L,
        Piece::J => CellColor::J,
        Piece::S => CellColor::S,
        Piece::Z => CellColor::Z,
    }
}

/// Offset of the `i`-th mino of a piece in the spawn orientation.
pub open spec fn north_offset(p: Piece, i: int) -> (int, int) {
    match p {
        Piece::I => if i == 0 { (-1, 0) } else if i == 1 { (0, 0) } else if i == 2 { (1, 0) } else { (2, 0) },
        Piece::O => if i == 0 { (0, 0) } else if i == 1 { (1, 0) } else if i == 2 { (0, 1) } else { (1, 1) },
        Piece::T => if i == 0 { (-1, 0) } else if i == 1 { (0, 0) } else if i == 2 { (1, 0) } else { (0, 1) },
        Piece::L => if i == 0 { (-1, 0) } else if i == 1 { (0, 0) } else if i == 2 { (1, 0) } else { (1, 1) },
        Piece::J => if i == 0 { (-1, 0) } else if i == 1 { (0, 0) } else if i == 2 { (1, 0) } else { (-1, 1) },
        Piece::S => if i == 0 { (-1, 0) } else if i == 1 { (0, 0) } else if i == 2 { (0, 1) } else { (1, 1) },
        Piece::Z => if i == 0 { (-1, 1) } else if i == 1 { (0, 1) } else if i == 2 { (0, 0) } else { (1, 0) },
    }
}

/// An offset turned from the spawn orientation into `r` (clockwise for `East`).
pub open spec fn rotate_offset(o: (int, int), r: RotationState) -> (int, int) {
    match r {
        RotationState::North => o,
        RotationState::East => (o.1, -o.0),
        RotationState::South => (-o.0, -o.1),
        RotationState::West => (-o.1, o.0),
    }
}

/// Offset of the `i`-th mino of a piece state.
pub open spec fn state_offset(s: PieceState, i: int) -> (int, int) {
    rotate_offset(north_offset(s.0, i), s.1)
}

impl Piece {
    /// The color that the piece leaves on a colored playfield.
    pub fn color(&self) -> (c: CellColor)
        ensures
            c == piece_color(*self),
    {
        match self {
            Piece::I => CellColor::I,
            Piece::O => CellColor::O,
            Piece::T => CellColor::T,
            Piece::L => CellColor::L,
            Piece::J => CellColor::J,
            Piece::S => CellColor::S,
            Piece::Z => CellColor::Z,
        }
    }

    /// The letter that names the piece.
    pub fn to_char(&self) -> (c: char)
        ensures
            c == (match *self {
                Piece::I => 'I',
                Piece::O => 'O',
                Piece::T => 'T',
                Piece::L => 'L',
                Piece::J => 'J',
                Piece::S => 'S',
                Piece::Z => 'Z',
            }),
    {
        match self {
            Piece::I => 'I',
            Piece::O => 'O',
            Piece::T => 'T',
            Piece::L => 'L',
            Piece::J => 'J',
            Piece::S => 'S',
            Piece::Z => 'Z',
        }
    }
}

fn north_offset_exec(p: Piece, i: usize) -> (o: (i32, i32))
    requires
        i < 4,
    ensures
        o.0 as int == north_offset(p, i as int).0,
        o.1 as int == north_offset(p, i as int).1,
{
    match p {
        Piece::I => if i == 0 { (-1, 0) } else if i == 1 { (0, 0) } else if i == 2 { (1, 0) } else { (2, 0) },
        Piece::O => if i == 0 { (0, 0) } else if i == 1 { (1, 0) } else if i == 2 { (0, 1) } else { (1, 1) },
        Piece::T => if i == 0 { (-1, 0) } else if i == 1 { (0, 0) } else if i == 2 { (1, 0) } else { (0, 1) },
        Piece::L => if i == 0 { (-1, 0) } else if i == 1 { (0, 0) } else if i == 2 { (1, 0) } else { (1, 1) },
        Piece::J => if i == 0 { (-1, 0) } else if i == 1 { (0, 0) } else if i == 2 { (1, 0) } else { (-1, 1) },
        Piece::S => if i == 0 { (-1, 0) } else if i == 1 { (0, 0) } else if i == 2 { (0, 1) } else { (1, 1) },
        Piece::Z => if i == 0 { (-1, 1) } else if i == 1 { (0, 1) } else if i == 2 { (0, 0) } else { (1, 0) },
    }
}

impl PieceState {
    /// Offset of the `i`-th mino relative to the rotation center.
    pub fn offset(&self, i: usize) -> (o: (i32, i32))
        requires
            i < 4,
        ensures
            o.0 as int == state_offset(*self, i as int).0,
            o.1 as int == state_offset(*self, i as int).1,
    {
        let (dx, dy) = north_offset_exec(self.0, i);
        match self.1 {
            RotationState::North => (dx, dy),
            RotationState::East => (dy, -dx),
            RotationState::South => (-dx, -dy),
            RotationState::West => (-dy, dx),
        }
    }
}

/// Every mino offset lies within two cells of the rotation center.
pub proof fn lemma_offset_small(s: PieceState, i: int)
    requires
        0 <= i < 4,
    ensures
        -2 <= state_offset(s, i).0 <= 2,
        -2 <= state_offset(s, i).1 <= 2,
{
}

/// The index of the mino that sits on the rotation center.
pub open spec fn center_index(p: Piece) -> int {
    if p == Piece::Z {
        2
    } else if p == Piece::O {
        0
    } else {
        1
    }
}

/// Every piece has a mino on its rotation center.
pub proof fn lemma_center(s: PieceState)
    ensures
        state_offset(s, center_index(s.0)) == (0int, 0int),
{
    let o = north_offset(s.0, center_index(s.0));
    match s.0 {
        Piece::I => {},
        Piece::O => {},
        Piece::T => {},
        Piece::L => {},
        Piece::J => {},
        Piece::S => {},
        Piece::Z => {},
    }
    assert(o.0 == 0 && o.1 == 0);
    let r = rotate_offset(o, s.1);
    assert(r.0 == 0 && r.1 == 0);
}

impl FallingPiece {
    /// The piece's position is far enough from the limits of `i32` for its cells to be computed.
    pub open spec fn in_range(&self) -> bool {
        i32::MIN + 2 <= self.x <= i32::MAX - 2 && i32::MIN + 3 <= self.y <= i32::MAX - 3
    }

    /// The `i`-th cell the piece covers.
    pub open spec fn cell(&self, i: int) -> (int, int) {
        (self.x + state_offset(self.kind, i).0, self.y + state_offset(self.kind, i).1)
    }

    /// The piece covers cell `(x, y)`.
    pub open spec fn covers(&self, x: int, y: int) -> bool {
        exists|i: int| 0 <= i < 4 && #[trigger] self.cell(i) == (x, y)
    }

    /// The four cells the piece covers.
    pub fn cells(&self) -> (c: [(i32, i32); 4])
        requires
            self.in_range(),
        ensures
            forall|i: int|
                0 <= i < 4 ==> (c@[i].0 as int, c@[i].1 as int) == #[trigger] self.cell(i),
    {
        proof {
            lemma_offset_small(self.kind, 0);
            lemma_offset_small(self.kind, 1);
            lemma_offset_small(self.kind, 2);
            lemma_offset_small(self.kind, 3);
        }
        let o0 = self.kind.offset(0);
        let o1 = self.kind.offset(1);
        let o2 = self.kind.offset(2);
        let o3 = self.kind.offset(3);
        [
            (self.x + o0.0, self.y + o0.1),
            (self.x + o1.0, self.y + o1.1),
            (self.x + o2.0, self.y + o2.1),
            (self.x + o3.0, self.y + o3.1),
        ]
    }
}

/// The kind of a placement: how many lines it cleared and whether it was a T-spin.
#[derive(Copy, Clone, Debug, PartialEq, Eq, Hash, Structural)]
pub enum PlacementKind {
    NoClear,
    Clear1,
    Clear2,
    Clear3,
    Clear4,
    MiniTspin,
    MiniTspin1,
    MiniTspin2,
    Tspin,
    Tspin1,
    Tspin2,
    Tspin3,
}

/// The placement kind of a lock that cleared `cleared` lines.
pub open spec fn placement_kind_spec(cleared: int, tspin: TspinStatus) -> PlacementKind {
    if cleared == 0 {
        match tspin {
            TspinStatus::NoSpin => PlacementKind::NoClear,
            TspinStatus::Mini => PlacementKind::MiniTspin,
            TspinStatus::Full => PlacementKind::Tspin,
        }
    } else if cleared == 1 {
        match tspin {
            TspinStatus::NoSpin => PlacementKind::Clear1,
            TspinStatus::Mini => PlacementKind::MiniTspin1,
            TspinStatus::Full => PlacementKind::Tspin1,
        }
    } else if cleared == 2 {
        match tspin {
            TspinStatus::NoSpin => PlacementKind::Clear2,
            TspinStatus::Mini => PlacementKind::MiniTspin2,
            TspinStatus::Full => PlacementKind::Tspin2,
        }
    } else if cleared == 3 {
        match tspin {
            TspinStatus::NoSpin => PlacementKind::Clear3,
            _ => PlacementKind::Tspin3,
        }
    } else {
        PlacementKind::Clear4
    }
}

impl PlacementKind {
    /// Lines of garbage the placement sends by itself.
    pub open spec fn garbage_spec(self) -> u32 {
        match self {
            PlacementKind::Clear2 => 1,
            PlacementKind::Clear3 => 2,
            PlacementKind::Clear4 => 4,
            PlacementKind::MiniTspin2 => 1,
            PlacementKind::Tspin1 => 2,
            PlacementKind::Tspin2 => 4,
            PlacementKind::Tspin3 => 6,
            _ => 0,
        }
    }

    /// The placement cleared at least one line.
    pub open spec fn is_clear_spec(self) -> bool {
        !(self == PlacementKind::NoClear || self == PlacementKind::MiniTspin || self
            == PlacementKind::Tspin)
    }

    /// The placement is a line clear that keeps back-to-back.
    pub open spec fn is_hard_spec(self) -> bool {
        self == PlacementKind::Clear4 || self == PlacementKind::MiniTspin1 || self
            == PlacementKind::MiniTspin2 || self == PlacementKind::Tspin1 || self
            == PlacementKind::Tspin2 || self == PlacementKind::Tspin3
    }

    /// The placement kind of a lock that cleared `cleared` lines.
    pub fn get(cleared: usize, tspin: TspinStatus) -> (k: PlacementKind)
        requires
            cleared <= 4,
        ensures
            k == placement_kind_spec(cleared as int, tspin),
    {
        match (cleared, tspin) {
            (0, TspinStatus::NoSpin) => PlacementKind::NoClear,
            (0, TspinStatus::Mini) => PlacementKind::MiniTspin,
            (0, TspinStatus::Full) => PlacementKind::Tspin,
            (1, TspinStatus::NoSpin) => PlacementKind::Clear1,
            (1, TspinStatus::Mini) => PlacementKind::MiniTspin1,
            (1, TspinStatus::Full) => PlacementKind::Tspin1,
            (2, TspinStatus::NoSpin) => PlacementKind::Clear2,
            (2, TspinStatus::Mini) => PlacementKind::MiniTspin2,
            (2, TspinStatus::Full) => PlacementKind::Tspin2,
            (3, TspinStatus::NoSpin) => PlacementKind::Clear3,
            (3, _) => PlacementKind::Tspin3,
            _ => PlacementKind::Clear4,
        }
    }

    /// Lines of garbage the placement sends by itself.
    pub fn garbage(self) -> (g: u32)
        ensures
            g == self.garbage_spec(),
    {
        match self {
            PlacementKind::Clear2 => 1,
            PlacementKind::Clear3 => 2,
            PlacementKind::Clear4 => 4,
            PlacementKind::MiniTspin2 => 1,
            PlacementKind::Tspin1 => 2,
            PlacementKind::Tspin2 => 4,
            PlacementKind::Tspin3 => 6,
            _ => 0,
        }
    }

    /// The placement cleared at least one line.
    pub fn is_clear(self) -> (b: bool)
        ensures
            b == self.is_clear_spec(),
    {
        match self {
            PlacementKind::NoClear | PlacementKind::MiniTspin | PlacementKind::Tspin => false,
            _ => true,
        }
    }

    /// The placement is a line clear that keeps back-to-back.
    pub fn is_hard(self) -> (b: bool)
        ensures
            b == self.is_hard_spec(),
    {
        match self {
            PlacementKind::Clear4 | PlacementKind::MiniTspin1 | PlacementKind::MiniTspin2
            | PlacementKind::Tspin1 | PlacementKind::Tspin2 | PlacementKind::Tspin3 => true,
            _ => false,
        }
    }
}

/// Garbage sent for the `combo`-th consecutive line clear (clamped to the last entry).
pub open spec fn combo_garbage_spec(combo: int) -> u32 {
    if combo <= 1 {
        0
    } else if combo <= 4 {
        1
    } else if combo <= 6 {
        2
    } else if combo <= 8 {
        3
    } else {
        4
    }
}

/// Garbage sent for the `combo`-th consecutive line clear (clamped to the last entry).
pub fn combo_garbage(combo: usize) -> (g: u32)
    ensures
        g == combo_garbage_spec(combo as int),
{
    if combo <= 1 {
        0
    } else if combo <= 4 {
        1
    } else if combo <= 6 {
        2
    } else if combo <= 8 {
        3
    } else {
        4
    }
}

/// Everything that happened when a piece locked.
#[derive(Clone, Debug, PartialEq, Eq, Hash)]
pub struct LockResult {
    pub placement_kind: PlacementKind,
    pub locked_out: bool,
    pub garbage_sent: u32,
    pub combo: Option<u32>,
    pub b2b: bool,
    pub perfect_clear: bool,
    pub cleared_lines: Vec<i32>,
}

} // verus!
