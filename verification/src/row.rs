use vstd::prelude::*;
use crate::piece::CellColor;

verus! {

/// One row of a ten-column playfield.
pub trait Row: Sized + Copy {
    /// The row satisfies its representation invariant.
    spec fn wf(&self) -> bool;

    /// Cell `x` of the row is filled (always false outside `0..10`).
    spec fn filled(&self, x: int) -> bool;

    /// The color of cell `x`.
    spec fn color_at(&self, x: int) -> CellColor;

    /// A cell is filled exactly when its color is not `Empty`.
    proof fn lemma_color(r: Self, x: int)
        requires
            r.wf(),
            0 <= x < 10,
        ensures
            r.filled(x) == (r.color_at(x) != CellColor::Empty),
    ;

    /// Sets cell `x` to `color`.
    fn set(&mut self, x: usize, color: CellColor)
        requires
            old(self).wf(),
            x < 10,
        ensures
            final(self).wf(),
            final(self).filled(x as int) == (color != CellColor::Empty),
            forall|y: int| y != x ==> #[trigger] final(self).filled(y) == old(self).filled(y),
            forall|y: int| y != x ==> #[trigger] final(self).color_at(y) == old(self).color_at(y),
    ;

    /// Whether cell `x` is filled.
    fn get(&self, x: usize) -> (b: bool)
        requires
            self.wf(),
            x < 10,
        ensures
            b == self.filled(x as int),
    ;

    /// Whether all ten cells are filled.
    fn is_full(&self) -> (b: bool)
        requires
            self.wf(),
        ensures
            b == (forall|x: int| 0 <= x < 10 ==> #[trigger] self.filled(x)),
    ;

    /// Whether all ten cells are empty.
    fn is_empty(&self) -> (b: bool)
        requires
            self.wf(),
        ensures
            b == (forall|x: int| 0 <= x < 10 ==> !#[trigger] self.filled(x)),
    ;

    /// The color of cell `x`.
    fn cell_color(&self, x: usize) -> (c: CellColor)
        requires
            self.wf(),
            x < 10,
        ensures
            c == self.color_at(x as int),
    ;

    /// A row with every cell empty.
    fn empty() -> (r: Self)
        ensures
            r.wf(),
            forall|x: int| !#[trigger] r.filled(x),
            forall|x: int| 0 <= x < 10 ==> #[trigger] r.color_at(x) == CellColor::Empty,
    ;

    /// A row with every cell filled.
    fn solid() -> (r: Self)
        ensures
            r.wf(),
            forall|x: int| 0 <= x < 10 ==> #[trigger] r.filled(x),
    ;
}

/// Bit `x` of a row packed into the low ten bits of a `u16`.
pub open spec fn bit(r: u16, x: u16) -> bool {
    (r >> x) & 1u16 == 1u16
}

proof fn lemma_bit_or(r: u16, b: u16, y: u16)
    by (bit_vector)
    requires
        b < 10,
        y < 16,
    ensures
        ((r | (1u16 << b)) >> y) & 1u16 == (if y == b { 1u16 } else { (r >> y) & 1u16 }),
{
}

proof fn lemma_bit_clear(r: u16, b: u16, y: u16)
    by (bit_vector)
    requires
        b < 10,
        y < 16,
    ensures
        ((r & !(1u16 << b)) >> y) & 1u16 == (if y == b { 0u16 } else { (r >> y) & 1u16 }),
{
}

proof fn lemma_bits_bounded(r: u16, b: u16)
    by (bit_vector)
    requires
        r < 1024,
        b < 10,
    ensures
        (r | (1u16 << b)) < 1024,
        (r & !(1u16 << b)) < 1024,
        (r & (1u16 << b) != 0) == ((r >> b) & 1u16 == 1u16),
{
}

proof fn lemma_full_bits(r: u16)
    by (bit_vector)
    requires
        r < 1024,
    ensures
        (r == 1023u16) == (((r >> 0u16) & 1u16 == 1u16) && ((r >> 1u16) & 1u16 == 1u16) && ((r
            >> 2u16) & 1u16 == 1u16) && ((r >> 3u16) & 1u16 == 1u16) && ((r >> 4u16) & 1u16
            == 1u16) && ((r >> 5u16) & 1u16 == 1u16) && ((r >> 6u16) & 1u16 == 1u16) && ((r
            >> 7u16) & 1u16 == 1u16) && ((r >> 8u16) & 1u16 == 1u16) && ((r >> 9u16) & 1u16
            == 1u16)),
        (r == 0u16) == (((r >> 0u16) & 1u16 != 1u16) && ((r >> 1u16) & 1u16 != 1u16) && ((r
            >> 2u16) & 1u16 != 1u16) && ((r >> 3u16) & 1u16 != 1u16) && ((r >> 4u16) & 1u16
            != 1u16) && ((r >> 5u16) & 1u16 != 1u16) && ((r >> 6u16) & 1u16 != 1u16) && ((r
            >> 7u16) & 1u16 != 1u16) && ((r >> 8u16) & 1u16 != 1u16) && ((r >> 9u16) & 1u16
            != 1u16)),
{
}

proof fn lemma_row_cases(r: u16)
    ensures
        (forall|x: int| 0 <= x < 10 ==> #[trigger] r.filled(x)) == (r.filled(0) && r.filled(1)
            && r.filled(2) && r.filled(3) && r.filled(4) && r.filled(5) && r.filled(6) && r.filled(
            7) && r.filled(8) && r.filled(9)),
        (forall|x: int| 0 <= x < 10 ==> !#[trigger] r.filled(x)) == (!r.filled(0) && !r.filled(1)
            && !r.filled(2) && !r.filled(3) && !r.filled(4) && !r.filled(5) && !r.filled(6)
            && !r.filled(7) && !r.filled(8) && !r.filled(9)),
{
    if r.filled(0) && r.filled(1) && r.filled(2) && r.filled(3) && r.filled(4) && r.filled(5)
        && r.filled(6) && r.filled(7) && r.filled(8) && r.filled(9) {
        assert forall|x: int| 0 <= x < 10 implies #[trigger] r.filled(x) by {
            if x == 0 {} else if x == 1 {} else if x == 2 {} else if x == 3 {} else if x == 4 {} else if x == 5 {} else if x == 6 {} else if x == 7 {} else if x == 8 {} else {}
        }
    }
    if !r.filled(0) && !r.filled(1) && !r.filled(2) && !r.filled(3) && !r.filled(4) && !r.filled(5)
        && !r.filled(6) && !r.filled(7) && !r.filled(8) && !r.filled(9) {
        assert forall|x: int| 0 <= x < 10 implies !#[trigger] r.filled(x) by {
            if x == 0 {} else if x == 1 {} else if x == 2 {} else if x == 3 {} else if x == 4 {} else if x == 5 {} else if x == 6 {} else if x == 7 {} else if x == 8 {} else {}
        }
    }
}

proof fn lemma_set_bits(r: u16, b: u16)
    requires
        r < 1024,
        b < 10,
    ensures
        (r | (1u16 << b)) < 1024,
        (r & !(1u16 << b)) < 1024,
        forall|y: int| #[trigger] (r | (1u16 << b)).filled(y) == (y == b || r.filled(y)),
        forall|y: int| #[trigger] (r & !(1u16 << b)).filled(y) == (y != b && r.filled(y)),
{
    lemma_bits_bounded(r, b);
    assert forall|y: int| #[trigger] (r | (1u16 << b)).filled(y) == (y == b || r.filled(y)) by {
        if 0 <= y < 10 {
            lemma_bit_or(r, b, y as u16);
        }
    }
    assert forall|y: int| #[trigger] (r & !(1u16 << b)).filled(y) == (y != b && r.filled(y)) by {
        if 0 <= y < 10 {
            lemma_bit_clear(r, b, y as u16);
        }
    }
}

pub proof fn lemma_zero_bits(y: u16)
    by (bit_vector)
    ensures
        (0u16 >> y) & 1u16 != 1u16,
{
}

impl Row for u16 {
    open spec fn wf(&self) -> bool {
        *self < 1024
    }

    open spec fn filled(&self, x: int) -> bool {
        0 <= x < 10 && bit(*self, x as u16)
    }

    open spec fn color_at(&self, x: int) -> CellColor {
        if self.filled(x) {
            CellColor::Garbage
        } else {
            CellColor::Empty
        }
    }

    proof fn lemma_color(r: u16, x: int) {
    }

    fn set(&mut self, x: usize, color: CellColor) {
        let r = *self;
        let b: u16 = x as u16;
        let m: u16 = 1u16 << b;
        proof {
            lemma_set_bits(r, b);
        }
        if color == CellColor::Empty {
            *self = r & !m;
        } else {
            *self = r | m;
        }
    }

    fn get(&self, x: usize) -> (b: bool) {
        proof {
            lemma_bits_bounded(*self, x as u16);
        }
        *self & (1u16 << (x as u16)) != 0
    }

    fn is_full(&self) -> (b: bool) {
        proof {
            lemma_full_bits(*self);
            lemma_row_cases(*self);
        }
        *self == 1023u16
    }

    fn is_empty(&self) -> (b: bool) {
        proof {
            lemma_full_bits(*self);
            lemma_row_cases(*self);
        }
        *self == 0u16
    }

    fn cell_color(&self, x: usize) -> (c: CellColor) {
        if self.get(x) {
            CellColor::Garbage
        } else {
            CellColor::Empty
        }
    }

    fn empty() -> (r: u16) {
        proof {
            assert forall|x: int| !#[trigger] 0u16.filled(x) by {
                lemma_zero_bits(x as u16);
            }
        }
        0
    }

    fn solid() -> (r: u16) {
        proof {
            lemma_full_bits(1023u16);
        }
        1023
    }
}

/// A row that remembers the color of each cell.
#[derive(Copy, Clone, Debug)]
pub struct ColoredRow(pub [CellColor; 10]);

impl Row for ColoredRow {
    open spec fn wf(&self) -> bool {
        true
    }

    open spec fn filled(&self, x: int) -> bool {
        0 <= x < 10 && self.0@[x] != CellColor::Empty
    }

    open spec fn color_at(&self, x: int) -> CellColor {
        if 0 <= x < 10 {
            self.0@[x]
        } else {
            CellColor::Empty
        }
    }

    proof fn lemma_color(r: ColoredRow, x: int) {
    }

    fn set(&mut self, x: usize, color: CellColor) {
        self.0[x] = color;
    }

    fn get(&self, x: usize) -> (b: bool) {
        self.0[x] != CellColor::Empty
    }

    fn is_full(&self) -> (b: bool) {
        let mut x: usize = 0;
        while x < 10
            invariant
                x <= 10,
                forall|i: int| 0 <= i < x ==> #[trigger] self.filled(i),
            decreases 10 - x,
        {
            if self.0[x] == CellColor::Empty {
                assert(!self.filled(x as int));
                return false;
            }
            x = x + 1;
        }
        true
    }

    fn is_empty(&self) -> (b: bool) {
        let mut x: usize = 0;
        while x < 10
            invariant
                x <= 10,
                forall|i: int| 0 <= i < x ==> !#[trigger] self.filled(i),
            decreases 10 - x,
        {
            if self.0[x] != CellColor::Empty {
                assert(self.filled(x as int));
                return false;
            }
            x = x + 1;
        }
        true
    }

    fn cell_color(&self, x: usize) -> (c: CellColor) {
        self.0[x]
    }

    fn empty() -> (r: ColoredRow) {
        ColoredRow([CellColor::Empty; 10])
    }

    fn solid() -> (r: ColoredRow) {
        ColoredRow([CellColor::Unclearable; 10])
    }
}

impl ColoredRow {
    /// A row with every cell empty.
    pub fn default() -> (r: ColoredRow)
        ensures
            forall|x: int| 0 <= x < 10 ==> #[trigger] r.color_at(x) == CellColor::Empty,
    {
        ColoredRow([CellColor::Empty; 10])
    }
}

} // verus!
