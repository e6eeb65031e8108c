use vstd::prelude::*;

verus! {

/// The buttons held on one frame.
#[derive(Copy, Clone, Debug, Default, Hash, Eq, PartialEq, Structural)]
pub struct Controller {
    pub left: bool,
    pub right: bool,
    pub rotate_right: bool,
    pub rotate_left: bool,
    pub soft_drop: bool,
    pub hard_drop: bool,
    pub hold: bool,
}

/// `1` for a pressed button, `0` otherwise.
pub open spec fn b2n(b: bool) -> int {
    if b {
        1
    } else {
        0
    }
}

/// The byte a controller state is stored as: bit 1 left, bit 2 right, bit 3 rotate left,
/// bit 4 rotate right, bit 5 hold, bit 6 soft drop, bit 7 hard drop.
pub open spec fn controller_byte(c: Controller) -> int {
    2 * b2n(c.left) + 4 * b2n(c.right) + 8 * b2n(c.rotate_left) + 16 * b2n(c.rotate_right) + 32
        * b2n(c.hold) + 64 * b2n(c.soft_drop) + 128 * b2n(c.hard_drop)
}

/// Bit `k` of `v` is set.
pub open spec fn bit_of(v: u64, k: u64) -> bool {
    (v >> k) & 1u64 != 0u64
}

/// The controller state read back from the bits of a stored value.
pub open spec fn controller_from_bits(v: u64) -> Controller {
    Controller {
        left: bit_of(v, 1),
        right: bit_of(v, 2),
        rotate_left: bit_of(v, 3),
        rotate_right: bit_of(v, 4),
        hold: bit_of(v, 5),
        soft_drop: bit_of(v, 6),
        hard_drop: bit_of(v, 7),
    }
}

proof fn lemma_pack(a: u8, b: u8, c: u8, d: u8, e: u8, f: u8, g: u8)
    by (bit_vector)
    requires
        a <= 1,
        b <= 1,
        c <= 1,
        d <= 1,
        e <= 1,
        f <= 1,
        g <= 1,
    ensures
        (a << 1u8 | b << 2u8 | c << 3u8 | d << 4u8 | e << 5u8 | f << 6u8 | g << 7u8) == (2 * a + 4
            * b + 8 * c + 16 * d + 32 * e + 64 * f + 128 * g),
{
}

proof fn lemma_unpack(a: u64, b: u64, c: u64, d: u64, e: u64, f: u64, g: u64)
    by (bit_vector)
    requires
        a <= 1,
        b <= 1,
        c <= 1,
        d <= 1,
        e <= 1,
        f <= 1,
        g <= 1,
    ensures
        (((2 * a + 4 * b + 8 * c + 16 * d + 32 * e + 64 * f + 128 * g) as u64) >> 1u64) & 1u64 == a,
        (((2 * a + 4 * b + 8 * c + 16 * d + 32 * e + 64 * f + 128 * g) as u64) >> 2u64) & 1u64 == b,
        (((2 * a + 4 * b + 8 * c + 16 * d + 32 * e + 64 * f + 128 * g) as u64) >> 3u64) & 1u64 == c,
        (((2 * a + 4 * b + 8 * c + 16 * d + 32 * e + 64 * f + 128 * g) as u64) >> 4u64) & 1u64 == d,
        (((2 * a + 4 * b + 8 * c + 16 * d + 32 * e + 64 * f + 128 * g) as u64) >> 5u64) & 1u64 == e,
        (((2 * a + 4 * b + 8 * c + 16 * d + 32 * e + 64 * f + 128 * g) as u64) >> 6u64) & 1u64 == f,
        (((2 * a + 4 * b + 8 * c + 16 * d + 32 * e + 64 * f + 128 * g) as u64) >> 7u64) & 1u64 == g,
{
}

fn bool_byte(b: bool) -> (v: u8)
    ensures
        v as int == b2n(b),
{
    if b {
        1
    } else {
        0
    }
}

impl Controller {
    /// The controller with no button held.
    pub fn default() -> (c: Controller)
        ensures
            c == (Controller {
                left: false,
                right: false,
                rotate_right: false,
                rotate_left: false,
                soft_drop: false,
                hard_drop: false,
                hold: false,
            }),
    {
        Controller {
            left: false,
            right: false,
            rotate_right: false,
            rotate_left: false,
            soft_drop: false,
            hard_drop: false,
            hold: false,
        }
    }

    /// Packs the buttons into the byte the state is stored as.
    pub fn to_byte(&self) -> (v: u8)
        ensures
            v as int == controller_byte(*self),
    {
        let a = bool_byte(self.left);
        let b = bool_byte(self.right);
        let c = bool_byte(self.rotate_left);
        let d = bool_byte(self.rotate_right);
        let e = bool_byte(self.hold);
        let f = bool_byte(self.soft_drop);
        let g = bool_byte(self.hard_drop);
        proof {
            lemma_pack(a, b, c, d, e, f, g);
        }
        a << 1u8 | b << 2u8 | c << 3u8 | d << 4u8 | e << 5u8 | f << 6u8 | g << 7u8
    }

    /// Reads the buttons back from the bits of a stored value; bit 0 and bits above 7 are
    /// ignored.
    pub fn from_bits(v: u64) -> (c: Controller)
        ensures
            c == controller_from_bits(v),
    {
        Controller {
            left: (v >> 1u64) & 1 != 0,
            right: (v >> 2u64) & 1 != 0,
            rotate_left: (v >> 3u64) & 1 != 0,
            rotate_right: (v >> 4u64) & 1 != 0,
            hold: (v >> 5u64) & 1 != 0,
            soft_drop: (v >> 6u64) & 1 != 0,
            hard_drop: (v >> 7u64) & 1 != 0,
        }
    }
}

/// Reading back the stored byte of a controller state gives the same state.
pub proof fn lemma_controller_roundtrip(c: Controller)
    ensures
        controller_from_bits(controller_byte(c) as u64) == c,
{
    let a = b2n(c.left) as u64;
    let b = b2n(c.right) as u64;
    let cc = b2n(c.rotate_left) as u64;
    let d = b2n(c.rotate_right) as u64;
    let e = b2n(c.hold) as u64;
    let f = b2n(c.soft_drop) as u64;
    let g = b2n(c.hard_drop) as u64;
    lemma_unpack(a, b, cc, d, e, f, g);
    assert(controller_byte(c) as u64 == 2 * a + 4 * b + 8 * cc + 16 * d + 32 * e + 64 * f + 128
        * g);
}

/// A button counts as newly used when it goes down, and stops counting when it is released.
pub fn update_input(used: &mut bool, prev: bool, current: bool)
    ensures
        *final(used) == if !current {
            false
        } else if !prev {
            true
        } else {
            *old(used)
        },
{
    if !current {
        *used = false
    } else if !prev {
        *used = true;
    }
}

} // verus!
