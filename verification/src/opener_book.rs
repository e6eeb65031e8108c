use vstd::prelude::*;

pub mod viper;
pub mod pco;

use std::collections::HashMap;
use crate::board::{Board, bag_back, clear_lines, full_rows, placed_grid};
use crate::dag::has_full_row;
use crate::evaluation::shapes::{lemma_piece_clears_at_most_four, no_full_rows, on_field};
use crate::piece::{FallingPiece, Piece, PieceState, RotationState, TspinStatus};
use crate::piece_set::PieceSet;
use crate::misa::{mirror, mirror_spec};
use crate::row::{bit, Row};

verus! {

/// The openers the book knows.
#[derive(Copy, Clone, Debug, PartialEq, Eq, Hash, Structural)]
pub enum Opener {
    Viper,
    Pco,
}

/// `m` is the row `r` read from right to left.
pub open spec fn is_mirror_row(r: u16, m: u16) -> bool {
    &&& m < 1024
    &&& forall|k: u16| k < 10 ==> #[trigger] bit(m, (9 - k) as u16) == bit(r, k)
}

proof fn lemma_shift_in(v: u16, b: u16, x: u16)
    by (bit_vector)
    requires
        x < 10,
        v < (1u16 << x),
        b <= 1,
    ensures
        ((v << 1u16) | b) < (1u16 << ((x + 1) as u16)),
        ((((v << 1u16) | b) >> 0u16) & 1u16 == 1u16) == (b == 1),
{
}

proof fn lemma_shift_keeps(v: u16, b: u16, j: u16)
    by (bit_vector)
    requires
        v < 1024,
        b <= 1,
        j < 10,
    ensures
        ((((v << 1u16) | b) >> ((j + 1) as u16)) & 1u16 == 1u16) == ((v >> j) & 1u16 == 1u16),
{
}

proof fn lemma_one_shift_zero()
    by (bit_vector)
    ensures
        (1u16 << 0u16) == 1u16,
{
}

proof fn lemma_below_1024(v: u16, x: u16)
    by (bit_vector)
    requires
        x <= 10,
        v < (1u16 << x),
    ensures
        v < 1024,
{
}

proof fn lemma_bit_test(r: u16, x: u16)
    by (bit_vector)
    requires
        x < 10,
    ensures
        ((r & (1u16 << x)) != 0) == ((r >> x) & 1u16 == 1u16),
{
}

proof fn lemma_low_bits_bound(x: u16)
    by (bit_vector)
    requires
        x == 10,
    ensures
        (1u16 << x) == 1024,
{
}

/// Two rows of ten cells with the same cells are the same row.
pub(crate) proof fn lemma_row_bits_eq(a: u16, b: u16)
    by (bit_vector)
    requires
        a < 1024,
        b < 1024,
        ((a >> 0u16) & 1u16 == 1u16) == ((b >> 0u16) & 1u16 == 1u16),
        ((a >> 1u16) & 1u16 == 1u16) == ((b >> 1u16) & 1u16 == 1u16),
        ((a >> 2u16) & 1u16 == 1u16) == ((b >> 2u16) & 1u16 == 1u16),
        ((a >> 3u16) & 1u16 == 1u16) == ((b >> 3u16) & 1u16 == 1u16),
        ((a >> 4u16) & 1u16 == 1u16) == ((b >> 4u16) & 1u16 == 1u16),
        ((a >> 5u16) & 1u16 == 1u16) == ((b >> 5u16) & 1u16 == 1u16),
        ((a >> 6u16) & 1u16 == 1u16) == ((b >> 6u16) & 1u16 == 1u16),
        ((a >> 7u16) & 1u16 == 1u16) == ((b >> 7u16) & 1u16 == 1u16),
        ((a >> 8u16) & 1u16 == 1u16) == ((b >> 8u16) & 1u16 == 1u16),
        ((a >> 9u16) & 1u16 == 1u16) == ((b >> 9u16) & 1u16 == 1u16),
    ensures
        a == b,
{
}

/// The row read from right to left.
fn mirror_row(r: u16) -> (m: u16)
    ensures
        is_mirror_row(r, m),
{
    let mut v: u16 = 0;
    let mut x: u16 = 0;
    proof {
        lemma_one_shift_zero();
    }
    while x < 10
        invariant
            x <= 10,
            v < (1u16 << x),
            forall|k: u16| k < x ==> #[trigger] bit(v, (x - 1 - k) as u16) == bit(r, k),
        decreases 10 - x,
    {
        let b: u16 = if r & (1u16 << x) != 0 {
            1
        } else {
            0
        };
        proof {
            lemma_bit_test(r, x);
            lemma_shift_in(v, b, x);
            lemma_below_1024(v, x);
            assert forall|k: u16| k < x + 1 implies #[trigger] bit(
                (v << 1u16) | b,
                (x + 1 - 1 - k) as u16,
            ) == bit(r, k) by {
                if k < x {
                    lemma_shift_keeps(v, b, (x - 1 - k) as u16);
                    assert(bit(v, (x - 1 - k) as u16) == bit(r, k));
                    assert(((x - 1 - k) as u16 + 1) as u16 == (x + 1 - 1 - k) as u16);
                }
            }
        }
        v = (v << 1u16) | b;
        x = x + 1;
    }
    proof {
        lemma_low_bits_bound(x);
        assert forall|k: u16| k < 10 implies #[trigger] bit(v, (9 - k) as u16) == bit(r, k) by {
            assert(bit(v, (x - 1 - k) as u16) == bit(r, k));
        }
    }
    v
}

/// Mirroring a row of ten cells twice gives it back.
pub proof fn lemma_mirror_row_involution(r: u16, m: u16, mm: u16)
    requires
        r < 1024,
        is_mirror_row(r, m),
        is_mirror_row(m, mm),
    ensures
        mm == r,
{
    assert forall|k: u16| k < 10 implies #[trigger] bit(mm, k) == bit(r, k) by {
        assert(bit(mm, (9 - (9 - k) as u16) as u16) == bit(m, (9 - k) as u16));
        assert((9 - (9 - k) as u16) as u16 == k);
    }
    assert(bit(mm, 0) == bit(r, 0) && bit(mm, 1) == bit(r, 1) && bit(mm, 2) == bit(r, 2) && bit(
        mm,
        3,
    ) == bit(r, 3) && bit(mm, 4) == bit(r, 4) && bit(mm, 5) == bit(r, 5) && bit(mm, 6) == bit(r, 6)
        && bit(mm, 7) == bit(r, 7) && bit(mm, 8) == bit(r, 8) && bit(mm, 9) == bit(r, 9));
    lemma_row_bits_eq(mm, r);
}

/// The low ten rows of a field, each read from right to left.
pub fn mirror_field(field: [u16; 10]) -> (m: [u16; 10])
    ensures
        forall|y: int| 0 <= y < 10 ==> is_mirror_row(#[trigger] field@[y], m@[y]),
{
    let mut m: [u16; 10] = [0; 10];
    let mut y: usize = 0;
    while y < 10
        invariant
            y <= 10,
            forall|k: int| 0 <= k < y ==> is_mirror_row(#[trigger] field@[k], m@[k]),
        decreases 10 - y,
    {
        m[y] = mirror_row(field[y]);
        y = y + 1;
    }
    m
}

/// The pieces of the set, each mirrored.
pub fn mirror_bag(bag: PieceSet) -> (b: PieceSet)
    ensures
        forall|p: Piece| #[trigger] b.has(p) == bag.has(mirror_spec(p)),
{
    let mut b = PieceSet::empty();
    let all = bag.to_vec();
    let mut i: usize = 0;
    proof {
        bag.lemma_members();
    }
    while i < all.len()
        invariant
            i <= all@.len(),
            all@ == bag.members(),
            forall|p: Piece| bag.has(p) == all@.contains(p),
            forall|p: Piece| #[trigger] b.has(p) == all@.take(i as int).contains(mirror_spec(p)),
        decreases all@.len() - i,
    {
        let p = all[i];
        b.insert(mirror(p));
        proof {
            assert(all@.take(i + 1) =~= all@.take(i as int).push(p));
            assert forall|q: Piece| #[trigger] b.has(q) == all@.take(i + 1).contains(
                mirror_spec(q),
            ) by {
                crate::misa::lemma_mirror_involution(q);
                crate::misa::lemma_mirror_involution(p);
                let s0 = all@.take(i as int);
                if s0.contains(mirror_spec(q)) {
                    let j = choose|j: int| 0 <= j < s0.len() && s0[j] == mirror_spec(q);
                    assert(s0.push(p)[j] == mirror_spec(q));
                }
                if mirror_spec(q) == p {
                    assert(s0.push(p)[s0.len() as int] == p);
                }
                if s0.push(p).contains(mirror_spec(q)) {
                    let j = choose|j: int| 0 <= j < s0.len() + 1 && s0.push(p)[j] == mirror_spec(q);
                    if j < s0.len() {
                        assert(s0[j] == mirror_spec(q));
                    }
                }
            }
        }
        i = i + 1;
    }
    assert(all@.take(all@.len() as int) =~= all@);
    b
}

/// Mirroring a field of ten-cell rows twice gives it back.
pub proof fn lemma_mirror_field_involution(f: [u16; 10], m: [u16; 10], mm: [u16; 10])
    requires
        forall|y: int| 0 <= y < 10 ==> #[trigger] f@[y] < 1024,
        forall|y: int| 0 <= y < 10 ==> is_mirror_row(#[trigger] f@[y], m@[y]),
        forall|y: int| 0 <= y < 10 ==> is_mirror_row(#[trigger] m@[y], mm@[y]),
    ensures
        mm@ == f@,
{
    assert forall|y: int| 0 <= y < 10 implies #[trigger] mm@[y] == f@[y] by {
        lemma_mirror_row_involution(f@[y], m@[y], mm@[y]);
    }
    assert(mm@ =~= f@);
}

/// Mirroring a set of pieces twice gives it back.
pub proof fn lemma_mirror_bag_involution(bag: PieceSet, m: PieceSet, mm: PieceSet)
    requires
        forall|p: Piece| #[trigger] m.has(p) == bag.has(mirror_spec(p)),
        forall|p: Piece| #[trigger] mm.has(p) == m.has(mirror_spec(p)),
    ensures
        mm == bag,
{
    assert forall|p: Piece| #[trigger] mm.has(p) == bag.has(p) by {
        crate::misa::lemma_mirror_involution(p);
        assert(m.has(mirror_spec(p)) == bag.has(mirror_spec(mirror_spec(p))));
    }
    PieceSet::lemma_ext(mm, bag);
}

/// The low ten rows of the board, the part the opening book looks at.
pub fn field(board: &Board) -> (f: [u16; 10])
    requires
        board.inv(),
    ensures
        forall|y: int| 0 <= y < 10 ==> #[trigger] f@[y] == board.rows()[y],
{
    let mut f: [u16; 10] = [0; 10];
    let mut y: usize = 0;
    while y < 10
        invariant
            y <= 10,
            board.inv(),
            forall|k: int| 0 <= k < y ==> #[trigger] f@[k] == board.rows()[k],
        decreases 10 - y,
    {
        f[y] = board.get_row(y as i32);
        y = y + 1;
    }
    f
}

broadcast use vstd::std_specs::hash::group_hash_axioms;

/// The rows of the low ten rows of a field from row `y` up, read as one number with ten bits
/// per row, the lowest row in the lowest bits.
pub open spec fn field_number(f: Seq<u16>, y: int) -> int
    decreases 10 - y,
{
    if y >= 10 {
        0
    } else {
        f[y] + 1024 * field_number(f, y + 1)
    }
}

/// `1 << k` for a piece `k` places into the bag's bits.
pub open spec fn bag_number(b: PieceSet) -> int {
    (if b.has(Piece::I) {
        1int
    } else {
        0
    }) + (if b.has(Piece::O) {
        2int
    } else {
        0
    }) + (if b.has(Piece::T) {
        4int
    } else {
        0
    }) + (if b.has(Piece::L) {
        8int
    } else {
        0
    }) + (if b.has(Piece::J) {
        16int
    } else {
        0
    }) + (if b.has(Piece::S) {
        32int
    } else {
        0
    }) + (if b.has(Piece::Z) {
        64int
    } else {
        0
    })
}

/// The key under which the book files a field and a bag: the field's hundred cells in the low
/// bits, the bag above them.
pub open spec fn book_key(f: Seq<u16>, b: PieceSet) -> int {
    field_number(f, 0) + bag_number(b) * 0x10000000000000000000000000
}

/// The book's entry for a field and a bag, if it has one.
pub open spec fn lookup(book: Map<u128, (Opener, i32)>, f: Seq<u16>, b: PieceSet) -> Option<(Opener, i32)> {
    let k = book_key(f, b) as u128;
    if book.contains_key(k) {
        Some(book[k])
    } else {
        None
    }
}

/// `1024` to the power `n`.
pub open spec fn rows_scale(n: int) -> int
    decreases n,
{
    if n <= 0 {
        1
    } else {
        1024 * rows_scale(n - 1)
    }
}

/// Ten rows take a hundred bits.
proof fn lemma_rows_scale_ten()
    ensures
        rows_scale(10) == 0x10000000000000000000000000,
{
    reveal_with_fuel(rows_scale, 11);
}

/// Scales grow with the number of rows.
proof fn lemma_rows_scale_mono(a: int, b: int)
    requires
        0 <= a <= b,
    ensures
        1 <= rows_scale(a) <= rows_scale(b),
    decreases b,
{
    if b > 0 {
        if a < b {
            lemma_rows_scale_mono(a, b - 1);
        } else {
            lemma_rows_scale_mono(a - 1, b - 1);
        }
    }
}

/// A field of ten-cell rows reads as a number below `1024` to the power of the rows read.
proof fn lemma_field_number_bound(f: Seq<u16>, y: int)
    requires
        0 <= y <= 10,
        forall|k: int| 0 <= k < 10 ==> #[trigger] f[k] < 1024,
    ensures
        0 <= field_number(f, y) < rows_scale(10 - y),
    decreases 10 - y,
{
    if y < 10 {
        lemma_field_number_bound(f, y + 1);
        let p = rows_scale(10 - y - 1);
        assert(f[y] + 1024 * field_number(f, y + 1) < 1024 * p) by (nonlinear_arith)
            requires
                0 <= f[y] < 1024,
                0 <= field_number(f, y + 1) < p,
        ;
    }
}

/// The key under which the book files a field and a bag.
fn key_of(field: &[u16; 10], bag: PieceSet) -> (k: u128)
    requires
        forall|y: int| 0 <= y < 10 ==> #[trigger] field@[y] < 1024,
    ensures
        k as int == book_key(field@, bag),
{
    let mut key: u128 = 0;
    let mut y: usize = 10;
    proof {
        lemma_rows_scale_ten();
    }
    while y > 0
        invariant
            y <= 10,
            forall|k: int| 0 <= k < 10 ==> #[trigger] field@[k] < 1024,
            key as int == field_number(field@, y as int),
            rows_scale(10) == 0x10000000000000000000000000,
        decreases y,
    {
        y = y - 1;
        proof {
            lemma_field_number_bound(field@, y as int);
            lemma_rows_scale_mono(10 - y, 10);
        }
        key = key * 1024 + field[y] as u128;
    }
    proof {
        lemma_field_number_bound(field@, 0);
    }
    let mut bits: u128 = 0;
    if bag.contains(Piece::I) {
        bits = bits + 1;
    }
    if bag.contains(Piece::O) {
        bits = bits + 2;
    }
    if bag.contains(Piece::T) {
        bits = bits + 4;
    }
    if bag.contains(Piece::L) {
        bits = bits + 8;
    }
    if bag.contains(Piece::J) {
        bits = bits + 16;
    }
    if bag.contains(Piece::S) {
        bits = bits + 32;
    }
    if bag.contains(Piece::Z) {
        bits = bits + 64;
    }
    key + bits * 0x10000000000000000000000000
}

/// The book's entry for a field and a bag, if it has one.
fn entry(book: &HashMap<u128, (Opener, i32)>, field: &[u16; 10], bag: PieceSet) -> (r: Option<(Opener, i32)>)
    requires
        forall|y: int| 0 <= y < 10 ==> #[trigger] field@[y] < 1024,
    ensures
        r == lookup(book@, field@, bag),
{
    let k = key_of(field, bag);
    match book.get(&k) {
        Some(v) => Some(*v),
        None => None,
    }
}

/// Mirror images of rows are unique.
proof fn lemma_mirror_row_unique(r: u16, m1: u16, m2: u16)
    requires
        is_mirror_row(r, m1),
        is_mirror_row(r, m2),
    ensures
        m1 == m2,
{
    assert forall|k: u16| k < 10 implies #[trigger] bit(m1, k) == bit(m2, k) by {
        assert(bit(m1, (9 - (9 - k) as u16) as u16) == bit(r, (9 - k) as u16));
        assert(bit(m2, (9 - (9 - k) as u16) as u16) == bit(r, (9 - k) as u16));
        assert((9 - (9 - k) as u16) as u16 == k);
    }
    assert(bit(m1, 0) == bit(m2, 0) && bit(m1, 1) == bit(m2, 1) && bit(m1, 2) == bit(m2, 2) && bit(
        m1,
        3,
    ) == bit(m2, 3) && bit(m1, 4) == bit(m2, 4) && bit(m1, 5) == bit(m2, 5) && bit(m1, 6) == bit(
        m2,
        6,
    ) && bit(m1, 7) == bit(m2, 7) && bit(m1, 8) == bit(m2, 8) && bit(m1, 9) == bit(m2, 9));
    lemma_row_bits_eq(m1, m2);
}

/// The field with each row read from right to left.
pub open spec fn mirrored_field(f: Seq<u16>) -> Seq<u16> {
    Seq::new(10, |y: int| choose|m: u16| is_mirror_row(f[y], m))
}

/// `mb` holds the mirror images of the pieces of `b`.
pub open spec fn is_mirror_bag(b: PieceSet, mb: PieceSet) -> bool {
    forall|p: Piece| #[trigger] mb.has(p) == b.has(mirror_spec(p))
}

/// The bag with each piece mirrored.
pub open spec fn mirrored_bag(b: PieceSet) -> PieceSet {
    choose|mb: PieceSet| #[trigger] is_mirror_bag(b, mb)
}

/// What the book says of a field and a bag: their entry, or failing that, the entry of their
/// mirror images.
pub open spec fn check_spec(book: Map<u128, (Opener, i32)>, f: Seq<u16>, b: PieceSet) -> Option<(Opener, i32)> {
    match lookup(book, f, b) {
        Some(v) => Some(v),
        None => lookup(book, mirrored_field(f), mirrored_bag(b)),
    }
}

/// Looks a field and bag up in the book, and failing that, their mirror images.
pub fn check(book: &HashMap<u128, (Opener, i32)>, field: [u16; 10], bag: PieceSet) -> (r: Option<(Opener, i32)>)
    requires
        forall|y: int| 0 <= y < 10 ==> #[trigger] field@[y] < 1024,
    ensures
        r == check_spec(book@, field@, bag),
{
    let v = entry(book, &field, bag);
    if v.is_some() {
        return v;
    }
    let mirrored = mirror_field(field);
    let b = mirror_bag(bag);
    proof {
        assert forall|y: int| 0 <= y < 10 implies #[trigger] mirrored@[y] < 1024 by {
            assert(is_mirror_row(field@[y], mirrored@[y]));
        }
        assert forall|y: int| 0 <= y < 10 implies #[trigger] mirrored_field(field@)[y] == mirrored@[y] by {
            assert(is_mirror_row(field@[y], mirrored@[y]));
            let c = choose|m: u16| is_mirror_row(field@[y], m);
            lemma_mirror_row_unique(field@[y], c, mirrored@[y]);
        }
        assert(mirrored_field(field@) =~= mirrored@);
        assert(is_mirror_bag(bag, b));
        let c = mirrored_bag(bag);
        assert(forall|p: Piece| #[trigger] c.has(p) == bag.has(mirror_spec(p)));
        PieceSet::lemma_ext(c, b);
    }
    entry(book, &mirrored, b)
}

/// Looks the board up in the book: its low ten rows, with the bag it is drawing from, worked out
/// back from the queue. A held piece goes back into the bag, except that with a full bag the
/// held piece alone is tried first.
pub fn get(book: &HashMap<u128, (Opener, i32)>, board: &Board) -> (r: Option<(Opener, i32)>)
    requires
        board.inv(),
    ensures
        ({
            let bag = bag_back(board.bag_of(), board.queue());
            let f = Seq::new(10, |y: int| board.rows()[y]);
            match board.hold_of() {
                Some(p) => if bag == PieceSet::full_set() && check_spec(book@, f, PieceSet::empty_set().with(p)) is Some {
                    r == check_spec(book@, f, PieceSet::empty_set().with(p))
                } else {
                    r == check_spec(book@, f, bag.with(p))
                },
                None => r == check_spec(book@, f, bag),
            }
        }),
{
    let low = field(board);
    proof {
        board.lemma_inv();
        assert forall|y: int| 0 <= y < 10 implies #[trigger] low@[y] < 1024 by {
            assert(board.rows()[y].wf());
        }
        assert(low@ =~= Seq::new(10, |y: int| board.rows()[y]));
    }
    let mut bag = board.next_bag();
    match board.held_piece() {
        Some(piece) => {
            if bag.is_all() {
                let v = check(book, low, PieceSet::only(piece));
                if v.is_some() {
                    return v;
                }
            }
            bag.insert(piece);
        },
        None => {},
    }
    check(book, low, bag)
}


/// The grid of a board whose ten low rows are `f` and whose other rows are empty.
pub open spec fn low_grid(f: Seq<u16>) -> Seq<Seq<bool>> {
    Seq::new(40, |y: int| Seq::new(10, |x: int| 0 <= y < 10 && bit(f[y], x as u16)))
}

/// A board as the book builds it: an empty board whose ten low rows are `f`.
pub open spec fn fresh_low(b: Board, f: Seq<u16>) -> bool {
    &&& b.wf()
    &&& b.grid() == low_grid(f)
    &&& b.queue() == Seq::<Piece>::empty()
    &&& b.hold_of() == None::<Piece>
    &&& b.bag_of() == PieceSet::full_set()
    &&& b.combo_of() == 0
    &&& !b.b2b_of()
}

/// The bag after `p` was drawn from `b`: an emptied bag starts over full.
pub open spec fn bag_after(b: PieceSet, p: Piece) -> PieceSet {
    if b.without(p) == PieceSet::empty_set() {
        PieceSet::full_set()
    } else {
        b.without(p)
    }
}

/// `new` grew from `old` by entries for `opener`: no key was lost, and every entry that is
/// new or changed is for `opener`, with no bonus or with one of `bonuses`.
pub open spec fn grown(old: Map<u128, (Opener, i32)>, new: Map<u128, (Opener, i32)>, opener: Opener, bonuses: Set<i32>) -> bool {
    &&& forall|k: u128| old.contains_key(k) ==> #[trigger] new.contains_key(k)
    &&& forall|k: u128|
        #[trigger] new.contains_key(k) ==> (old.contains_key(k) && new[k] == old[k]) || (new[k].0
            == opener && (new[k].1 == 0 || bonuses.contains(new[k].1)))
}

/// Growing twice is growing, with the bonuses of both.
proof fn lemma_grown_trans(
    a: Map<u128, (Opener, i32)>,
    b: Map<u128, (Opener, i32)>,
    c: Map<u128, (Opener, i32)>,
    opener: Opener,
    s: Set<i32>,
    t: Set<i32>,
    u: Set<i32>,
)
    requires
        grown(a, b, opener, s),
        grown(b, c, opener, t),
        s.subset_of(u),
        t.subset_of(u),
    ensures
        grown(a, c, opener, u),
{
    assert forall|k: u128| #[trigger] c.contains_key(k) implies (a.contains_key(k) && c[k] == a[k]) || (
    c[k].0 == opener && (c[k].1 == 0 || u.contains(c[k].1))) by {
        if !(c[k].0 == opener && (c[k].1 == 0 || t.contains(c[k].1))) {
            assert(b.contains_key(k) && c[k] == b[k]);
        }
    }
}

/// `placeable` only ever accepts `p` on the board the book builds from the low field `f`, and
/// `p` lies on the playfield, which has no full row.
pub open spec fn accepted<F: Fn(&Board, FallingPiece) -> bool>(placeable: F, f: Seq<u16>, p: FallingPiece) -> bool {
    &&& p.in_range()
    &&& on_field(p)
    &&& no_full_rows(low_grid(f))
    &&& forall|b: Board, r: bool| fresh_low(b, f) && placeable.ensures((&b, p), r) ==> r
}

/// `placeable` may accept `p` on the board the book builds from the low field `f`: some such
/// board and answer exist, and `p` lies on the playfield, which has no full row.
pub open spec fn may_accept<F: Fn(&Board, FallingPiece) -> bool>(placeable: F, f: Seq<u16>, p: FallingPiece) -> bool {
    &&& p.in_range()
    &&& on_field(p)
    &&& no_full_rows(low_grid(f))
    &&& exists|b: Board| #[trigger] fresh_low(b, f) && placeable.ensures((&b, p), true)
}

/// `f` holds, as ten-bit rows, the low ten rows of grid `g`.
pub open spec fn is_low_field(f: Seq<u16>, g: Seq<Seq<bool>>) -> bool {
    &&& f.len() == 10
    &&& forall|y: int| 0 <= y < 10 ==> #[trigger] f[y] < 1024
    &&& forall|y: int, x: int| 0 <= y < 10 && 0 <= x < 10 ==> #[trigger] bit(f[y], x as u16) == g[y][x]
}

/// The low field of grid `g`.
pub open spec fn low_field(g: Seq<Seq<bool>>) -> Seq<u16> {
    choose|f: Seq<u16>| is_low_field(f, g)
}

/// A grid has one low field.
proof fn lemma_low_field_unique(f: Seq<u16>, g: Seq<Seq<bool>>)
    requires
        is_low_field(f, g),
    ensures
        low_field(g) == f,
{
    let c = low_field(g);
    assert(is_low_field(c, g));
    assert forall|y: int| 0 <= y < 10 implies #[trigger] c[y] == f[y] by {
        assert(bit(c[y], (0int) as u16) == g[y][0] && bit(f[y], (0int) as u16) == g[y][0]);
        assert(bit(c[y], (1int) as u16) == g[y][1] && bit(f[y], (1int) as u16) == g[y][1]);
        assert(bit(c[y], (2int) as u16) == g[y][2] && bit(f[y], (2int) as u16) == g[y][2]);
        assert(bit(c[y], (3int) as u16) == g[y][3] && bit(f[y], (3int) as u16) == g[y][3]);
        assert(bit(c[y], (4int) as u16) == g[y][4] && bit(f[y], (4int) as u16) == g[y][4]);
        assert(bit(c[y], (5int) as u16) == g[y][5] && bit(f[y], (5int) as u16) == g[y][5]);
        assert(bit(c[y], (6int) as u16) == g[y][6] && bit(f[y], (6int) as u16) == g[y][6]);
        assert(bit(c[y], (7int) as u16) == g[y][7] && bit(f[y], (7int) as u16) == g[y][7]);
        assert(bit(c[y], (8int) as u16) == g[y][8] && bit(f[y], (8int) as u16) == g[y][8]);
        assert(bit(c[y], (9int) as u16) == g[y][9] && bit(f[y], (9int) as u16) == g[y][9]);
        lemma_row_bits_eq(c[y], f[y]);
    }
    assert(c =~= f);
}

/// The low field round trip: reading the low rows of a board built from a low field `lf`, the
/// way `field` reads them, gives `lf` back.
pub proof fn lemma_low_field_round_trip(lf: Seq<u16>, b: Board, f: Seq<u16>)
    requires
        lf.len() == 10,
        forall|y: int| 0 <= y < 10 ==> #[trigger] lf[y] < 1024,
        b.inv(),
        b.grid() == low_grid(lf),
        f.len() == 10,
        forall|y: int| 0 <= y < 10 ==> #[trigger] f[y] == b.rows()[y],
    ensures
        f == lf,
{
    b.lemma_inv();
    let g = low_grid(lf);
    assert forall|y: int, x: int| 0 <= y < 10 && 0 <= x < 10 implies #[trigger] bit(f[y], x as u16) == g[y][x] by {
        assert(b.grid()[y] == crate::board::row_view(b.rows()[y]));
    }
    assert forall|y: int| 0 <= y < 10 implies #[trigger] f[y] < 1024 by {
        assert(b.rows()[y].wf());
    }
    lemma_low_field_unique(f, g);
    lemma_low_field_unique(lf, g);
}

/// Placement `q` moved down by the cleared rows at or below it.
pub open spec fn drop_by(q: FallingPiece, cleared: Seq<i32>) -> FallingPiece {
    FallingPiece { y: (q.y - count_at_or_below(cleared, q.y as int, cleared.len() as int)) as i32, ..q }
}

/// The placements of `ps` other than `p`, each moved down by the cleared rows at or below it.
pub open spec fn moved_down(ps: Seq<FallingPiece>, p: FallingPiece, cleared: Seq<i32>) -> Seq<FallingPiece>
    decreases ps.len(),
{
    if ps.len() == 0 {
        Seq::empty()
    } else if ps.last() != p {
        moved_down(ps.drop_last(), p, cleared).push(drop_by(ps.last(), cleared))
    } else {
        moved_down(ps.drop_last(), p, cleared)
    }
}

/// The rows that placing `p` on grid `g` fills, bottom first.
pub open spec fn cleared_of(g: Seq<Seq<bool>>, p: FallingPiece) -> Seq<i32> {
    full_rows(placed_grid(g, p), 40).map_values(|r: int| r as i32)
}

/// One step of a line: placement `i` of `ps` locks on the low field `f`; the low field it
/// leaves, the bag after it, and the placements left, moved down.
pub open spec fn line_step(f: Seq<u16>, bag: PieceSet, ps: Seq<FallingPiece>, i: int) -> (Seq<u16>, PieceSet, Seq<FallingPiece>) {
    let p = ps[i];
    (
        low_field(clear_lines(placed_grid(low_grid(f), p))),
        bag_after(bag, p.kind.0),
        moved_down(ps, p, cleared_of(low_grid(f), p)),
    )
}

/// The position that the book reaches along `path` from the low field `f` and bag `bag` with
/// the placements `ps`: each step locks the placement of the given index among those left,
/// when `placeable` accepts it (surely when `sure`, possibly otherwise). The low field, the
/// bag, the placements left, and how many placements were left before the last step.
pub open spec fn line_walk<F: Fn(&Board, FallingPiece) -> bool>(
    sure: bool,
    placeable: F,
    f: Seq<u16>,
    bag: PieceSet,
    ps: Seq<FallingPiece>,
    path: Seq<int>,
) -> Option<(Seq<u16>, PieceSet, Seq<FallingPiece>, int)>
    decreases path.len(),
{
    if path.len() == 0 {
        Some((f, bag, ps, 0))
    } else {
        let i = path[0];
        if 0 <= i < ps.len() && (if sure {
            accepted(placeable, f, ps[i])
        } else {
            may_accept(placeable, f, ps[i])
        }) {
            let (f2, b2, ps2) = line_step(f, bag, ps, i);
            if path.len() == 1 {
                Some((f2, b2, ps2, ps.len() as int))
            } else {
                line_walk(sure, placeable, f2, b2, ps2, path.skip(1))
            }
        } else {
            None
        }
    }
}

/// Every position that `placeable` surely accepts along the placements `ps` from the low
/// field `f` and bag `bag`, one placement deep or more, is filed in `book`.
pub open spec fn positions_filed<F: Fn(&Board, FallingPiece) -> bool>(
    book: Map<u128, (Opener, i32)>,
    placeable: F,
    f: Seq<u16>,
    bag: PieceSet,
    ps: Seq<FallingPiece>,
) -> bool {
    forall|path: Seq<int>|
        #![trigger line_walk(true, placeable, f, bag, ps, path)]
        path.len() >= 1 ==> (line_walk(true, placeable, f, bag, ps, path) matches Some((f2, b2, _, _))
            ==> book.contains_key(book_key(f2, b2) as u128))
}

/// Entry `v` under key `k` is what the book files for the position reached along `path`:
/// the opener with the line's bonus when one placement was left before the last step, and no
/// bonus otherwise.
pub open spec fn filed_by<F: Fn(&Board, FallingPiece) -> bool>(
    placeable: F,
    f: Seq<u16>,
    bag: PieceSet,
    ps: Seq<FallingPiece>,
    path: Seq<int>,
    k: u128,
    v: (Opener, i32),
    opener: Opener,
    bonus: i32,
) -> bool {
    &&& path.len() >= 1
    &&& line_walk(false, placeable, f, bag, ps, path) matches Some((f2, b2, _, n))
    &&& k == book_key(f2, b2) as u128
    &&& v == (opener, if n == 1 { bonus } else { 0i32 })
}

/// Every entry that changed from `old` to `new` is one the book files for a position along
/// the placements `ps` from `f` and `bag`.
pub open spec fn changes_filed<F: Fn(&Board, FallingPiece) -> bool>(
    old: Map<u128, (Opener, i32)>,
    new: Map<u128, (Opener, i32)>,
    placeable: F,
    f: Seq<u16>,
    bag: PieceSet,
    ps: Seq<FallingPiece>,
    opener: Opener,
    bonus: i32,
) -> bool {
    forall|k: u128|
        #[trigger] new.contains_key(k) && (!old.contains_key(k) || new[k] != old[k]) ==> exists|path: Seq<int>|
            filed_by(placeable, f, bag, ps, path, k, new[k], opener, bonus)
}

/// A walk one step further: the step, then the rest of the walk.
proof fn lemma_walk_cons<F: Fn(&Board, FallingPiece) -> bool>(
    sure: bool,
    placeable: F,
    f: Seq<u16>,
    bag: PieceSet,
    ps: Seq<FallingPiece>,
    i: int,
    rest: Seq<int>,
)
    requires
        rest.len() >= 1,
    ensures
        ({
            let (f2, b2, ps2) = line_step(f, bag, ps, i);
            line_walk(sure, placeable, f, bag, ps, seq![i] + rest) == if 0 <= i < ps.len() && (if sure {
                accepted(placeable, f, ps[i])
            } else {
                may_accept(placeable, f, ps[i])
            }) {
                line_walk(sure, placeable, f2, b2, ps2, rest)
            } else {
                None
            }
        }),
{
    assert((seq![i] + rest).skip(1) =~= rest);
    assert((seq![i] + rest)[0] == i);
}

/// An empty board whose ten low rows are `low_field`.
fn low_board(low_field: [u16; 10]) -> (b: Board)
    requires
        forall|y: int| 0 <= y < 10 ==> #[trigger] low_field@[y] < 1024,
    ensures
        fresh_low(b, low_field@),
{
    let mut field = [[false; 10]; 40];
    let mut y: usize = 0;
    while y < 10
        invariant
            y <= 10,
            forall|k: int, x: int| 0 <= k < y && 0 <= x < 10 ==> #[trigger] field@[k]@[x] == bit(low_field@[k], x as u16),
            forall|k: int, x: int| y <= k < 40 && 0 <= x < 10 ==> !#[trigger] field@[k]@[x],
        decreases 10 - y,
    {
        let mut row = [false; 10];
        let mut x: usize = 0;
        while x < 10
            invariant
                x <= 10,
                y < 10,
                forall|j: int| 0 <= j < x ==> #[trigger] row@[j] == bit(low_field@[y as int], j as u16),
                forall|j: int| x <= j < 10 ==> !#[trigger] row@[j],
            decreases 10 - x,
        {
            proof {
                lemma_bit_test(low_field@[y as int], x as u16);
            }
            row[x] = low_field[y] & (1u16 << (x as u16)) != 0;
            x = x + 1;
        }
        field[y] = row;
        y = y + 1;
    }
    let mut b: Board = Board::new();
    b.set_field(field);
    assert(b.grid() =~= low_grid(low_field@)) by {
        b.lemma_inv();
        assert forall|k: int| 0 <= k < 40 implies #[trigger] b.grid()[k] =~= low_grid(low_field@)[k] by {
            assert forall|x: int| 0 <= x < 10 implies b.grid()[k][x] == low_grid(low_field@)[k][x] by {
                assert(b.grid()[k][x] == field@[k]@[x]);
            }
        }
    }
    b
}

/// All cells of `p` lie on the playfield.
pub(crate) fn on_field_exec(p: &FallingPiece) -> (b: bool)
    requires
        p.in_range(),
    ensures
        b == on_field(*p),
{
    let cells = p.cells();
    let mut i: usize = 0;
    while i < 4
        invariant
            i <= 4,
            forall|j: int| 0 <= j < 4 ==> (cells@[j].0 as int, cells@[j].1 as int) == #[trigger] p.cell(j),
            forall|j: int| 0 <= j < i ==> 0 <= #[trigger] p.cell(j).0 < 10 && 0 <= p.cell(j).1 < 40,
        decreases 4 - i,
    {
        let (x, y) = cells[i];
        assert(p.cell(i as int) == (x as int, y as int));
        if x < 0 || x >= 10 || y < 0 || y >= 40 {
            return false;
        }
        i = i + 1;
    }
    true
}

/// The number of the first `k` rows of `cleared` that lie at or below row `y`.
pub open spec fn count_at_or_below(cleared: Seq<i32>, y: int, k: int) -> int
    decreases k,
{
    if k <= 0 {
        0
    } else {
        count_at_or_below(cleared, y, k - 1) + if cleared[k - 1] <= y {
            1int
        } else {
            0
        }
    }
}

/// The number of cleared rows at or below row `y`, at most four; none when `y` is below the
/// playfield.
fn rows_below(cleared: &Vec<i32>, y: i32) -> (n: i32)
    requires
        cleared@.len() <= 4,
        forall|i: int| 0 <= i < cleared@.len() ==> 0 <= #[trigger] cleared@[i] < 40,
    ensures
        n == count_at_or_below(cleared@, y as int, cleared@.len() as int),
        0 <= n <= 4,
        n > 0 ==> y >= 0,
{
    let mut n: i32 = 0;
    let mut i: usize = 0;
    while i < cleared.len()
        invariant
            i <= cleared@.len(),
            cleared@.len() <= 4,
            forall|j: int| 0 <= j < cleared@.len() ==> 0 <= #[trigger] cleared@[j] < 40,
            0 <= n <= i,
            n == count_at_or_below(cleared@, y as int, i as int),
            n > 0 ==> y >= 0,
        decreases cleared@.len() - i,
    {
        if cleared[i] <= y {
            n = n + 1;
        }
        i = i + 1;
    }
    n
}

/// Files the positions of an opener into the book: for each placement of the remaining ones
/// that `placeable` accepts on the low field `from_board`, the field after it with the bag
/// after it, then, from there, the placements left, moved down by the rows the placement
/// cleared below them. The position reached by the last placement gets `encouragement`, the
/// others no bonus.
pub fn build_states<F: Fn(&Board, FallingPiece) -> bool>(
    states: &mut HashMap<u128, (Opener, i32)>,
    placements: &[FallingPiece],
    from_board: [u16; 10],
    from_bag: PieceSet,
    opener: Opener,
    encouragement: i32,
    placeable: &F,
)
    requires
        forall|y: int| 0 <= y < 10 ==> #[trigger] from_board@[y] < 1024,
        forall|i: int| 0 <= i < placements@.len() ==> (#[trigger] placements@[i]).in_range(),
        forall|b: Board, p: FallingPiece| b.wf() ==> #[trigger] placeable.requires((&b, p)),
    ensures
        grown(old(states)@, final(states)@, opener, set![encouragement]),
        positions_filed(final(states)@, *placeable, from_board@, from_bag, placements@),
        changes_filed(old(states)@, final(states)@, *placeable, from_board@, from_bag, placements@, opener, encouragement),
    decreases placements@.len(),
{
    let mut i: usize = 0;
    while i < placements.len()
        invariant
            i <= placements@.len(),
            forall|y: int| 0 <= y < 10 ==> #[trigger] from_board@[y] < 1024,
            forall|k: int| 0 <= k < placements@.len() ==> (#[trigger] placements@[k]).in_range(),
            forall|b: Board, p: FallingPiece| b.wf() ==> #[trigger] placeable.requires((&b, p)),
            grown(old(states)@, states@, opener, set![encouragement]),
            forall|path: Seq<int>|
                #![trigger line_walk(true, *placeable, from_board@, from_bag, placements@, path)]
                path.len() >= 1 && 0 <= path[0] < i ==> (line_walk(true, *placeable, from_board@, from_bag, placements@, path)
                    matches Some((f2, b2, _, _)) ==> states@.contains_key(book_key(f2, b2) as u128)),
            changes_filed(old(states)@, states@, *placeable, from_board@, from_bag, placements@, opener, encouragement),
        decreases placements@.len() - i,
    {
        let placement = placements[i];
        let mut board = low_board(from_board);
        let ghost b0 = board;
        let mut ok = on_field_exec(&placement) && !has_full_row(&board);
        if ok {
            ok = placeable(&board, placement);
        }
        proof {
            if accepted(*placeable, from_board@, placement) {
                assert(ok);
            }
            if ok {
                assert(fresh_low(b0, from_board@));
                assert(may_accept(*placeable, from_board@, placement));
            }
        }
        let ghost before = states@;
        if ok {
            let ghost g0 = board.grid();
            proof {
                board.lemma_inv();
                lemma_piece_clears_at_most_four(g0, placement);
            }
            let result = board.lock_piece(placement);
            let mut bag = from_bag;
            bag.remove(placement.kind.0);
            if bag.is_empty() {
                bag = PieceSet::all();
            }
            let f = field(&board);
            proof {
                board.lemma_inv();
                assert forall|y: int| 0 <= y < 10 implies #[trigger] f@[y] < 1024 by {
                    assert(board.rows()[y].wf());
                }
                assert forall|y: int, x: int| 0 <= y < 10 && 0 <= x < 10 implies #[trigger] bit(f@[y], x as u16)
                    == clear_lines(placed_grid(low_grid(from_board@), placement))[y][x] by {
                    assert(board.grid()[y] == crate::board::row_view(board.rows()[y]));
                }
                assert(is_low_field(f@, clear_lines(placed_grid(low_grid(from_board@), placement))));
                lemma_low_field_unique(f@, clear_lines(placed_grid(low_grid(from_board@), placement)));
                assert(bag_after(from_bag, placement.kind.0) == bag);
                assert(result.cleared_lines@ =~= cleared_of(g0, placement));
            }
            let bonus = if placements.len() == 1 {
                encouragement
            } else {
                0
            };
            let key = key_of(&f, bag);
            states.insert(key, (opener, bonus));
            let ghost mid = states@;
            proof {
                assert(grown(before, states@, opener, set![encouragement]));
                lemma_grown_trans(old(states)@, before, states@, opener, set![encouragement], set![encouragement], set![encouragement]);
            }
            let mut rest: Vec<FallingPiece> = Vec::new();
            let mut j: usize = 0;
            proof {
                crate::board::lemma_full_rows_members(placed_grid(g0, placement), 40);
                assert(placements@.take(0) =~= Seq::<FallingPiece>::empty());
            }
            while j < placements.len()
                invariant
                    j <= placements@.len(),
                    forall|k: int| 0 <= k < placements@.len() ==> (#[trigger] placements@[k]).in_range(),
                    forall|k: int| 0 <= k < rest@.len() ==> (#[trigger] rest@[k]).in_range(),
                    i < placements@.len(),
                    placements@[i as int] == placement,
                    rest@.len() + (if j > i { 1int } else { 0 }) <= j,
                    result.cleared_lines@.len() <= 4,
                    forall|k: int| 0 <= k < result.cleared_lines@.len() ==> 0 <= #[trigger] result.cleared_lines@[k] < 40,
                    rest@ == moved_down(placements@.take(j as int), placement, result.cleared_lines@),
                decreases placements@.len() - j,
            {
                let p = placements[j];
                proof {
                    assert(placements@.take(j + 1).drop_last() =~= placements@.take(j as int));
                    assert(placements@.take(j + 1).last() == p);
                }
                if p != placement {
                    let fall = rows_below(&result.cleared_lines, p.y);
                    rest.push(FallingPiece { y: p.y - fall, ..p });
                }
                j = j + 1;
            }
            proof {
                assert(placements@.take(placements@.len() as int) =~= placements@);
                assert(line_step(from_board@, from_bag, placements@, i as int) == (f@, bag, rest@));
            }
            build_states(states, rest.as_slice(), f, bag, opener, encouragement, placeable);
            proof {
                lemma_grown_trans(old(states)@, mid, states@, opener, set![encouragement], set![encouragement], set![encouragement]);
                let ii = i as int;
                assert forall|path: Seq<int>|
                    #![trigger line_walk(true, *placeable, from_board@, from_bag, placements@, path)]
                    path.len() >= 1 && 0 <= path[0] < i + 1 implies (line_walk(true, *placeable, from_board@, from_bag, placements@, path)
                        matches Some((f2, b2, _, _)) ==> states@.contains_key(book_key(f2, b2) as u128)) by {
                    if let Some((f2, b2, _, _)) = line_walk(true, *placeable, from_board@, from_bag, placements@, path) {
                        if path[0] < ii {
                            assert(before.contains_key(book_key(f2, b2) as u128));
                        } else if path.len() == 1 {
                            assert(mid.contains_key(book_key(f2, b2) as u128));
                        } else {
                            let tail = path.skip(1);
                            assert(path =~= seq![ii] + tail);
                            lemma_walk_cons(true, *placeable, from_board@, from_bag, placements@, ii, tail);
                            assert(line_walk(true, *placeable, f@, bag, rest@, tail) is Some);
                        }
                    }
                }
                assert forall|k: u128|
                    #[trigger] states@.contains_key(k) && (!old(states)@.contains_key(k) || states@[k] != old(states)@[k])
                        implies exists|path: Seq<int>| filed_by(*placeable, from_board@, from_bag, placements@, path, k, states@[k], opener, encouragement) by {
                    if mid.contains_key(k) && states@[k] == mid[k] {
                        if k == key {
                            let path = seq![ii];
                            assert(path.skip(1) =~= Seq::<int>::empty());
                            assert(filed_by(*placeable, from_board@, from_bag, placements@, path, k, states@[k], opener, encouragement));
                        } else {
                            assert(before.contains_key(k) && mid[k] == before[k]);
                            let path = choose|path: Seq<int>| filed_by(*placeable, from_board@, from_bag, placements@, path, k, before[k], opener, encouragement);
                            assert(filed_by(*placeable, from_board@, from_bag, placements@, path, k, states@[k], opener, encouragement));
                        }
                    } else {
                        let tail = choose|path: Seq<int>| filed_by(*placeable, f@, bag, rest@, path, k, states@[k], opener, encouragement);
                        let path = seq![ii] + tail;
                        lemma_walk_cons(false, *placeable, from_board@, from_bag, placements@, ii, tail);
                        assert(filed_by(*placeable, from_board@, from_bag, placements@, path, k, states@[k], opener, encouragement));
                    }
                }
            }
        } else {
            proof {
                assert forall|path: Seq<int>|
                    #![trigger line_walk(true, *placeable, from_board@, from_bag, placements@, path)]
                    path.len() >= 1 && 0 <= path[0] < i + 1 implies (line_walk(true, *placeable, from_board@, from_bag, placements@, path)
                        matches Some((f2, b2, _, _)) ==> states@.contains_key(book_key(f2, b2) as u128)) by {
                    if path[0] == i as int {
                        assert(line_walk(true, *placeable, from_board@, from_bag, placements@, path) is None);
                    }
                }
            }
        }
        i = i + 1;
    }
}

/// One line of an opener: the placements that build it, the low field it starts from, and
/// the bonus of the position its last placement reaches.
pub struct OpenerLine {
    pub placements: Vec<FallingPiece>,
    pub from_board: [u16; 10],
    pub encouragement: i32,
}

impl OpenerLine {
    /// The placements lie within the range where their cells can be computed, and the rows
    /// of the starting field have ten cells.
    pub open spec fn wf(&self) -> bool {
        &&& forall|i: int| 0 <= i < self.placements@.len() ==> (#[trigger] self.placements@[i]).in_range()
        &&& forall|y: int| 0 <= y < 10 ==> #[trigger] self.from_board@[y] < 1024
    }
}

/// Piece `p` turned to `r` with its center at `(x, y)`.
pub fn placed(p: Piece, r: RotationState, x: i32, y: i32) -> (f: FallingPiece)
    requires
        -100 <= x <= 100,
        -100 <= y <= 100,
    ensures
        f == (FallingPiece { kind: PieceState(p, r), x, y, tspin: TspinStatus::NoSpin }),
        f.in_range(),
{
    FallingPiece { kind: PieceState(p, r), x, y, tspin: TspinStatus::NoSpin }
}

/// Piece `p` turned to `r` with its center at `(x, y)`, as an opener places it.
pub open spec fn placed_at(p: Piece, r: RotationState, x: i32, y: i32) -> FallingPiece {
    FallingPiece { kind: PieceState(p, r), x, y, tspin: TspinStatus::NoSpin }
}

/// The empty low field.
pub open spec fn empty_low() -> Seq<u16> {
    seq![0u16, 0, 0, 0, 0, 0, 0, 0, 0, 0]
}

/// Every position along `line` from the low field `from` and a full bag, as `placeable`
/// surely accepts its placements, is filed in `book`.
pub open spec fn line_filed<F: Fn(&Board, FallingPiece) -> bool>(
    book: Map<u128, (Opener, i32)>,
    placeable: F,
    line: Seq<FallingPiece>,
    from: Seq<u16>,
) -> bool {
    positions_filed(book, placeable, from, PieceSet::full_set(), line)
}

/// Positions filed stay filed through growing.
proof fn lemma_positions_grown<F: Fn(&Board, FallingPiece) -> bool>(
    a: Map<u128, (Opener, i32)>,
    b: Map<u128, (Opener, i32)>,
    opener: Opener,
    bonuses: Set<i32>,
    placeable: F,
    f: Seq<u16>,
    bag: PieceSet,
    ps: Seq<FallingPiece>,
)
    requires
        grown(a, b, opener, bonuses),
        positions_filed(a, placeable, f, bag, ps),
    ensures
        positions_filed(b, placeable, f, bag, ps),
{
    assert forall|path: Seq<int>|
        #![trigger line_walk(true, placeable, f, bag, ps, path)]
        path.len() >= 1 implies (line_walk(true, placeable, f, bag, ps, path) matches Some((f2, b2, _, _))
            ==> b.contains_key(book_key(f2, b2) as u128)) by {
        if let Some((f2, b2, _, _)) = line_walk(true, placeable, f, bag, ps, path) {
            assert(a.contains_key(book_key(f2, b2) as u128));
        }
    }
}

/// What a line filed stays filed through growing.
proof fn lemma_line_filed_grown<F: Fn(&Board, FallingPiece) -> bool>(
    a: Map<u128, (Opener, i32)>,
    b: Map<u128, (Opener, i32)>,
    opener: Opener,
    bonuses: Set<i32>,
    placeable: F,
    line: Seq<FallingPiece>,
    from: Seq<u16>,
)
    requires
        grown(a, b, opener, bonuses),
        line_filed(a, placeable, line, from),
    ensures
        line_filed(b, placeable, line, from),
{
    lemma_positions_grown(a, b, opener, bonuses, placeable, from, PieceSet::full_set(), line);
}

/// Every entry that changed from `old` to `new` is one the book files for a position along
/// one of `lines`, from its low field and a full bag, with its bonus.
pub open spec fn lines_changes_filed<F: Fn(&Board, FallingPiece) -> bool>(
    old: Map<u128, (Opener, i32)>,
    new: Map<u128, (Opener, i32)>,
    placeable: F,
    lines: Seq<OpenerLine>,
    opener: Opener,
) -> bool {
    forall|k: u128|
        #[trigger] new.contains_key(k) && (!old.contains_key(k) || new[k] != old[k]) ==> exists|i: int, path: Seq<int>|
            0 <= i < lines.len() && filed_by(
                placeable,
                lines[i].from_board@,
                PieceSet::full_set(),
                lines[i].placements@,
                path,
                k,
                new[k],
                opener,
                lines[i].encouragement,
            )
}

/// Files the positions of each line of an opener, starting from a full bag.
pub(crate) fn build_lines<F: Fn(&Board, FallingPiece) -> bool>(
    states: &mut HashMap<u128, (Opener, i32)>,
    lines: &Vec<OpenerLine>,
    opener: Opener,
    Ghost(bonuses): Ghost<Set<i32>>,
    placeable: &F,
)
    requires
        forall|i: int| 0 <= i < lines@.len() ==> (#[trigger] lines@[i]).wf(),
        forall|i: int| 0 <= i < lines@.len() ==> bonuses.contains(#[trigger] lines@[i].encouragement),
        forall|b: Board, p: FallingPiece| b.wf() ==> #[trigger] placeable.requires((&b, p)),
    ensures
        grown(old(states)@, final(states)@, opener, bonuses),
        forall|i: int| 0 <= i < lines@.len() ==> line_filed(final(states)@, *placeable, #[trigger] lines@[i].placements@, lines@[i].from_board@),
        lines_changes_filed(old(states)@, final(states)@, *placeable, lines@, opener),
{
    let mut i: usize = 0;
    while i < lines.len()
        invariant
            i <= lines@.len(),
            forall|k: int| 0 <= k < lines@.len() ==> (#[trigger] lines@[k]).wf(),
            forall|k: int| 0 <= k < lines@.len() ==> bonuses.contains(#[trigger] lines@[k].encouragement),
            forall|b: Board, p: FallingPiece| b.wf() ==> #[trigger] placeable.requires((&b, p)),
            grown(old(states)@, states@, opener, bonuses),
            forall|k: int| 0 <= k < i ==> line_filed(states@, *placeable, #[trigger] lines@[k].placements@, lines@[k].from_board@),
            lines_changes_filed(old(states)@, states@, *placeable, lines@, opener),
        decreases lines@.len() - i,
    {
        let line = &lines[i];
        let ghost before = states@;
        build_states(
            states,
            line.placements.as_slice(),
            line.from_board,
            PieceSet::all(),
            opener,
            line.encouragement,
            placeable,
        );
        proof {
            lemma_grown_trans(old(states)@, before, states@, opener, bonuses, set![line.encouragement], bonuses);
            assert forall|k: int| 0 <= k < i + 1 implies line_filed(states@, *placeable, #[trigger] lines@[k].placements@, lines@[k].from_board@) by {
                if k < i {
                    lemma_line_filed_grown(before, states@, opener, set![line.encouragement], *placeable, lines@[k].placements@, lines@[k].from_board@);
                } else {
                    assert(lines@[k] == *line);
                }
            }
            assert forall|k: u128| #[trigger] states@.contains_key(k) && (!old(states)@.contains_key(k) || states@[k] != old(states)@[k])
                implies exists|ii: int, path: Seq<int>|
                0 <= ii < lines@.len() && filed_by(*placeable, lines@[ii].from_board@, PieceSet::full_set(), lines@[ii].placements@, path, k, states@[k], opener, lines@[ii].encouragement) by {
                if before.contains_key(k) && states@[k] == before[k] {
                    let (ii, path) = choose|ii: int, path: Seq<int>|
                        0 <= ii < lines@.len() && filed_by(*placeable, lines@[ii].from_board@, PieceSet::full_set(), lines@[ii].placements@, path, k, before[k], opener, lines@[ii].encouragement);
                    assert(filed_by(*placeable, lines@[ii].from_board@, PieceSet::full_set(), lines@[ii].placements@, path, k, states@[k], opener, lines@[ii].encouragement));
                } else {
                    let path = choose|path: Seq<int>| filed_by(*placeable, line.from_board@, PieceSet::full_set(), line.placements@, path, k, states@[k], opener, line.encouragement);
                    assert(lines@[i as int] == *line);
                    assert(filed_by(*placeable, lines@[i as int].from_board@, PieceSet::full_set(), lines@[i as int].placements@, path, k, states@[k], opener, lines@[i as int].encouragement));
                }
            }
        }
        i = i + 1;
    }
}

/// Filing an entry for `opener` with one of `bonuses` grows the book.
proof fn lemma_grown_insert(a: Map<u128, (Opener, i32)>, b: Map<u128, (Opener, i32)>, opener: Opener, bonuses: Set<i32>)
    requires
        exists|k: u128, v: (Opener, i32)| b == a.insert(k, v) && v.0 == opener && bonuses.contains(v.1),
    ensures
        grown(a, b, opener, bonuses),
{
}

/// Files `value` for the low field `field` and bag `bag`.
pub(crate) fn file_entry(states: &mut HashMap<u128, (Opener, i32)>, field: [u16; 10], bag: PieceSet, value: (Opener, i32))
    requires
        forall|y: int| 0 <= y < 10 ==> #[trigger] field@[y] < 1024,
    ensures
        final(states)@ == old(states)@.insert(book_key(field@, bag) as u128, value),
{
    let k = key_of(&field, bag);
    states.insert(k, value);
}

/// The opening book: the positions of the Viper and PCO openers, as `placeable` admits their
/// placements, each filed under its low field and bag with its bonus.
pub fn opener_book<F: Fn(&Board, FallingPiece) -> bool>(placeable: &F) -> (book: HashMap<u128, (Opener, i32)>)
    requires
        forall|b: Board, p: FallingPiece| b.wf() ==> #[trigger] placeable.requires((&b, p)),
    ensures
        forall|k: u128| #[trigger] book@.contains_key(k) ==> match book@[k] {
            (Opener::Viper, bonus) => bonus == 0 || bonus == 2000,
            (Opener::Pco, bonus) => bonus == 0 || bonus == 200 || bonus == 860,
        },
        book@.contains_key(book_key(viper::tsd_field(), PieceSet::full_set()) as u128),
        book@.contains_key(book_key(pco::grace_field(), PieceSet::full_set()) as u128),
        book@[book_key(pco::grace_field(), PieceSet::full_set()) as u128] == (Opener::Pco, 860i32),
        line_filed(book@, *placeable, viper::tsd_line(), empty_low()),
        forall|k: int| 0 <= k < 9 ==> line_filed(book@, *placeable, #[trigger] viper::viper_ways()[k], viper::tsd_field()),
        forall|k: int| 0 <= k < 6 ==> line_filed(book@, *placeable, #[trigger] pco::pco_shapes()[k], empty_low()),
{
    let mut states: HashMap<u128, (Opener, i32)> = HashMap::new();
    viper::init(&mut states, placeable);
    let ghost mid = states@;
    pco::init(&mut states, placeable);
    proof {
        let pb = set![200i32, 860i32];
        assert forall|k: u128| #[trigger] states@.contains_key(k) implies match states@[k] {
            (Opener::Viper, bonus) => bonus == 0 || bonus == 2000,
            (Opener::Pco, bonus) => bonus == 0 || bonus == 200 || bonus == 860,
        } by {
            if !(states@[k].0 == Opener::Pco && (states@[k].1 == 0 || pb.contains(states@[k].1))) {
                assert(mid.contains_key(k) && states@[k] == mid[k]);
            }
        }
        lemma_line_filed_grown(mid, states@, Opener::Pco, pb, *placeable, viper::tsd_line(), empty_low());
        assert forall|k: int| 0 <= k < 9 implies line_filed(states@, *placeable, #[trigger] viper::viper_ways()[k], viper::tsd_field()) by {
            lemma_line_filed_grown(mid, states@, Opener::Pco, pb, *placeable, viper::viper_ways()[k], viper::tsd_field());
        }
    }
    states
}

} // verus!
