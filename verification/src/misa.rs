use vstd::prelude::*;
use crate::board::{Board, clear_lines, placed_grid};
use crate::evaluation::shapes::{lemma_piece_clears_at_most_four, no_full_rows, on_field};
use crate::moves::{Move, Placement};
use crate::modes::pcloop::copy_movements;
use crate::opener_book::on_field_exec;
use crate::piece::{FallingPiece, Piece, TspinStatus};

verus! {

/// The piece's mirror image: S and Z swap, L and J swap, the others are symmetric.
pub open spec fn mirror_spec(p: Piece) -> Piece {
    match p {
        Piece::S => Piece::Z,
        Piece::Z => Piece::S,
        Piece::L => Piece::J,
        Piece::J => Piece::L,
        other => other,
    }
}

/// The piece's mirror image.
pub fn mirror(piece: Piece) -> (m: Piece)
    ensures
        m == mirror_spec(piece),
{
    match piece {
        Piece::S => Piece::Z,
        Piece::Z => Piece::S,
        Piece::L => Piece::J,
        Piece::J => Piece::L,
        p => p,
    }
}

/// Mirroring a piece twice gives it back.
pub proof fn lemma_mirror_involution(p: Piece)
    ensures
        mirror_spec(mirror_spec(p)) == p,
{
}

/// The character of field cell `i` in the text MisaMino reads: the top twenty rows from the
/// top, each from the right, `'2'` for a filled cell and `'0'` for an empty one.
pub open spec fn field_char(g: Seq<Seq<bool>>, i: int) -> char {
    if g[19 - i / 10][9 - i % 10] {
        '2'
    } else {
        '0'
    }
}

/// The field as MisaMino reads it: two hundred characters, see `field_char`.
pub fn misa_field(board: &Board) -> (s: Vec<char>)
    requires
        board.inv(),
    ensures
        s@.len() == 200,
        forall|i: int| 0 <= i < 200 ==> #[trigger] s@[i] == field_char(board.grid(), i),
{
    proof {
        board.lemma_inv();
    }
    let mut s: Vec<char> = Vec::new();
    let mut y: i32 = 19;
    while y >= 0
        invariant
            -1 <= y <= 19,
            board.inv(),
            s@.len() == 10 * (19 - y),
            forall|i: int| 0 <= i < s@.len() ==> #[trigger] s@[i] == field_char(board.grid(), i),
        decreases y + 1,
    {
        let mut x: i32 = 9;
        while x >= 0
            invariant
                -1 <= x <= 9,
                0 <= y <= 19,
                board.inv(),
                s@.len() == 10 * (19 - y) + (9 - x),
                forall|i: int| 0 <= i < s@.len() ==> #[trigger] s@[i] == field_char(board.grid(), i),
            decreases x + 1,
        {
            let i: Ghost<int> = Ghost(s@.len() as int);
            proof {
                assert(i@ / 10 == 19 - y && i@ % 10 == 9 - x) by (nonlinear_arith)
                    requires
                        i@ == 10 * (19 - y) + (9 - x),
                        0 <= 9 - x < 10,
                ;
            }
            let c = if board.occupied(x, y) {
                '2'
            } else {
                '0'
            };
            s.push(c);
            x = x - 1;
        }
        y = y - 1;
    }
    s
}

/// The next pieces as MisaMino reads them: the held piece, mirrored, then each piece of the
/// queue, mirrored and followed by a comma.
pub open spec fn next_text(hold: Option<Piece>, queue: Seq<Piece>) -> Seq<char> {
    let head: Seq<char> = match hold {
        Some(h) => seq![piece_letter(mirror_spec(h))],
        None => Seq::empty(),
    };
    head + Seq::new(2 * queue.len(), |i: int| if i % 2 == 0 {
        piece_letter(mirror_spec(queue[i / 2]))
    } else {
        ','
    })
}

/// The letter of a piece.
pub open spec fn piece_letter(p: Piece) -> char {
    match p {
        Piece::I => 'I',
        Piece::O => 'O',
        Piece::T => 'T',
        Piece::L => 'L',
        Piece::J => 'J',
        Piece::S => 'S',
        Piece::Z => 'Z',
    }
}

/// The next pieces as MisaMino reads them, see `next_text`.
pub fn misa_next(hold: Option<Piece>, queue: &Vec<Piece>) -> (s: Vec<char>)
    requires
        queue@.len() <= 1000,
    ensures
        s@ == next_text(hold, queue@),
{
    let mut s: Vec<char> = Vec::new();
    let ghost head: Seq<char> = match hold {
        Some(h) => seq![piece_letter(mirror_spec(h))],
        None => Seq::empty(),
    };
    match hold {
        Some(h) => s.push(mirror(h).to_char()),
        None => {},
    }
    assert(s@ =~= head);
    let mut i: usize = 0;
    while i < queue.len()
        invariant
            i <= queue@.len(),
            queue@.len() <= 1000,
            s@ == head + Seq::new(2 * i as nat, |k: int| if k % 2 == 0 {
                piece_letter(mirror_spec(queue@[k / 2]))
            } else {
                ','
            }),
        decreases queue@.len() - i,
    {
        let ghost before = s@;
        s.push(mirror(queue[i]).to_char());
        s.push(',');
        proof {
            let f = |k: int| if k % 2 == 0 {
                piece_letter(mirror_spec(queue@[k / 2]))
            } else {
                ','
            };
            assert((2 * i) % 2 == 0 && (2 * i) / 2 == i && (2 * i + 1) % 2 == 1) by (nonlinear_arith)
                requires
                    i >= 0,
            ;
            assert(s@ =~= head + Seq::new(2 * (i + 1) as nat, f));
        }
        i = i + 1;
    }
    s
}
/// The index of the first `c` in `line` at or after `from`, or the length of the line when there
/// is none.
pub open spec fn find_from(line: Seq<char>, c: char, from: int) -> int
    decreases line.len() - from,
{
    if from >= line.len() {
        line.len() as int
    } else if line[from] == c {
        from
    } else {
        find_from(line, c, from + 1)
    }
}

/// The cursor over the field part of a reply after the characters `cs`: its column and row,
/// and the cells marked filled. A `'2'` marks the cell under the cursor, a `','` moves it one
/// column left, a `';'` to the right end of the row below; `None` once it would leave the
/// field.
pub open spec fn field_walk(cs: Seq<char>) -> Option<(int, int, Set<(int, int)>)>
    decreases cs.len(),
{
    if cs.len() == 0 {
        Some((9, 19, Set::empty()))
    } else {
        match field_walk(cs.drop_last()) {
            None => None,
            Some((x, y, t)) => {
                let c = cs.last();
                if c == '2' {
                    Some((x, y, t.insert((x, y))))
                } else if c == ',' {
                    if x == 0 {
                        None
                    } else {
                        Some((x - 1, y, t))
                    }
                } else if c == ';' {
                    if y == 0 {
                        None
                    } else {
                        Some((9, y - 1, t))
                    }
                } else {
                    Some((x, y, t))
                }
            },
        }
    }
}

/// The cells the cursor marked over `cs`, when it stayed on the field.
pub open spec fn walk_marks(cs: Seq<char>) -> Set<(int, int)> {
    match field_walk(cs) {
        Some((_, _, t)) => t,
        None => Set::empty(),
    }
}

/// The parts of a reply of MisaMino: the lines its placement clears, before the first `'|'`
/// (the last digit counts); whether it spins, between the first and the second (any character
/// but `'0'`); then the field it leaves. A `'-'` in the first part means it has no placement.
pub open spec fn reply_parts(line: Seq<char>) -> (int, int, int) {
    let p1 = find_from(line, '|', 0);
    let p2 = if p1 < line.len() {
        find_from(line, '|', p1 + 1)
    } else {
        line.len() as int
    };
    (p1, p2, find_from(line, '-', 0))
}

/// The field part of a reply: what follows the second `'|'`.
pub open spec fn reply_field(line: Seq<char>) -> Seq<char> {
    let (p1, p2, dash) = reply_parts(line);
    if p2 < line.len() {
        line.subrange(p2 + 1, line.len() as int)
    } else {
        Seq::empty()
    }
}

/// A reply can be read: every character of its first part, up to a `'-'`, is at least `'0'`,
/// and, when it has a placement, the cursor never leaves the field.
pub open spec fn reply_ok(line: Seq<char>) -> bool {
    let (p1, p2, dash) = reply_parts(line);
    let end = if dash < p1 {
        dash
    } else {
        p1
    };
    &&& forall|k: int| 0 <= k < end ==> (#[trigger] line[k]) as u32 >= 48
    &&& dash >= p1 ==> field_walk(reply_field(line)) is Some
}

/// What MisaMino picked: the top twenty rows of the field its placement leaves, the lines it
/// clears, and whether it spins.
pub struct MisaTarget {
    pub target: [[bool; 10]; 20],
    pub lines: usize,
    pub uses_spin: bool,
}

/// Whether a reply of MisaMino can be read, see `reply_ok`.
pub fn reply_readable(line: &Vec<char>) -> (b: bool)
    ensures
        b == reply_ok(line@),
{
    let p1 = find_char(line, '|', 0);
    let p2 = if p1 < line.len() {
        find_char(line, '|', p1 + 1)
    } else {
        line.len()
    };
    let dash = find_char(line, '-', 0);
    let end = if dash < p1 {
        dash
    } else {
        p1
    };
    let mut k: usize = 0;
    while k < end
        invariant
            k <= end <= line@.len(),
            forall|j: int| 0 <= j < k ==> (#[trigger] line@[j]) as u32 >= 48,
            p1 == find_from(line@, '|', 0),
            dash == find_from(line@, '-', 0),
            end == (if dash < p1 { dash } else { p1 }),
        decreases end - k,
    {
        if (line[k] as u32) < 48 {
            proof {
                let (sp1, sp2, sdash) = reply_parts(line@);
                assert(sp1 == p1 && sdash == dash);
                assert(!((line@[k as int]) as u32 >= 48));
            }
            return false;
        }
        k = k + 1;
    }
    if dash < p1 {
        return true;
    }
    let walked = walk_field(line, p2);
    walked.is_some()
}

/// The index of the first `c` in `line` at or after `from`, or the length of the line.
fn find_char(line: &Vec<char>, c: char, from: usize) -> (i: usize)
    requires
        from <= line@.len(),
    ensures
        i == find_from(line@, c, from as int),
        from <= i <= line@.len(),
    decreases line@.len() - from,
{
    if from >= line.len() {
        line.len()
    } else if line[from] == c {
        from
    } else {
        find_char(line, c, from + 1)
    }
}

/// Walks the cursor over the field part of a reply, which follows index `p2`: the cells it
/// marks, or `None` once it would leave the field.
fn walk_field(line: &Vec<char>, p2: usize) -> (r: Option<[[bool; 10]; 20]>)
    requires
        p2 <= line@.len(),
    ensures
        ({
            let cs = if p2 < line@.len() {
                line@.subrange(p2 + 1, line@.len() as int)
            } else {
                Seq::<char>::empty()
            };
            &&& r is None <==> field_walk(cs) is None
            &&& r matches Some(t) ==> forall|x: int, y: int|
                0 <= x < 10 && 0 <= y < 20 ==> (#[trigger] t@[y]@[x] <==> walk_marks(cs).contains((x, y)))
        }),
{
    let ghost cs = if p2 < line@.len() {
        line@.subrange(p2 + 1, line@.len() as int)
    } else {
        Seq::<char>::empty()
    };
    let mut target = [[false; 10]; 20];
    let mut x: usize = 9;
    let mut y: usize = 19;
    let start = if p2 < line.len() {
        p2 + 1
    } else {
        line.len()
    };
    let mut k: usize = start;
    proof {
        assert(cs.subrange(0, 0) =~= Seq::<char>::empty());
    }
    while k < line.len()
        invariant
            start <= k <= line@.len(),
            start == (if p2 < line@.len() { p2 + 1 } else { line@.len() as int }),
            cs == line@.subrange(start as int, line@.len() as int),
            x < 10,
            y < 20,
            field_walk(cs.subrange(0, k - start)) matches Some((fx, fy, t)) && fx == x && fy == y && forall|cx: int, cy: int|
                0 <= cx < 10 && 0 <= cy < 20 ==> (#[trigger] target@[cy]@[cx] <==> t.contains((cx, cy))),
        decreases line@.len() - k,
    {
        let c = line[k];
        let ghost pre = cs.subrange(0, k - start);
        proof {
            assert(cs.subrange(0, k + 1 - start).drop_last() =~= pre);
            assert(cs.subrange(0, k + 1 - start).last() == c);
        }
        if c == '2' {
            let mut row = target[y];
            row[x] = true;
            target[y] = row;
        } else if c == ',' {
            if x == 0 {
                proof {
                    lemma_walk_stays_out(cs, k + 1 - start);
                }
                return None;
            }
            x = x - 1;
        } else if c == ';' {
            if y == 0 {
                proof {
                    lemma_walk_stays_out(cs, k + 1 - start);
                }
                return None;
            }
            x = 9;
            y = y - 1;
        }
        k = k + 1;
    }
    proof {
        assert(cs.subrange(0, line@.len() - start) =~= cs);
    }
    Some(target)
}

/// Once the cursor leaves the field it stays out.
proof fn lemma_walk_stays_out(cs: Seq<char>, n: int)
    requires
        0 <= n <= cs.len(),
        field_walk(cs.subrange(0, n)) is None,
    ensures
        field_walk(cs) is None,
    decreases cs.len() - n,
{
    if n < cs.len() {
        assert(cs.subrange(0, n + 1).drop_last() =~= cs.subrange(0, n));
        lemma_walk_stays_out(cs, n + 1);
    } else {
        assert(cs.subrange(0, n) =~= cs);
    }
}

/// Reads a reply of MisaMino: `None` when it has no placement, else the field its placement
/// leaves, the lines it clears and whether it spins, see `reply_parts`.
pub fn read_reply(line: &Vec<char>) -> (r: Option<MisaTarget>)
    requires
        reply_ok(line@),
    ensures
        ({
            let (p1, p2, dash) = reply_parts(line@);
            &&& r is None <==> dash < p1
            &&& r matches Some(m) ==> {
                &&& m.lines as int == (if p1 > 0 { line@[p1 - 1] as u32 - 48 } else { 0 })
                &&& m.uses_spin == exists|k: int| p1 < k < p2 && #[trigger] line@[k] != '0'
                &&& forall|x: int, y: int| 0 <= x < 10 && 0 <= y < 20 ==> (#[trigger] m.target@[y]@[x]
                    <==> walk_marks(reply_field(line@)).contains((x, y)))
            }
        }),
{
    let p1 = find_char(line, '|', 0);
    let p2 = if p1 < line.len() {
        find_char(line, '|', p1 + 1)
    } else {
        line.len()
    };
    let dash = find_char(line, '-', 0);
    if dash < p1 {
        return None;
    }
    let lines: usize = if p1 > 0 {
        proof {
            assert(line@[p1 - 1] as u32 >= 48);
        }
        (line[p1 - 1] as u32 - 48) as usize
    } else {
        0
    };
    let mut uses_spin = false;
    let mut k: usize = if p1 < line.len() {
        p1 + 1
    } else {
        line.len()
    };
    while k < p2
        invariant
            k <= p2 <= line@.len(),
            p1 < line@.len() ==> p1 + 1 <= k,
            p1 >= line@.len() ==> p2 == line@.len() && k == line@.len(),
            uses_spin == exists|j: int| p1 < j < k && #[trigger] line@[j] != '0',
        decreases p2 - k,
    {
        if line[k] != '0' {
            uses_spin = true;
        }
        k = k + 1;
    }
    let target = match walk_field(line, p2) {
        Some(t) => t,
        None => {
            proof {
                assert(false);
            }
            [[false; 10]; 20]
        },
    };
    Some(MisaTarget { target, lines, uses_spin })
}
/// Locking `p` on grid `g` leaves the field MisaMino aims at, in the rows below those its
/// placement clears out of the top twenty.
pub open spec fn matches_target(g: Seq<Seq<bool>>, p: FallingPiece, t: MisaTarget) -> bool {
    let after = clear_lines(placed_grid(g, p));
    forall|y: int, x: int| 0 <= y < 20 - t.lines && 0 <= x < 10 ==> #[trigger] after[y][x] == t.target@[y]@[x]
}

/// Placement `p` is the one MisaMino picked: it lies on the field, leaves the field it aims at,
/// and, for a T, spins exactly when it said it would.
pub open spec fn misa_fit(g: Seq<Seq<bool>>, p: FallingPiece, t: MisaTarget) -> bool {
    &&& p.in_range()
    &&& on_field(p)
    &&& matches_target(g, p, t)
    &&& !(p.kind.0 == Piece::T && ((p.tspin == TspinStatus::NoSpin) == t.uses_spin))
}

/// Placement `k` of `ps` is the first one MisaMino picked.
pub open spec fn first_fit(g: Seq<Seq<bool>>, ps: Seq<Placement>, t: MisaTarget, k: int) -> bool {
    &&& 0 <= k < ps.len()
    &&& misa_fit(g, ps[k].location, t)
    &&& forall|j: int| 0 <= j < k ==> !misa_fit(g, #[trigger] ps[j].location, t)
}

/// The first of `ps` that is the placement MisaMino picked.
fn find_fit(board: &Board, ps: &Vec<Placement>, t: &MisaTarget) -> (r: Option<usize>)
    requires
        board.wf(),
        no_full_rows(board.grid()),
        board.combo_of() < u32::MAX,
        t.lines <= 20,
    ensures
        r matches Some(k) ==> first_fit(board.grid(), ps@, *t, k as int),
        r is None ==> forall|j: int| 0 <= j < ps@.len() ==> !misa_fit(board.grid(), #[trigger] ps@[j].location, *t),
{
    let mut i: usize = 0;
    while i < ps.len()
        invariant
            i <= ps@.len(),
            board.wf(),
            no_full_rows(board.grid()),
            board.combo_of() < u32::MAX,
            t.lines <= 20,
            forall|j: int| 0 <= j < i ==> !misa_fit(board.grid(), #[trigger] ps@[j].location, *t),
        decreases ps@.len() - i,
    {
        let p = ps[i].location;
        let in_range = i32::MIN + 2 <= p.x && p.x <= i32::MAX - 2 && i32::MIN + 3 <= p.y && p.y <= i32::MAX - 3;
        if in_range && on_field_exec(&p) {
            let mut b = board.clone_board();
            proof {
                board.lemma_inv();
                lemma_piece_clears_at_most_four(board.grid(), p);
            }
            let _ = b.lock_piece(p);
            proof {
                b.lemma_inv();
            }
            let mut same = true;
            let rows = 20 - t.lines;
            let mut y: usize = 0;
            while y < rows && same
                invariant
                    y <= rows,
                    rows == 20 - t.lines,
                    b.inv(),
                    b.grid() == clear_lines(placed_grid(board.grid(), p)),
                    same == forall|yy: int, x: int| 0 <= yy < y && 0 <= x < 10 ==> #[trigger] b.grid()[yy][x] == t.target@[yy]@[x],
                decreases rows - y,
            {
                let mut x: usize = 0;
                while x < 10 && same
                    invariant
                        x <= 10,
                        y < rows,
                        rows <= 20,
                        b.inv(),
                        same == ((forall|yy: int, xx: int| 0 <= yy < y && 0 <= xx < 10 ==> #[trigger] b.grid()[yy][xx]
                            == t.target@[yy]@[xx]) && forall|xx: int| 0 <= xx < x ==> #[trigger] b.grid()[y as int][xx]
                            == t.target@[y as int]@[xx]),
                    decreases 10 - x,
                {
                    if b.occupied(x as i32, y as i32) != t.target[y][x] {
                        same = false;
                    }
                    x = x + 1;
                }
                y = y + 1;
            }
            let spin_ok = !(p.kind.0 == Piece::T && ((p.tspin == TspinStatus::NoSpin) == t.uses_spin));
            if same && spin_ok {
                return Some(i);
            }
        }
        i = i + 1;
    }
    None
}

/// Finds the placement MisaMino picked among the placements of the next piece, `no_hold`, then
/// among those of the piece hold gives, `with_hold`: the move, holding first for the latter,
/// and the board after it, where `board` is the board before with the next piece taken off
/// the queue. `None` when neither list has it.
pub fn pick_misa_move(
    board: &Board,
    next_piece: Piece,
    t: &MisaTarget,
    no_hold: Option<Vec<Placement>>,
    with_hold: Option<Vec<Placement>>,
) -> (r: Option<(Move, Board)>)
    requires
        board.wf(),
        no_full_rows(board.grid()),
        board.combo_of() < u32::MAX,
        t.lines <= 20,
    ensures
        ({
            let g = board.grid();
            let none_plain = no_hold matches Some(ps) ==> forall|j: int| 0 <= j < ps@.len() ==> !misa_fit(g, #[trigger] ps@[j].location, *t);
            let none_held = with_hold matches Some(ps) ==> forall|j: int| 0 <= j < ps@.len() ==> !misa_fit(g, #[trigger] ps@[j].location, *t);
            &&& r is None <==> none_plain && none_held
            &&& r matches Some((mv, nb)) ==> {
                &&& nb.grid() == clear_lines(placed_grid(g, mv.expected_location))
                &&& {
                    ||| (no_hold matches Some(ps) && exists|k: int| #[trigger] first_fit(g, ps@, *t, k) && mv.expected_location
                        == ps@[k].location && mv.inputs@ == ps@[k].inputs.movements@ && !mv.hold && nb.hold_of() == board.hold_of()
                        && nb.queue() == board.queue())
                    ||| (none_plain && (with_hold matches Some(ps) && exists|k: int| #[trigger] first_fit(g, ps@, *t, k)
                        && mv.expected_location == ps@[k].location && mv.inputs@ == ps@[k].inputs.movements@ && mv.hold
                        && nb.hold_of() == Some(next_piece) && nb.queue() == (if board.hold_of() is None && board.queue().len() > 0 {
                        board.queue().drop_first()
                    } else {
                        board.queue()
                    })))
                }
            }
        }),
{
    match &no_hold {
        Some(ps) => {
            match find_fit(board, ps, t) {
                Some(k) => {
                    let p = ps[k].location;
                    let mut b = board.clone_board();
                    proof {
                        board.lemma_inv();
                        lemma_piece_clears_at_most_four(board.grid(), p);
                    }
                    let _ = b.lock_piece(p);
                    let mv = Move { inputs: copy_movements(&ps[k].inputs.movements), expected_location: p, hold: false };
                    return Some((mv, b));
                },
                None => {},
            }
        },
        None => {},
    }
    match &with_hold {
        Some(ps) => {
            match find_fit(board, ps, t) {
                Some(k) => {
                    let p = ps[k].location;
                    let mut b = board.clone_board();
                    let _ = b.hold(next_piece);
                    proof {
                        board.lemma_inv();
                        lemma_piece_clears_at_most_four(board.grid(), p);
                        board.lemma_same_state_wf(b);
                    }
                    let _ = b.lock_piece(p);
                    if board.held_piece().is_none() {
                        let _ = b.advance_queue();
                    }
                    let mv = Move { inputs: copy_movements(&ps[k].inputs.movements), expected_location: p, hold: true };
                    return Some((mv, b));
                },
                None => {},
            }
        },
        None => {},
    }
    None
}

} // verus!
