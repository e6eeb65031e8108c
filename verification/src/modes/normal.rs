//! The normal search: a graph of positions grown one leaf at a time, and the move it picks.
use vstd::prelude::*;
use crate::Options;
use crate::board::Board;
use crate::dag::{
    ChildData, DagState, garbage_rise, MAX_GENERATIONS, NodeId, boards_wf, candidates_of, known_filed,
    known_fits, lemma_candidate_playable, made_for, moved_on, piece_added, piece_at, piece_filed,
    plan_of, reset_to, slot_piece, speculated_filed, speculated_fits, unmarked,
};
use crate::evaluation::MoveCandidate;
use crate::evaluation::standard::{Reward, Standard, Value, is_pick};
use crate::evaluation::features::max_height;
use crate::evaluation::shapes::{lemma_clear_lines_not_full, lemma_piece_clears_at_most_four, no_full_rows, on_field};
use crate::board::{clear_lines, full_rows, placed_grid};
use crate::moves::{MovementMode, Placement};
use crate::piece::{FallingPiece, LockResult, Piece, PlacementKind, placement_kind_spec};

verus! {

/// What the normal search reports with a move: the size and depth of its tree, the rank the
/// chosen move had, its evaluation and the line it expects to play.
#[derive(Clone, Debug, PartialEq, Eq, Hash)]
pub struct Info {
    pub nodes: u32,
    pub depth: u32,
    pub original_rank: u32,
    pub evaluation_result: i32,
    pub plan: Vec<(FallingPiece, LockResult)>,
}

/// A leaf handed out for expansion: its node, the board reached at it, and the options.
pub struct Thinker {
    node: NodeId,
    board: Board,
    options: Options,
}

/// What the expansion of a leaf found.
pub enum ThinkResult {
    /// The children for the piece that comes next, which is known.
    Known(NodeId, Vec<ChildData>),
    /// For each piece in the canonical order, the children if that piece may come next.
    Speculated(NodeId, Vec<Option<Vec<ChildData>>>),
    /// Nothing was found: the leaf may be handed out again.
    Unmark(NodeId),
}

/// The state of the normal search: the graph, the options, the lines to look at first, and
/// the number of expansions handed out that have not come back.
pub struct BotState {
    tree: DagState,
    options: Options,
    forced_analysis_lines: Vec<Vec<FallingPiece>>,
    pub outstanding_thinks: u32,
}

/// `line` with every placement moved up by `d` rows, wrapping as `i32` does.
pub open spec fn shift_line(line: Seq<FallingPiece>, d: i32) -> Seq<FallingPiece> {
    Seq::new(line.len(), |i: int| FallingPiece { y: line[i].y.wrapping_add(d), ..line[i] })
}

/// The placements of a plan.
pub open spec fn placements(plan: Seq<(FallingPiece, LockResult)>) -> Seq<FallingPiece> {
    Seq::new(plan.len(), |i: int| plan[i].0)
}

/// Every board that an expansion result carries is well formed.
pub open spec fn result_boards_wf(r: ThinkResult) -> bool {
    match r {
        ThinkResult::Known(_, ch) => boards_wf(ch@),
        ThinkResult::Speculated(_, ch) => forall|s: int|
            0 <= s < ch@.len() && #[trigger] ch@[s] is Some ==> boards_wf(ch@[s]->0@),
        ThinkResult::Unmark(_) => true,
    }
}

/// The root of graph `d` is neither expanded nor handed out.
pub open spec fn root_fresh(d: DagState) -> bool {
    !d.generation(0).expanded(d.root_of()) && !d.generation(0).marked(d.root_of())
}

/// The root of graph `d` is dead: it was expanded and has no children.
pub open spec fn dead_root(d: DagState) -> bool {
    d.generation(0).known(d.root_of()) == Some(Seq::<crate::dag::Child>::empty())
}

/// The number of nodes of graph `d`, or `u32::MAX` when there are more.
pub open spec fn capped_nodes(d: DagState) -> u32 {
    if d.total_nodes() <= u32::MAX {
        d.total_nodes() as u32
    } else {
        u32::MAX
    }
}

/// A copy of `line` with every placement moved up by `d` rows.
fn shifted(line: &Vec<FallingPiece>, d: i32) -> (r: Vec<FallingPiece>)
    ensures
        r@ == shift_line(line@, d),
{
    let mut r: Vec<FallingPiece> = Vec::new();
    let mut i: usize = 0;
    while i < line.len()
        invariant
            i <= line@.len(),
            r@ == shift_line(line@.take(i as int), d),
        decreases line@.len() - i,
    {
        let mut p = line[i];
        p.y = p.y.wrapping_add(d);
        r.push(p);
        proof {
            assert(shift_line(line@.take(i + 1), d) =~= shift_line(line@.take(i as int), d).push(p));
        }
        i = i + 1;
    }
    assert(line@.take(line@.len() as int) =~= line@);
    r
}

impl Thinker {
    /// The node to expand.
    pub closed spec fn node_of(&self) -> NodeId {
        self.node
    }

    /// The board reached at the node.
    pub closed spec fn board_of(&self) -> Board {
        self.board
    }

    /// The options of the search.
    pub closed spec fn options_of(&self) -> Options {
        self.options
    }

    /// The board is well formed.
    pub closed spec fn wf(&self) -> bool {
        self.board.wf()
    }

    /// Expands the leaf: lists the placements of the next piece, and of the piece hold gives,
    /// with their boards and evaluations by `eval`, the placements coming from `find_moves`, the
    /// movement search. When the next piece is not known, or hold is empty and the piece after
    /// the next is not known, the expansion guesses: for each piece that may come it expands the
    /// board with that piece added to the queue, and without guessing the leaf is given back.
    /// Otherwise it expands the board itself.
    pub fn think<M: Fn(&Board, FallingPiece, MovementMode) -> Vec<Placement>>(
        self,
        eval: &Standard,
        find_moves: &M,
    ) -> (r: ThinkResult)
        requires
            self.wf(),
            forall|b: Board, p: FallingPiece, m: MovementMode| #[trigger] find_moves.requires((&b, p, m)),
        ensures
            ({
                let b = self.board_of();
                let q = b.queue();
                let guess = q.len() == 0 || (self.options_of().use_hold && b.hold_of() is None
                    && q.len() <= 1);
                &&& guess && self.options_of().speculate ==> (r matches ThinkResult::Speculated(node, ch)
                    && node == self.node_of() && ch@.len() == 7 && forall|s: int|
                    0 <= s < 7 ==> (#[trigger] ch@[s] is Some) == b.bag_of().has(slot_piece(s)))
                &&& guess && !self.options_of().speculate ==> r == ThinkResult::Unmark(self.node_of())
                &&& !guess ==> (r matches ThinkResult::Known(node, _) && node == self.node_of())
                &&& result_boards_wf(r)
                &&& result_from_search(r, *find_moves, self.options_of().mode, *eval)
            }),
    {
        let possible = match self.board.get_next_piece() {
            Err(bag) => bag,
            Ok(_) => {
                if !(self.options.use_hold && self.board.held_piece().is_none()
                    && self.board.get_next_next_piece().is_none()) {
                    let node = self.node;
                    let ch = self.make_children(self.board.clone_board(), eval, find_moves);
                    return ThinkResult::Known(node, ch);
                }
                let mut b = self.board.clone_board();
                let _ = b.advance_queue();
                match b.get_next_piece() {
                    Err(bag) => bag,
                    Ok(_) => {
                        proof {
                            assert(false);
                        }
                        return ThinkResult::Unmark(self.node);
                    },
                }
            },
        };
        if !self.options.speculate {
            return ThinkResult::Unmark(self.node);
        }
        let mut children: Vec<Option<Vec<ChildData>>> = Vec::new();
        let mut s: usize = 0;
        while s < 7
            invariant
                s <= 7,
                self.wf(),
                forall|b: Board, p: FallingPiece, m: MovementMode| #[trigger] find_moves.requires((&b, p, m)),
                possible == self.board.bag_of(),
                children@.len() == s,
                forall|t: int| 0 <= t < s ==> (#[trigger] children@[t] is Some) == possible.has(slot_piece(t)),
                forall|t: int| 0 <= t < s && #[trigger] children@[t] is Some ==> boards_wf(children@[t]->0@)
                    && all_from_search(children@[t]->0@, *find_moves, self.options.mode, *eval),
            decreases 7 - s,
        {
            let p = piece_at(s);
            if possible.contains(p) {
                let mut b = self.board.clone_board();
                b.add_next_piece(p);
                proof {
                    self.board.lemma_same_state_wf(b);
                }
                let v = self.make_children(b, eval, find_moves);
                children.push(Some(v));
            } else {
                children.push(None);
            }
            s = s + 1;
        }
        ThinkResult::Speculated(self.node, children)
    }

    /// Lists the children of `board`: the placements of its next piece, then, with hold, those
    /// of the piece hold gives when it differs. A board with a full row, an empty queue where
    /// a piece is needed, or a combo counter at its limit has no children listed.
    fn make_children<M: Fn(&Board, FallingPiece, MovementMode) -> Vec<Placement>>(
        &self,
        board: Board,
        eval: &Standard,
        find_moves: &M,
    ) -> (ch: Vec<ChildData>)
        requires
            board.wf(),
            forall|b: Board, p: FallingPiece, m: MovementMode| #[trigger] find_moves.requires((&b, p, m)),
        ensures
            boards_wf(ch@),
            all_from_search(ch@, *find_moves, self.options.mode, *eval),
            children_made(self.options, *eval, *find_moves, board, ch@),
    {
        let mut children: Vec<ChildData> = Vec::new();
        if crate::dag::has_full_row(&board) || board.combo_count() > u32::MAX - 5 {
            return children;
        }
        let mut board = board;
        let ghost b0 = board;
        let next = match board.advance_queue() {
            Some(p) => p,
            None => return children,
        };
        let ghost b1 = board;
        proof {
            b0.lemma_same_state_wf(board);
            assert(took_next(b0, b1));
        }
        let spawned = match self.options.spawn_rule.spawn(next, &board) {
            Some(s) => s,
            None => {
                proof {
                    assert(took_next(b0, b1) && b1.wf() && self.options.spawn_rule.spawn_spec(next, b1) is None);
                }
                return children;
            },
        };
        add_children(&mut children, &board, eval, spawned, false, self.options.mode, find_moves);
        let ghost n = children@.len() as int;
        let ghost first = children@;
        proof {
            assert(children@.subrange(0, n) =~= first);
            assert(first.subrange(0, 0) =~= Seq::<ChildData>::empty());
        }
        if self.options.use_hold {
            let hold = match board.hold(next) {
                Some(h) => h,
                None => match board.advance_queue() {
                    Some(p) => p,
                    None => {
                        proof {
                            assert(children@.subrange(n, n) =~= Seq::<ChildData>::empty());
                            assert(hold_children(self.options, *eval, *find_moves, b1, next, children@.subrange(n, n)));
                            lemma_made(self.options, *eval, *find_moves, b0, b1, spawned, children@, n);
                        }
                        return children;
                    },
                },
            };
            let ghost b2 = board;
            proof {
                b1.lemma_same_state_wf(board);
                assert(held(b1, next, b2));
                assert(hold_gives(b1) == Some(hold));
            }
            if hold == next {
                proof {
                    assert(children@.subrange(n, n) =~= Seq::<ChildData>::empty());
                    lemma_made(self.options, *eval, *find_moves, b0, b1, spawned, children@, n);
                }
                return children;
            }
            let spawned2 = match self.options.spawn_rule.spawn(hold, &board) {
                Some(s) => s,
                None => {
                    proof {
                        assert(children@.subrange(n, n) =~= Seq::<ChildData>::empty());
                        assert(held(b1, next, b2) && b2.wf() && self.options.spawn_rule.spawn_spec(hold, b2) is None);
                        lemma_made(self.options, *eval, *find_moves, b0, b1, spawned, children@, n);
                    }
                    return children;
                },
            };
            add_children(&mut children, &board, eval, spawned2, true, self.options.mode, find_moves);
            proof {
                assert(children@.subrange(0, n) == first);
                let ps2 = choose|ps: Vec<Placement>| #![trigger find_moves.ensures((&b2, spawned2, self.options.mode), ps)]
                    find_moves.ensures((&b2, spawned2, self.options.mode), ps) && children_listed(
                        *eval, b2, ps@, ps@.len() as int, spawned2.kind.0, true, children@.subrange(n, children@.len() as int));
                assert(hold_children(self.options, *eval, *find_moves, b1, next, children@.subrange(n, children@.len() as int)));
                lemma_made(self.options, *eval, *find_moves, b0, b1, spawned, children@, n);
            }
        } else {
            proof {
                assert(children@.subrange(n, n) =~= Seq::<ChildData>::empty());
                lemma_made(self.options, *eval, *find_moves, b0, b1, spawned, children@, n);
            }
        }
        children
    }
}

/// `b1` is `b0` with its next piece taken from the queue.
pub open spec fn took_next(b0: Board, b1: Board) -> bool {
    &&& b1.rows() == b0.rows()
    &&& b1.heights_seq() == b0.heights_seq()
    &&& b1.queue() == b0.queue().drop_first()
    &&& b1.hold_of() == b0.hold_of()
    &&& b1.bag_of() == b0.bag_of()
    &&& b1.combo_of() == b0.combo_of()
    &&& b1.b2b_of() == b0.b2b_of()
}

/// `b2` is `b1` after `next` went to hold; with hold empty, the piece that plays instead was
/// taken from the queue.
pub open spec fn held(b1: Board, next: Piece, b2: Board) -> bool {
    &&& b2.rows() == b1.rows()
    &&& b2.heights_seq() == b1.heights_seq()
    &&& b2.hold_of() == Some(next)
    &&& b2.queue() == (if b1.hold_of() is Some {
        b1.queue()
    } else {
        b1.queue().drop_first()
    })
    &&& b2.bag_of() == b1.bag_of()
    &&& b2.combo_of() == b1.combo_of()
    &&& b2.b2b_of() == b1.b2b_of()
}

/// The piece that hold gives on `b1`: the held one, or with hold empty the next of the queue.
pub open spec fn hold_gives(b1: Board) -> Option<Piece> {
    match b1.hold_of() {
        Some(h) => Some(h),
        None => if b1.queue().len() > 0 {
            Some(b1.queue()[0])
        } else {
            None
        },
    }
}

/// `ch` are the children for the piece that hold gives on `b1` after `next` was taken: none
/// without hold, when hold gives nothing or `next` again, or when the piece is blocked;
/// otherwise those of its placements that `find_moves` gives, the move counting a frame more.
pub open spec fn hold_children<M: Fn(&Board, FallingPiece, MovementMode) -> Vec<Placement>>(
    options: Options,
    eval: Standard,
    find_moves: M,
    b1: Board,
    next: Piece,
    ch: Seq<ChildData>,
) -> bool {
    if !options.use_hold {
        ch.len() == 0
    } else {
        match hold_gives(b1) {
            None => ch.len() == 0,
            Some(h) => if h == next {
                ch.len() == 0
            } else {
                exists|b2: Board|
                    #![trigger held(b1, next, b2)]
                    held(b1, next, b2) && b2.wf() && match options.spawn_rule.spawn_spec(h, b2) {
                        None => ch.len() == 0,
                        Some(s2) => exists|ps: Vec<Placement>|
                            #![trigger find_moves.ensures((&b2, s2, options.mode), ps)]
                            find_moves.ensures((&b2, s2, options.mode), ps) && children_listed(
                                eval,
                                b2,
                                ps@,
                                ps@.len() as int,
                                s2.kind.0,
                                true,
                                ch,
                            ),
                    }
            },
        }
    }
}

/// `ch` are the children that expanding `b0` gives: none when the board has a full row, its
/// combo counter is at its limit or its queue is empty; otherwise, on the board with the next
/// piece taken, none when that piece is blocked, else those of its placements that
/// `find_moves` gives, followed by the children for the piece hold gives.
pub open spec fn children_made<M: Fn(&Board, FallingPiece, MovementMode) -> Vec<Placement>>(
    options: Options,
    eval: Standard,
    find_moves: M,
    b0: Board,
    ch: Seq<ChildData>,
) -> bool {
    if !no_full_rows(b0.grid()) || b0.combo_of() > u32::MAX - 5 || b0.queue().len() == 0 {
        ch.len() == 0
    } else {
        let next = b0.queue()[0];
        exists|b1: Board|
            #![trigger took_next(b0, b1)]
            took_next(b0, b1) && b1.wf() && match options.spawn_rule.spawn_spec(next, b1) {
                None => ch.len() == 0,
                Some(s1) => exists|ps: Vec<Placement>, n: int|
                    #![trigger find_moves.ensures((&b1, s1, options.mode), ps), ch.subrange(0, n)]
                    {
                        &&& find_moves.ensures((&b1, s1, options.mode), ps)
                        &&& 0 <= n <= ch.len()
                        &&& children_listed(eval, b1, ps@, ps@.len() as int, s1.kind.0, false, ch.subrange(0, n))
                        &&& hold_children(options, eval, find_moves, b1, next, ch.subrange(n, ch.len() as int))
                    },
            }
    }
}

/// Putting the children together: those of the next piece, then those hold gives.
proof fn lemma_made<M: Fn(&Board, FallingPiece, MovementMode) -> Vec<Placement>>(
    options: Options,
    eval: Standard,
    find_moves: M,
    b0: Board,
    b1: Board,
    s1: FallingPiece,
    ch: Seq<ChildData>,
    n: int,
)
    requires
        no_full_rows(b0.grid()),
        b0.combo_of() <= u32::MAX - 5,
        b0.queue().len() > 0,
        took_next(b0, b1),
        b1.wf(),
        options.spawn_rule.spawn_spec(b0.queue()[0], b1) == Some(s1),
        0 <= n <= ch.len(),
        exists|ps: Vec<Placement>|
            #![trigger find_moves.ensures((&b1, s1, options.mode), ps)]
            find_moves.ensures((&b1, s1, options.mode), ps) && children_listed(
                eval,
                b1,
                ps@,
                ps@.len() as int,
                s1.kind.0,
                false,
                ch.subrange(0, n),
            ),
        hold_children(options, eval, find_moves, b1, b0.queue()[0], ch.subrange(n, ch.len() as int)),
    ensures
        children_made(options, eval, find_moves, b0, ch),
{
    let ps = choose|ps: Vec<Placement>|
        #![trigger find_moves.ensures((&b1, s1, options.mode), ps)]
        find_moves.ensures((&b1, s1, options.mode), ps) && children_listed(
            eval,
            b1,
            ps@,
            ps@.len() as int,
            s1.kind.0,
            false,
            ch.subrange(0, n),
        );
    assert(find_moves.ensures((&b1, s1, options.mode), ps));
    assert(ch.subrange(0, n) == ch.subrange(0, n));
}

/// `c` is placement `p` of a piece of kind `kind`, locked on `b0` and evaluated by `eval`; the
/// move takes `p`'s time, and a frame more when it held first.
pub open spec fn evaluated_child(eval: Standard, b0: Board, p: Placement, kind: Piece, hold: bool, c: ChildData) -> bool {
    let time = p.inputs.time + if hold {
        1int
    } else {
        0
    };
    &&& c.mv == p.location
    &&& c.board.wf()
    &&& c.board.grid() == clear_lines(placed_grid(b0.grid(), p.location))
    &&& c.board.queue() == b0.queue()
    &&& c.board.hold_of() == b0.hold_of()
    &&& c.evaluation.value == eval.transient_spec(&c.board) as i32
    &&& c.evaluation.spike == 0
    &&& rewarded(eval, b0, p.location, kind, time, c)
}

/// The reward of `c` is what `eval` gives a lock of `loc` on `b0` by a piece of kind `kind`,
/// taking `time` frames.
pub open spec fn rewarded(eval: Standard, b0: Board, loc: FallingPiece, kind: Piece, time: int, c: ChildData) -> bool {
    exists|l: LockResult|
        #![trigger eval.reward_spec(l, max_height(c.board.grid(), 10), time, kind)]
        {
            &&& l.placement_kind == placement_kind_spec(
                full_rows(placed_grid(b0.grid(), loc), 40).len() as int,
                loc.tspin,
            )
            &&& c.reward.value == eval.reward_spec(l, max_height(c.board.grid(), 10), time, kind) as i32
            &&& c.reward.attack == Standard::attack_spec(l)
        }
}

/// `c` came from the movement search: it is one of the placements `find_moves` gave for a
/// piece on some board, locked and evaluated.
pub open spec fn from_search<M: Fn(&Board, FallingPiece, MovementMode) -> Vec<Placement>>(
    c: ChildData,
    find_moves: M,
    mode: MovementMode,
    eval: Standard,
) -> bool {
    exists|b: Board, spawned: FallingPiece, ps: Vec<Placement>, j: int, hold: bool|
        #![trigger find_moves.ensures((&b, spawned, mode), ps), ps@[j], evaluated_child(eval, b, ps@[j], spawned.kind.0, hold, c)]
        find_moves.ensures((&b, spawned, mode), ps) && 0 <= j < ps@.len() && evaluated_child(
            eval,
            b,
            ps@[j],
            spawned.kind.0,
            hold,
            c,
        )
}

/// Every child came from the movement search.
pub open spec fn all_from_search<M: Fn(&Board, FallingPiece, MovementMode) -> Vec<Placement>>(
    ch: Seq<ChildData>,
    find_moves: M,
    mode: MovementMode,
    eval: Standard,
) -> bool {
    forall|i: int| 0 <= i < ch.len() ==> from_search(#[trigger] ch[i], find_moves, mode, eval)
}

/// Every child of an expansion result came from the movement search.
pub open spec fn result_from_search<M: Fn(&Board, FallingPiece, MovementMode) -> Vec<Placement>>(
    r: ThinkResult,
    find_moves: M,
    mode: MovementMode,
    eval: Standard,
) -> bool {
    match r {
        ThinkResult::Known(_, ch) => all_from_search(ch@, find_moves, mode, eval),
        ThinkResult::Speculated(_, ch) => forall|s: int|
            0 <= s < ch@.len() && #[trigger] ch@[s] is Some ==> all_from_search(ch@[s]->0@, find_moves, mode, eval),
        ThinkResult::Unmark(_) => true,
    }
}

/// The piece could simply be dropped: every cell of it lies at or above the top of its
/// column, and every column is below row 18.
pub open spec fn droppable(b0: Board, loc: FallingPiece) -> bool {
    &&& forall|i: int| 0 <= i < 4 ==> #[trigger] loc.cell(i).1 >= b0.height(loc.cell(i).0)
    &&& forall|x: int| 0 <= x < 10 ==> #[trigger] b0.height(x) < 18
}

/// Placement `p` gives a child of `b0`: it lies on the playfield, takes fewer than `u32::MAX` frames,
/// does not lock out above the visible field, and is no mini T-spin where the piece could
/// simply be dropped.
pub open spec fn kept_placement(b0: Board, p: Placement) -> bool {
    let loc = p.location;
    &&& loc.in_range()
    &&& on_field(loc)
    &&& p.inputs.time < u32::MAX
    &&& !(forall|i: int| 0 <= i < 4 ==> #[trigger] loc.cell(i).1 >= 20)
    &&& !(droppable(b0, loc) && placement_kind_spec(
        full_rows(placed_grid(b0.grid(), loc), 40).len() as int,
        loc.tspin,
    ) == PlacementKind::MiniTspin)
}

/// The placements among the first `n` of `ps` that give children of `b0`, in order.
pub open spec fn kept_list(b0: Board, ps: Seq<Placement>, n: int) -> Seq<Placement>
    decreases n,
{
    if n <= 0 {
        Seq::empty()
    } else if kept_placement(b0, ps[n - 1]) {
        kept_list(b0, ps, n - 1).push(ps[n - 1])
    } else {
        kept_list(b0, ps, n - 1)
    }
}

/// `ch` are the children of `b0` that the first `n` placements of `ps` give for a piece of
/// kind `kind`: one for each kept placement, in order, locked and evaluated by `eval`.
pub open spec fn children_listed(
    eval: Standard,
    b0: Board,
    ps: Seq<Placement>,
    n: int,
    kind: Piece,
    hold: bool,
    ch: Seq<ChildData>,
) -> bool {
    let k = kept_list(b0, ps, n);
    &&& ch.len() == k.len()
    &&& forall|i: int| 0 <= i < k.len() ==> evaluated_child(eval, b0, k[i], kind, hold, #[trigger] ch[i])
}

/// Adds the children of `board` for the piece `spawned`: each placement `find_moves` gives
/// that lies on the playfield, locked on a copy of the board and evaluated, leaving out
/// placements that lock out and, where the piece could simply be dropped on a low stack, mini
/// T-spins.
fn add_children<M: Fn(&Board, FallingPiece, MovementMode) -> Vec<Placement>>(
    children: &mut Vec<ChildData>,
    board: &Board,
    eval: &Standard,
    spawned: FallingPiece,
    hold: bool,
    mode: MovementMode,
    find_moves: &M,
)
    requires
        board.wf(),
        no_full_rows(board.grid()),
        board.combo_of() <= u32::MAX - 5,
        forall|b: Board, p: FallingPiece, m: MovementMode| #[trigger] find_moves.requires((&b, p, m)),
        boards_wf(old(children)@),
        all_from_search(old(children)@, *find_moves, mode, *eval),
    ensures
        boards_wf(final(children)@),
        all_from_search(final(children)@, *find_moves, mode, *eval),
        final(children)@.len() >= old(children)@.len(),
        final(children)@.subrange(0, old(children)@.len() as int) == old(children)@,
        exists|ps: Vec<Placement>|
            #![trigger find_moves.ensures((board, spawned, mode), ps)]
            find_moves.ensures((board, spawned, mode), ps) && children_listed(
                *eval,
                *board,
                ps@,
                ps@.len() as int,
                spawned.kind.0,
                hold,
                final(children)@.subrange(old(children)@.len() as int, final(children)@.len() as int),
            ),
{
    let found = find_moves(board, spawned, mode);
    let mut i: usize = 0;
    proof {
        crate::evaluation::features::lemma_board_heights(board);
        board.lemma_inv();
    }
    while i < found.len()
        invariant
            i <= found@.len(),
            board.wf(),
            no_full_rows(board.grid()),
            board.combo_of() <= u32::MAX - 5,
            find_moves.ensures((board, spawned, mode), found),
            boards_wf(children@),
            all_from_search(children@, *find_moves, mode, *eval),
            children@.len() >= old(children)@.len(),
            children@.subrange(0, old(children)@.len() as int) == old(children)@,
            children_listed(
                *eval,
                *board,
                found@,
                i as int,
                spawned.kind.0,
                hold,
                children@.subrange(old(children)@.len() as int, children@.len() as int),
            ),
        decreases found@.len() - i,
    {
        let mv = &found[i];
        let loc = mv.location;
        if !(i32::MIN + 2 <= loc.x && loc.x <= i32::MAX - 2 && i32::MIN + 3 <= loc.y && loc.y
            <= i32::MAX - 3) || !on_field_location(&loc) || mv.inputs.time == u32::MAX {
            proof {
                assert(!kept_placement(*board, found@[i as int]));
                assert(kept_list(*board, found@, i + 1) == kept_list(*board, found@, i as int));
            }
            i = i + 1;
            continue;
        }
        proof {
            board.lemma_inv();
            lemma_piece_clears_at_most_four(board.grid(), loc);
            crate::evaluation::features::lemma_board_heights(board);
        }
        let heights = board.column_heights();
        let mut low = true;
        let mut x: usize = 0;
        while x < 10
            invariant
                x <= 10,
                forall|c: int| 0 <= c < 10 ==> #[trigger] heights@[c] as int == board.height(c),
                low == forall|c: int| 0 <= c < x ==> #[trigger] board.height(c) < 18,
            decreases 10 - x,
        {
            if heights[x] >= 18 {
                low = false;
            }
            x = x + 1;
        }
        let can_be_hd = board.above_stack(&loc) && low;
        let mut result = board.clone_board();
        let ghost g0 = board.grid();
        let lock = result.lock_piece(loc);
        proof {
            assert(can_be_hd == droppable(*board, loc));
            assert(kept_placement(*board, found@[i as int]) == (!lock.locked_out && !(can_be_hd && lock.placement_kind == PlacementKind::MiniTspin)));
        }
        if !lock.locked_out && !(can_be_hd && lock.placement_kind == PlacementKind::MiniTspin) {
            let move_time = mv.inputs.time + if hold {
                1
            } else {
                0
            };
            proof {
                lemma_clear_lines_not_full(placed_grid(g0, loc));
                result.lemma_inv();
                crate::evaluation::standard::lemma_tslot_fits(
                    result.grid(),
                    eval.tslot_count(crate::board::bag_back(result.bag_of(), result.queue()), result.hold_of()),
                );
            }
            let (evaluation, reward) = eval.evaluate(&lock, &result, move_time, spawned.kind.0);
            let ghost c = ChildData { evaluation, reward, board: result, mv: loc };
            proof {
                let time: int = found@[i as int].inputs.time + if hold {
                    1int
                } else {
                    0
                };
                assert(time == move_time as int);
                assert(c.reward.value == eval.reward_spec(lock, max_height(c.board.grid(), 10), time, spawned.kind.0) as i32);
                assert(lock.placement_kind == placement_kind_spec(
                    full_rows(placed_grid(board.grid(), found@[i as int].location), 40).len() as int,
                    found@[i as int].location.tspin,
                ));
                assert(c.board.grid() == clear_lines(placed_grid(board.grid(), found@[i as int].location)));
                assert(c.mv == found@[i as int].location);
                assert(c.board.wf());
                assert(c.board.queue() == board.queue());
                assert(c.board.hold_of() == board.hold_of());
                assert(c.evaluation.value == eval.transient_spec(&c.board) as i32);
                assert(c.evaluation.spike == 0);
                assert(c.reward.attack == Standard::attack_spec(lock));
                assert(rewarded(*eval, *board, found@[i as int].location, spawned.kind.0, time, c)) by {
                    assert(c.reward.value == eval.reward_spec(lock, max_height(c.board.grid(), 10), time, spawned.kind.0) as i32);
                }
                assert(evaluated_child(*eval, *board, found@[i as int], spawned.kind.0, hold, c));
                assert(from_search(c, *find_moves, mode, *eval));
            }
            let ghost prev = children@;
            children.push(ChildData { evaluation, reward, board: result, mv: loc });
            proof {
                assert(kept_placement(*board, found@[i as int]));
                let o = old(children)@.len() as int;
                let k = kept_list(*board, found@, i + 1);
                assert(k == kept_list(*board, found@, i as int).push(found@[i as int]));
                assert(children@.subrange(o, children@.len() as int) =~= prev.subrange(o, prev.len() as int).push(c));
                assert forall|t: int| 0 <= t < k.len() implies evaluated_child(*eval, *board, k[t], spawned.kind.0, hold, #[trigger] children@.subrange(o, children@.len() as int)[t]) by {
                    if t < k.len() - 1 {
                        assert(children@.subrange(o, children@.len() as int)[t] == prev.subrange(o, prev.len() as int)[t]);
                    }
                }
                assert(children@.subrange(0, old(children)@.len() as int) =~= old(children)@);
                assert forall|k: int| 0 <= k < children@.len() implies from_search(#[trigger] children@[k], *find_moves, mode, *eval) by {
                    if k < children@.len() - 1 {
                        assert(children@[k] == children@.drop_last()[k]);
                    }
                }
            }
        } else {
            proof {
                assert(kept_list(*board, found@, i + 1) == kept_list(*board, found@, i as int));
            }
        }
        i = i + 1;
    }
    proof {
        assert(found@.subrange(0, found@.len() as int) =~= found@);
    }
}

/// All cells of the location lie on the playfield.
fn on_field_location(p: &FallingPiece) -> (b: bool)
    requires
        p.in_range(),
    ensures
        b == on_field(*p),
{
    let cells = p.cells();
    let mut i: usize = 0;
    while i < 4
        invariant
            i <= 4,
            forall|j: int| 0 <= j < 4 ==> (cells@[j].0 as int, cells@[j].1 as int) == #[trigger] p.cell(j),
            forall|j: int| 0 <= j < i ==> 0 <= #[trigger] p.cell(j).0 < 10 && 0 <= p.cell(j).1 < 40,
        decreases 4 - i,
    {
        let (x, y) = cells[i];
        assert(p.cell(i as int) == (x as int, y as int));
        if x < 0 || x >= 10 || y < 0 || y >= 40 {
            return false;
        }
        i = i + 1;
    }
    true
}

impl BotState {
    /// The graph.
    pub closed spec fn tree_of(&self) -> DagState {
        self.tree
    }

    /// The options.
    pub closed spec fn options_of(&self) -> Options {
        self.options
    }

    /// The number of expansions handed out that have not come back.
    pub closed spec fn outstanding(&self) -> u32 {
        self.outstanding_thinks
    }

    /// The lines to look at first.
    pub closed spec fn lines(&self) -> Seq<Seq<FallingPiece>> {
        self.forced_analysis_lines@.map_values(|v: Vec<FallingPiece>| v@)
    }

    /// The graph is well formed and uses hold as the options say.
    pub closed spec fn wf(&self) -> bool {
        &&& self.tree.wf()
        &&& self.tree.hold_used() == self.options.use_hold
    }

    /// Enough nodes were grown to move: more than the least number, and no line is left to
    /// look at first.
    pub open spec fn min_reached(&self) -> bool {
        &&& self.tree_of().total_nodes() > self.options_of().min_nodes
        &&& self.lines().len() == 0
    }

    /// A call of `think` goes looking for a leaf: thinking is not over, the root is not dead,
    /// and the counters have room.
    pub open spec fn thinkable(&self) -> bool {
        let t = self.tree_of();
        &&& (!self.min_reached() || t.total_nodes() < self.options_of().max_nodes) && !dead_root(t)
        &&& t.passed() + t.gen_count() <= u32::MAX && self.outstanding() < u32::MAX
    }

    /// The graph can be reset: with hold in use and nothing held the queue is not empty, the
    /// queue fits the graph, and the count of generations passed stays within `u32`.
    pub open spec fn resettable(&self) -> bool {
        let t = self.tree_of();
        &&& t.hold_used() && t.board_of().hold_of() is None ==> t.board_of().queue().len() >= 1
        &&& t.board_of().queue().len() <= MAX_GENERATIONS
        &&& t.passed() + t.gen_count() + 1 <= u32::MAX
    }

    /// Starts the search on `board`.
    pub fn new(board: Board, options: Options) -> (b: BotState)
        requires
            board.wf(),
            options.use_hold && board.hold_of() is None ==> board.queue().len() >= 1,
            board.queue().len() <= MAX_GENERATIONS,
        ensures
            b.wf(),
            made_for(b.tree_of(), board, options.use_hold),
            b.options_of() == options,
            b.lines().len() == 0,
            b.outstanding() == 0,
    {
        let b = BotState {
            tree: DagState::new(board, options.use_hold),
            options,
            forced_analysis_lines: Vec::new(),
            outstanding_thinks: 0,
        };
        assert(b.lines() =~= Seq::<Seq<FallingPiece>>::empty());
        b
    }

    /// The number of expansions handed out that have not come back.
    pub fn outstanding_count(&self) -> (n: u32)
        ensures
            n == self.outstanding(),
    {
        self.outstanding_thinks
    }

    /// Enough nodes were grown to move.
    pub fn min_thinking_reached(&self) -> (b: bool)
        requires
            self.wf(),
        ensures
            b == self.min_reached(),
    {
        let many = !self.tree.nodes_fit() || self.tree.nodes() > self.options.min_nodes;
        many && self.forced_analysis_lines.len() == 0
    }

    /// The root is dead.
    pub fn is_dead(&self) -> (b: bool)
        requires
            self.wf(),
        ensures
            b == dead_root(self.tree_of()),
    {
        self.tree.is_dead()
    }

    /// Prepares an expansion. While too few nodes were grown, or fewer than the most, and the
    /// root is not dead, a leaf is found, marked and handed out; `Err(true)` when none was
    /// found this time. Otherwise, or where the counters would overflow, `Err(false)`.
    pub fn think(&mut self) -> (r: Result<Thinker, bool>)
        requires
            old(self).wf(),
        ensures
            final(self).wf(),
            final(self).options_of() == old(self).options_of(),
            ({
                let t = old(self).tree_of();
                let go = (!old(self).min_reached() || t.total_nodes() < old(self).options_of().max_nodes)
                    && !dead_root(t);
                let room = t.passed() + t.gen_count() <= u32::MAX && old(self).outstanding()
                    < u32::MAX;
                &&& !(go && room) ==> r == Err::<Thinker, bool>(false) && *final(self) == *old(self)
                &&& go && room && root_fresh(t) ==> r is Ok
                &&& go && room ==> match r {
                    Ok(th) => {
                        &&& final(self).tree_of().leaf_handed_out(&t, th.node_of(), th.board_of())
                        &&& th.options_of() == old(self).options_of()
                        &&& th.wf()
                        &&& final(self).outstanding() == old(self).outstanding() + 1
                        &&& final(self).lines().len() <= old(self).lines().len()
                    },
                    Err(e) => {
                        &&& e
                        &&& final(self).tree_of() == t
                        &&& final(self).outstanding() == old(self).outstanding()
                        &&& final(self).lines().len() <= old(self).lines().len()
                    },
                }
            }),
    {
        let below_max = self.tree.nodes_fit() && self.tree.nodes() < self.options.max_nodes;
        let go = (!self.min_thinking_reached() || below_max) && !self.tree.is_dead();
        if !go {
            return Err(false);
        }
        let passed = self.tree.passed_count();
        let count = self.tree.generation_count();
        if passed as u64 + count as u64 > u32::MAX as u64 || self.outstanding_thinks == u32::MAX {
            return Err(false);
        }
        match self.tree.find_and_mark_leaf(&mut self.forced_analysis_lines) {
            Some((node, board)) => {
                self.outstanding_thinks = self.outstanding_thinks + 1;
                Ok(Thinker { node, board, options: self.options })
            },
            None => Err(true),
        }
    }

    /// Takes back an expansion. Children the graph can take are filed under the node; where
    /// it cannot take them (they overflow its limits) the node is given back, as it is for
    /// `Unmark`. A node that does not exist changes nothing.
    pub fn finish_thinking(&mut self, result: ThinkResult)
        requires
            old(self).wf(),
            old(self).outstanding() > 0,
            result_boards_wf(result),
        ensures
            final(self).wf(),
            final(self).outstanding() == old(self).outstanding() - 1,
            final(self).options_of() == old(self).options_of(),
            final(self).lines() == old(self).lines(),
            ({
                let t = old(self).tree_of();
                let n = final(self).tree_of();
                match result {
                    ThinkResult::Known(node, ch) => if known_fits(t, node, ch@) {
                        known_filed(n, t, node, ch@)
                    } else if t.valid_id(node) {
                        unmarked(n, t, node)
                    } else {
                        n == t
                    },
                    ThinkResult::Speculated(node, ch) => if speculated_fits(t, node, ch@) {
                        speculated_filed(n, t, node, ch@)
                    } else if t.valid_id(node) {
                        unmarked(n, t, node)
                    } else {
                        n == t
                    },
                    ThinkResult::Unmark(node) => if t.valid_id(node) {
                        unmarked(n, t, node)
                    } else {
                        n == t
                    },
                }
            }),
    {
        self.outstanding_thinks = self.outstanding_thinks - 1;
        match result {
            ThinkResult::Known(node, children) => {
                if self.tree.accepts_known(node, &children) {
                    self.tree.update_known(node, children);
                } else if self.tree.is_valid_id(node) {
                    self.tree.unmark(node);
                }
            },
            ThinkResult::Speculated(node, children) => {
                if self.tree.accepts_speculated(node, &children) {
                    self.tree.update_speculated(node, children);
                } else if self.tree.is_valid_id(node) {
                    self.tree.unmark(node);
                }
            },
            ThinkResult::Unmark(node) => {
                if self.tree.is_valid_id(node) {
                    self.tree.unmark(node);
                }
            },
        }
    }

    /// Adds a new piece to the queue; a graph that already holds the most generations is
    /// left as it is.
    pub fn add_next_piece(&mut self, piece: Piece)
        requires
            old(self).wf(),
        ensures
            final(self).wf(),
            final(self).options_of() == old(self).options_of(),
            final(self).lines() == old(self).lines(),
            final(self).outstanding() == old(self).outstanding(),
            old(self).tree_of().gen_count() < MAX_GENERATIONS ==> piece_filed(
                final(self).tree_of(),
                old(self).tree_of(),
                piece,
            ),
            old(self).tree_of().gen_count() >= MAX_GENERATIONS ==> final(self).tree_of()
                == old(self).tree_of(),
    {
        if self.tree.generation_count() < MAX_GENERATIONS {
            self.tree.add_next_piece(piece);
        }
    }

    /// The graph can be reset.
    pub fn can_reset(&self) -> (b: bool)
        requires
            self.wf(),
        ensures
            b == self.resettable(),
    {
        let board = self.tree.board();
        let q = board.next_queue();
        let hold_ok = !(self.options.use_hold && board.held_piece().is_none()) || q.len() >= 1;
        hold_ok && q.len() <= MAX_GENERATIONS && self.tree.passed_count() as u64
            + self.tree.generation_count() as u64 + 1 <= u32::MAX as u64
    }

    /// Resets the field and the counters. When the new field is the old one pushed up by
    /// garbage, the lines to look at first and the line the search expected are kept, moved
    /// up by the garbage; otherwise they are dropped.
    pub fn reset(&mut self, field: [[bool; 10]; 40], b2b: bool, combo: u32)
        requires
            old(self).wf(),
            old(self).resettable(),
        ensures
            final(self).wf(),
            final(self).options_of() == old(self).options_of(),
            final(self).outstanding() == old(self).outstanding(),
            reset_to(
                final(self).tree_of(),
                old(self).tree_of(),
                field,
                b2b,
                combo,
                garbage_rise(old(self).tree_of(), field, b2b, combo),
            ),
            exists|plan: Seq<(FallingPiece, LockResult)>| {
                &&& #[trigger] plan_of(old(self).tree_of(), plan)
                &&& match garbage_rise(old(self).tree_of(), field, b2b, combo) {
                    Some(d) => {
                        &&& final(self).lines().len() == old(self).lines().len() + 1
                        &&& forall|i: int| 0 <= i < old(self).lines().len() ==> #[trigger] final(self).lines()[i]
                            == shift_line(old(self).lines()[i], d)
                        &&& final(self).lines().last() == shift_line(placements(plan), d)
                    },
                    None => final(self).lines().len() == 0,
                }
            },
    {
        let ghost t0 = self.tree;
        let plan = self.tree.get_plan();
        let r = self.tree.reset(field, b2b, combo);
        assert(plan_of(t0, plan@) && reset_to(self.tree, t0, field, b2b, combo, r));
        match r {
            Some(d) => {
                let ghost old_lines = self.lines();
                let mut lines: Vec<Vec<FallingPiece>> = Vec::new();
                let mut i: usize = 0;
                while i < self.forced_analysis_lines.len()
                    invariant
                        i <= self.forced_analysis_lines@.len(),
                        old_lines == self.lines(),
                        lines@.len() == i,
                        forall|t: int| 0 <= t < i ==> (#[trigger] lines@[t])@ == shift_line(old_lines[t], d),
                    decreases self.forced_analysis_lines@.len() - i,
                {
                    lines.push(shifted(&self.forced_analysis_lines[i], d));
                    i = i + 1;
                }
                let mut last: Vec<FallingPiece> = Vec::new();
                let mut j: usize = 0;
                while j < plan.len()
                    invariant
                        j <= plan@.len(),
                        last@ == shift_line(placements(plan@).take(j as int), d),
                    decreases plan@.len() - j,
                {
                    let mut p = plan[j].0;
                    p.y = p.y.wrapping_add(d);
                    last.push(p);
                    proof {
                        assert(placements(plan@).take(j + 1) =~= placements(plan@).take(j as int).push(plan@[j as int].0));
                        assert(shift_line(placements(plan@).take(j + 1), d) =~= shift_line(placements(plan@).take(j as int), d).push(p));
                    }
                    j = j + 1;
                }
                assert(placements(plan@).take(plan@.len() as int) =~= placements(plan@));
                lines.push(last);
                self.forced_analysis_lines = lines;
                assert(old_lines == old(self).lines());
                assert(self.lines() =~= old_lines.map_values(|l: Seq<FallingPiece>| shift_line(l, d)).push(shift_line(placements(plan@), d)));
                assert(self.lines().len() == old(self).lines().len() + 1);
                assert(forall|i: int| 0 <= i < old(self).lines().len() ==> #[trigger] self.lines()[i]
                            == shift_line(old(self).lines()[i], d));
                assert(self.lines().last() == shift_line(placements(plan@), d));
                assert(plan_of(old(self).tree_of(), plan@));
                assert(reset_to(self.tree_of(), old(self).tree_of(), field, b2b, combo, r));
            },
            None => {
                self.forced_analysis_lines = Vec::new();
                assert(self.lines().len() == 0);
            },
        }
    }

    /// Picks the move to play, once enough nodes were grown and there is one: among the moves
    /// the graph offers, the one the evaluator picks for `incoming` garbage. The search moves
    /// on to it. Returns the move with what the search reports; `None` leaves the graph as it
    /// was.
    pub fn next_move(&mut self, eval: &Standard, incoming: u32) -> (r: Option<(MoveCandidate<Value>, Info)>)
        requires
            old(self).wf(),
        ensures
            final(self).wf(),
            final(self).options_of() == old(self).options_of(),
            final(self).lines() == old(self).lines(),
            final(self).outstanding() == old(self).outstanding(),
            !old(self).min_reached() ==> r is None,
            r is None ==> final(self).tree_of() == old(self).tree_of(),
            ({
                let t = old(self).tree_of();
                old(self).min_reached() && t.passed() < u32::MAX && (exists|cands: Seq<MoveCandidate<Value>>|
                    candidates_of(t, cands) && cands.len() > 0) ==> r is Some
            }),
            r matches Some((c, info)) ==> {
                let t = old(self).tree_of();
                &&& exists|cands: Seq<MoveCandidate<Value>>, k: int|
                    candidates_of(t, cands) && is_pick(cands, incoming, k) && c == cands[k]
                &&& info.nodes == capped_nodes(t)
                &&& info.depth == t.gen_count() - 1 - t.empty_tail(t.gen_count() as int)
                &&& info.original_rank == c.original_rank
                &&& info.evaluation_result == c.evaluation.value
                &&& plan_of(t, info.plan@)
                &&& moved_on(final(self).tree_of(), t, c.mv)
            },
    {
        if !self.min_thinking_reached() {
            return None;
        }
        let candidates = self.tree.get_next_candidates();
        proof {
            if exists|cands: Seq<MoveCandidate<Value>>| candidates_of(self.tree, cands) && cands.len() > 0 {
                let cands = choose|cands: Seq<MoveCandidate<Value>>| candidates_of(self.tree, cands) && cands.len() > 0;
                lemma_candidate_playable(self.tree, cands, 0);
                lemma_candidate_playable(self.tree, candidates@, 0);
            }
        }
        if candidates.len() == 0 || self.tree.passed_count() == u32::MAX {
            return None;
        }
        let ghost cands = candidates@;
        let child = eval.pick_move(candidates, incoming);
        let ghost k = choose|k: int| is_pick(cands, incoming, k) && child == cands[k];
        proof {
            lemma_candidate_playable(self.tree, cands, k);
        }
        let plan = self.tree.get_plan();
        let nodes = if self.tree.nodes_fit() {
            self.tree.nodes()
        } else {
            u32::MAX
        };
        let depth = self.tree.depth();
        let info = Info {
            nodes,
            depth,
            original_rank: child.original_rank,
            evaluation_result: child.evaluation.value,
            plan,
        };
        self.tree.advance_move(child.mv);
        Some((child, info))
    }

    /// Adds a line to look at first.
    pub fn force_analysis_line(&mut self, path: Vec<FallingPiece>)
        requires
            old(self).wf(),
        ensures
            final(self).wf(),
            final(self).tree_of() == old(self).tree_of(),
            final(self).options_of() == old(self).options_of(),
            final(self).outstanding() == old(self).outstanding(),
            final(self).lines() == old(self).lines().push(path@),
    {
        self.forced_analysis_lines.push(path);
        assert(self.lines() =~= old(self).lines().push(path@));
    }
}

} // verus!
