//! The graph of positions that the search explores.
//!
//! A generation holds every position reached by placing the same number of pieces. Generation
//! `0` holds the current position (the root). A generation is known when the piece that decides
//! its children is known, and speculated otherwise: a speculated node keeps one group of children
//! for each piece that may still come. Positions that are reached along several paths are kept
//! once; such a node lists each of its parents.
use vstd::prelude::*;
use std::collections::HashMap;
use crate::piece_set::PieceSet;
use crate::board::{Board, clear_lines, full_rows, lock_outcome, placed_grid, column_height, row_view};
use crate::piece::{FallingPiece, LockResult, Piece, placement_kind_spec};
use crate::row::Row;
use crate::evaluation::features::{highest_point, max_height};
use crate::board::bag_back;
use crate::evaluation::shapes::{
    lemma_clear_lines_not_full, lemma_piece_clears_at_most_four, no_full_rows, on_field,
};
use crate::evaluation::standard::{Reward, Value, div_trunc};
use crate::rank::{RankKey, rank, ranked};
use crate::evaluation::{Evaluation, MoveCandidate, sum_range, lemma_sum_range_bounds};
use crate::rng::{choose_item, local_rng, sample_weighted, weighted_index, weights_of};
use rand::rngs::ThreadRng;

verus! {

/// The most generations the graph holds; it bounds how far evaluations can grow.
pub const MAX_GENERATIONS: usize = 64;

/// Bound on the magnitude of the evaluations handed to the graph.
pub const LEAF_LIMIT: i32 = 4_000_000;

/// Bound on the magnitude of the rewards handed to the graph.
pub const REWARD_LIMIT: i32 = 250_000;

/// The most children that one expansion may give a node.
pub const MAX_CHILDREN: usize = 4096;

/// How large an evaluation of generation `g` can be.
pub open spec fn eval_bound(g: int) -> int {
    LEAF_LIMIT + (MAX_GENERATIONS - g) * (REWARD_LIMIT + 1000)
}

/// Both parts of the evaluation lie within `b`.
pub open spec fn value_within(v: Value, b: int) -> bool {
    -b <= v.value <= b && -b <= v.spike <= b
}

/// Both parts of the reward lie within the reward limit.
pub open spec fn reward_within(r: Reward) -> bool {
    -REWARD_LIMIT <= r.value <= REWARD_LIMIT && -REWARD_LIMIT <= r.attack <= REWARD_LIMIT
}

/// Names a node across moves: its generation counted from the start of the game, and its slot
/// within the generation.
#[derive(Copy, Clone, Debug, PartialEq, Eq, Structural)]
pub struct NodeId {
    pub generation: u32,
    pub slab_key: u32,
}

/// A child found by expanding a node: the placement, the board after it, and its evaluation.
pub struct ChildData {
    pub mv: FallingPiece,
    pub board: Board,
    pub evaluation: Value,
    pub reward: Reward,
}

/// An edge of the graph: a placement, what it earns, its rank among its siblings when it was
/// found, and the node of the next generation it leads to.
#[derive(Copy, Clone, Debug, PartialEq, Eq, Structural)]
pub struct Child {
    pub placement: FallingPiece,
    pub reward: Reward,
    pub original_rank: u32,
    pub node: u32,
}

/// A position of the graph.
pub struct Node {
    parents: Vec<u32>,
    evaluation: Value,
    marked: bool,
    death: bool,
}

/// The children of the nodes of a generation, by node slot.
pub enum Children {
    /// The generation's piece is known; the piece, and each node's children if it was expanded.
    Known(Piece, Vec<Option<Vec<Child>>>),
    /// The generation's piece is not known; each expanded node has seven slots, one per piece
    /// in the canonical order, holding the children for that piece if it may come.
    Speculated(Vec<Option<Vec<Option<Vec<Child>>>>>),
}

/// The nodes of one generation with their children.
pub struct Generation {
    nodes: Vec<Node>,
    children: Children,
    dedup: HashMap<u128, Vec<(Simplified, u32)>>,
}

/// What decides a position for the search: its rows up to the highest column, the combo
/// counter, the bag, the reserve piece and whether it is held, and the back-to-back flag.
pub struct Simplified {
    grid: Vec<u16>,
    combo: u32,
    bag: PieceSet,
    reserve: Piece,
    back_to_back: bool,
    reserve_is_hold: bool,
}

/// A position as the search tells positions apart.
pub type SimpleView = (Seq<u16>, u32, PieceSet, Piece, bool, bool);

impl Simplified {
    /// The position this stands for.
    pub closed spec fn sview(&self) -> SimpleView {
        (self.grid@, self.combo, self.bag, self.reserve, self.back_to_back, self.reserve_is_hold)
    }

    /// At most forty rows, each of ten cells.
    pub closed spec fn grid_ok(&self) -> bool {
        &&& self.grid@.len() <= 40
        &&& forall|y: int| 0 <= y < self.grid@.len() ==> #[trigger] self.grid@[y] < 1024
    }

    /// Both stand for the same position.
    fn same_position(&self, other: &Simplified) -> (r: bool)
        ensures
            r == (self.sview() == other.sview()),
    {
        if self.combo != other.combo || self.reserve != other.reserve || self.back_to_back
            != other.back_to_back || self.reserve_is_hold != other.reserve_is_hold
            || self.grid.len() != other.grid.len() {
            return false;
        }
        if !(self.bag == other.bag) {
            return false;
        }
        let mut y: usize = 0;
        while y < self.grid.len()
            invariant
                y <= self.grid@.len(),
                self.grid@.len() == other.grid@.len(),
                forall|k: int| 0 <= k < y ==> self.grid@[k] == other.grid@[k],
            decreases self.grid@.len() - y,
        {
            if self.grid[y] != other.grid[y] {
                return false;
            }
            y = y + 1;
        }
        assert(self.grid@ =~= other.grid@);
        true
    }

    /// The bucket the position is filed under.
    fn bucket(&self) -> (b: u128)
        requires
            self.grid_ok(),
        ensures
            b as int == bucket_of(self.sview()),
    {
        let n = self.grid.len();
        let m: usize = if n < 12 {
            n
        } else {
            12
        };
        let mut acc: u128 = 0;
        let mut i: usize = 0;
        while i < m
            invariant
                i <= m <= 12,
                m <= n,
                n == self.grid@.len(),
                self.grid_ok(),
                acc as int == pack_top(self.grid@, i as int),
                0 <= pack_top(self.grid@, i as int) < pow1024(i as int),
            decreases m - i,
        {
            proof {
                lemma_pow1024_le(i as int + 1, 12);
                lemma_pow1024_twelve();
                assert(pow1024(i as int + 1) == 1024 * pow1024(i as int));
                let r = self.grid@[n - (i + 1)];
                assert(acc * 1024 + r < pow1024(i as int + 1)) by (nonlinear_arith)
                    requires
                        0 <= acc < pow1024(i as int),
                        0 <= r < 1024,
                        pow1024(i as int + 1) == 1024 * pow1024(i as int),
                ;
            }
            acc = acc * 1024 + self.grid[n - (i + 1)] as u128;
            i = i + 1;
        }
        proof {
            lemma_pow1024_le(m as int, 12);
            lemma_pow1024_twelve();
        }
        acc + (n as u128) * 0x1000000000000000000000000000000
    }
}

/// Powers of `1024` grow with the exponent.
proof fn lemma_pow1024_le(a: int, b: int)
    requires
        0 <= a <= b,
    ensures
        1 <= pow1024(a) <= pow1024(b),
    decreases b,
{
    if b > 0 {
        if a < b {
            lemma_pow1024_le(a, b - 1);
        } else {
            lemma_pow1024_le(a - 1, b - 1);
        }
    }
}

/// Twelve rows take a hundred and twenty bits.
proof fn lemma_pow1024_twelve()
    ensures
        pow1024(12) == 0x1000000000000000000000000000000,
{
    reveal_with_fuel(pow1024, 13);
}

/// The piece kept in reserve: the held piece, or with hold empty the next piece; without hold,
/// always `I`.
pub open spec fn reserve_of(b: Board, hold_allowed: bool) -> Piece {
    if hold_allowed {
        match b.hold_of() {
            Some(p) => p,
            None => b.queue()[0],
        }
    } else {
        Piece::I
    }
}

/// How the search tells the position of board `b` apart from others.
pub open spec fn position_of(b: Board, hold_allowed: bool) -> SimpleView {
    (
        Seq::new(max_height(b.grid(), 10) as nat, |y: int| b.rows()[y]),
        b.combo_of(),
        bag_back(b.bag_of(), b.queue()),
        reserve_of(b, hold_allowed),
        b.b2b_of(),
        b.hold_of() is Some,
    )
}

/// `1024` to the power `n`.
pub open spec fn pow1024(n: int) -> int
    decreases n,
{
    if n <= 0 {
        1
    } else {
        1024 * pow1024(n - 1)
    }
}

/// The top `n` rows of `g` read as one number, ten bits per row, the top row highest.
pub open spec fn pack_top(g: Seq<u16>, n: int) -> int
    decreases n,
{
    if n <= 0 {
        0
    } else {
        pack_top(g, n - 1) * 1024 + g[g.len() - n]
    }
}

/// The bucket a position is filed under: its top twelve rows (or all of them if fewer) and its
/// number of rows.
pub open spec fn bucket_of(v: SimpleView) -> int {
    let m = if v.0.len() < 12 {
        v.0.len() as int
    } else {
        12
    };
    pack_top(v.0, m) + v.0.len() * 0x1000000000000000000000000000000
}

/// The slot of a piece in the canonical order.
pub open spec fn slot_of(p: Piece) -> int {
    match p {
        Piece::I => 0,
        Piece::O => 1,
        Piece::T => 2,
        Piece::L => 3,
        Piece::J => 4,
        Piece::S => 5,
        Piece::Z => 6,
    }
}

/// The slot of a piece in the canonical order.
fn piece_slot(p: Piece) -> (s: usize)
    ensures
        s == slot_of(p),
        s < 7,
{
    match p {
        Piece::I => 0,
        Piece::O => 1,
        Piece::T => 2,
        Piece::L => 3,
        Piece::J => 4,
        Piece::S => 5,
        Piece::Z => 6,
    }
}

impl Generation {
    /// The number of nodes.
    pub closed spec fn len(&self) -> nat {
        self.nodes@.len()
    }

    /// The number of child entries, one per node.
    pub closed spec fn children_len(&self) -> nat {
        match self.children {
            Children::Known(_, c) => c@.len(),
            Children::Speculated(c) => c@.len(),
        }
    }

    /// The generation's piece, if it is known.
    pub closed spec fn piece(&self) -> Option<Piece> {
        match self.children {
            Children::Known(p, _) => Some(p),
            Children::Speculated(_) => None,
        }
    }

    /// The children of node `k` of a known generation, if it was expanded.
    pub closed spec fn known(&self, k: int) -> Option<Seq<Child>> {
        match self.children {
            Children::Known(_, c) => match c@[k] {
                Some(v) => Some(v@),
                None => None,
            },
            Children::Speculated(_) => None,
        }
    }

    /// Node `k` of a speculated generation was expanded.
    pub closed spec fn speculated_expanded(&self, k: int) -> bool {
        match self.children {
            Children::Known(_, _) => false,
            Children::Speculated(c) => c@[k] is Some,
        }
    }

    /// The children of node `k` of a speculated generation for the piece in slot `s`.
    pub closed spec fn speculated(&self, k: int, s: int) -> Option<Seq<Child>> {
        match self.children {
            Children::Known(_, _) => None,
            Children::Speculated(c) => match c@[k] {
                Some(slots) => match slots@[s] {
                    Some(v) => Some(v@),
                    None => None,
                },
                None => None,
            },
        }
    }

    /// Node `k` was expanded.
    pub open spec fn expanded(&self, k: int) -> bool {
        self.known(k) is Some || self.speculated_expanded(k)
    }

    /// The evaluation of node `k`.
    pub closed spec fn eval(&self, k: int) -> Value {
        self.nodes@[k].evaluation
    }

    /// Node `k` was handed out for expansion and has not come back.
    pub closed spec fn marked(&self, k: int) -> bool {
        self.nodes@[k].marked
    }

    /// Every line through node `k` ends in death.
    pub closed spec fn death(&self, k: int) -> bool {
        self.nodes@[k].death
    }

    /// The parents of node `k`, slots in the previous generation.
    pub closed spec fn parents(&self, k: int) -> Seq<u32> {
        self.nodes@[k].parents@
    }

    /// Every child list of the generation, each edge leading to a node below `next_len`, each
    /// reward within the limit, at most `MAX_CHILDREN` per list.
    #[verifier::opaque]
    pub closed spec fn edges_within(&self, next_len: nat) -> bool {
        match self.children {
            Children::Known(_, c) => forall|k: int, j: int|
                #![trigger c@[k], c@[k]->0@[j]]
                0 <= k < c@.len() && c@[k] is Some && 0 <= j < c@[k]->0@.len() ==> {
                    &&& c@[k]->0@[j].node < next_len
                    &&& reward_within(c@[k]->0@[j].reward)
                    &&& c@[k]->0@.len() <= MAX_CHILDREN
                },
            Children::Speculated(c) => forall|k: int, s: int, j: int|
                #![trigger c@[k]->0@[s]->0@[j]]
                0 <= k < c@.len() && c@[k] is Some && 0 <= s < 7 && c@[k]->0@[s] is Some && 0 <= j
                    < c@[k]->0@[s]->0@.len() ==> {
                    &&& c@[k]->0@[s]->0@[j].node < next_len
                    &&& reward_within(c@[k]->0@[s]->0@[j].reward)
                    &&& c@[k]->0@[s]->0@.len() <= MAX_CHILDREN
                },
        }
    }

    /// Each expanded node of a speculated generation has its seven slots.
    #[verifier::opaque]
    pub closed spec fn slots_wf(&self) -> bool {
        match self.children {
            Children::Known(_, _) => true,
            Children::Speculated(c) => forall|k: int|
                0 <= k < c@.len() && #[trigger] c@[k] is Some ==> c@[k]->0@.len() == 7,
        }
    }

    /// Nothing was expanded.
    #[verifier::opaque]
    pub closed spec fn no_edges(&self) -> bool {
        match self.children {
            Children::Known(_, c) => forall|k: int| 0 <= k < c@.len() ==> #[trigger] c@[k] is None,
            Children::Speculated(c) => forall|k: int|
                0 <= k < c@.len() ==> #[trigger] c@[k] is None,
        }
    }

    /// The generation on its own is well formed: one child entry per node, the evaluations
    /// within `bound`, parents below `prev_len`.
    #[verifier::opaque]
    pub closed spec fn wf(&self, bound: int, prev_len: nat) -> bool {
        &&& self.slots_wf()
        &&& forall|k: int| 0 <= k < self.len() ==> value_within(#[trigger] self.eval(k), bound)
        &&& forall|k: int, j: int|
            0 <= k < self.len() && 0 <= j < self.parents(k).len() ==> #[trigger] self.parents(
                k,
            )[j] < prev_len
    }

    /// The two generations have the same children, nodes, evaluations and parents; only the
    /// marks and death flags may differ.
    pub closed spec fn same_shape(&self, other: Generation) -> bool {
        &&& self.children == other.children
        &&& self.dedup == other.dedup
        &&& self.nodes@.len() == other.nodes@.len()
        &&& forall|j: int| 0 <= j < self.nodes@.len() ==> #[trigger] self.eval(j) == other.eval(j) && self.parents(j) == other.parents(j)
    }

    /// Generations of the same shape are alike in what well-formedness looks at.
    proof fn lemma_same_shape(a: Generation, b: Generation)
        requires
            b.same_shape(a),
        ensures
            b.children_len() == a.children_len(),
            b.len() == a.len(),
            b.piece() == a.piece(),
            a.dedup_ok() ==> b.dedup_ok(),
            forall|bound: int, prev: nat| a.wf(bound, prev) ==> #[trigger] b.wf(bound, prev),
            forall|next: nat| a.edges_within(next) ==> #[trigger] b.edges_within(next),
            a.no_edges() ==> b.no_edges(),
    {
        reveal(Generation::wf);
        reveal(Generation::edges_within);
        reveal(Generation::no_edges);
        reveal(Generation::slots_wf);
        assert forall|bound: int, prev: nat| a.wf(bound, prev) implies #[trigger] b.wf(bound, prev) by {
            assert forall|k: int| 0 <= k < b.len() implies value_within(#[trigger] b.eval(k), bound) by {
                assert(value_within(a.eval(k), bound));
            }
            assert forall|k: int, j: int|
                0 <= k < b.len() && 0 <= j < b.parents(k).len() implies #[trigger] b.parents(k)[j] < prev by {
                assert(b.eval(k) == a.eval(k));
                assert(a.parents(k)[j] < prev);
            }
        }
    }

    /// Each filed position lies in its own bucket, names an existing node, has at most forty
    /// rows of ten cells, and is filed once.
    pub closed spec fn dedup_ok(&self) -> bool {
        &&& forall|b: u128, j: int|
            #![trigger self.dedup@[b]@[j]]
            self.dedup@.contains_key(b) && 0 <= j < self.dedup@[b]@.len() ==> {
                &&& bucket_of(self.dedup@[b]@[j].0.sview()) == b
                &&& self.dedup@[b]@[j].1 < self.nodes@.len()
                &&& self.dedup@[b]@[j].0.grid_ok()
            }
        &&& forall|b: u128, i: int, j: int|
            #![trigger self.dedup@[b]@[i], self.dedup@[b]@[j]]
            self.dedup@.contains_key(b) && 0 <= i < j < self.dedup@[b]@.len()
                ==> self.dedup@[b]@[i].0.sview() != self.dedup@[b]@[j].0.sview()
    }

    /// The node filed for position `v`, if any.
    pub closed spec fn filed(&self, v: SimpleView) -> Option<u32> {
        let b = bucket_of(v) as u128;
        if self.dedup@.contains_key(b) && exists|j: int|
            0 <= j < self.dedup@[b]@.len() && #[trigger] self.dedup@[b]@[j].0.sview() == v {
            Some(
                self.dedup@[b]@[choose|j: int|
                    0 <= j < self.dedup@[b]@.len() && #[trigger] self.dedup@[b]@[j].0.sview()
                        == v].1,
            )
        } else {
            None
        }
    }

    /// A filed entry is what `filed` finds.
    proof fn lemma_filed_entry(&self, b: u128, j: int)
        requires
            self.dedup_ok(),
            self.dedup@.contains_key(b),
            0 <= j < self.dedup@[b]@.len(),
        ensures
            self.filed(self.dedup@[b]@[j].0.sview()) == Some(self.dedup@[b]@[j].1),
    {
        let v = self.dedup@[b]@[j].0.sview();
        assert(bucket_of(v) == b);
        let c = choose|i: int| 0 <= i < self.dedup@[b]@.len() && #[trigger] self.dedup@[b]@[i].0.sview() == v;
        if c != j {
            if c < j {
                assert(self.dedup@[b]@[c].0.sview() != self.dedup@[b]@[j].0.sview());
            } else {
                assert(self.dedup@[b]@[j].0.sview() != self.dedup@[b]@[c].0.sview());
            }
        }
    }

    /// The node filed for the position of `key`, if any.
    fn lookup(&self, key: &Simplified) -> (r: Option<u32>)
        requires
            self.dedup_ok(),
            key.grid_ok(),
        ensures
            r == self.filed(key.sview()),
            r matches Some(n) ==> n < self.len(),
    {
        broadcast use vstd::std_specs::hash::group_hash_axioms;
        let b = key.bucket();
        match self.dedup.get(&b) {
            None => None,
            Some(entries) => {
                let mut j: usize = 0;
                while j < entries.len()
                    invariant
                        self.dedup_ok(),
                        self.dedup@.contains_key(b),
                        self.dedup@[b] == *entries,
                        b == bucket_of(key.sview()),
                        j <= entries@.len(),
                        forall|i: int| 0 <= i < j ==> (#[trigger] entries@[i]).0.sview() != key.sview(),
                    decreases entries@.len() - j,
                {
                    if entries[j].0.same_position(key) {
                        proof {
                            self.lemma_filed_entry(b, j as int);
                        }
                        return Some(entries[j].1);
                    }
                    j = j + 1;
                }
                proof {
                    assert forall|i: int| 0 <= i < self.dedup@[b]@.len() implies #[trigger] self.dedup@[b]@[i].0.sview() != key.sview() by {
                        assert(entries@[i].0.sview() != key.sview());
                    }
                }
                None
            },
        }
    }

    /// Files the position of `key` under `node`.
    fn file(&mut self, key: Simplified, node: u32)
        requires
            old(self).dedup_ok(),
            key.grid_ok(),
            node < old(self).len(),
            old(self).filed(key.sview()) is None,
        ensures
            final(self).dedup_ok(),
            final(self).nodes == old(self).nodes,
            final(self).children == old(self).children,
            final(self).filed(key.sview()) == Some(node),
            forall|v: SimpleView| v != key.sview() ==> #[trigger] final(self).filed(v) == old(self).filed(v),
    {
        broadcast use vstd::std_specs::hash::group_hash_axioms;
        let ghost old_map = self.dedup@;
        let ghost v0 = key.sview();
        let b = key.bucket();
        let mut entries = match self.dedup.remove(&b) {
            Some(e) => e,
            None => Vec::new(),
        };
        let ghost before = entries@;
        proof {
            if old_map.contains_key(b) {
                assert(before == old_map[b]@);
            } else {
                assert(before.len() == 0);
            }
            assert forall|i: int| 0 <= i < before.len() implies #[trigger] before[i].0.sview() != v0 by {
                assert(old_map[b]@[i] == before[i]);
            }
        }
        entries.push((key, node));
        self.dedup.insert(b, entries);
        proof {
            let m = self.dedup@;
            assert(m == old_map.insert(b, entries));
            assert forall|bb: u128, j: int|
                #![trigger m[bb]@[j]]
                m.contains_key(bb) && 0 <= j < m[bb]@.len() implies {
                    &&& bucket_of(m[bb]@[j].0.sview()) == bb
                    &&& m[bb]@[j].1 < self.nodes@.len()
                    &&& m[bb]@[j].0.grid_ok()
                } by {
                if bb == b {
                    if j < before.len() {
                        assert(m[bb]@[j] == old_map[b]@[j]);
                    }
                } else {
                    assert(m[bb] == old_map[bb]);
                }
            }
            assert forall|bb: u128, i: int, j: int|
                #![trigger m[bb]@[i], m[bb]@[j]]
                m.contains_key(bb) && 0 <= i < j < m[bb]@.len() implies m[bb]@[i].0.sview() != m[bb]@[j].0.sview() by {
                if bb == b {
                    if j < before.len() {
                        assert(m[bb]@[i] == old_map[b]@[i]);
                        assert(m[bb]@[j] == old_map[b]@[j]);
                    } else {
                        assert(m[bb]@[i] == before[i]);
                    }
                } else {
                    assert(m[bb] == old_map[bb]);
                }
            }
            self.lemma_filed_entry(b, before.len() as int);
            assert forall|v: SimpleView| v != v0 implies #[trigger] self.filed(v) == old(self).filed(v) by {
                let bv = bucket_of(v) as u128;
                if bv == b {
                    assert forall|j: int| 0 <= j < m[bv]@.len() && #[trigger] m[bv]@[j].0.sview() == v implies 0 <= j < before.len() && old_map[bv]@[j].0.sview() == v by {
                        if j == before.len() {
                            assert(m[bv]@[j].0.sview() == v0);
                        }
                        assert(m[bv]@[j] == before[j]);
                    }
                    if old_map.contains_key(bv) {
                        assert forall|j: int| 0 <= j < old_map[bv]@.len() && #[trigger] old_map[bv]@[j].0.sview() == v implies m[bv]@[j].0.sview() == v by {
                            assert(m[bv]@[j] == old_map[bv]@[j]);
                        }
                        if exists|j: int| 0 <= j < old_map[bv]@.len() && #[trigger] old_map[bv]@[j].0.sview() == v {
                            let j = choose|j: int| 0 <= j < old_map[bv]@.len() && #[trigger] old_map[bv]@[j].0.sview() == v;
                            old(self).lemma_filed_entry(bv, j);
                            assert(m[bv]@[j] == old_map[bv]@[j]);
                            self.lemma_filed_entry(bv, j);
                        }
                    }
                } else {
                    assert(m[bv] == old_map[bv]);
                    assert(m.contains_key(bv) == old_map.contains_key(bv));
                }
            }
        }
    }

    /// `self` has the child entries of `start` for its nodes, and none for the nodes added since.
    pub closed spec fn same_edges_from(&self, start: Generation) -> bool {
        match (self.children, start.children) {
            (Children::Known(p, c), Children::Known(q, d)) => {
                &&& p == q
                &&& c@.len() >= d@.len()
                &&& forall|k: int| 0 <= k < d@.len() ==> #[trigger] c@[k] == d@[k]
                &&& forall|k: int| d@.len() <= k < c@.len() ==> #[trigger] c@[k] is None
            },
            (Children::Speculated(c), Children::Speculated(d)) => {
                &&& c@.len() >= d@.len()
                &&& forall|k: int| 0 <= k < d@.len() ==> #[trigger] c@[k] == d@[k]
                &&& forall|k: int| d@.len() <= k < c@.len() ==> #[trigger] c@[k] is None
            },
            _ => false,
        }
    }

    /// Adding entries without children keeps what the edges say.
    proof fn lemma_same_edges(start: Generation, g: Generation)
        requires
            g.same_edges_from(start),
            start.children_len() == start.len(),
            g.children_len() == g.len(),
        ensures
            g.piece() == start.piece(),
            forall|k: int| 0 <= k < start.len() ==> #[trigger] g.known(k) == start.known(k)
                && g.speculated_expanded(k) == start.speculated_expanded(k),
            forall|k: int, s: int| 0 <= k < start.len() ==> #[trigger] g.speculated(k, s) == start.speculated(k, s),
            forall|k: int| start.len() <= k < g.len() ==> !(#[trigger] g.expanded(k)),
            forall|n: nat| start.edges_within(n) ==> #[trigger] g.edges_within(n),
            start.no_edges() ==> g.no_edges(),
            start.slots_wf() ==> g.slots_wf(),
    {
        reveal(Generation::edges_within);
        reveal(Generation::no_edges);
        reveal(Generation::slots_wf);
        match (g.children, start.children) {
            (Children::Known(p, c), Children::Known(q, d)) => {
                assert forall|n: nat| start.edges_within(n) implies #[trigger] g.edges_within(n) by {
                    assert forall|k: int, j: int|
                        #![trigger c@[k], c@[k]->0@[j]]
                        0 <= k < c@.len() && c@[k] is Some && 0 <= j < c@[k]->0@.len() implies {
                            &&& c@[k]->0@[j].node < n
                            &&& reward_within(c@[k]->0@[j].reward)
                            &&& c@[k]->0@.len() <= MAX_CHILDREN
                        } by {
                        assert(k < d@.len());
                        assert(c@[k] == d@[k]);
                        assert(d@[k]->0@[j] == c@[k]->0@[j]);
                    }
                }
            },
            (Children::Speculated(c), Children::Speculated(d)) => {
                assert forall|n: nat| start.edges_within(n) implies #[trigger] g.edges_within(n) by {
                    assert forall|k: int, s: int, j: int|
                        #![trigger c@[k]->0@[s]->0@[j]]
                        0 <= k < c@.len() && c@[k] is Some && 0 <= s < 7 && c@[k]->0@[s] is Some && 0 <= j
                            < c@[k]->0@[s]->0@.len() implies {
                            &&& c@[k]->0@[s]->0@[j].node < n
                            &&& reward_within(c@[k]->0@[s]->0@[j].reward)
                            &&& c@[k]->0@[s]->0@.len() <= MAX_CHILDREN
                        } by {
                        assert(k < d@.len());
                        assert(c@[k] == d@[k]);
                        assert(d@[k]->0@[s]->0@[j] == c@[k]->0@[s]->0@[j]);
                    }
                }
                if start.slots_wf() {
                    assert forall|k: int| 0 <= k < c@.len() && #[trigger] c@[k] is Some implies c@[k]->0@.len() == 7 by {
                        assert(k < d@.len());
                        assert(c@[k] == d@[k]);
                    }
                }
            },
            _ => {},
        }
    }

    /// Appending entries twice is appending them once.
    proof fn lemma_same_edges_trans(a: Generation, b: Generation, c: Generation)
        requires
            b.same_edges_from(a),
            c.same_edges_from(b),
        ensures
            c.same_edges_from(a),
    {
    }

    /// Adds a node with evaluation `e`, no parents and no children.
    fn push_node(&mut self, e: Value)
        requires
            old(self).dedup_ok(),
            old(self).children_len() == old(self).len(),
        ensures
            final(self).dedup_ok(),
            final(self).children_len() == final(self).len(),
            final(self).len() == old(self).len() + 1,
            final(self).dedup == old(self).dedup,
            forall|k: int| 0 <= k < old(self).len() ==> #[trigger] final(self).nodes@[k] == old(self).nodes@[k],
            final(self).eval(old(self).len() as int) == e,
            !final(self).marked(old(self).len() as int),
            !final(self).death(old(self).len() as int),
            final(self).parents(old(self).len() as int).len() == 0,
            final(self).same_edges_from(*old(self)),
            forall|v: SimpleView| #[trigger] final(self).filed(v) == old(self).filed(v),
    {
        self.nodes.push(Node { parents: Vec::new(), evaluation: e, marked: false, death: false });
        match &mut self.children {
            Children::Known(_, c) => c.push(None),
            Children::Speculated(c) => c.push(None),
        }
    }

    /// Replaces the children of node `k` of a known generation.
    fn set_known(&mut self, k: usize, list: Vec<Child>)
        requires
            k < old(self).children_len(),
            old(self).piece() is Some,
        ensures
            final(self).nodes == old(self).nodes,
            final(self).dedup == old(self).dedup,
            final(self).piece() == old(self).piece(),
            final(self).children_len() == old(self).children_len(),
            final(self).known(k as int) == Some(list@),
            forall|j: int| 0 <= j < old(self).children_len() && j != k ==> #[trigger] final(self).known(j) == old(self).known(j),
            final(self).same_entries_except(*old(self), k as int),
    {
        match &mut self.children {
            Children::Known(_, c) => {
                c.set(k, Some(list));
            },
            Children::Speculated(_) => {},
        }
    }

    /// Replaces the slots of node `k` of a speculated generation.
    fn set_groups(&mut self, k: usize, groups: Vec<Option<Vec<Child>>>)
        requires
            k < old(self).children_len(),
            old(self).piece() is None,
        ensures
            final(self).nodes == old(self).nodes,
            final(self).dedup == old(self).dedup,
            final(self).piece() == old(self).piece(),
            final(self).children_len() == old(self).children_len(),
            final(self).speculated_expanded(k as int),
            forall|s: int| 0 <= s < groups@.len() ==> #[trigger] final(self).speculated(k as int, s) == match groups@[s] {
                Some(v) => Some(v@),
                None => None::<Seq<Child>>,
            },
            final(self).slot_count(k as int) == groups@.len(),
            final(self).same_entries_except(*old(self), k as int),
    {
        match &mut self.children {
            Children::Known(_, _) => {},
            Children::Speculated(c) => {
                c.set(k, Some(groups));
            },
        }
    }

    /// The number of slots of expanded node `k` of a speculated generation.
    pub closed spec fn slot_count(&self, k: int) -> nat {
        match self.children {
            Children::Known(_, _) => 0,
            Children::Speculated(c) => match c@[k] {
                Some(slots) => slots@.len(),
                None => 0,
            },
        }
    }

    /// The child entries of all nodes but `k` are those of `other`.
    pub closed spec fn same_entries_except(&self, other: Generation, k: int) -> bool {
        match (self.children, other.children) {
            (Children::Known(p, c), Children::Known(q, d)) => p == q && c@.len() == d@.len() && forall|j: int|
                0 <= j < c@.len() && j != k ==> #[trigger] c@[j] == d@[j],
            (Children::Speculated(c), Children::Speculated(d)) => c@.len() == d@.len() && forall|j: int|
                0 <= j < c@.len() && j != k ==> #[trigger] c@[j] == d@[j],
            _ => false,
        }
    }

    /// Reordering the children of one node keeps the edges within bounds and the slots whole.
    proof fn lemma_reordered(a: Generation, b: Generation, k: int, n: nat)
        requires
            b.same_entries_except(a, k),
            a.edges_within(n),
            a.slots_wf(),
            0 <= k < a.children_len(),
            a.piece() is Some ==> a.known(k) is Some && b.known(k) is Some
                && b.known(k)->0.len() == a.known(k)->0.len()
                && forall|i: int| 0 <= i < b.known(k)->0.len() ==> exists|j: int| 0 <= j < a.known(k)->0.len() && #[trigger] b.known(k)->0[i] == a.known(k)->0[j],
            a.piece() is None ==> a.speculated_expanded(k) && b.speculated_expanded(k) && b.slot_count(k) == 7
                && forall|s: int| 0 <= s < 7 ==> (#[trigger] b.speculated(k, s) is Some) == (a.speculated(k, s) is Some)
                && forall|s: int| 0 <= s < 7 && #[trigger] b.speculated(k, s) is Some ==> b.speculated(k, s)->0.len() == a.speculated(k, s)->0.len()
                && forall|s: int, i: int| 0 <= s < 7 && b.speculated(k, s) is Some && 0 <= i < b.speculated(k, s)->0.len() ==> exists|j: int| 0 <= j < a.speculated(k, s)->0.len() && #[trigger] b.speculated(k, s)->0[i] == a.speculated(k, s)->0[j],
        ensures
            b.edges_within(n),
            b.slots_wf(),
    {
        reveal(Generation::edges_within);
        reveal(Generation::slots_wf);
        match (b.children, a.children) {
            (Children::Known(p, c), Children::Known(q, d)) => {
                assert forall|kk: int, j: int|
                    #![trigger c@[kk], c@[kk]->0@[j]]
                    0 <= kk < c@.len() && c@[kk] is Some && 0 <= j < c@[kk]->0@.len() implies {
                        &&& c@[kk]->0@[j].node < n
                        &&& reward_within(c@[kk]->0@[j].reward)
                        &&& c@[kk]->0@.len() <= MAX_CHILDREN
                    } by {
                    if kk != k {
                        assert(c@[kk] == d@[kk]);
                        assert(d@[kk]->0@[j] == c@[kk]->0@[j]);
                    } else {
                        assert(b.known(k)->0 == c@[k]->0@);
                        assert(a.known(k)->0 == d@[k]->0@);
                        let t = choose|t: int| 0 <= t < a.known(k)->0.len() && #[trigger] b.known(k)->0[j] == a.known(k)->0[t];
                        assert(d@[k]->0@[t] == c@[k]->0@[j]);
                    }
                }
            },
            (Children::Speculated(c), Children::Speculated(d)) => {
                assert forall|kk: int, s: int, j: int|
                    #![trigger c@[kk]->0@[s]->0@[j]]
                    0 <= kk < c@.len() && c@[kk] is Some && 0 <= s < 7 && c@[kk]->0@[s] is Some && 0 <= j
                        < c@[kk]->0@[s]->0@.len() implies {
                        &&& c@[kk]->0@[s]->0@[j].node < n
                        &&& reward_within(c@[kk]->0@[s]->0@[j].reward)
                        &&& c@[kk]->0@[s]->0@.len() <= MAX_CHILDREN
                    } by {
                    if kk != k {
                        assert(c@[kk] == d@[kk]);
                        assert(d@[kk]->0@[s]->0@[j] == c@[kk]->0@[s]->0@[j]);
                    } else {
                        assert(b.speculated(k, s) == Some(c@[k]->0@[s]->0@));
                        assert(a.speculated(k, s) is Some);
                        assert(a.speculated(k, s) == Some(d@[k]->0@[s]->0@));
                        let t = choose|t: int| 0 <= t < a.speculated(k, s)->0.len() && #[trigger] b.speculated(k, s)->0[j] == a.speculated(k, s)->0[t];
                        assert(d@[k]->0@[s]->0@[t] == c@[k]->0@[s]->0@[j]);
                        assert(d@[k] is Some);
                    }
                }
                assert forall|kk: int| 0 <= kk < c@.len() && #[trigger] c@[kk] is Some implies c@[kk]->0@.len() == 7 by {
                    if kk != k {
                        assert(c@[kk] == d@[kk]);
                    } else {
                        assert(b.slot_count(k) == c@[k]->0@.len());
                    }
                }
            },
            _ => {},
        }
    }

    /// Adds `parent` to the parents of node `k`.
    fn add_parent(&mut self, k: usize, parent: u32)
        requires
            k < old(self).len(),
        ensures
            final(self).children == old(self).children,
            final(self).dedup == old(self).dedup,
            final(self).nodes@.len() == old(self).nodes@.len(),
            forall|j: int| 0 <= j < old(self).len() && j != k ==> #[trigger] final(self).nodes@[j] == old(self).nodes@[j],
            final(self).eval(k as int) == old(self).eval(k as int),
            final(self).marked(k as int) == old(self).marked(k as int),
            final(self).death(k as int) == old(self).death(k as int),
            final(self).parents(k as int) == old(self).parents(k as int).push(parent),
    {
        self.nodes[k].parents.push(parent);
    }

    /// A generation with no nodes whose piece is `p`, or that is speculated.
    fn empty(piece: Option<Piece>) -> (g: Generation)
        ensures
            g.len() == 0,
            g.children_len() == 0,
            g.piece() == piece,
            g.slots_wf(),
            g.no_edges(),
            g.dedup_ok(),
            forall|v: SimpleView| #[trigger] g.filed(v) is None,
    {
        reveal(Generation::slots_wf);
        reveal(Generation::no_edges);
        match piece {
            Some(p) => Generation {
                nodes: Vec::new(),
                children: Children::Known(p, Vec::new()),
                dedup: HashMap::new(),
            },
            None => Generation {
                nodes: Vec::new(),
                children: Children::Speculated(Vec::new()),
                dedup: HashMap::new(),
            },
        }
    }
}

/// The generations of a graph just made for `board`: a root, and an empty known generation
/// for each piece of the queue past the one that decides the root's children; with hold in
/// use and the hold slot empty, the first piece of the queue goes to hold and does not count.
pub open spec fn is_fresh(gens: Seq<Generation>, board: Board, use_hold: bool) -> bool {
    let skip: int = if use_hold && board.hold_of() is None { 1 } else { 0 };
    let q = board.queue();
    &&& gens.len() == if q.len() > skip { q.len() - skip } else { 1 }
    &&& gens[0].len() == 1
    &&& gens[0].children_len() == 1
    &&& gens[0].slots_wf()
    &&& gens[0].no_edges()
    &&& gens[0].dedup_ok()
    &&& gens[0].piece() == (if q.len() > skip {
        Some(q[skip])
    } else {
        None::<Piece>
    })
    &&& gens[0].eval(0) == (Value { value: 0, spike: 0 })
    &&& !gens[0].marked(0)
    &&& !gens[0].death(0)
    &&& gens[0].parents(0).len() == 0
    &&& forall|g: int|
        1 <= g < gens.len() ==> (#[trigger] gens[g]).len() == 0 && gens[g].children_len() == 0
            && gens[g].slots_wf() && gens[g].no_edges() && gens[g].dedup_ok() && gens[g].piece() == Some(q[skip + g])
}

/// The generations of a graph just made for `board`.
fn fresh_generations(board: &Board, use_hold: bool) -> (gens: Vec<Generation>)
    requires
        board.wf(),
        use_hold && board.hold_of() is None ==> board.queue().len() >= 1,
        board.queue().len() <= MAX_GENERATIONS,
    ensures
        is_fresh(gens@, *board, use_hold),
{
        let q = board.next_queue();
        let skip: usize = if use_hold && board.held_piece().is_none() {
            1
        } else {
            0
        };
        let first = if q.len() > skip {
            Some(q[skip])
        } else {
            None
        };
        let mut root_gen = Generation::empty(first);
        root_gen.nodes.push(
            Node {
                parents: Vec::new(),
                evaluation: Value { value: 0, spike: 0 },
                marked: false,
                death: false,
            },
        );
        match &mut root_gen.children {
            Children::Known(_, c) => c.push(None),
            Children::Speculated(c) => c.push(None),
        }
        proof {
            reveal(Generation::slots_wf);
            reveal(Generation::no_edges);
        }
        let mut generations: Vec<Generation> = Vec::new();
        generations.push(root_gen);
        let mut i: usize = skip + 1;
        while i < q.len()
            invariant
                q@ == board.queue(),
                q@.len() <= MAX_GENERATIONS,
                skip <= 1,
                skip + 1 <= i,
                i <= q@.len() || i == skip + 1,
                generations@.len() == i - skip,
                generations@[0].len() == 1,
                generations@[0].children_len() == 1,
                generations@[0].slots_wf(),
                generations@[0].no_edges(),
                generations@[0].piece() == first,
                generations@[0].eval(0) == (Value { value: 0, spike: 0 }),
                !generations@[0].marked(0),
                !generations@[0].death(0),
                generations@[0].parents(0).len() == 0,
                generations@[0].dedup_ok(),
                forall|g: int|
                    1 <= g < generations@.len() ==> (#[trigger] generations@[g]).len() == 0
                        && generations@[g].dedup_ok()
                        && generations@[g].children_len() == 0 && generations@[g].slots_wf()
                        && generations@[g].no_edges() && generations@[g].piece() == Some(
                        q@[skip + g],
                    ),
            decreases q@.len() - i,
        {
            generations.push(Generation::empty(Some(q[i])));
            i = i + 1;
        }
        generations
}

/// The search graph, with the board at its root.
pub struct DagState {
    board: Board,
    generations: Vec<Generation>,
    root: u32,
    gens_passed: u32,
    use_hold: bool,
}

impl DagState {
    /// Generation `g`.
    pub closed spec fn generation(&self, g: int) -> Generation {
        self.generations@[g]
    }

    /// The number of generations held.
    pub closed spec fn gen_count(&self) -> nat {
        self.generations@.len()
    }

    /// The slot of the root in generation `0`.
    pub closed spec fn root_of(&self) -> int {
        self.root as int
    }

    /// The number of generations dropped since the graph was made.
    pub closed spec fn passed(&self) -> int {
        self.gens_passed as int
    }

    /// The board at the root.
    pub closed spec fn board_of(&self) -> Board {
        self.board
    }

    /// Hold is in use.
    pub closed spec fn hold_used(&self) -> bool {
        self.use_hold
    }

    /// Generation `g` is well formed, its parents lying in the generation before.
    pub closed spec fn gen_ok(&self, g: int) -> bool {
        self.generations@[g].wf(
            eval_bound(g),
            if g == 0 {
                u32::MAX as nat
            } else {
                self.generations@[g - 1].len()
            },
        )
    }

    /// The edges of generation `g` lead into generation `g + 1`.
    pub closed spec fn edges_ok(&self, g: int) -> bool {
        self.generations@[g].edges_within(self.generations@[g + 1].len())
    }

    /// The graph is well formed: between one and `MAX_GENERATIONS` generations, a root that
    /// exists, every edge leading into the next generation (the last has none), every parent
    /// lying in the previous generation, and the evaluations within the bound of their
    /// generation.
    pub closed spec fn wf(&self) -> bool {
        &&& 1 <= self.generations@.len() <= MAX_GENERATIONS
        &&& self.root < self.generations@[0].len()
        &&& self.board.wf()
        &&& forall|g: int| 0 <= g < self.generations@.len() ==> #[trigger] self.gen_ok(g)
        &&& forall|g: int| 0 <= g < self.generations@.len() - 1 ==> #[trigger] self.edges_ok(g)
        &&& self.generations@.last().no_edges()
        &&& forall|g: int|
            0 <= g < self.generations@.len() ==> (#[trigger] self.generations@[g]).children_len()
                == self.generations@[g].len()
        &&& forall|g: int| 0 <= g < self.generations@.len() ==> (#[trigger] self.generations@[g]).dedup_ok()
        &&& forall|g: int|
            0 <= g < self.generations@.len() ==> (#[trigger] self.generations@[g]).len() < u32::MAX
    }

    /// A graph with fresh generations is well formed.
    proof fn lemma_fresh_wf(&self)
        requires
            is_fresh(self.generations@, self.board, self.use_hold),
            self.root == 0,
            self.board.wf(),
            self.board.queue().len() <= MAX_GENERATIONS,
        ensures
            self.wf(),
    {
        reveal(Generation::wf);
        reveal(Generation::edges_within);
        reveal(Generation::no_edges);
        reveal(Generation::slots_wf);
        let d = *self;
            let n = d.generations@.len();
            assert(d.generations@[n - 1].no_edges());
            assert forall|g: int| 0 <= g < n - 1 implies #[trigger] d.edges_ok(g) by {
                assert(d.generations@[g].no_edges());
            }
            assert forall|g: int| 0 <= g < n implies #[trigger] d.gen_ok(g) by {
                if g == 0 {
                    assert forall|k: int| 0 <= k < d.generations@[0].len() implies value_within(
                        #[trigger] d.generations@[0].eval(k),
                        eval_bound(0),
                    ) by {
                        assert(k == 0);
                    }
                    assert forall|k: int, j: int|
                        0 <= k < d.generations@[0].len() && 0 <= j < d.generations@[0].parents(
                            k,
                        ).len() implies #[trigger] d.generations@[0].parents(k)[j] < u32::MAX by {
                        assert(k == 0);
                    }
                }
            }
    }

    /// Creates the graph for `board`: a root, and an empty known generation for each piece of
    /// the queue past the one that decides the root's children. With hold in use and the hold
    /// slot empty, the first piece of the queue goes to hold and does not count.
    pub fn new(board: Board, use_hold: bool) -> (d: DagState)
        requires
            board.wf(),
            use_hold && board.hold_of() is None ==> board.queue().len() >= 1,
            board.queue().len() <= MAX_GENERATIONS,
        ensures
            d.wf(),
            made_for(d, board, use_hold),
    {
        let generations = fresh_generations(&board, use_hold);
        let d = DagState { board, generations, root: 0, gens_passed: 0, use_hold };
        proof {
            d.lemma_fresh_wf();
        }
        d
    }
}


impl DagState {
    /// The number of nodes of the generations before `n`.
    pub open spec fn nodes_before(&self, n: int) -> int
        decreases n,
    {
        if n <= 0 {
            0
        } else {
            self.nodes_before(n - 1) + self.generation(n - 1).len()
        }
    }

    /// The number of nodes in the graph.
    pub open spec fn total_nodes(&self) -> int {
        self.nodes_before(self.gen_count() as int)
    }

    /// `id` names a node that still exists, or one that was dropped with its generation.
    pub open spec fn valid_id(&self, id: NodeId) -> bool {
        id.generation >= self.passed() ==> {
            &&& id.generation - self.passed() < self.gen_count()
            &&& id.slab_key < self.generation(id.generation - self.passed()).len()
        }
    }

    /// The number of known generations without nodes that end the first `j` generations.
    pub open spec fn empty_tail(&self, j: int) -> int
        decreases j,
    {
        if j <= 0 {
            0
        } else if self.generation(j - 1).piece() is Some && self.generation(j - 1).len() == 0 {
            1 + self.empty_tail(j - 1)
        } else {
            0
        }
    }

    /// `self` is `other` with node `k` of generation `g` marked as `v`.
    pub closed spec fn same_but_mark(&self, other: &DagState, g: int, k: int, v: bool) -> bool {
        &&& self.board == other.board
        &&& self.root == other.root
        &&& self.gens_passed == other.gens_passed
        &&& self.use_hold == other.use_hold
        &&& self.generations@.len() == other.generations@.len()
        &&& forall|i: int|
            0 <= i < self.generations@.len() && i != g ==> #[trigger] self.generations@[i]
                == other.generations@[i]
        &&& self.generations@[g].children == other.generations@[g].children
        &&& self.generations@[g].nodes@.len() == other.generations@[g].nodes@.len()
        &&& forall|j: int|
            0 <= j < self.generations@[g].nodes@.len() && j != k ==> #[trigger] self.generations@[g].nodes@[j]
                == other.generations@[g].nodes@[j]
        &&& self.generations@[g].nodes@[k].marked == v
        &&& self.generations@[g].nodes@[k].death == other.generations@[g].nodes@[k].death
        &&& self.generations@[g].nodes@[k].evaluation == other.generations@[g].nodes@[k].evaluation
        &&& self.generations@[g].nodes@[k].parents@ == other.generations@[g].nodes@[k].parents@
    }

    /// Marks node `k` of generation `g` as `v`.
    fn set_marked(&mut self, g: usize, k: usize, v: bool)
        requires
            old(self).wf(),
            g < old(self).gen_count(),
            k < old(self).generation(g as int).len(),
        ensures
            final(self).wf(),
            final(self).same_but_mark(old(self), g as int, k as int, v),
    {
        let ghost before = *self;
        self.generations[g].nodes[k].marked = v;
        proof {
            let a = before.generations@[g as int];
            let b = self.generations@[g as int];
            assert forall|j: int| 0 <= j < b.len() implies #[trigger] b.eval(j) == a.eval(j) && b.parents(j) == a.parents(j) by {
                if j != k {
                    assert(b.nodes@[j] == a.nodes@[j]);
                }
            }
            assert(b.same_shape(a));
            self.lemma_wf_from(&before);
        }
    }

    /// A graph whose generations have the shapes of those of a well formed graph, with the same
    /// board and root, is well formed.
    proof fn lemma_wf_from(&self, other: &DagState)
        requires
            other.wf(),
            self.board == other.board,
            self.root == other.root,
            self.generations@.len() == other.generations@.len(),
            forall|i: int| 0 <= i < self.generations@.len() ==> (#[trigger] self.generations@[i]).same_shape(other.generations@[i]),
        ensures
            self.wf(),
    {
        let n = self.generations@.len();
        assert forall|g: int| 0 <= g < n implies (#[trigger] self.generations@[g]).children_len() == self.generations@[g].len() && self.generations@[g].len() < u32::MAX && self.generations@[g].dedup_ok() by {
            Generation::lemma_same_shape(other.generations@[g], self.generations@[g]);
        }
        assert forall|g: int| 0 <= g < n implies #[trigger] self.gen_ok(g) by {
            Generation::lemma_same_shape(other.generations@[g], self.generations@[g]);
            if g > 0 {
                Generation::lemma_same_shape(other.generations@[g - 1], self.generations@[g - 1]);
            }
            assert(other.gen_ok(g));
        }
        assert forall|g: int| 0 <= g < n - 1 implies #[trigger] self.edges_ok(g) by {
            assert(other.edges_ok(g));
            Generation::lemma_same_shape(other.generations@[g], self.generations@[g]);
            Generation::lemma_same_shape(other.generations@[g + 1], self.generations@[g + 1]);
        }
        Generation::lemma_same_shape(other.generations@[n - 1], self.generations@[n - 1]);
        Generation::lemma_same_shape(other.generations@[0], self.generations@[0]);
    }

    /// The number of nodes in the graph.
    pub fn nodes(&self) -> (n: u32)
        requires
            self.wf(),
            self.total_nodes() <= u32::MAX,
        ensures
            n == self.total_nodes(),
    {
        let mut n: u32 = 0;
        let mut g: usize = 0;
        while g < self.generations.len()
            invariant
                self.total_nodes() <= u32::MAX,
                g <= self.gen_count(),
                n == self.nodes_before(g as int),
            decreases self.gen_count() - g,
        {
            let len = self.generations[g].nodes.len();
            proof {
                self.lemma_nodes_before_mono(g as int + 1, self.gen_count() as int);
                assert(self.nodes_before(g as int + 1) == self.nodes_before(g as int) + len);
            }
            n = n + len as u32;
            g = g + 1;
        }
        n
    }

    /// Counting nodes over more generations gives no fewer.
    proof fn lemma_nodes_before_mono(&self, a: int, b: int)
        requires
            0 <= a <= b,
        ensures
            self.nodes_before(a) <= self.nodes_before(b),
        decreases b,
    {
        if b > a {
            self.lemma_nodes_before_mono(a, b - 1);
        }
    }

    /// How many generations deep the graph reaches: the generations after the root's, leaving
    /// out the known generations at the end that hold no node.
    pub fn depth(&self) -> (d: u32)
        requires
            self.wf(),
        ensures
            d == self.gen_count() - 1 - self.empty_tail(self.gen_count() as int),
    {
        let n = self.generations.len();
        let mut depth: u32 = (n - 1) as u32;
        let mut i: usize = n;
        while i > 0
            invariant_except_break
                n == self.gen_count(),
                n >= 1,
                self.generation(0).len() > 0,
                forall|j: int| 0 <= j < n ==> (#[trigger] self.generation(j)).children_len() == self.generation(j).len(),
                i <= n,
                depth == n - 1 - (n - i),
                forall|j: int| i <= j < n ==> (#[trigger] self.generation(j)).piece() is Some && self.generation(j).len() == 0,
            ensures
                depth == n - 1 - self.empty_tail(n as int),
            decreases i,
        {
            let gen = &self.generations[i - 1];
            let empty = match &gen.children {
                Children::Known(_, c) => c.len() == 0,
                _ => false,
            };
            if empty {
                proof {
                    if i - 1 == 0 {
                        assert(self.generation(0).len() > 0);
                    }
                }
                depth = depth - 1;
                i = i - 1;
            } else {
                proof {
                    self.lemma_empty_tail(i as int, n as int);
                }
                break;
            }
        }
        depth
    }

    /// With the generations from `i` to `n` known and empty and generation `i - 1` not, the
    /// first `n` generations end in `n - i` such generations.
    proof fn lemma_empty_tail(&self, i: int, n: int)
        requires
            1 <= i <= n,
            !(self.generation(i - 1).piece() is Some && self.generation(i - 1).len() == 0),
            forall|j: int| i <= j < n ==> (#[trigger] self.generation(j)).piece() is Some && self.generation(j).len() == 0,
        ensures
            self.empty_tail(n) == n - i,
        decreases n,
    {
        if n > i {
            self.lemma_empty_tail(i, n - 1);
        }
    }

    /// The board at the root.
    pub fn board(&self) -> (b: &Board)
        ensures
            *b == self.board_of(),
    {
        &self.board
    }

    /// The root was expanded and has no children: every placement loses.
    pub fn is_dead(&self) -> (b: bool)
        requires
            self.wf(),
        ensures
            b == (self.generation(0).known(self.root_of()) == Some(Seq::<Child>::empty())),
    {
        match &self.generations[0].children {
            Children::Known(_, c) => match &c[self.root as usize] {
                Some(v) => {
                    proof {
                        if v@.len() == 0 {
                            assert(v@ =~= Seq::<Child>::empty());
                        }
                    }
                    v.len() == 0
                },
                None => false,
            },
            Children::Speculated(_) => false,
        }
    }

    /// Hands back a node that was given out for expansion without expanding it.
    pub fn unmark(&mut self, node: NodeId)
        requires
            old(self).wf(),
            old(self).valid_id(node),
        ensures
            final(self).wf(),
            final(self).hold_used() == old(self).hold_used(),
            unmarked(*final(self), *old(self), node),
    {
        if node.generation >= self.gens_passed {
            let g = (node.generation - self.gens_passed) as usize;
            self.set_marked(g, node.slab_key as usize, false);
        }
    }
}
/// `p` can be placed on `b` the way the search places pieces: the board has no full row, the
/// piece lies on the playfield, and it is the next piece, or the held one, or (with hold empty)
/// the piece after the next.
pub open spec fn fits(b: Board, p: FallingPiece) -> bool {
    let q = b.queue();
    &&& no_full_rows(b.grid())
    &&& p.in_range()
    &&& on_field(p)
    &&& b.combo_of() < u32::MAX
    &&& q.len() >= 1
    &&& (q[0] == p.kind.0 || match b.hold_of() {
        Some(h) => h == p.kind.0,
        None => q.len() >= 2 && q[1] == p.kind.0,
    })
}

/// `b1` and `l` are the board and outcome after `p` was placed on `b0`: the piece locks, the
/// queue moves on, and when the piece is not the next one, the next one goes to hold (the held
/// piece came out of hold, or with hold empty the piece came from the queue).
pub open spec fn advanced(b0: Board, p: FallingPiece, b1: Board, l: LockResult) -> bool {
    let q = b0.queue();
    let placed = placed_grid(b0.grid(), p);
    let kind = placement_kind_spec(full_rows(placed, 40).len() as int, p.tspin);
    let outcome = lock_outcome(kind, b0.b2b_of(), b0.combo_of(), l.perfect_clear);
    &&& b1.wf()
    &&& b1.grid() == clear_lines(placed)
    &&& l.placement_kind == kind
    &&& l.locked_out == (forall|i: int| 0 <= i < 4 ==> #[trigger] p.cell(i).1 >= 20)
    &&& l.perfect_clear == (forall|x: int, y: int|
        0 <= x < 10 && 0 <= y < 40 ==> !#[trigger] b1.grid()[y][x])
    &&& l.cleared_lines@.len() == full_rows(placed, 40).len()
    &&& forall|i: int|
        0 <= i < l.cleared_lines@.len() ==> #[trigger] l.cleared_lines@[i] as int == full_rows(
            placed,
            40,
        )[i]
    &&& l.garbage_sent == outcome.0
    &&& l.b2b == outcome.1
    &&& b1.b2b_of() == outcome.2
    &&& b1.combo_of() == outcome.3
    &&& l.combo == (if b1.combo_of() == 0 {
        None::<u32>
    } else {
        Some((b1.combo_of() - 1) as u32)
    })
    &&& b1.bag_of() == b0.bag_of()
    &&& if q[0] == p.kind.0 {
        &&& b1.queue() == q.drop_first()
        &&& b1.hold_of() == b0.hold_of()
    } else {
        &&& b1.hold_of() == Some(q[0])
        &&& b1.queue() == match b0.hold_of() {
            Some(_) => q.drop_first(),
            None => q.drop_first().drop_first(),
        }
    }
}

/// Whether the board has a full row.
pub fn has_full_row(board: &Board) -> (b: bool)
    requires
        board.wf(),
    ensures
        b == !no_full_rows(board.grid()),
{
    let mut y: i32 = 0;
    proof {
        board.lemma_inv();
    }
    while y < 40
        invariant
            0 <= y <= 40,
            board.wf(),
            forall|k: int| 0 <= k < y ==> !crate::board::row_full(#[trigger] board.grid()[k]),
        decreases 40 - y,
    {
        let row = board.get_row(y);
        if row.is_full() {
            proof {
                board.lemma_inv();
                assert forall|x: int| 0 <= x < 10 implies #[trigger] board.grid()[y as int][x] by {
                    assert(row.filled(x));
                }
                assert(crate::board::row_full(board.grid()[y as int]));
            }
            return true;
        }
        proof {
            board.lemma_inv();
            let x = choose|x: int| 0 <= x < 10 && !row.filled(x);
            assert(!board.grid()[y as int][x]);
        }
        y = y + 1;
    }
    false
}

/// Whether `p` can be placed on `board` the way the search places pieces.
fn fits_exec(board: &Board, p: &FallingPiece) -> (b: bool)
    requires
        board.wf(),
    ensures
        b == fits(*board, *p),
{
    if has_full_row(board) {
        return false;
    }
    if !(i32::MIN + 2 <= p.x && p.x <= i32::MAX - 2 && i32::MIN + 3 <= p.y && p.y <= i32::MAX - 3) {
        return false;
    }
    let cells = p.cells();
    let mut i: usize = 0;
    while i < 4
        invariant
            i <= 4,
            p.in_range(),
            forall|j: int| 0 <= j < 4 ==> (cells@[j].0 as int, cells@[j].1 as int) == #[trigger] p.cell(j),
            forall|j: int| 0 <= j < i ==> 0 <= #[trigger] p.cell(j).0 < 10 && 0 <= p.cell(j).1 < 40,
        decreases 4 - i,
    {
        let (x, y) = cells[i];
        if x < 0 || x >= 10 || y < 0 || y >= 40 {
            proof {
                assert(p.cell(i as int) == (x as int, y as int));
            }
            return false;
        }
        proof {
            assert(p.cell(i as int) == (x as int, y as int));
        }
        i = i + 1;
    }
    if board.combo_count() == u32::MAX {
        return false;
    }
    let q = board.next_queue();
    if q.len() == 0 {
        return false;
    }
    if q[0] == p.kind.0 {
        return true;
    }
    match board.held_piece() {
        Some(h) => h == p.kind.0,
        None => q.len() >= 2 && q[1] == p.kind.0,
    }
}

/// Places `p` on the board the way the search does, if it fits; otherwise leaves the board as
/// it was.
fn advance(board: &mut Board, p: FallingPiece) -> (r: Option<LockResult>)
    requires
        old(board).wf(),
    ensures
        final(board).wf(),
        r is None <==> !fits(*old(board), p),
        r is None ==> *final(board) == *old(board),
        r matches Some(l) ==> advanced(*old(board), p, *final(board), l),
        r is Some ==> no_full_rows(final(board).grid()),
{
    if !fits_exec(board, &p) {
        return None;
    }
    proof {
        board.lemma_inv();
        lemma_piece_clears_at_most_four(board.grid(), p);
    }
    let ghost b0 = *board;
    let result = board.lock_piece(p);
    let ghost b1 = *board;
    proof {
        lemma_clear_lines_not_full(placed_grid(b0.grid(), p));
    }
    let next = board.advance_queue();
    match next {
        Some(n) => {
            if n != p.kind.0 {
                let unheld = board.hold(n);
                if unheld.is_none() {
                    board.advance_queue();
                }
            }
        },
        None => {},
    }
    proof {
        assert(board.rows() == b1.rows());
        assert(board.grid() =~= b1.grid());
        assert(board.heights_seq() == b1.heights_seq());
        b1.lemma_same_state_wf(*board);
    }
    Some(result)
}

/// The position of `board` as the search tells positions apart.
fn make_key(board: &Board, hold_allowed: bool) -> (k: Simplified)
    requires
        board.wf(),
        hold_allowed && board.hold_of() is None ==> board.queue().len() >= 1,
    ensures
        k.sview() == position_of(*board, hold_allowed),
        k.grid_ok(),
{
    let h = highest_point(board);
    let mut grid: Vec<u16> = Vec::new();
    let mut y: i32 = 0;
    proof {
        board.lemma_inv();
    }
    while y < h
        invariant
            0 <= y <= h <= 40,
            board.wf(),
            grid@.len() == y,
            forall|k: int| 0 <= k < y ==> #[trigger] grid@[k] == board.rows()[k] && grid@[k] < 1024,
        decreases h - y,
    {
        let row = board.get_row(y);
        proof {
            board.lemma_inv();
        }
        grid.push(row);
        y = y + 1;
    }
    let reserve = if hold_allowed {
        match board.held_piece() {
            Some(p) => p,
            None => {
                let q = board.next_queue();
                q[0]
            },
        }
    } else {
        Piece::I
    };
    let k = Simplified {
        grid,
        combo: board.combo_count(),
        bag: board.next_bag(),
        reserve,
        back_to_back: board.has_back_to_back_active(),
        reserve_is_hold: board.held_piece().is_some(),
    };
    proof {
        assert(k.grid@ =~= Seq::new(max_height(board.grid(), 10) as nat, |y: int| board.rows()[y]));
    }
    k
}

/// The rank key of a found child: it is alive, worth its evaluation plus its reward.
pub open spec fn data_key(d: ChildData) -> RankKey {
    RankKey {
        alive: true,
        value: (d.evaluation.value + d.reward.value) as i32,
        spike: if d.reward.attack == -1 {
            0
        } else {
            (d.evaluation.spike + d.reward.attack) as i32
        },
    }
}

/// A found child can be filed: its board is well formed, its position known, its evaluation
/// and reward within the limits.
pub open spec fn data_ok(d: ChildData, hold_allowed: bool) -> bool {
    &&& d.board.wf()
    &&& hold_allowed && d.board.hold_of() is None ==> d.board.queue().len() >= 1
    &&& value_within(d.evaluation, LEAF_LIMIT as int)
    &&& reward_within(d.reward)
}

/// The order in which the found children are filed: by evaluation plus reward, best first.
pub open spec fn data_order(data: Seq<ChildData>) -> Seq<int> {
    ranked(Seq::new(data.len(), |i: int| data_key(data[i])), data.len() as int)
}

/// The edges that filing the found children into `next` gives, in filing order.
pub open spec fn expected_edges(next: Generation, data: Seq<ChildData>, hold_allowed: bool) -> Seq<Child> {
    Seq::new(
        data.len(),
        |i: int|
            Child {
                placement: data[data_order(data)[i]].mv,
                reward: data[data_order(data)[i]].reward,
                original_rank: i as u32,
                node: next.filed(position_of(data[data_order(data)[i]].board, hold_allowed))->0,
            },
    )
}

/// Files the found children into the next generation, ranked best first: a position already
/// there is reused, a new one gets a node with the child's evaluation; each node gets `parent`
/// as a parent once per child that leads to it. Returns the edges in rank order.
#[verifier::spinoff_prover]
fn build_children(next: &mut Generation, data: &Vec<ChildData>, parent: u32, hold_allowed: bool) -> (cs: Vec<Child>)
    requires
        old(next).dedup_ok(),
        old(next).children_len() == old(next).len(),
        old(next).len() + data@.len() < u32::MAX,
        data@.len() <= MAX_CHILDREN,
        forall|i: int| 0 <= i < data@.len() ==> data_ok(#[trigger] data@[i], hold_allowed),
    ensures
        final(next).dedup_ok(),
        final(next).children_len() == final(next).len(),
        final(next).len() >= old(next).len(),
        final(next).len() < u32::MAX,
        final(next).len() <= old(next).len() + data@.len(),
        final(next).piece() == old(next).piece(),
        cs@.len() == data@.len(),
        ({
            let order = ranked(Seq::new(data@.len(), |i: int| data_key(data@[i])), data@.len() as int);
            forall|i: int| 0 <= i < cs@.len() ==> {
                &&& (#[trigger] cs@[i]).node < final(next).len()
                &&& cs@[i].placement == data@[order[i]].mv
                &&& cs@[i].reward == data@[order[i]].reward
                &&& cs@[i].original_rank == i
                &&& final(next).filed(position_of(data@[order[i]].board, hold_allowed)) == Some(cs@[i].node)
            }
        }),
        cs@ == expected_edges(*final(next), data@, hold_allowed),
        forall|i: int| 0 <= i < cs@.len() ==> final(next).parents(#[trigger] cs@[i].node as int).contains(parent),
        forall|v: SimpleView| old(next).filed(v) is Some ==> #[trigger] final(next).filed(v) == old(next).filed(v),
        forall|k: int| 0 <= k < old(next).len() ==> {
            &&& #[trigger] final(next).eval(k) == old(next).eval(k)
            &&& final(next).marked(k) == old(next).marked(k)
            &&& final(next).death(k) == old(next).death(k)
            &&& final(next).parents(k).len() >= old(next).parents(k).len()
            &&& forall|j: int| 0 <= j < old(next).parents(k).len() ==> #[trigger] final(next).parents(k)[j] == old(next).parents(k)[j]
            &&& forall|j: int| old(next).parents(k).len() <= j < final(next).parents(k).len() ==> #[trigger] final(next).parents(k)[j] == parent
            &&& final(next).known(k) == old(next).known(k)
            &&& final(next).speculated_expanded(k) == old(next).speculated_expanded(k)
            &&& forall|s: int| #[trigger] final(next).speculated(k, s) == old(next).speculated(k, s)
        },
        forall|k: int| old(next).len() <= k < final(next).len() ==> {
            &&& value_within(#[trigger] final(next).eval(k), LEAF_LIMIT as int)
            &&& !final(next).marked(k)
            &&& !final(next).death(k)
            &&& !final(next).expanded(k)
            &&& forall|j: int| 0 <= j < final(next).parents(k).len() ==> #[trigger] final(next).parents(k)[j] == parent
        },
        forall|bound: int, prev: nat|
            old(next).wf(bound, prev) && LEAF_LIMIT <= bound && parent < prev ==> #[trigger] final(next).wf(bound, prev),
        forall|n: nat| old(next).edges_within(n) ==> #[trigger] final(next).edges_within(n),
        old(next).no_edges() ==> final(next).no_edges(),
{
    let ghost keys = Seq::new(data@.len(), |i: int| data_key(data@[i]));
    let mut keyv: Vec<RankKey> = Vec::new();
    let mut i: usize = 0;
    while i < data.len()
        invariant
            i <= data@.len(),
            keyv@.len() == i,
            forall|j: int| 0 <= j < i ==> #[trigger] keyv@[j] == keys[j],
            keys == Seq::new(data@.len(), |i: int| data_key(data@[i])),
            forall|i: int| 0 <= i < data@.len() ==> data_ok(#[trigger] data@[i], hold_allowed),
        decreases data@.len() - i,
    {
        let v = data[i].evaluation.add_reward(data[i].reward);
        keyv.push(RankKey { alive: true, value: v.value, spike: v.spike });
        i = i + 1;
    }
    assert(keyv@ =~= keys);
    let order = rank(&keyv);
    let ghost start = *next;
    let mut cs: Vec<Child> = Vec::new();
    let mut r: usize = 0;
    while r < order.len()
        invariant
            r <= order@.len(),
            order@.len() == data@.len(),
            forall|i: int| 0 <= i < order@.len() ==> #[trigger] order@[i] as int == ranked(keys, data@.len() as int)[i],
            forall|i: int| 0 <= i < order@.len() ==> #[trigger] order@[i] < data@.len(),
            forall|i: int| 0 <= i < data@.len() ==> data_ok(#[trigger] data@[i], hold_allowed),
            keys == Seq::new(data@.len(), |i: int| data_key(data@[i])),
            start.dedup_ok(),
            start.children_len() == start.len(),
            start.len() + data@.len() < u32::MAX,
            next.dedup_ok(),
            next.children_len() == next.len(),
            start.len() <= next.len() <= start.len() + r,
            next.piece() == start.piece(),
            cs@.len() == r,
            forall|i: int| 0 <= i < r ==> {
                &&& (#[trigger] cs@[i]).node < next.len()
                &&& cs@[i].placement == data@[ranked(keys, data@.len() as int)[i]].mv
                &&& cs@[i].reward == data@[ranked(keys, data@.len() as int)[i]].reward
                &&& cs@[i].original_rank == i
                &&& next.filed(position_of(data@[ranked(keys, data@.len() as int)[i]].board, hold_allowed)) == Some(cs@[i].node)
            },
            forall|k: int| 0 <= k < start.len() ==> {
                &&& #[trigger] next.eval(k) == start.eval(k)
                &&& next.marked(k) == start.marked(k)
                &&& next.death(k) == start.death(k)
                &&& next.parents(k).len() >= start.parents(k).len()
                &&& forall|j: int| 0 <= j < start.parents(k).len() ==> #[trigger] next.parents(k)[j] == start.parents(k)[j]
                &&& forall|j: int| start.parents(k).len() <= j < next.parents(k).len() ==> #[trigger] next.parents(k)[j] == parent
            },
            forall|k: int| start.len() <= k < next.len() ==> {
                &&& value_within(#[trigger] next.eval(k), LEAF_LIMIT as int)
                &&& !next.marked(k)
                &&& !next.death(k)
                &&& forall|j: int| 0 <= j < next.parents(k).len() ==> #[trigger] next.parents(k)[j] == parent
            },
            next.same_edges_from(start),
            forall|v: SimpleView| start.filed(v) is Some ==> #[trigger] next.filed(v) == start.filed(v),
            forall|i: int| 0 <= i < r ==> next.parents(#[trigger] cs@[i].node as int).contains(parent),
        decreases order@.len() - r,
    {
        proof {
            crate::rank::lemma_ranked(keys, data@.len() as int);
        }
        let idx = order[r];
        let d = &data[idx];
        proof {
            assert(data_ok(data@[idx as int], hold_allowed));
        }
        let key = make_key(&d.board, hold_allowed);
        let ghost kv = key.sview();
        let ghost g0 = *next;
        let node: u32 = match next.lookup(&key) {
            Some(n) => n,
            None => {
                let n = next.nodes.len() as u32;
                next.push_node(d.evaluation);
                let ghost g_mid = *next;
                next.file(key, n);
                proof {
                    assert forall|v: SimpleView| v != kv implies #[trigger] next.filed(v) == g0.filed(v) by {
                        assert(g_mid.filed(v) == g0.filed(v));
                    }
                    assert(next.nodes == g_mid.nodes);
                    assert(next.children == g_mid.children);
                    assert(g_mid.eval(g0.len() as int) == d.evaluation);
                    assert(value_within(d.evaluation, LEAF_LIMIT as int));
                    assert(next.eval(g0.len() as int) == g_mid.eval(g0.len() as int));
                    assert(next.len() == g0.len() + 1);
                    assert(!next.marked(g0.len() as int) && !next.death(g0.len() as int));
                    assert(next.parents(g0.len() as int).len() == 0);
                }
                n
            },
        };
        let ghost g1 = *next;
        proof {
            assert(g1.len() > g0.len() ==> {
                &&& g1.len() == g0.len() + 1
                &&& value_within(g1.eval(g0.len() as int), LEAF_LIMIT as int)
                &&& !g1.marked(g0.len() as int)
                &&& !g1.death(g0.len() as int)
                &&& g1.parents(g0.len() as int).len() == 0
            });
            assert forall|v: SimpleView| v != kv implies #[trigger] g1.filed(v) == g0.filed(v) by {}
            assert(g1.filed(kv) == Some(node));
            assert forall|v: SimpleView| start.filed(v) is Some implies #[trigger] g1.filed(v) == start.filed(v) by {
                assert(g0.filed(v) == start.filed(v));
                if v == kv {
                    assert(g0.filed(kv) is Some ==> g1.filed(kv) == g0.filed(kv));
                }
            }
            assert(g1.len() <= start.len() + r + 1);
            assert forall|k: int| 0 <= k < g0.len() implies #[trigger] g1.nodes@[k] == g0.nodes@[k] by {}
            assert(g1.same_edges_from(start)) by {
                Generation::lemma_same_edges_trans(start, g0, g1);
            }
        }
        next.add_parent(node as usize, parent);
        proof {
            assert forall|v: SimpleView| #[trigger] next.filed(v) == g1.filed(v) by {}
            assert forall|i: int| 0 <= i < r implies {
                &&& (#[trigger] cs@[i]).node < next.len()
                &&& next.filed(position_of(data@[ranked(keys, data@.len() as int)[i]].board, hold_allowed)) == Some(cs@[i].node)
            } by {
                let pv = position_of(data@[ranked(keys, data@.len() as int)[i]].board, hold_allowed);
                assert(g0.filed(pv) == Some(cs@[i].node));
                if pv == kv {
                    assert(g1.filed(kv) == Some(node));
                }
            }
            assert forall|k: int| 0 <= k < start.len() implies {
                &&& #[trigger] next.eval(k) == start.eval(k)
                &&& next.marked(k) == start.marked(k)
                &&& next.death(k) == start.death(k)
                &&& next.parents(k).len() >= start.parents(k).len()
                &&& forall|j: int| 0 <= j < start.parents(k).len() ==> #[trigger] next.parents(k)[j] == start.parents(k)[j]
                &&& forall|j: int| start.parents(k).len() <= j < next.parents(k).len() ==> #[trigger] next.parents(k)[j] == parent
            } by {
                assert(g1.nodes@[k] == g0.nodes@[k]);
                assert(g0.eval(k) == start.eval(k));
                if k != node {
                    assert(next.nodes@[k] == g1.nodes@[k]);
                } else {
                    assert(next.parents(k) == g1.parents(k).push(parent));
                    assert forall|j: int| 0 <= j < start.parents(k).len() implies #[trigger] next.parents(k)[j] == start.parents(k)[j] by {
                        assert(g0.parents(k)[j] == start.parents(k)[j]);
                    }
                    assert forall|j: int| start.parents(k).len() <= j < next.parents(k).len() implies #[trigger] next.parents(k)[j] == parent by {
                        if j < g0.parents(k).len() {
                            assert(g0.parents(k)[j] == parent);
                        }
                    }
                }
            }
            assert forall|k: int| start.len() <= k < next.len() implies {
                &&& value_within(#[trigger] next.eval(k), LEAF_LIMIT as int)
                &&& !next.marked(k)
                &&& !next.death(k)
                &&& forall|j: int| 0 <= j < next.parents(k).len() ==> #[trigger] next.parents(k)[j] == parent
            } by {
                if k < g0.len() {
                    assert(g1.nodes@[k] == g0.nodes@[k]);
                    assert(value_within(g0.eval(k), LEAF_LIMIT as int));
                    if k != node {
                        assert(next.nodes@[k] == g1.nodes@[k]);
                    } else {
                        assert(next.parents(k) == g1.parents(k).push(parent));
                        assert forall|j: int| 0 <= j < next.parents(k).len() implies #[trigger] next.parents(k)[j] == parent by {
                            if j < g0.parents(k).len() {
                                assert(g0.parents(k)[j] == parent);
                            }
                        }
                    }
                } else {
                    assert(k == g0.len());
                    if k != node {
                        assert(next.nodes@[k] == g1.nodes@[k]);
                    } else {
                        assert(next.parents(k) == g1.parents(k).push(parent));
                        assert forall|j: int| 0 <= j < next.parents(k).len() implies #[trigger] next.parents(k)[j] == parent by {
                            assert(j == 0);
                        }
                    }
                }
            }
            assert(next.same_edges_from(start));
            assert forall|i: int| 0 <= i < r implies next.parents(#[trigger] cs@[i].node as int).contains(parent) by {
                let k = cs@[i].node as int;
                assert(g0.parents(k).contains(parent));
                assert(g1.nodes@[k] == g0.nodes@[k]);
                if k != node {
                    assert(next.nodes@[k] == g1.nodes@[k]);
                } else {
                    assert(next.parents(k) == g1.parents(k).push(parent));
                    let w = choose|w: int| 0 <= w < g0.parents(k).len() && g0.parents(k)[w] == parent;
                    assert(next.parents(k)[w] == parent);
                }
            }
            assert(next.parents(node as int) == g1.parents(node as int).push(parent));
            assert(next.parents(node as int)[next.parents(node as int).len() - 1] == parent);
        }
        let ghost cs0 = cs@;
        cs.push(Child { placement: d.mv, reward: d.reward, original_rank: r as u32, node });
        proof {
            assert forall|i: int| 0 <= i < r + 1 implies next.parents(#[trigger] cs@[i].node as int).contains(parent) by {
                if i < r {
                    assert(cs@[i] == cs0[i]);
                } else {
                    assert(cs@[i].node == node);
                }
            }
        }
        r = r + 1;
    }
    proof {
        crate::rank::lemma_ranked(keys, data@.len() as int);
        Generation::lemma_same_edges(start, *next);
        assert forall|k: int| 0 <= k < start.len() implies {
            &&& #[trigger] next.eval(k) == start.eval(k)
            &&& next.marked(k) == start.marked(k)
            &&& next.death(k) == start.death(k)
            &&& next.parents(k).len() >= start.parents(k).len()
            &&& forall|j: int| 0 <= j < start.parents(k).len() ==> #[trigger] next.parents(k)[j] == start.parents(k)[j]
            &&& forall|j: int| start.parents(k).len() <= j < next.parents(k).len() ==> #[trigger] next.parents(k)[j] == parent
            &&& next.known(k) == start.known(k)
            &&& next.speculated_expanded(k) == start.speculated_expanded(k)
            &&& forall|s: int| #[trigger] next.speculated(k, s) == start.speculated(k, s)
        } by {
            assert(next.eval(k) == start.eval(k));
            assert(next.marked(k) == start.marked(k));
            assert(next.parents(k).len() >= start.parents(k).len());
            assert(next.known(k) == start.known(k));
            assert(next.speculated_expanded(k) == start.speculated_expanded(k));
            assert forall|s: int| #[trigger] next.speculated(k, s) == start.speculated(k, s) by {}
        }
        assert forall|k: int| start.len() <= k < next.len() implies {
            &&& value_within(#[trigger] next.eval(k), LEAF_LIMIT as int)
            &&& !next.marked(k)
            &&& !next.death(k)
            &&& !next.expanded(k)
            &&& forall|j: int| 0 <= j < next.parents(k).len() ==> #[trigger] next.parents(k)[j] == parent
        } by {
            assert(!next.expanded(k));
        }
        assert(cs@ =~= expected_edges(*next, data@, hold_allowed));
        assert forall|bound: int, prev: nat|
            start.wf(bound, prev) && LEAF_LIMIT <= bound && parent < prev implies #[trigger] next.wf(bound, prev) by {
            reveal(Generation::wf);
            assert forall|k: int| 0 <= k < next.len() implies value_within(#[trigger] next.eval(k), bound) by {
                if k < start.len() {
                    assert(next.eval(k) == start.eval(k));
                    assert(value_within(start.eval(k), bound));
                } else {
                    assert(value_within(next.eval(k), LEAF_LIMIT as int));
                }
            }
            assert forall|k: int, j: int|
                0 <= k < next.len() && 0 <= j < next.parents(k).len() implies #[trigger] next.parents(k)[j] < prev by {
                if k < start.len() {
                    assert(next.eval(k) == start.eval(k));
                    if j < start.parents(k).len() {
                        assert(next.parents(k)[j] == start.parents(k)[j]);
                        assert(start.parents(k)[j] < prev);
                    } else {
                        assert(next.parents(k)[j] == parent);
                    }
                } else {
                    assert(value_within(next.eval(k), LEAF_LIMIT as int));
                    assert(next.parents(k)[j] == parent);
                }
            }
        }
    }
    cs
}
/// `v` plus the reward `r`: the values add up; the attack extends the spike, or ends it when
/// the placement cleared nothing.
pub open spec fn plus_reward(v: Value, r: Reward) -> Value {
    Value {
        value: (v.value + r.value) as i32,
        spike: if r.attack == -1 {
            0
        } else {
            (v.spike + r.attack) as i32
        },
    }
}

/// What an edge is worth to its parent: nothing if its node is dead, else the node's evaluation
/// plus the edge's reward.
pub open spec fn child_value(next: Generation, c: Child) -> Option<Value> {
    if next.death(c.node as int) {
        None
    } else {
        Some(plus_reward(next.eval(c.node as int), c.reward))
    }
}

/// The rank key of a value: dead lines rank lowest.
pub open spec fn key_of_value(v: Option<Value>) -> RankKey {
    match v {
        Some(e) => RankKey { alive: true, value: e.value, spike: e.spike },
        None => RankKey { alive: false, value: 0, spike: 0 },
    }
}

/// The rank keys of a list of edges.
pub open spec fn child_keys(next: Generation, cs: Seq<Child>) -> Seq<RankKey> {
    Seq::new(cs.len(), |i: int| key_of_value(child_value(next, cs[i])))
}

/// The list of edges ranked best first, equals keeping their order.
pub open spec fn ranked_children(next: Generation, cs: Seq<Child>) -> Seq<Child> {
    Seq::new(cs.len(), |i: int| cs[ranked(child_keys(next, cs), cs.len() as int)[i]])
}

/// The better of two evaluations, part by part.
pub open spec fn improve_spec(a: Value, b: Value) -> Value {
    Value {
        value: if a.value >= b.value {
            a.value
        } else {
            b.value
        },
        spike: if a.spike >= b.spike {
            a.spike
        } else {
            b.spike
        },
    }
}

/// The best of what the edges are worth, part by part, or `None` if every line dies.
pub open spec fn best_of(next: Generation, cs: Seq<Child>) -> Option<Value>
    decreases cs.len(),
{
    if cs.len() == 0 {
        None
    } else {
        match (best_of(next, cs.drop_last()), child_value(next, cs.last())) {
            (None, x) => x,
            (Some(a), None) => Some(a),
            (Some(a), Some(b)) => Some(improve_spec(a, b)),
        }
    }
}

/// The best of values within `b` is within `b`.
proof fn lemma_best_within(next: Generation, cs: Seq<Child>, b: int)
    requires
        forall|i: int| 0 <= i < cs.len() ==> match #[trigger] child_value(next, cs[i]) {
            Some(v) => value_within(v, b),
            None => true,
        },
    ensures
        match best_of(next, cs) {
            Some(v) => value_within(v, b),
            None => true,
        },
    decreases cs.len(),
{
    if cs.len() > 0 {
        let d = cs.drop_last();
        assert forall|i: int| 0 <= i < d.len() implies match #[trigger] child_value(next, d[i]) {
            Some(v) => value_within(v, b),
            None => true,
        } by {
            assert(d[i] == cs[i]);
        }
        lemma_best_within(next, d, b);
        assert(child_value(next, cs[cs.len() - 1]) == child_value(next, cs.last()));
    }
}

/// The edges of a generation are sound to evaluate: each leads to a node of `next`, with a
/// reward within the limit, and `next` holds evaluations within `b`.
pub open spec fn edges_sound(next: Generation, cs: Seq<Child>, b: int) -> bool {
    &&& b + REWARD_LIMIT <= eval_bound(0)
    &&& forall|i: int| 0 <= i < cs.len() ==> (#[trigger] cs[i]).node < next.len() && reward_within(cs[i].reward)
    &&& forall|k: int| 0 <= k < next.len() ==> value_within(#[trigger] next.eval(k), b)
}

/// What an edge is worth to its parent.
fn child_value_exec(next: &Generation, c: &Child, Ghost(b): Ghost<int>) -> (r: Option<Value>)
    requires
        b + REWARD_LIMIT <= eval_bound(0),
        c.node < next.len(),
        reward_within(c.reward),
        value_within(next.eval(c.node as int), b),
    ensures
        r == child_value(*next, *c),
        r matches Some(v) ==> value_within(v, b + REWARD_LIMIT),
{
    let n = &next.nodes[c.node as usize];
    if n.death {
        None
    } else {
        Some(n.evaluation.add_reward(c.reward))
    }
}

/// Ranks the edges best first and finds the best of what they are worth.
fn process_children(next: &Generation, cs: &Vec<Child>, Ghost(b): Ghost<int>) -> (r: (Vec<Child>, Option<Value>))
    requires
        edges_sound(*next, cs@, b),
    ensures
        r.0@ == ranked_children(*next, cs@),
        r.0@.len() == cs@.len(),
        forall|i: int| 0 <= i < r.0@.len() ==> exists|j: int| 0 <= j < cs@.len() && #[trigger] r.0@[i] == cs@[j],
        r.1 == best_of(*next, r.0@),
        match r.1 {
            Some(v) => value_within(v, b + REWARD_LIMIT),
            None => true,
        },
{
    let n = cs.len();
    let ghost keys = child_keys(*next, cs@);
    let mut keyv: Vec<RankKey> = Vec::new();
    let mut vals: Vec<Option<Value>> = Vec::new();
    let mut i: usize = 0;
    while i < n
        invariant
            i <= n,
            n == cs@.len(),
            edges_sound(*next, cs@, b),
            keys == child_keys(*next, cs@),
            keyv@.len() == i,
            vals@.len() == i,
            forall|j: int| 0 <= j < i ==> #[trigger] vals@[j] == child_value(*next, cs@[j]),
            forall|j: int| 0 <= j < i ==> #[trigger] keyv@[j] == keys[j],
        decreases n - i,
    {
        let v = child_value_exec(next, &cs[i], Ghost(b));
        vals.push(v);
        let k = match v {
            Some(e) => RankKey { alive: true, value: e.value, spike: e.spike },
            None => RankKey { alive: false, value: 0, spike: 0 },
        };
        keyv.push(k);
        i = i + 1;
    }
    assert(keyv@ =~= keys);
    let order = rank(&keyv);
    proof {
        crate::rank::lemma_ranked(keys, n as int);
    }
    let ghost sorted = ranked_children(*next, cs@);
    let mut out: Vec<Child> = Vec::new();
    let mut best: Option<Value> = None;
    let mut j: usize = 0;
    while j < n
        invariant
            j <= n,
            n == cs@.len(),
            n == order@.len(),
            edges_sound(*next, cs@, b),
            vals@.len() == n,
            forall|t: int| 0 <= t < n ==> #[trigger] vals@[t] == child_value(*next, cs@[t]),
            forall|t: int| 0 <= t < n ==> #[trigger] order@[t] < n,
            forall|t: int| 0 <= t < n ==> #[trigger] order@[t] as int == ranked(keys, n as int)[t],
            keys == child_keys(*next, cs@),
            sorted == ranked_children(*next, cs@),
            out@ == sorted.take(j as int),
            forall|i: int| 0 <= i < j ==> exists|t: int| 0 <= t < n && #[trigger] out@[i] == cs@[t],
            best == best_of(*next, out@),
            match best {
                Some(v) => value_within(v, b + REWARD_LIMIT),
                None => true,
            },
        decreases n - j,
    {
        let t = order[j];
        let c = cs[t];
        let v = vals[t];
        proof {
            assert(sorted[j as int] == cs@[t as int]);
            assert(sorted.take(j + 1) =~= sorted.take(j as int).push(c));
            assert(forall|i: int| 0 <= i < j ==> exists|t: int| 0 <= t < n && #[trigger] out@.push(c)[i] == cs@[t]) by {
                assert forall|i: int| 0 <= i < j implies exists|t: int| 0 <= t < n && #[trigger] out@.push(c)[i] == cs@[t] by {
                    assert(out@.push(c)[i] == out@[i]);
                }
            }
            let o2 = out@.push(c);
            assert(o2.drop_last() =~= out@);
        }
        out.push(c);
        best = match best {
            None => v,
            Some(a) => match v {
                None => Some(a),
                Some(e) => {
                    let mut m = a;
                    m.improve(e);
                    Some(m)
                },
            },
        };
        j = j + 1;
    }
    proof {
        assert(sorted.take(n as int) =~= sorted);
        assert forall|i: int| 0 <= i < out@.len() implies exists|j: int| 0 <= j < cs@.len() && #[trigger] out@[i] == cs@[j] by {
            if i == n - 1 {
                assert(out@[i] == cs@[order@[i] as int]);
            }
        }
    }
    (out, best)
}
/// `a` ranks below `b`: lower value, or equal value and lower spike.
pub open spec fn value_lt(a: Value, b: Value) -> bool {
    a.value < b.value || (a.value == b.value && a.spike < b.spike)
}

/// Over the groups of the first `n` slots: how many groups there are, the sums of the value and
/// spike of the best of each living group, how many groups die, and the lowest best value.
pub open spec fn group_fold(next: Generation, groups: Seq<Option<Seq<Child>>>, n: int) -> (
    int,
    int,
    int,
    int,
    Option<Value>,
)
    decreases n,
{
    if n <= 0 {
        (0, 0, 0, 0, None)
    } else {
        let (p, tv, ts, d, w) = group_fold(next, groups, n - 1);
        match groups[n - 1] {
            None => (p, tv, ts, d, w),
            Some(cs) => match best_of(next, cs) {
                Some(e) => (
                    p + 1,
                    tv + e.value,
                    ts + e.spike,
                    d,
                    match w {
                        Some(v) => if value_lt(e, v) {
                            Some(e)
                        } else {
                            Some(v)
                        },
                        None => Some(e),
                    },
                ),
                None => (p + 1, tv, ts, d + 1, w),
            },
        }
    }
}

/// What a speculated node is worth: the average over the pieces that may come of the best line
/// for each, a dying line counting as the worst living one less a thousand without spike; or
/// `None` if every line dies.
pub open spec fn speculated_value(next: Generation, groups: Seq<Option<Seq<Child>>>) -> Option<Value> {
    let (p, tv, ts, d, w) = group_fold(next, groups, 7);
    match w {
        None => None,
        Some(w) => Some(
            Value {
                value: div_trunc(tv + (w.value - 1000) * d, p) as i32,
                spike: div_trunc(ts, p) as i32,
            },
        ),
    }
}

/// The fold's counts and sums stay within what its groups allow.
proof fn lemma_group_fold_bounds(next: Generation, groups: Seq<Option<Seq<Child>>>, n: int, c: int)
    requires
        0 <= n <= groups.len(),
        0 <= c,
        forall|s: int| 0 <= s < n && #[trigger] groups[s] is Some ==> match best_of(next, groups[s]->0) {
            Some(v) => value_within(v, c),
            None => true,
        },
    ensures
        ({
            let (p, tv, ts, d, w) = group_fold(next, groups, n);
            &&& 0 <= d <= p <= n
            &&& -(p - d) * c <= tv <= (p - d) * c
            &&& -(p - d) * c <= ts <= (p - d) * c
            &&& w is Some <==> p > d
            &&& w matches Some(v) ==> value_within(v, c)
        }),
    decreases n,
{
    if n > 0 {
        lemma_group_fold_bounds(next, groups, n - 1, c);
        let (p, tv, ts, d, w) = group_fold(next, groups, n - 1);
        assert((p + 1 - d) * c == (p - d) * c + c) by (nonlinear_arith);
        assert(-(p + 1 - d) * c == -(p - d) * c - c) by (nonlinear_arith);
        assert(-(p - d) * c == -((p - d) * c)) by (nonlinear_arith);
        assert(-(p + 1 - d) * c == -((p + 1 - d) * c)) by (nonlinear_arith);
        match groups[n - 1] {
            None => {},
            Some(cs) => {
                match best_of(next, cs) {
                    Some(e) => {
                        assert(value_within(e, c));
                    },
                    None => {
                        assert(p + 1 - (d + 1) == p - d);
                    },
                }
            },
        }
    }
}

/// A truncated average of terms within `c` is within `c`.
proof fn lemma_div_within(x: int, p: int, c: int)
    requires
        p > 0,
        0 <= c,
        -p * c <= x <= p * c,
    ensures
        -c <= div_trunc(x, p) <= c,
{
    if x >= 0 {
        assert(x / p <= c) by (nonlinear_arith)
            requires
                p > 0,
                0 <= x <= p * c,
        ;
        assert(x / p >= 0) by (nonlinear_arith)
            requires
                p > 0,
                0 <= x,
        ;
    } else {
        assert(-p * c == -(p * c)) by (nonlinear_arith);
        assert((-x) / p <= c) by (nonlinear_arith)
            requires
                p > 0,
                0 < -x <= p * c,
        ;
        assert((-x) / p >= 0) by (nonlinear_arith)
            requires
                p > 0,
                0 <= -x,
        ;
    }
}

/// Ranks each group of a speculated node and finds what the node is worth.
fn process_groups(next: &Generation, groups: &Vec<Option<Vec<Child>>>, Ghost(b): Ghost<int>) -> (r: (Vec<Option<Vec<Child>>>, Option<Value>))
    requires
        groups@.len() == 7,
        0 <= b,
        b + REWARD_LIMIT + 1000 <= eval_bound(0),
        forall|s: int| 0 <= s < 7 && #[trigger] groups@[s] is Some ==> edges_sound(*next, groups@[s]->0@, b),
    ensures
        r.0@.len() == 7,
        forall|s: int| 0 <= s < 7 ==> (#[trigger] r.0@[s] is Some) == (groups@[s] is Some),
        forall|s: int| 0 <= s < 7 && #[trigger] r.0@[s] is Some ==> r.0@[s]->0@ == ranked_children(*next, groups@[s]->0@),
        forall|s: int, i: int| 0 <= s < 7 && r.0@[s] is Some && 0 <= i < r.0@[s]->0@.len() ==> exists|j: int| 0 <= j < groups@[s]->0@.len() && #[trigger] r.0@[s]->0@[i] == groups@[s]->0@[j],
        forall|s: int| 0 <= s < 7 && #[trigger] r.0@[s] is Some ==> r.0@[s]->0@.len() == groups@[s]->0@.len(),
        r.1 == speculated_value(*next, Seq::new(7, |s: int| match r.0@[s] {
            Some(v) => Some(v@),
            None => None,
        })),
        match r.1 {
            Some(v) => value_within(v, b + REWARD_LIMIT + 1000),
            None => true,
        },
{
    let mut out: Vec<Option<Vec<Child>>> = Vec::new();
    let mut possibilities: usize = 0;
    let mut deaths: usize = 0;
    let mut total = Value { value: 0, spike: 0 };
    let mut worst: Option<Value> = None;
    let mut s: usize = 0;
    while s < 7
        invariant
            s <= 7,
            groups@.len() == 7,
            0 <= b,
            b + REWARD_LIMIT + 1000 <= eval_bound(0),
            forall|t: int| 0 <= t < 7 && #[trigger] groups@[t] is Some ==> edges_sound(*next, groups@[t]->0@, b),
            out@.len() == s,
            forall|t: int| 0 <= t < s ==> (#[trigger] out@[t] is Some) == (groups@[t] is Some),
            forall|t: int| 0 <= t < s && #[trigger] out@[t] is Some ==> out@[t]->0@ == ranked_children(*next, groups@[t]->0@),
            forall|t: int, i: int| 0 <= t < s && out@[t] is Some && 0 <= i < out@[t]->0@.len() ==> exists|j: int| 0 <= j < groups@[t]->0@.len() && #[trigger] out@[t]->0@[i] == groups@[t]->0@[j],
            forall|t: int| 0 <= t < s && #[trigger] out@[t] is Some ==> out@[t]->0@.len() == groups@[t]->0@.len(),
            forall|t: int| 0 <= t < s && #[trigger] out@[t] is Some ==> match best_of(*next, out@[t]->0@) {
                Some(v) => value_within(v, b + REWARD_LIMIT),
                None => true,
            },
            ({
                let (p, tv, ts, d, w) = group_fold(*next, Seq::new(7, |t: int| match out@[t] {
                    Some(v) => Some(v@),
                    None => None,
                }), s as int);
                &&& possibilities == p
                &&& total.value == tv
                &&& total.spike == ts
                &&& deaths == d
                &&& worst == w
            }),
        decreases 7 - s,
    {
        let ghost before = out@;
        let ghost gs0 = Seq::new(7, |t: int| match before[t] {
            Some(v) => Some(v@),
            None => None,
        });
        match &groups[s] {
            None => {
                out.push(None);
            },
            Some(cs) => {
                let (sorted, best) = process_children(next, cs, Ghost(b));
                out.push(Some(sorted));
                proof {
                    assert forall|t: int| 0 <= t < s && #[trigger] gs0[t] is Some implies match best_of(*next, gs0[t]->0) {
                        Some(v) => value_within(v, b + REWARD_LIMIT),
                        None => true,
                    } by {
                        assert(before[t] is Some);
                    }
                    lemma_group_fold_bounds(*next, gs0, s as int, b + REWARD_LIMIT);
                    let (p, tv, ts, d, w) = group_fold(*next, gs0, s as int);
                    assert((p - d) * (b + REWARD_LIMIT) <= 7 * (b + REWARD_LIMIT)) by (nonlinear_arith)
                        requires
                            0 <= p - d <= 7,
                            0 <= b + REWARD_LIMIT,
                    ;
                    assert(-(p - d) * (b + REWARD_LIMIT) >= -7 * (b + REWARD_LIMIT)) by (nonlinear_arith)
                        requires
                            0 <= p - d <= 7,
                            0 <= b + REWARD_LIMIT,
                    ;
                }
                possibilities = possibilities + 1;
                match best {
                    Some(e) => {
                        total = total.add(e);
                        worst = match worst {
                            None => Some(e),
                            Some(v) => if e.value < v.value || (e.value == v.value && e.spike < v.spike) {
                                Some(e)
                            } else {
                                Some(v)
                            },
                        };
                    },
                    None => {
                        deaths = deaths + 1;
                    },
                }
            },
        }
        proof {
            let gs1 = Seq::new(7, |t: int| match out@[t] {
                Some(v) => Some(v@),
                None => None,
            });
            assert forall|t: int| 0 <= t < s implies #[trigger] gs1[t] == gs0[t] by {
                assert(out@[t] == before[t]);
            }
            lemma_group_fold_prefix(*next, gs0, gs1, s as int);
            assert forall|t: int| 0 <= t < s + 1 implies (#[trigger] out@[t] is Some) == (groups@[t] is Some) by {
                if t < s {
                    assert(out@[t] == before[t]);
                }
            }
            assert forall|t: int| 0 <= t < s + 1 && #[trigger] out@[t] is Some implies out@[t]->0@ == ranked_children(*next, groups@[t]->0@) && out@[t]->0@.len() == groups@[t]->0@.len() by {
                if t < s {
                    assert(out@[t] == before[t]);
                }
            }
            assert forall|t: int, i: int| 0 <= t < s + 1 && out@[t] is Some && 0 <= i < out@[t]->0@.len() implies exists|j: int| 0 <= j < groups@[t]->0@.len() && #[trigger] out@[t]->0@[i] == groups@[t]->0@[j] by {
                if t < s {
                    assert(out@[t] == before[t]);
                }
            }
            assert forall|t: int| 0 <= t < s + 1 && #[trigger] out@[t] is Some implies match best_of(*next, out@[t]->0@) {
                Some(v) => value_within(v, b + REWARD_LIMIT),
                None => true,
            } by {
                if t < s {
                    assert(out@[t] == before[t]);
                }
            }
        }
        s = s + 1;
    }
    let gs = Ghost(Seq::new(7, |t: int| match out@[t] {
        Some(v) => Some(v@),
        None => None,
    }));
    proof {
        assert forall|t: int| 0 <= t < 7 && #[trigger] gs@[t] is Some implies match best_of(*next, gs@[t]->0) {
            Some(v) => value_within(v, b + REWARD_LIMIT),
            None => true,
        } by {
            assert(out@[t] is Some);
        }
        lemma_group_fold_bounds(*next, gs@, 7, b + REWARD_LIMIT);
    }
    match worst {
        None => (out, None),
        Some(w) => {
            let c = Ghost(b + REWARD_LIMIT + 1000);
            let dead = w.modify_death();
            proof {
                assert(-(b + REWARD_LIMIT) * deaths >= -(b + REWARD_LIMIT) * 7) by (nonlinear_arith)
                    requires
                        0 <= deaths <= 7,
                        b + REWARD_LIMIT >= 0,
                ;
                assert((w.value - 1000) * deaths >= -c@ * deaths) by (nonlinear_arith)
                    requires
                        w.value - 1000 >= -c@,
                        0 <= deaths,
                ;
                assert((w.value - 1000) * deaths <= c@ * deaths) by (nonlinear_arith)
                    requires
                        w.value - 1000 <= c@,
                        0 <= deaths,
                ;
                assert(c@ * deaths <= c@ * 7) by (nonlinear_arith)
                    requires
                        0 <= deaths <= 7,
                        c@ >= 0,
                ;
            }
            proof {
                assert(value_within(w, b + REWARD_LIMIT));
                assert(dead.value == w.value - 1000 && dead.spike == 0);
                assert(c@ <= 20_064_000);
                assert(-c@ * 7 <= dead.value * deaths <= c@ * 7) by (nonlinear_arith)
                    requires
                        -c@ <= dead.value <= c@,
                        0 <= deaths <= 7,
                        c@ >= 0,
                ;
                assert(dead.spike * deaths == 0) by (nonlinear_arith)
                    requires
                        dead.spike == 0,
                ;
                assert(-c@ * 7 >= -i32::MAX) by (nonlinear_arith)
                    requires
                        0 <= c@ <= 20_064_000,
                ;
            }
            let scaled = dead.mul(deaths);
            proof {
                assert((possibilities - deaths) * (b + REWARD_LIMIT) <= 7 * c@) by (nonlinear_arith)
                    requires
                        0 <= possibilities - deaths <= 7,
                        0 <= b + REWARD_LIMIT <= c@,
                ;
            }
            proof {
                assert(-(possibilities - deaths) * (b + REWARD_LIMIT) >= -7 * c@) by (nonlinear_arith)
                    requires
                        0 <= possibilities - deaths <= 7,
                        0 <= b + REWARD_LIMIT <= c@,
                ;
            }
            let sum = total.add(scaled);
            proof {
                assert(-(possibilities as int) * c@ <= sum.value <= possibilities * c@) by (nonlinear_arith)
                    requires
                        sum.value == total.value + (w.value - 1000) * deaths,
                        -(possibilities - deaths) * (b + REWARD_LIMIT) <= total.value <= (possibilities - deaths) * (b + REWARD_LIMIT),
                        -c@ <= w.value - 1000 <= c@,
                        0 <= deaths <= possibilities,
                        b + REWARD_LIMIT <= c@,
                        0 <= b + REWARD_LIMIT,
                ;
                assert(-(possibilities as int) * c@ <= sum.spike <= possibilities * c@) by (nonlinear_arith)
                    requires
                        sum.spike == total.spike,
                        -(possibilities - deaths) * (b + REWARD_LIMIT) <= total.spike <= (possibilities - deaths) * (b + REWARD_LIMIT),
                        0 <= deaths <= possibilities,
                        b + REWARD_LIMIT <= c@,
                        0 <= b + REWARD_LIMIT,
                ;
                lemma_div_within(sum.value as int, possibilities as int, c@);
                lemma_div_within(sum.spike as int, possibilities as int, c@);
            }
            let v = sum.div(possibilities);
            (out, Some(v))
        },
    }
}

/// Folds of groups that agree on the first `n` slots agree.
proof fn lemma_group_fold_prefix(next: Generation, a: Seq<Option<Seq<Child>>>, b: Seq<Option<Seq<Child>>>, n: int)
    requires
        forall|t: int| 0 <= t < n ==> #[trigger] a[t] == b[t],
    ensures
        group_fold(next, a, n) == group_fold(next, b, n),
    decreases n,
{
    if n > 0 {
        lemma_group_fold_prefix(next, a, b, n - 1);
        assert(a[n - 1] == b[n - 1]);
    }
}
/// The edges are ranked best first by what they are worth.
pub open spec fn best_first(next: Generation, cs: Seq<Child>) -> bool {
    forall|i: int, j: int|
        0 <= i < j < cs.len() ==> !crate::rank::key_lt(
            key_of_value(child_value(next, #[trigger] cs[i])),
            key_of_value(child_value(next, #[trigger] cs[j])),
        )
}

/// Ranked edges are ranked best first.
proof fn lemma_ranked_best_first(next: Generation, cs: Seq<Child>)
    ensures
        best_first(next, ranked_children(next, cs)),
        ranked_children(next, cs).len() == cs.len(),
{
    let keys = child_keys(next, cs);
    let n = cs.len() as int;
    crate::rank::lemma_ranked(keys, n);
    crate::rank::lemma_ranked_range(keys, n);
    let r = ranked(keys, n);
    let out = ranked_children(next, cs);
    assert forall|i: int, j: int| 0 <= i < j < out.len() implies !crate::rank::key_lt(
        key_of_value(child_value(next, #[trigger] out[i])),
        key_of_value(child_value(next, #[trigger] out[j])),
    ) by {
        assert(out[i] == cs[r[i]]);
        assert(out[j] == cs[r[j]]);
        assert(keys[r[i]] == key_of_value(child_value(next, cs[r[i]])));
        assert(keys[r[j]] == key_of_value(child_value(next, cs[r[j]])));
        assert(!crate::rank::key_lt(keys[r[i]], keys[r[j]]));
    }
}

impl DagState {
    /// What node `k` of generation `g` is worth by its children, if it was expanded; inside,
    /// `None` when every line through it dies.
    pub open spec fn aggregate(&self, g: int, k: int) -> Option<Option<Value>> {
        let gen = self.generation(g);
        let next = self.generation(g + 1);
        if gen.piece() is Some {
            match gen.known(k) {
                Some(cs) => Some(best_of(next, cs)),
                None => None,
            }
        } else if gen.speculated_expanded(k) {
            Some(speculated_value(next, Seq::new(7, |s: int| gen.speculated(k, s))))
        } else {
            None
        }
    }

    /// Node `k` of generation `g` agrees with its children: if it was expanded, it is dead
    /// when every line through it dies, and otherwise its evaluation is what its children make
    /// it; its children are ranked best first.
    pub open spec fn consistent(&self, g: int, k: int) -> bool {
        let gen = self.generation(g);
        let next = self.generation(g + 1);
        &&& match self.aggregate(g, k) {
            None => true,
            Some(None) => gen.death(k),
            Some(Some(e)) => gen.eval(k) == e,
        }
        &&& gen.known(k) matches Some(cs) ==> best_first(next, cs)
        &&& forall|s: int| 0 <= s < 7 && #[trigger] gen.speculated(k, s) is Some ==> best_first(next, gen.speculated(k, s)->0)
    }

    /// `self` is `other` where at most node `k` of generation `g` changed: its evaluation, its
    /// death flag, and the order of its children.
    pub closed spec fn only_node_changed(&self, other: &DagState, g: int, k: int) -> bool {
        &&& self.board == other.board
        &&& self.root == other.root
        &&& self.gens_passed == other.gens_passed
        &&& self.use_hold == other.use_hold
        &&& self.generations@.len() == other.generations@.len()
        &&& forall|i: int| 0 <= i < self.generations@.len() && i != g ==> #[trigger] self.generations@[i] == other.generations@[i]
        &&& self.generations@[g].nodes@.len() == other.generations@[g].nodes@.len()
        &&& forall|j: int| 0 <= j < self.generations@[g].nodes@.len() && j != k ==> #[trigger] self.generations@[g].nodes@[j] == other.generations@[g].nodes@[j]
        &&& self.generations@[g].nodes@[k].parents == other.generations@[g].nodes@[k].parents
        &&& self.generations@[g].nodes@[k].marked == other.generations@[g].nodes@[k].marked
        &&& self.generations@[g].dedup == other.generations@[g].dedup
        &&& self.generations@[g].same_entries_except(other.generations@[g], k)
        &&& (self.generations@[g].expanded(k) <==> other.generations@[g].expanded(k))
    }

    /// Brings node `k` of generation `g` in line with its children: ranks them best first and
    /// sets the node's evaluation, or marks it dead when every line dies. Returns whether this
    /// changed what the node is worth to its parents.
    fn update_node(&mut self, g: usize, k: usize) -> (changed: bool)
        requires
            old(self).wf(),
            g + 1 < old(self).gen_count(),
            k < old(self).generation(g as int).len(),
        ensures
            final(self).wf(),
            final(self).only_node_changed(old(self), g as int, k as int),
            final(self).generation(g as int).reordered_from(old(self).generation(g as int), k as int),
            final(self).consistent(g as int, k as int),
            changed == match final(self).aggregate(g as int, k as int) {
                None => false,
                Some(None) => !old(self).generation(g as int).death(k as int),
                Some(Some(e)) => e != old(self).generation(g as int).eval(k as int),
            },
    {
        let ghost s0 = *self;
        let b: Ghost<int> = Ghost(eval_bound(g + 1));
        proof {
            assert(s0.gen_ok(g as int + 1));
            assert(s0.edges_ok(g as int));
            assert(s0.gen_ok(g as int));
            reveal(Generation::wf);
            reveal(Generation::edges_within);
            reveal(Generation::slots_wf);
        }
        let known = match &self.generations[g].children {
            Children::Known(_, _) => true,
            Children::Speculated(_) => false,
        };
        let new_eval: Option<Value>;
        let ghost mut kept: Seq<Child> = Seq::empty();
        let ghost mut kept_groups: Seq<Option<Seq<Child>>> = Seq::empty();
        if known {
            let res = match &self.generations[g].children {
                Children::Known(_, c) => match &c[k] {
                    Some(list) => {
                        proof {
                            assert(s0.generation(g as int).known(k as int) == Some(list@));
                        }
                        Some(process_children(&self.generations[g + 1], list, b))
                    },
                    None => None,
                },
                Children::Speculated(_) => None,
            };
            match res {
                None => {
                    return false;
                },
                Some((sorted, best)) => {
                    proof {
                        lemma_ranked_best_first(s0.generation(g as int + 1), s0.generation(g as int).known(k as int)->0);
                        kept = sorted@;
                    }
                    self.generations[g].set_known(k, sorted);
                    new_eval = best;
                },
            }
        } else {
            let res = match &self.generations[g].children {
                Children::Speculated(c) => match &c[k] {
                    Some(groups) => {
                        proof {
                            assert(s0.generation(g as int).speculated_expanded(k as int));
                            assert(groups@.len() == 7);
                            assert(b@ + REWARD_LIMIT + 1000 <= eval_bound(0));
                            assert forall|t: int| 0 <= t < 7 implies #[trigger] s0.generation(g as int).speculated(k as int, t) == match groups@[t] {
                                Some(v) => Some(v@),
                                None => None::<Seq<Child>>,
                            } by {}
                            assert forall|t: int| 0 <= t < 7 && #[trigger] groups@[t] is Some implies edges_sound(s0.generation(g as int + 1), groups@[t]->0@, b@) by {
                                assert(s0.generation(g as int).speculated(k as int, t) == Some(groups@[t]->0@));
                            }
                        }
                        let r = process_groups(&self.generations[g + 1], groups, b);
                        proof {
                            let sg = s0.generation(g as int);
                            assert forall|t: int| 0 <= t < 7 implies (#[trigger] r.0@[t] is Some) == (sg.speculated(k as int, t) is Some) by {}
                            assert forall|t: int| 0 <= t < 7 && #[trigger] r.0@[t] is Some implies r.0@[t]->0@ == ranked_children(s0.generation(g as int + 1), sg.speculated(k as int, t)->0)
                                && r.0@[t]->0@.len() == sg.speculated(k as int, t)->0.len() by {
                                assert(sg.speculated(k as int, t) == Some(groups@[t]->0@));
                            }
                            assert forall|t: int, i: int| 0 <= t < 7 && r.0@[t] is Some && 0 <= i < r.0@[t]->0@.len() implies exists|j: int| 0 <= j < sg.speculated(k as int, t)->0.len() && #[trigger] r.0@[t]->0@[i] == sg.speculated(k as int, t)->0[j] by {
                                assert(sg.speculated(k as int, t) == Some(groups@[t]->0@));
                            }
                        }
                        Some(r)
                    },
                    None => None,
                },
                Children::Known(_, _) => None,
            };
            match res {
                None => {
                    return false;
                },
                Some((groups, v)) => {
                    proof {
                        assert forall|t: int| 0 <= t < 7 && #[trigger] groups@[t] is Some implies best_first(s0.generation(g as int + 1), groups@[t]->0@) by {
                            lemma_ranked_best_first(s0.generation(g as int + 1), s0.generation(g as int).speculated(k as int, t)->0);
                        }
                    }
                    let ghost gv = groups@;
                    self.generations[g].set_groups(k, groups);
                    proof {
                        let sg = s0.generation(g as int);
                        let ng = self.generations@[g as int];
                        assert(gv.len() == 7);
                        assert forall|t: int| 0 <= t < 7 implies (#[trigger] ng.speculated(k as int, t) is Some) == (sg.speculated(k as int, t) is Some) by {
                            assert(ng.speculated(k as int, t) == match gv[t] {
                                Some(v) => Some(v@),
                                None => None::<Seq<Child>>,
                            });
                            assert((gv[t] is Some) == (sg.speculated(k as int, t) is Some));
                        }
                        assert forall|t: int| 0 <= t < 7 && #[trigger] ng.speculated(k as int, t) is Some implies ng.speculated(k as int, t)->0.len() == sg.speculated(k as int, t)->0.len() by {
                            assert(ng.speculated(k as int, t) == Some(gv[t]->0@));
                        }
                        assert forall|t: int, i: int| 0 <= t < 7 && ng.speculated(k as int, t) is Some && 0 <= i < ng.speculated(k as int, t)->0.len() implies exists|j: int| 0 <= j < sg.speculated(k as int, t)->0.len() && #[trigger] ng.speculated(k as int, t)->0[i] == sg.speculated(k as int, t)->0[j] by {
                            assert(ng.speculated(k as int, t) == Some(gv[t]->0@));
                        }
                        assert forall|t: int| 0 <= t < 7 && #[trigger] ng.speculated(k as int, t) is Some implies best_first(s0.generation(g as int + 1), ng.speculated(k as int, t)->0) by {
                            assert(ng.speculated(k as int, t) == Some(gv[t]->0@));
                        }
                        kept_groups = Seq::new(7, |t: int| ng.speculated(k as int, t));
                        assert(kept_groups =~= Seq::new(7, |t: int| match gv[t] {
                            Some(v) => Some(v@),
                            None => None::<Seq<Child>>,
                        }));
                    }
                    new_eval = v;
                },
            }
        }
        let ghost s1 = *self;
        let changed = match new_eval {
            Some(e) => !(e == self.generations[g].nodes[k].evaluation),
            None => !self.generations[g].nodes[k].death,
        };
        match new_eval {
            Some(e) => {
                self.generations[g].nodes[k].evaluation = e;
            },
            None => {
                self.generations[g].nodes[k].death = true;
            },
        }
        proof {
            let s2 = *self;
            let a = s0.generations@[g as int];
            let a1 = s1.generations@[g as int];
            let a2 = s2.generations@[g as int];
            let next = s0.generations@[g as int + 1];
            assert(s2.generations@[g as int + 1] == next);
            assert(a2.children == a1.children);
            assert(a2.dedup == a1.dedup);
            assert(a1.nodes == a.nodes);
            assert(a2.nodes@.len() == a.nodes@.len());
            assert forall|j: int| 0 <= j < a2.nodes@.len() && j != k implies #[trigger] a2.nodes@[j] == a.nodes@[j] by {}
            // the new evaluation stays within the generation's bound
            assert(value_within(a2.eval(k as int), eval_bound(g as int))) by {
                if new_eval is None {
                    assert(a2.eval(k as int) == a.eval(k as int));
                }
            }
            // the reordered children keep the edges sound
            if known {
                assert(a.piece() is Some);
                assert(a.known(k as int) is Some);
                Generation::lemma_reordered(a, a2, k as int, next.len());
            } else {
                assert(a.piece() is None);
                assert(a2.slot_count(k as int) == a1.slot_count(k as int));
                assert(a2.speculated_expanded(k as int) == a1.speculated_expanded(k as int));
                assert forall|t: int| #[trigger] a2.speculated(k as int, t) == a1.speculated(k as int, t) by {}
                Generation::lemma_reordered(a, a2, k as int, next.len());
            }
            assert(a2.wf(eval_bound(g as int), if g == 0 { u32::MAX as nat } else { s0.generations@[g - 1].len() })) by {
                reveal(Generation::wf);
                assert(a.wf(eval_bound(g as int), if g == 0 { u32::MAX as nat } else { s0.generations@[g - 1].len() })) by {
                    assert(s0.gen_ok(g as int));
                }
                assert forall|j: int| 0 <= j < a2.len() implies value_within(#[trigger] a2.eval(j), eval_bound(g as int)) by {
                    if j != k {
                        assert(a2.nodes@[j] == a.nodes@[j]);
                        assert(a2.eval(j) == a.eval(j));
                        assert(value_within(a.eval(j), eval_bound(g as int)));
                    }
                }
                assert forall|j: int, t: int| 0 <= j < a2.len() && 0 <= t < a2.parents(j).len() implies #[trigger] a2.parents(j)[t] < (if g == 0 { u32::MAX as nat } else { s0.generations@[g - 1].len() }) by {
                    if j != k {
                        assert(a2.nodes@[j] == a.nodes@[j]);
                    } else {
                        assert(a2.parents(j) == a.parents(j));
                    }
                    assert(a.parents(j)[t] < (if g == 0 { u32::MAX as nat } else { s0.generations@[g - 1].len() }));
                }
            }
            assert(a2.dedup_ok()) by {
                assert(a.dedup_ok());
            }
            let n = s2.generations@.len();
            assert forall|i: int| 0 <= i < n implies #[trigger] s2.gen_ok(i) by {
                if i != g {
                    assert(s2.generations@[i] == s0.generations@[i]);
                    assert(s0.gen_ok(i));
                    if i == g + 1 {
                        assert(s2.generations@[i - 1].len() == s0.generations@[i - 1].len());
                    }
                }
            }
            assert forall|i: int| 0 <= i < n - 1 implies #[trigger] s2.edges_ok(i) by {
                if i != g {
                    assert(s2.generations@[i] == s0.generations@[i]);
                    assert(s0.edges_ok(i));
                    assert(s2.generations@[i + 1].len() == s0.generations@[i + 1].len());
                }
            }
            assert forall|i: int| 0 <= i < n implies (#[trigger] s2.generations@[i]).children_len() == s2.generations@[i].len() && s2.generations@[i].dedup_ok() && s2.generations@[i].len() < u32::MAX by {
                if i != g {
                    assert(s2.generations@[i] == s0.generations@[i]);
                }
            }
            assert(s2.generations@.last() == s0.generations@.last());
            // the children are those of before
            if known {
                assert(a2.known(k as int) == a1.known(k as int));
            } else {
                assert forall|t: int| #[trigger] a2.speculated(k as int, t) == a1.speculated(k as int, t) by {}

            }
            // what the node is now worth
            if known {
                assert(a2.known(k as int) == a1.known(k as int));
                assert(a2.known(k as int) == Some(kept));
                assert(s2.aggregate(g as int, k as int) == Some(best_of(next, kept)));
            } else {
                assert(Seq::new(7, |t: int| a2.speculated(k as int, t)) =~= kept_groups);
                assert(s2.aggregate(g as int, k as int) == Some(speculated_value(next, kept_groups)));
                assert forall|t: int| 0 <= t < 7 && #[trigger] a2.speculated(k as int, t) is Some implies best_first(next, a2.speculated(k as int, t)->0) by {
                    assert(a2.speculated(k as int, t) == a1.speculated(k as int, t));
                }
            }
        }
        changed
    }
}
impl Generation {
    /// The children of node `k` are those of `other`, possibly in another order.
    pub open spec fn reordered_from(&self, other: Generation, k: int) -> bool {
        &&& (self.known(k) is Some <==> other.known(k) is Some)
        &&& self.known(k) is Some ==> {
            &&& self.known(k)->0.len() == other.known(k)->0.len()
            &&& forall|i: int| 0 <= i < self.known(k)->0.len() ==> other.known(k)->0.contains(#[trigger] self.known(k)->0[i])
        }
        &&& forall|s: int| 0 <= s < 7 ==> ((#[trigger] self.speculated(k, s) is Some) <==> other.speculated(k, s) is Some)
        &&& forall|s: int| 0 <= s < 7 && #[trigger] self.speculated(k, s) is Some ==> self.speculated(k, s)->0.len() == other.speculated(k, s)->0.len()
        &&& forall|s: int, i: int| 0 <= s < 7 && self.speculated(k, s) is Some && 0 <= i < self.speculated(k, s)->0.len() ==> other.speculated(k, s)->0.contains(#[trigger] self.speculated(k, s)->0[i])
    }

    /// Children are a reordering of themselves.
    proof fn lemma_reordered_refl(a: Generation, b: Generation, k: int)
        requires
            a.known(k) == b.known(k),
            forall|s: int| #[trigger] a.speculated(k, s) == b.speculated(k, s),
        ensures
            a.reordered_from(b, k),
    {
        if a.known(k) is Some {
            assert forall|i: int| 0 <= i < a.known(k)->0.len() implies b.known(k)->0.contains(#[trigger] a.known(k)->0[i]) by {
                assert(b.known(k)->0[i] == a.known(k)->0[i]);
            }
        }
        assert forall|s: int, i: int| 0 <= s < 7 && a.speculated(k, s) is Some && 0 <= i < a.speculated(k, s)->0.len() implies b.speculated(k, s)->0.contains(#[trigger] a.speculated(k, s)->0[i]) by {
            assert(a.speculated(k, s) == b.speculated(k, s));
            assert(b.speculated(k, s)->0[i] == a.speculated(k, s)->0[i]);
        }
    }

    /// Reorderings compose.
    proof fn lemma_reordered_trans(a: Generation, b: Generation, c: Generation, k: int)
        requires
            a.reordered_from(b, k),
            b.reordered_from(c, k),
        ensures
            a.reordered_from(c, k),
    {
        if a.known(k) is Some {
            assert forall|i: int| 0 <= i < a.known(k)->0.len() implies c.known(k)->0.contains(#[trigger] a.known(k)->0[i]) by {
                let x = a.known(k)->0[i];
                assert(b.known(k)->0.contains(x));
                let t = choose|t: int| 0 <= t < b.known(k)->0.len() && b.known(k)->0[t] == x;
                assert(c.known(k)->0.contains(b.known(k)->0[t]));
            }
        }
        assert forall|s: int, i: int| 0 <= s < 7 && a.speculated(k, s) is Some && 0 <= i < a.speculated(k, s)->0.len() implies c.speculated(k, s)->0.contains(#[trigger] a.speculated(k, s)->0[i]) by {
            assert(b.speculated(k, s) is Some);
            let x = a.speculated(k, s)->0[i];
            assert(b.speculated(k, s)->0.contains(x));
            let t = choose|t: int| 0 <= t < b.speculated(k, s)->0.len() && b.speculated(k, s)->0[t] == x;
            assert(c.speculated(k, s)->0.contains(b.speculated(k, s)->0[t]));
        }
        assert forall|s: int| 0 <= s < 7 && #[trigger] a.speculated(k, s) is Some implies a.speculated(k, s)->0.len() == c.speculated(k, s)->0.len() by {
            assert(b.speculated(k, s) is Some);
        }
    }

    /// The two generations have the same nodes, parents, marks, filed positions and piece, and
    /// the same nodes are expanded; evaluations, death flags and the order of children may
    /// differ.
    pub closed spec fn same_frame(&self, other: Generation) -> bool {
        &&& self.nodes@.len() == other.nodes@.len()
        &&& self.piece() == other.piece()
        &&& self.dedup == other.dedup
        &&& self.children_len() == other.children_len()
        &&& forall|k: int| 0 <= k < self.nodes@.len() ==> {
            &&& #[trigger] self.marked(k) == other.marked(k)
            &&& self.parents(k) == other.parents(k)
            &&& self.expanded(k) == other.expanded(k)
            &&& self.reordered_from(other, k)
        }
    }
}

impl DagState {
    /// Only evaluations, death flags and the order of children differ between the two graphs.
    pub closed spec fn same_frame(&self, other: &DagState) -> bool {
        &&& self.board == other.board
        &&& self.root == other.root
        &&& self.gens_passed == other.gens_passed
        &&& self.use_hold == other.use_hold
        &&& self.generations@.len() == other.generations@.len()
        &&& forall|g: int| 0 <= g < self.generations@.len() ==> (#[trigger] self.generations@[g]).same_frame(other.generations@[g])
    }

    /// Updating one node keeps the frame.
    proof fn lemma_node_frame(&self, old: &DagState, g: int, k: int)
        requires
            self.only_node_changed(old, g, k),
            self.generations@[g].reordered_from(old.generations@[g], k),
            0 <= g < old.generations@.len(),
            0 <= k < old.generations@[g].len(),
            old.generations@[g].children_len() == old.generations@[g].len(),
        ensures
            self.same_frame(old),
    {
        assert forall|i: int| 0 <= i < self.generations@.len() implies (#[trigger] self.generations@[i]).same_frame(old.generations@[i]) by {
            if i == g {
                let a = self.generations@[g];
                let b = old.generations@[g];
                assert forall|j: int| 0 <= j < a.nodes@.len() implies {
                    &&& #[trigger] a.marked(j) == b.marked(j)
                    &&& a.parents(j) == b.parents(j)
                    &&& a.expanded(j) == b.expanded(j)
                    &&& a.reordered_from(b, j)
                } by {
                    if j != k {
                        assert(a.nodes@[j] == b.nodes@[j]);
                        match (a.children, b.children) {
                            (Children::Known(p, c), Children::Known(q, d)) => {
                                assert(c@[j] == d@[j]);
                            },
                            (Children::Speculated(c), Children::Speculated(d)) => {
                                assert(c@[j] == d@[j]);
                            },
                            _ => {},
                        }
                        assert(a.known(j) == b.known(j));
                        assert(a.speculated_expanded(j) == b.speculated_expanded(j));
                        assert forall|s: int| #[trigger] a.speculated(j, s) == b.speculated(j, s) by {}
                        Generation::lemma_reordered_refl(a, b, j);
                    }
                }
            } else {
                let a = self.generations@[i];
                assert forall|j: int| 0 <= j < a.nodes@.len() implies #[trigger] a.reordered_from(a, j) by {
                    assert forall|s: int| #[trigger] a.speculated(j, s) == a.speculated(j, s) by {}
                    Generation::lemma_reordered_refl(a, a, j);
                }
            }
        }
    }

    /// The frame is an equivalence.
    proof fn lemma_frame_trans(&self, b: &DagState, c: &DagState)
        requires
            self.same_frame(b),
            b.same_frame(c),
        ensures
            self.same_frame(c),
    {
        assert forall|i: int| 0 <= i < self.generations@.len() implies (#[trigger] self.generations@[i]).same_frame(c.generations@[i]) by {
            let x = self.generations@[i];
            let y = b.generations@[i];
            let z = c.generations@[i];
            assert(x.same_frame(y));
            assert(y.same_frame(z));
            assert forall|j: int| 0 <= j < x.nodes@.len() implies {
                &&& #[trigger] x.marked(j) == z.marked(j)
                &&& x.parents(j) == z.parents(j)
                &&& x.expanded(j) == z.expanded(j)
                &&& x.reordered_from(z, j)
            } by {
                assert(x.marked(j) == y.marked(j));
                assert(y.marked(j) == z.marked(j));
                Generation::lemma_reordered_trans(x, y, z, j);
            }
        }
    }

    /// A graph is in its own frame.
    proof fn lemma_frame_refl(&self)
        ensures
            self.same_frame(self),
    {
        assert forall|i: int| 0 <= i < self.generations@.len() implies (#[trigger] self.generations@[i]).same_frame(self.generations@[i]) by {
            let a = self.generations@[i];
            assert forall|j: int| 0 <= j < a.nodes@.len() implies #[trigger] a.reordered_from(a, j) by {
                assert forall|s: int| #[trigger] a.speculated(j, s) == a.speculated(j, s) by {}
                Generation::lemma_reordered_refl(a, a, j);
            }
        }
    }

    /// Updating one node keeps every other node consistent whose generation and next
    /// generation it did not touch.
    proof fn lemma_consistent_frame(&self, old: &DagState, gg: int, kk: int, g: int, k: int)
        requires
            self.only_node_changed(old, gg, kk),
            old.consistent(g, k),
            gg != g + 1,
            gg != g || kk != k,
            0 <= g,
            g + 1 < old.generations@.len(),
            0 <= k < old.generations@[g].len(),
            0 <= gg < old.generations@.len(),
            old.generations@[g].children_len() == old.generations@[g].len(),
        ensures
            self.consistent(g, k),
    {
        assert(self.generations@[g + 1] == old.generations@[g + 1]);
        if gg != g {
            assert(self.generations@[g] == old.generations@[g]);
        } else {
            let a = self.generations@[g];
            let b = old.generations@[g];
            assert(a.nodes@[k] == b.nodes@[k]);
            assert(a.piece() == b.piece());
            assert(a.same_entries_except(b, kk));
            match (a.children, b.children) {
                (Children::Known(p, c), Children::Known(q, d)) => {
                    assert(c@[k] == d@[k]);
                },
                (Children::Speculated(c), Children::Speculated(d)) => {
                    assert(c@[k] == d@[k]);
                },
                _ => {},
            }
            assert(a.known(k) == b.known(k));
            assert(a.speculated_expanded(k) == b.speculated_expanded(k));
            assert forall|s: int| #[trigger] a.speculated(k, s) == b.speculated(k, s) by {}
            assert(Seq::new(7, |s: int| a.speculated(k, s)) =~= Seq::new(7, |s: int| b.speculated(k, s)));
        }
    }
}

/// Whether `x` is in `v`.
fn list_has(v: &Vec<usize>, x: usize) -> (b: bool)
    ensures
        b == v@.contains(x),
{
    let mut i: usize = 0;
    while i < v.len()
        invariant
            i <= v@.len(),
            forall|j: int| 0 <= j < i ==> v@[j] != x,
        decreases v@.len() - i,
    {
        if v[i] == x {
            return true;
        }
        i = i + 1;
    }
    false
}
impl DagState {
    /// Brings the nodes in `to_update` of generation `gen` in line with their children, then,
    /// generation by generation towards the root, every parent of a node whose worth changed.
    fn backpropagate(&mut self, gen: usize, to_update: Vec<usize>)
        requires
            old(self).wf(),
            gen + 1 < old(self).gen_count(),
            forall|i: int| 0 <= i < to_update@.len() ==> #[trigger] to_update@[i] < old(self).generation(gen as int).len(),
        ensures
            final(self).wf(),
            final(self).same_frame(old(self)),
            forall|i: int| 0 <= i < to_update@.len() ==> final(self).consistent(gen as int, #[trigger] to_update@[i] as int),
    {
        let ghost g0 = gen as int;
        let ghost l0 = to_update@;
        let ghost s0 = *self;
        proof {
            self.lemma_frame_refl();
        }
        let mut gen = gen;
        let mut to_update = to_update;
        loop
            invariant_except_break
                self.wf(),
                gen + 1 < self.gen_count(),
                gen <= g0,
                g0 + 1 < self.gen_count(),
                self.same_frame(&s0),
                forall|i: int| 0 <= i < to_update@.len() ==> #[trigger] to_update@[i] < self.generation(gen as int).len(),
                gen == g0 ==> to_update@ == l0,
                forall|i: int| 0 <= i < l0.len() ==> #[trigger] l0[i] < self.generation(g0).len(),
                gen < g0 ==> forall|i: int| 0 <= i < l0.len() ==> self.consistent(g0, #[trigger] l0[i] as int),
            ensures
                self.wf(),
                self.same_frame(&s0),
                forall|i: int| 0 <= i < l0.len() ==> self.consistent(g0, #[trigger] l0[i] as int),
            decreases gen,
        {
            if to_update.len() == 0 {
                proof {
                    if gen == g0 {
                        assert(l0.len() == 0);
                    }
                }
                break;
            }
            let mut next: Vec<usize> = Vec::new();
            let mut i: usize = 0;
            while i < to_update.len()
                invariant
                    self.wf(),
                    gen + 1 < self.gen_count(),
                    gen <= g0,
                    g0 + 1 < self.gen_count(),
                    self.same_frame(&s0),
                    i <= to_update@.len(),
                    forall|t: int| 0 <= t < to_update@.len() ==> #[trigger] to_update@[t] < self.generation(gen as int).len(),
                    gen == g0 ==> to_update@ == l0,
                    forall|t: int| 0 <= t < l0.len() ==> #[trigger] l0[t] < self.generation(g0).len(),
                    gen < g0 ==> forall|t: int| 0 <= t < l0.len() ==> self.consistent(g0, #[trigger] l0[t] as int),
                    gen == g0 ==> forall|t: int| 0 <= t < i ==> self.consistent(g0, #[trigger] l0[t] as int),
                    gen > 0 ==> forall|t: int| 0 <= t < next@.len() ==> #[trigger] next@[t] < self.generation(gen - 1).len(),
                decreases to_update@.len() - i,
            {
                let k = to_update[i];
                let ghost before = *self;
                let changed = self.update_node(gen, k);
                proof {
                    self.lemma_node_frame(&before, gen as int, k as int);
                    self.lemma_frame_trans(&before, &s0);
                    assert(self.generation(gen as int).len() == before.generation(gen as int).len());
                    assert(self.generation(g0).len() == before.generation(g0).len()) by {
                        assert(self.generations@[g0].same_frame(before.generations@[g0]));
                    }
                    assert(gen > 0 ==> self.generation(gen - 1).len() == before.generation(gen - 1).len()) by {
                        if gen > 0 {
                            assert(self.generations@[gen - 1] == before.generations@[gen - 1]);
                        }
                    }
                    if gen < g0 {
                        assert forall|t: int| 0 <= t < l0.len() implies self.consistent(g0, #[trigger] l0[t] as int) by {
                            assert(before.consistent(g0, l0[t] as int));
                            assert(before.generations@[g0].children_len() == before.generations@[g0].len());
                            self.lemma_consistent_frame(&before, gen as int, k as int, g0, l0[t] as int);
                        }
                    } else {
                        assert forall|t: int| 0 <= t < i + 1 implies self.consistent(g0, #[trigger] l0[t] as int) by {
                            if l0[t] != k {
                                assert(before.consistent(g0, l0[t] as int));
                                assert(before.generations@[g0].children_len() == before.generations@[g0].len());
                                self.lemma_consistent_frame(&before, gen as int, k as int, g0, l0[t] as int);
                            }
                        }
                    }
                }
                if changed && gen > 0 {
                    let n = self.generations[gen].nodes[k].parents.len();
                    let mut j: usize = 0;
                    while j < n
                        invariant
                            self.wf(),
                            gen > 0,
                            gen + 1 < self.gen_count(),
                            k < self.generation(gen as int).len(),
                            n == self.generation(gen as int).parents(k as int).len(),
                            j <= n,
                            forall|t: int| 0 <= t < next@.len() ==> #[trigger] next@[t] < self.generation(gen - 1).len(),
                        decreases n - j,
                    {
                        let p = self.generations[gen].nodes[k].parents[j] as usize;
                        proof {
                            assert(self.gen_ok(gen as int));
                            reveal(Generation::wf);
                            assert(self.generation(gen as int).parents(k as int)[j as int] == p);
                        }
                        if !list_has(&next, p) {
                            next.push(p);
                        }
                        j = j + 1;
                    }
                }
                i = i + 1;
            }
            if gen == 0 {
                break;
            }
            to_update = next;
            gen = gen - 1;
        }
    }
}
impl Generation {
    /// Edges within a bound are within any larger bound.
    proof fn lemma_edges_mono(&self, n: nat, m: nat)
        requires
            self.edges_within(n),
            n <= m,
        ensures
            self.edges_within(m),
    {
        reveal(Generation::edges_within);
    }

    /// Parents within a bound are within any larger bound.
    proof fn lemma_wf_mono(&self, bound: int, prev: nat, prev2: nat)
        requires
            self.wf(bound, prev),
            prev <= prev2,
        ensures
            self.wf(bound, prev2),
    {
        reveal(Generation::wf);
        assert forall|k: int, j: int|
            0 <= k < self.len() && 0 <= j < self.parents(k).len() implies #[trigger] self.parents(k)[j] < prev2 by {
            assert(self.parents(k)[j] < prev);
        }
    }

    /// Evaluations within a bound are within any larger bound.
    proof fn lemma_wf_bound_mono(&self, bound: int, bound2: int, prev: nat, prev2: nat)
        requires
            self.wf(bound, prev),
            bound <= bound2,
            prev <= prev2,
        ensures
            self.wf(bound2, prev2),
    {
        reveal(Generation::wf);
        assert forall|k: int| 0 <= k < self.len() implies value_within(#[trigger] self.eval(k), bound2) by {
            assert(value_within(self.eval(k), bound));
        }
        assert forall|k: int, j: int|
            0 <= k < self.len() && 0 <= j < self.parents(k).len() implies #[trigger] self.parents(k)[j] < prev2 by {
            assert(self.parents(k)[j] < prev);
        }
    }

    /// A generation without edges has its edges within any bound.
    proof fn lemma_no_edges_within(&self, n: nat)
        requires
            self.no_edges(),
        ensures
            self.edges_within(n),
    {
        reveal(Generation::edges_within);
        reveal(Generation::no_edges);
    }
}

impl DagState {
    /// Makes sure generation `gen + 1` exists: past the last generation the next piece is not
    /// known, so a speculated generation is added.
    fn ensure_next(&mut self, gen: usize)
        requires
            old(self).wf(),
            gen < old(self).gen_count(),
            gen + 1 == old(self).gen_count() ==> old(self).gen_count() < MAX_GENERATIONS,
        ensures
            final(self).wf(),
            gen + 1 < final(self).gen_count(),
            final(self).board == old(self).board,
            final(self).root == old(self).root,
            final(self).gens_passed == old(self).gens_passed,
            final(self).use_hold == old(self).use_hold,
            final(self).generations@.len() >= old(self).generations@.len(),
            final(self).generations@.len() <= old(self).generations@.len() + 1,
            forall|i: int| 0 <= i < old(self).generations@.len() ==> #[trigger] final(self).generations@[i] == old(self).generations@[i],
            final(self).generations@.len() > old(self).generations@.len() ==> {
                &&& final(self).generations@.last().len() == 0
                &&& final(self).generations@.last().piece() is None
            },
    {
        if gen + 1 == self.generations.len() {
            self.push_generation(None);
        }
    }

    /// Adds an empty generation at the end, known with piece `p` or speculated.
    fn push_generation(&mut self, piece: Option<Piece>)
        requires
            old(self).wf(),
            old(self).gen_count() < MAX_GENERATIONS,
        ensures
            final(self).wf(),
            final(self).board == old(self).board,
            final(self).root == old(self).root,
            final(self).gens_passed == old(self).gens_passed,
            final(self).use_hold == old(self).use_hold,
            final(self).generations@.len() == old(self).generations@.len() + 1,
            forall|i: int| 0 <= i < old(self).generations@.len() ==> #[trigger] final(self).generations@[i] == old(self).generations@[i],
            final(self).generations@.last().len() == 0,
            final(self).generations@.last().piece() == piece,
    {
        let ghost s0 = *self;
        let e = Generation::empty(piece);
        self.generations.push(e);
        proof {
            let n = self.generations@.len();
            assert(self.generations@[n - 1] == e);
            assert forall|i: int| 0 <= i < n implies #[trigger] self.gen_ok(i) by {
                if i < n - 1 {
                    assert(s0.gen_ok(i));
                    assert(self.generations@[i] == s0.generations@[i]);
                    if i > 0 {
                        assert(self.generations@[i - 1] == s0.generations@[i - 1]);
                    }
                } else {
                    reveal(Generation::wf);
                }
            }
            assert forall|i: int| 0 <= i < n - 1 implies #[trigger] self.edges_ok(i) by {
                assert(self.generations@[i] == s0.generations@[i]);
                if i < n - 2 {
                    assert(s0.edges_ok(i));
                    assert(self.generations@[i + 1] == s0.generations@[i + 1]);
                } else {
                    assert(s0.generations@.last().no_edges());
                    s0.generations@[i].lemma_no_edges_within(0);
                }
            }
            assert forall|i: int| 0 <= i < n implies (#[trigger] self.generations@[i]).children_len() == self.generations@[i].len() && self.generations@[i].dedup_ok() && self.generations@[i].len() < u32::MAX by {
                if i < n - 1 {
                    assert(self.generations@[i] == s0.generations@[i]);
                }
            }
        }
    }

    /// Turns speculated generation `i` into a known one with piece `p`.
    fn convert_generation(&mut self, i: usize, p: Piece)
        requires
            old(self).wf(),
            i < old(self).gen_count(),
            old(self).generation(i as int).piece() is None,
        ensures
            final(self).wf(),
            final(self).board == old(self).board,
            final(self).root == old(self).root,
            final(self).gens_passed == old(self).gens_passed,
            final(self).use_hold == old(self).use_hold,
            final(self).generations@.len() == old(self).generations@.len(),
            forall|t: int| 0 <= t < old(self).generations@.len() && t != i ==> #[trigger] final(self).generations@[t] == old(self).generations@[t],
            final(self).generation(i as int).piece() == Some(p),
            final(self).generation(i as int).nodes == old(self).generation(i as int).nodes,
            final(self).generation(i as int).dedup == old(self).generation(i as int).dedup,
            forall|j: int| 0 <= j < old(self).generation(i as int).len() ==> #[trigger] final(self).generation(i as int).known(j) == (if old(self).generation(i as int).speculated_expanded(j) {
                old(self).generation(i as int).speculated(j, slot_of(p))
            } else {
                None
            }),
    {
        let ghost s0 = *self;
        proof {
            assert(s0.gen_ok(i as int));
            reveal(Generation::wf);
        }
        self.generations[i].convert(p);
        proof {
            let n = self.generations@.len();
            let a = s0.generations@[i as int];
            let b = self.generations@[i as int];
            assert(b.wf(eval_bound(i as int), if i == 0 { u32::MAX as nat } else { s0.generations@[i - 1].len() })) by {
                reveal(Generation::slots_wf);
                assert forall|kk: int| 0 <= kk < b.len() implies value_within(#[trigger] b.eval(kk), eval_bound(i as int)) by {
                    assert(b.eval(kk) == a.eval(kk));
                }
                assert forall|kk: int, j: int|
                    0 <= kk < b.len() && 0 <= j < b.parents(kk).len() implies #[trigger] b.parents(kk)[j] < (if i == 0 { u32::MAX as nat } else { s0.generations@[i - 1].len() }) by {
                    assert(b.parents(kk) == a.parents(kk));
                    assert(a.parents(kk)[j] < (if i == 0 { u32::MAX as nat } else { s0.generations@[i - 1].len() }));
                }
            }
            assert forall|t: int| 0 <= t < n implies #[trigger] self.gen_ok(t) by {
                assert(s0.gen_ok(t));
                if t != i {
                    assert(self.generations@[t] == s0.generations@[t]);
                }
                if t > 0 && t - 1 != i {
                    assert(self.generations@[t - 1] == s0.generations@[t - 1]);
                }
            }
            assert forall|t: int| 0 <= t < n - 1 implies #[trigger] self.edges_ok(t) by {
                assert(s0.edges_ok(t));
                if t != i {
                    assert(self.generations@[t] == s0.generations@[t]);
                    if t + 1 != i {
                        assert(self.generations@[t + 1] == s0.generations@[t + 1]);
                    }
                }
            }
            assert forall|t: int| 0 <= t < n implies (#[trigger] self.generations@[t]).children_len() == self.generations@[t].len() && self.generations@[t].dedup_ok() && self.generations@[t].len() < u32::MAX by {
                if t != i {
                    assert(self.generations@[t] == s0.generations@[t]);
                }
            }
            if i == n - 1 {
                assert(a.no_edges());
            } else {
                assert(self.generations@[n - 1] == s0.generations@[n - 1]);
            }
        }
    }
}

impl DagState {
    /// Files the found children of node `k` of generation `g` into generation `g + 1`.
    fn add_children(&mut self, g: usize, k: usize, data: &Vec<ChildData>) -> (cs: Vec<Child>)
        requires
            old(self).wf(),
            g + 1 < old(self).gen_count(),
            k < old(self).generation(g as int).len(),
            old(self).generation(g + 1).len() + data@.len() < u32::MAX,
            data@.len() <= MAX_CHILDREN,
            forall|i: int| 0 <= i < data@.len() ==> data_ok(#[trigger] data@[i], old(self).hold_used()),
        ensures
            final(self).wf(),
            final(self).board == old(self).board,
            final(self).root == old(self).root,
            final(self).gens_passed == old(self).gens_passed,
            final(self).use_hold == old(self).use_hold,
            final(self).generations@.len() == old(self).generations@.len(),
            forall|i: int| 0 <= i < old(self).generations@.len() && i != g + 1 ==> #[trigger] final(self).generations@[i] == old(self).generations@[i],
            cs@ == expected_edges(final(self).generation(g + 1), data@, old(self).hold_used()),
            forall|i: int| 0 <= i < cs@.len() ==> (#[trigger] cs@[i]).node < final(self).generation(g + 1).len() && reward_within(cs@[i].reward),
            cs@.len() == data@.len(),
            final(self).generation(g + 1).len() <= old(self).generation(g + 1).len() + data@.len(),
            forall|v: SimpleView| old(self).generation(g + 1).filed(v) is Some ==> #[trigger] final(self).generation(g + 1).filed(v) == old(self).generation(g + 1).filed(v),
            forall|i: int| 0 <= i < data@.len() ==> final(self).generation(g + 1).filed(position_of(#[trigger] data@[data_order(data@)[i]].board, old(self).hold_used())) is Some,
    {
        let ghost s0 = *self;
        let hold = self.use_hold;
        proof {
            assert(s0.gen_ok(g as int + 1));
        }
        let cs = build_children(&mut self.generations[g + 1], data, k as u32, hold);
        proof {
            let n = self.generations@.len();
            let a = s0.generations@[g + 1];
            let b = self.generations@[g + 1];
            assert forall|i: int| 0 <= i < data@.len() implies b.filed(position_of(#[trigger] data@[data_order(data@)[i]].board, hold)) is Some by {
                assert(cs@[i].node < b.len());
            }
            assert forall|i: int| 0 <= i < cs@.len() implies (#[trigger] cs@[i]).node < b.len() && reward_within(cs@[i].reward) by {
                let order = ranked(Seq::new(data@.len(), |t: int| data_key(data@[t])), data@.len() as int);
                crate::rank::lemma_ranked_range(Seq::new(data@.len(), |t: int| data_key(data@[t])), data@.len() as int);
                assert(data_ok(data@[order[i]], hold));
            }
            assert forall|i: int| 0 <= i < n implies #[trigger] self.gen_ok(i) by {
                if i == g + 1 {
                    assert(a.wf(eval_bound(i), s0.generations@[i - 1].len()));
                    assert(LEAF_LIMIT <= eval_bound(i));
                    assert(self.generations@[i - 1] == s0.generations@[i - 1]);
                } else {
                    assert(s0.gen_ok(i));
                    assert(self.generations@[i] == s0.generations@[i]);
                    if i == g + 2 {
                        self.generations@[i].lemma_wf_mono(eval_bound(i), a.len(), b.len());
                    } else if i > 0 {
                        assert(self.generations@[i - 1] == s0.generations@[i - 1]);
                    }
                }
            }
            assert forall|i: int| 0 <= i < n - 1 implies #[trigger] self.edges_ok(i) by {
                assert(s0.edges_ok(i));
                if i == g {
                    assert(self.generations@[i] == s0.generations@[i]);
                    s0.generations@[i].lemma_edges_mono(a.len(), b.len());
                } else if i == g + 1 {
                    assert(self.generations@[i + 1] == s0.generations@[i + 1]);
                } else {
                    assert(self.generations@[i] == s0.generations@[i]);
                    assert(self.generations@[i + 1] == s0.generations@[i + 1]);
                }
            }
            assert forall|i: int| 0 <= i < n implies (#[trigger] self.generations@[i]).children_len() == self.generations@[i].len() && self.generations@[i].dedup_ok() && self.generations@[i].len() < u32::MAX by {
                if i != g + 1 {
                    assert(self.generations@[i] == s0.generations@[i]);
                }
            }
            if g + 1 == n - 1 {
                assert(a.no_edges());
            } else {
                assert(self.generations@[n - 1] == s0.generations@[n - 1]);
            }
        }
        cs
    }

    /// Sets the children of node `k` of known generation `g`.
    fn set_entry_known(&mut self, g: usize, k: usize, cs: Vec<Child>)
        requires
            old(self).wf(),
            g + 1 < old(self).gen_count(),
            k < old(self).generation(g as int).len(),
            old(self).generation(g as int).piece() is Some,
            cs@.len() <= MAX_CHILDREN,
            forall|i: int| 0 <= i < cs@.len() ==> (#[trigger] cs@[i]).node < old(self).generation(g + 1).len() && reward_within(cs@[i].reward),
        ensures
            final(self).wf(),
            final(self).board == old(self).board,
            final(self).root == old(self).root,
            final(self).gens_passed == old(self).gens_passed,
            final(self).use_hold == old(self).use_hold,
            final(self).generations@.len() == old(self).generations@.len(),
            forall|i: int| 0 <= i < old(self).generations@.len() && i != g ==> #[trigger] final(self).generations@[i] == old(self).generations@[i],
            final(self).generation(g as int).nodes == old(self).generation(g as int).nodes,
            final(self).generation(g as int).known(k as int) == Some(cs@),
            final(self).generation(g as int).same_entries_except(old(self).generation(g as int), k as int),
    {
        let ghost s0 = *self;
        let ghost cv = cs@;
        self.generations[g].set_known(k, cs);
        proof {
            let n = self.generations@.len();
            let a = s0.generations@[g as int];
            let b = self.generations@[g as int];
            assert(s0.edges_ok(g as int));
            assert(s0.gen_ok(g as int));
            reveal(Generation::edges_within);
            reveal(Generation::wf);
            reveal(Generation::slots_wf);
            match (b.children, a.children) {
                (Children::Known(p, c), Children::Known(q, d)) => {
                    assert forall|kk: int, j: int|
                        #![trigger c@[kk], c@[kk]->0@[j]]
                        0 <= kk < c@.len() && c@[kk] is Some && 0 <= j < c@[kk]->0@.len() implies {
                            &&& c@[kk]->0@[j].node < s0.generations@[g + 1].len()
                            &&& reward_within(c@[kk]->0@[j].reward)
                            &&& c@[kk]->0@.len() <= MAX_CHILDREN
                        } by {
                        if kk != k {
                            assert(c@[kk] == d@[kk]);
                            assert(d@[kk]->0@[j] == c@[kk]->0@[j]);
                        } else {
                            assert(c@[kk]->0@ == cv);
                        }
                    }
                },
                _ => {},
            }
            assert(b.edges_within(s0.generations@[g + 1].len()));
            assert(b.nodes == a.nodes);
            assert forall|kk: int| 0 <= kk < b.len() implies value_within(#[trigger] b.eval(kk), eval_bound(g as int)) by {
                assert(b.eval(kk) == a.eval(kk));
                assert(value_within(a.eval(kk), eval_bound(g as int)));
            }
            assert forall|kk: int, j: int|
                0 <= kk < b.len() && 0 <= j < b.parents(kk).len() implies #[trigger] b.parents(kk)[j] < (if g == 0 { u32::MAX as nat } else { s0.generations@[g - 1].len() }) by {
                assert(b.parents(kk) == a.parents(kk));
                assert(a.parents(kk)[j] < (if g == 0 { u32::MAX as nat } else { s0.generations@[g - 1].len() }));
            }
            assert(b.wf(eval_bound(g as int), if g == 0 { u32::MAX as nat } else { s0.generations@[g - 1].len() }));
            assert forall|i: int| 0 <= i < n implies #[trigger] self.gen_ok(i) by {
                assert(s0.gen_ok(i));
                if i != g {
                    assert(self.generations@[i] == s0.generations@[i]);
                }
                if i > 0 && i - 1 != g {
                    assert(self.generations@[i - 1] == s0.generations@[i - 1]);
                }
            }
            assert forall|i: int| 0 <= i < n - 1 implies #[trigger] self.edges_ok(i) by {
                assert(s0.edges_ok(i));
                if i != g {
                    assert(self.generations@[i] == s0.generations@[i]);
                    if i + 1 != g {
                        assert(self.generations@[i + 1] == s0.generations@[i + 1]);
                    } else {
                        assert(self.generations@[i + 1].len() == s0.generations@[i + 1].len());
                    }
                }
            }
            assert forall|i: int| 0 <= i < n implies (#[trigger] self.generations@[i]).children_len() == self.generations@[i].len() && self.generations@[i].dedup_ok() && self.generations@[i].len() < u32::MAX by {
                if i != g {
                    assert(self.generations@[i] == s0.generations@[i]);
                }
            }
            assert(self.generations@[n - 1] == s0.generations@[n - 1]);
        }
    }
}
impl DagState {
    /// Gives a node of a known generation the children found for it: they are filed into the
    /// next generation, the node's children become those edges ranked best first, the node is
    /// no longer marked, and the graph is brought in line from it towards the root. A node of a
    /// dropped generation is ignored.
    pub fn update_known(&mut self, node: NodeId, children: Vec<ChildData>)
        requires
            old(self).wf(),
            old(self).valid_id(node),
            node.generation >= old(self).passed() ==> {
                let g = node.generation - old(self).passed();
                &&& old(self).generation(g).piece() is Some
                &&& g + 1 == old(self).gen_count() ==> old(self).gen_count() < MAX_GENERATIONS
                &&& (if g + 1 < old(self).gen_count() {
                    old(self).generation(g + 1).len() as int
                } else {
                    0
                }) + children@.len() < u32::MAX
                &&& children@.len() <= MAX_CHILDREN
                &&& forall|i: int| 0 <= i < children@.len() ==> data_ok(#[trigger] children@[i], old(self).hold_used())
            },
        ensures
            final(self).wf(),
            known_filed(*final(self), *old(self), node, children@),
    {
        if node.generation < self.gens_passed {
            return;
        }
        let g = (node.generation - self.gens_passed) as usize;
        let k = node.slab_key as usize;
        let ghost hold = self.use_hold;
        self.ensure_next(g);
        proof {
            if g + 1 == old(self).gen_count() {
                assert(self.generations@.last().len() == 0);
            } else {
                assert(self.generations@[g + 1] == old(self).generations@[g + 1]);
            }
            assert(self.generations@[g as int] == old(self).generations@[g as int]);
        }
        let cs = self.add_children(g, k, &children);
        let ghost mid = *self;
        let ghost cv = cs@;
        self.set_entry_known(g, k, cs);
        let ghost mid2 = *self;
        self.set_marked(g, k, false);
        let ghost mid3 = *self;
        let mut list: Vec<usize> = Vec::new();
        list.push(k);
        proof {
            assert(list@[0] == k);
            assert(mid3.generations@[g + 1] == mid.generations@[g + 1]);
            assert(mid3.generations@[g as int].known(k as int) == Some(cv));
        }
        self.backpropagate(g, list);
        proof {
            assert(self.consistent(g as int, list@[0] as int));
            assert(self.generations@[g as int].same_frame(mid3.generations@[g as int]));
            assert(self.generations@[g + 1].same_frame(mid3.generations@[g + 1]));
            let a = self.generations@[g as int];
            assert(a.marked(k as int) == mid3.generations@[g as int].marked(k as int));
            assert(a.reordered_from(mid3.generations@[g as int], k as int));
            let n1 = self.generations@[g + 1];
            let n0 = mid.generations@[g + 1];
            assert(n1.dedup == n0.dedup);
            assert forall|v: SimpleView| #[trigger] n1.filed(v) == n0.filed(v) by {}
            assert(expected_edges(n1, children@, hold) =~= expected_edges(n0, children@, hold));
        }
    }
}
impl DagState {
    /// Sets the slots of node `k` of speculated generation `g`.
    fn set_entry_speculated(&mut self, g: usize, k: usize, groups: Vec<Option<Vec<Child>>>)
        requires
            old(self).wf(),
            g + 1 < old(self).gen_count(),
            k < old(self).generation(g as int).len(),
            old(self).generation(g as int).piece() is None,
            groups@.len() == 7,
            forall|s: int, i: int| 0 <= s < 7 && groups@[s] is Some && 0 <= i < groups@[s]->0@.len() ==> (#[trigger] groups@[s]->0@[i]).node < old(self).generation(g + 1).len() && reward_within(groups@[s]->0@[i].reward),
            forall|s: int| 0 <= s < 7 && #[trigger] groups@[s] is Some ==> groups@[s]->0@.len() <= MAX_CHILDREN,
        ensures
            final(self).wf(),
            final(self).board == old(self).board,
            final(self).root == old(self).root,
            final(self).gens_passed == old(self).gens_passed,
            final(self).use_hold == old(self).use_hold,
            final(self).generations@.len() == old(self).generations@.len(),
            forall|i: int| 0 <= i < old(self).generations@.len() && i != g ==> #[trigger] final(self).generations@[i] == old(self).generations@[i],
            final(self).generation(g as int).nodes == old(self).generation(g as int).nodes,
            final(self).generation(g as int).speculated_expanded(k as int),
            forall|s: int| 0 <= s < 7 ==> #[trigger] final(self).generation(g as int).speculated(k as int, s) == match groups@[s] {
                Some(v) => Some(v@),
                None => None::<Seq<Child>>,
            },
            final(self).generation(g as int).same_entries_except(old(self).generation(g as int), k as int),
    {
        let ghost s0 = *self;
        let ghost gv = groups@;
        self.generations[g].set_groups(k, groups);
        proof {
            let n = self.generations@.len();
            let a = s0.generations@[g as int];
            let b = self.generations@[g as int];
            assert(s0.edges_ok(g as int));
            assert(s0.gen_ok(g as int));
            reveal(Generation::edges_within);
            reveal(Generation::wf);
            reveal(Generation::slots_wf);
            match (b.children, a.children) {
                (Children::Speculated(c), Children::Speculated(d)) => {
                    assert forall|kk: int, t: int, j: int|
                        #![trigger c@[kk]->0@[t]->0@[j]]
                        0 <= kk < c@.len() && c@[kk] is Some && 0 <= t < 7 && c@[kk]->0@[t] is Some && 0 <= j
                            < c@[kk]->0@[t]->0@.len() implies {
                            &&& c@[kk]->0@[t]->0@[j].node < s0.generations@[g + 1].len()
                            &&& reward_within(c@[kk]->0@[t]->0@[j].reward)
                            &&& c@[kk]->0@[t]->0@.len() <= MAX_CHILDREN
                        } by {
                        if kk != k {
                            assert(c@[kk] == d@[kk]);
                            assert(d@[kk]->0@[t]->0@[j] == c@[kk]->0@[t]->0@[j]);
                        } else {
                            assert(b.speculated(k as int, t) == Some(c@[k as int]->0@[t]->0@));
                            assert(b.speculated(k as int, t) == Some(gv[t]->0@));
                        }
                    }
                    assert forall|kk: int| 0 <= kk < c@.len() && #[trigger] c@[kk] is Some implies c@[kk]->0@.len() == 7 by {
                        if kk != k {
                            assert(c@[kk] == d@[kk]);
                        } else {
                            assert(b.slot_count(k as int) == 7);
                        }
                    }
                },
                _ => {},
            }
            assert(b.edges_within(s0.generations@[g + 1].len()));
            assert(b.nodes == a.nodes);
            assert forall|kk: int| 0 <= kk < b.len() implies value_within(#[trigger] b.eval(kk), eval_bound(g as int)) by {
                assert(b.eval(kk) == a.eval(kk));
                assert(value_within(a.eval(kk), eval_bound(g as int)));
            }
            assert forall|kk: int, j: int|
                0 <= kk < b.len() && 0 <= j < b.parents(kk).len() implies #[trigger] b.parents(kk)[j] < (if g == 0 { u32::MAX as nat } else { s0.generations@[g - 1].len() }) by {
                assert(b.parents(kk) == a.parents(kk));
                assert(a.parents(kk)[j] < (if g == 0 { u32::MAX as nat } else { s0.generations@[g - 1].len() }));
            }
            assert(b.wf(eval_bound(g as int), if g == 0 { u32::MAX as nat } else { s0.generations@[g - 1].len() }));
            assert forall|i: int| 0 <= i < n implies #[trigger] self.gen_ok(i) by {
                assert(s0.gen_ok(i));
                if i != g {
                    assert(self.generations@[i] == s0.generations@[i]);
                }
                if i > 0 && i - 1 != g {
                    assert(self.generations@[i - 1] == s0.generations@[i - 1]);
                }
            }
            assert forall|i: int| 0 <= i < n - 1 implies #[trigger] self.edges_ok(i) by {
                assert(s0.edges_ok(i));
                if i != g {
                    assert(self.generations@[i] == s0.generations@[i]);
                    if i + 1 != g {
                        assert(self.generations@[i + 1] == s0.generations@[i + 1]);
                    } else {
                        assert(self.generations@[i + 1].len() == s0.generations@[i + 1].len());
                    }
                }
            }
            assert forall|i: int| 0 <= i < n implies (#[trigger] self.generations@[i]).children_len() == self.generations@[i].len() && self.generations@[i].dedup_ok() && self.generations@[i].len() < u32::MAX by {
                if i != g {
                    assert(self.generations@[i] == s0.generations@[i]);
                }
            }
            assert(self.generations@[n - 1] == s0.generations@[n - 1]);
        }
    }
}
/// The number of found children over the first `n` slots.
pub open spec fn slot_total(children: Seq<Option<Vec<ChildData>>>, n: int) -> int
    decreases n,
{
    if n <= 0 {
        0
    } else {
        slot_total(children, n - 1) + match children[n - 1] {
            Some(d) => d@.len() as int,
            None => 0,
        }
    }
}

/// Edges expected from found children stay the same while their positions stay filed.
proof fn lemma_expected_stable(a: Generation, b: Generation, data: Seq<ChildData>, hold_allowed: bool)
    requires
        forall|i: int| 0 <= i < data.len() ==> a.filed(position_of(#[trigger] data[data_order(data)[i]].board, hold_allowed)) is Some,
        forall|v: SimpleView| a.filed(v) is Some ==> #[trigger] b.filed(v) == a.filed(v),
    ensures
        expected_edges(b, data, hold_allowed) == expected_edges(a, data, hold_allowed),
{
    assert forall|i: int| 0 <= i < data.len() implies #[trigger] expected_edges(b, data, hold_allowed)[i] == expected_edges(a, data, hold_allowed)[i] by {
        let v = position_of(data[data_order(data)[i]].board, hold_allowed);
        assert(a.filed(v) is Some);
        assert(b.filed(v) == a.filed(v));
    }
    assert(expected_edges(b, data, hold_allowed) =~= expected_edges(a, data, hold_allowed));
}

impl DagState {
    /// Gives a node the children found for each piece that may come next. In a known
    /// generation only the children for its piece are used, if given; in a speculated one the
    /// node gets a slot for each piece with children. The node is no longer marked, and the
    /// graph is brought in line from it towards the root. A node of a dropped generation is
    /// ignored.
    pub fn update_speculated(&mut self, node: NodeId, children: Vec<Option<Vec<ChildData>>>)
        requires
            old(self).wf(),
            old(self).valid_id(node),
            children@.len() == 7,
            node.generation >= old(self).passed() ==> {
                let g = node.generation - old(self).passed();
                &&& forall|s: int| 0 <= s < 7 && #[trigger] children@[s] is Some ==> {
                    &&& children@[s]->0@.len() <= MAX_CHILDREN
                    &&& forall|i: int| 0 <= i < children@[s]->0@.len() ==> data_ok(#[trigger] children@[s]->0@[i], old(self).hold_used())
                }
                &&& g + 1 == old(self).gen_count() ==> old(self).gen_count() < MAX_GENERATIONS
                &&& (if g + 1 < old(self).gen_count() {
                    old(self).generation(g + 1).len() as int
                } else {
                    0
                }) + slot_total(children@, 7) < u32::MAX
            },
        ensures
            final(self).wf(),
            speculated_filed(*final(self), *old(self), node, children@),
    {
        if node.generation < self.gens_passed {
            return;
        }
        let g = (node.generation - self.gens_passed) as usize;
        let k = node.slab_key as usize;
        let ghost hold = self.use_hold;
        let ghost s_old = *self;
        self.ensure_next(g);
        proof {
            assert(self.generations@[g as int] == s_old.generations@[g as int]);
            if g + 1 < s_old.gen_count() {
                assert(self.generations@[g + 1] == s_old.generations@[g + 1]);
            } else {
                assert(self.generations@.last().len() == 0);
            }
            lemma_slot_total_nonneg(children@, 7);
        }
        let piece = match &self.generations[g].children {
            Children::Known(p, _) => Some(*p),
            Children::Speculated(_) => None,
        };
        let ghost mut kept: Seq<Child> = Seq::empty();
        let ghost mut kept_groups: Seq<Option<Seq<Child>>> = Seq::empty();
        let ghost mid0 = *self;
        match piece {
            Some(p) => {
                let sl = piece_slot(p);
                match &children[sl] {
                    Some(data) => {
                        proof {
                            lemma_slot_total_part(children@, sl as int, 7);
                        }
                        let cs = self.add_children(g, k, data);
                        proof {
                            kept = cs@;
                        }
                        self.set_entry_known(g, k, cs);
                    },
                    None => {},
                }
            },
            None => {
                let mut groups: Vec<Option<Vec<Child>>> = Vec::new();
                let mut t: usize = 0;
                while t < 7
                    invariant
                        t <= 7,
                        children@.len() == 7,
                        self.wf(),
                        g + 1 < self.gen_count(),
                        k < self.generation(g as int).len(),
                        self.generation(g as int) == mid0.generation(g as int),
                        self.gen_count() == mid0.gen_count(),
                        self.board == mid0.board,
                        self.root == mid0.root,
                        self.gens_passed == mid0.gens_passed,
                        self.use_hold == mid0.use_hold,
                        hold == self.use_hold,
                        forall|i: int| 0 <= i < mid0.generations@.len() && i != g + 1 ==> #[trigger] self.generations@[i] == mid0.generations@[i],
                        self.generation(g + 1).len() <= mid0.generation(g + 1).len() + slot_total(children@, t as int),
                        mid0.generation(g + 1).len() + slot_total(children@, 7) < u32::MAX,
                        slot_total(children@, t as int) <= slot_total(children@, 7),
                        forall|s: int| 0 <= s < 7 && #[trigger] children@[s] is Some ==> {
                            &&& children@[s]->0@.len() <= MAX_CHILDREN
                            &&& forall|i: int| 0 <= i < children@[s]->0@.len() ==> data_ok(#[trigger] children@[s]->0@[i], hold)
                        },
                        groups@.len() == t,
                        forall|s: int| 0 <= s < t ==> ((#[trigger] groups@[s] is Some) <==> children@[s] is Some),
                        forall|s: int| 0 <= s < t && #[trigger] groups@[s] is Some ==> {
                            &&& groups@[s]->0@ == expected_edges(self.generation(g + 1), children@[s]->0@, hold)
                            &&& groups@[s]->0@.len() == children@[s]->0@.len()
                            &&& forall|i: int| 0 <= i < children@[s]->0@.len() ==> self.generation(g + 1).filed(position_of(#[trigger] children@[s]->0@[data_order(children@[s]->0@)[i]].board, hold)) is Some
                            &&& forall|i: int| 0 <= i < groups@[s]->0@.len() ==> (#[trigger] groups@[s]->0@[i]).node < self.generation(g + 1).len() && reward_within(groups@[s]->0@[i].reward)
                        },
                    decreases 7 - t,
                {
                    let ghost before = *self;
                    let ghost gb = groups@;
                    match &children[t] {
                        Some(data) => {
                            proof {
                                lemma_slot_total_step(children@, t as int);
                            }
                            let cs = self.add_children(g, k, data);
                            proof {
                                let n0 = before.generation(g + 1);
                                let n1 = self.generation(g + 1);
                                let order = data_order(data@);
                                crate::rank::lemma_ranked_range(Seq::new(data@.len(), |i: int| data_key(data@[i])), data@.len() as int);
                                assert forall|i: int| 0 <= i < data@.len() implies n1.filed(position_of(#[trigger] data@[data_order(data@)[i]].board, hold)) is Some by {
                                    assert(cs@[i] == expected_edges(n1, data@, hold)[i]);
                                }
                                assert forall|s: int| 0 <= s < t && #[trigger] gb[s] is Some implies {
                                    &&& gb[s]->0@ == expected_edges(n1, children@[s]->0@, hold)
                                    &&& forall|i: int| 0 <= i < children@[s]->0@.len() ==> n1.filed(position_of(#[trigger] children@[s]->0@[data_order(children@[s]->0@)[i]].board, hold)) is Some
                                    &&& forall|i: int| 0 <= i < gb[s]->0@.len() ==> (#[trigger] gb[s]->0@[i]).node < n1.len() && reward_within(gb[s]->0@[i].reward)
                                } by {
                                    lemma_expected_stable(n0, n1, children@[s]->0@, hold);
                                    assert forall|i: int| 0 <= i < children@[s]->0@.len() implies n1.filed(position_of(#[trigger] children@[s]->0@[data_order(children@[s]->0@)[i]].board, hold)) is Some by {
                                        assert(n0.filed(position_of(children@[s]->0@[data_order(children@[s]->0@)[i]].board, hold)) is Some);
                                    }
                                }
                            }
                            groups.push(Some(cs));
                        },
                        None => {
                            proof {
                                lemma_slot_total_step(children@, t as int);
                            }
                            groups.push(None);
                        },
                    }
                    proof {
                        assert forall|s: int| 0 <= s < t + 1 implies ((#[trigger] groups@[s] is Some) <==> children@[s] is Some) by {
                            if s < t {
                                assert(groups@[s] == gb[s]);
                            }
                        }
                        assert forall|s: int| 0 <= s < t + 1 && #[trigger] groups@[s] is Some implies {
                            &&& groups@[s]->0@ == expected_edges(self.generation(g + 1), children@[s]->0@, hold)
                            &&& groups@[s]->0@.len() == children@[s]->0@.len()
                            &&& forall|i: int| 0 <= i < children@[s]->0@.len() ==> self.generation(g + 1).filed(position_of(#[trigger] children@[s]->0@[data_order(children@[s]->0@)[i]].board, hold)) is Some
                            &&& forall|i: int| 0 <= i < groups@[s]->0@.len() ==> (#[trigger] groups@[s]->0@[i]).node < self.generation(g + 1).len() && reward_within(groups@[s]->0@[i].reward)
                        } by {
                            if s < t {
                                assert(groups@[s] == gb[s]);
                            }
                        }
                    }
                    t = t + 1;
                }
                let ghost mid_b = *self;
                proof {
                    kept_groups = Seq::new(7, |s: int| match groups@[s] {
                        Some(v) => Some(v@),
                        None => None::<Seq<Child>>,
                    });
                    assert forall|s: int| 0 <= s < 7 && #[trigger] kept_groups[s] is Some implies kept_groups[s]->0 == expected_edges(mid_b.generation(g + 1), children@[s]->0@, hold)
                        && kept_groups[s]->0.len() == children@[s]->0@.len() by {
                        assert(groups@[s] is Some);
                    }
                    assert forall|s: int| 0 <= s < 7 implies ((#[trigger] kept_groups[s] is Some) <==> children@[s] is Some) by {
                        assert((groups@[s] is Some) <==> children@[s] is Some);
                    }
                    assert forall|s: int| 0 <= s < 7 && #[trigger] groups@[s] is Some implies groups@[s]->0@.len() <= MAX_CHILDREN by {
                        assert(children@[s] is Some);
                    }
                }
                self.set_entry_speculated(g, k, groups);
            },
        }
        let ghost mid = *self;
        self.set_marked(g, k, false);
        let ghost mid3 = *self;
        let mut list: Vec<usize> = Vec::new();
        list.push(k);
        proof {
            assert(list@[0] == k);
        }
        self.backpropagate(g, list);
        proof {
            let a = self.generations@[g as int];
            let a3 = mid3.generations@[g as int];
            assert(self.consistent(g as int, list@[0] as int));
            assert(a.same_frame(a3));
            assert(a.marked(k as int) == a3.marked(k as int));
            assert(a.reordered_from(a3, k as int));
            let n1 = self.generations@[g + 1];
            let n3 = mid3.generations@[g + 1];
            assert(n1.same_frame(n3));
            assert(n1.dedup == n3.dedup);
            assert forall|v: SimpleView| #[trigger] n1.filed(v) == n3.filed(v) by {}
            assert(a3.piece() == s_old.generations@[g as int].piece());
            match piece {
                Some(p) => {
                    match children@[slot_of(p)] {
                        Some(data) => {
                            assert(n3 == mid.generations@[g + 1]);
                            assert(a3.children == mid.generations@[g as int].children);
                            assert(a3.known(k as int) == Some(kept));
                            assert(expected_edges(n1, data@, hold) =~= expected_edges(n3, data@, hold));
                        },
                        None => {
                            assert(a3.known(k as int) == mid0.generations@[g as int].known(k as int));
                            assert forall|t: int| #[trigger] a3.speculated(k as int, t) == mid0.generations@[g as int].speculated(k as int, t) by {}
                            Generation::lemma_reordered_refl(a3, mid0.generations@[g as int], k as int);
                            Generation::lemma_reordered_trans(a, a3, mid0.generations@[g as int], k as int);
                        },
                    }
                },
                None => {
                    assert(a3.children == mid.generations@[g as int].children);
                    assert forall|t: int| 0 <= t < 7 implies #[trigger] a3.speculated(k as int, t) == kept_groups[t] by {
                        assert(a3.speculated(k as int, t) == mid.generations@[g as int].speculated(k as int, t));
                    }
                    assert forall|t: int| 0 <= t < 7 && #[trigger] kept_groups[t] is Some implies expected_edges(n1, children@[t]->0@, hold) == kept_groups[t]->0 by {
                        assert(expected_edges(n1, children@[t]->0@, hold) =~= expected_edges(n3, children@[t]->0@, hold));
                    }
                    assert forall|t: int| 0 <= t < 7 implies ((#[trigger] a.speculated(k as int, t) is Some) <==> children@[t] is Some) by {
                        assert(a3.speculated(k as int, t) == kept_groups[t]);
                    }
                    assert forall|t: int| 0 <= t < 7 && #[trigger] a.speculated(k as int, t) is Some implies a.speculated(k as int, t)->0.len() == children@[t]->0@.len() by {
                        assert(a3.speculated(k as int, t) == kept_groups[t]);
                    }
                    assert forall|t: int, i: int| 0 <= t < 7 && a.speculated(k as int, t) is Some && 0 <= i < a.speculated(k as int, t)->0.len() implies expected_edges(n1, children@[t]->0@, hold).contains(#[trigger] a.speculated(k as int, t)->0[i]) by {
                        assert(a3.speculated(k as int, t) == kept_groups[t]);
                        assert(a3.speculated(k as int, t)->0.contains(a.speculated(k as int, t)->0[i]));
                    }
                },
            }
        }
    }
}

/// Slot totals are never negative.
proof fn lemma_slot_total_nonneg(children: Seq<Option<Vec<ChildData>>>, n: int)
    ensures
        slot_total(children, n) >= 0,
    decreases n,
{
    if n > 0 {
        lemma_slot_total_nonneg(children, n - 1);
    }
}

/// One more slot adds its children.
proof fn lemma_slot_total_step(children: Seq<Option<Vec<ChildData>>>, t: int)
    requires
        0 <= t < 7,
    ensures
        slot_total(children, t + 1) == slot_total(children, t) + match children[t] {
            Some(d) => d@.len() as int,
            None => 0,
        },
        slot_total(children, t + 1) <= slot_total(children, 7),
{
    lemma_slot_total_mono(children, t + 1, 7);
}

/// Totals grow with the slots counted.
proof fn lemma_slot_total_mono(children: Seq<Option<Vec<ChildData>>>, a: int, b: int)
    requires
        0 <= a <= b,
    ensures
        slot_total(children, a) <= slot_total(children, b),
    decreases b,
{
    if b > a {
        lemma_slot_total_mono(children, a, b - 1);
    }
}

/// One slot's children count towards the total.
proof fn lemma_slot_total_part(children: Seq<Option<Vec<ChildData>>>, s: int, n: int)
    requires
        0 <= s < n,
        children[s] is Some,
    ensures
        children[s]->0@.len() <= slot_total(children, n),
    decreases n,
{
    if n - 1 > s {
        lemma_slot_total_part(children, s, n - 1);
        lemma_slot_total_nonneg(children, n - 1);
    } else {
        lemma_slot_total_nonneg(children, n - 1);
    }
}
/// The slot of the first edge placing `mv`.
pub open spec fn first_with(cs: Seq<Child>, mv: FallingPiece) -> int
    decreases cs.len(),
{
    if cs.len() == 0 {
        -1
    } else if first_with(cs.drop_last(), mv) >= 0 {
        first_with(cs.drop_last(), mv)
    } else if cs.last().placement == mv {
        cs.len() - 1
    } else {
        -1
    }
}

/// `first_with` finds the first match, or `-1` when there is none.
proof fn lemma_first_with(cs: Seq<Child>, mv: FallingPiece)
    ensures
        -1 <= first_with(cs, mv) < cs.len(),
        first_with(cs, mv) >= 0 ==> cs[first_with(cs, mv)].placement == mv,
        first_with(cs, mv) >= 0 ==> forall|j: int| 0 <= j < first_with(cs, mv) ==> cs[j].placement != mv,
        first_with(cs, mv) < 0 ==> forall|j: int| 0 <= j < cs.len() ==> cs[j].placement != mv,
    decreases cs.len(),
{
    if cs.len() > 0 {
        lemma_first_with(cs.drop_last(), mv);
        assert forall|j: int| 0 <= j < cs.len() - 1 implies cs.drop_last()[j] == cs[j] by {}
    }
}

impl DagState {
    /// The root's children, if it has known ones.
    pub open spec fn root_children(&self) -> Option<Seq<Child>> {
        self.generation(0).known(self.root_of())
    }

    /// Plays `mv`, one of the root's children: its node becomes the root, the board moves on,
    /// and the root's generation is dropped.
    pub fn advance_move(&mut self, mv: FallingPiece)
        requires
            old(self).wf(),
            old(self).root_children() matches Some(cs) && first_with(cs, mv) >= 0,
            fits(old(self).board_of(), mv),
            old(self).passed() < u32::MAX,
        ensures
            final(self).wf(),
            moved_on(*final(self), *old(self), mv),
    {
        let ghost s0 = *self;
        let ghost cs = s0.root_children()->0;
        proof {
            lemma_first_with(cs, mv);
            assert(s0.generations@[0].piece() is Some);
            assert(s0.generations@.len() >= 2) by {
                if s0.generations@.len() == 1 {
                    assert(s0.generations@.last().no_edges());
                    reveal(Generation::no_edges);
                    assert(s0.generations@[0].known(s0.root as int) is None);
                }
            }
            assert(s0.edges_ok(0));
            reveal(Generation::edges_within);
        }
        let mut new_root: u32 = 0;
        match &self.generations[0].children {
            Children::Known(_, c) => match &c[self.root as usize] {
                Some(list) => {
                    proof {
                        assert(list@ == cs);
                    }
                    let mut i: usize = 0;
                    while i < list.len()
                        invariant_except_break
                            list@ == cs,
                            i <= first_with(cs, mv),
                            first_with(cs, mv) < cs.len(),
                            forall|j: int| 0 <= j < first_with(cs, mv) ==> cs[j].placement != mv,
                            cs[first_with(cs, mv)].placement == mv,
                        ensures
                            new_root == cs[first_with(cs, mv)].node,
                        decreases cs.len() - i,
                    {
                        if list[i].placement == mv {
                            new_root = list[i].node;
                            break;
                        }
                        i = i + 1;
                    }
                    proof {
                        assert(new_root == cs[first_with(cs, mv)].node);
                    }
                },
                None => {},
            },
            Children::Speculated(_) => {},
        }
        self.root = new_root;
        let lock = advance(&mut self.board, mv);
        self.generations.remove(0);
        self.gens_passed = self.gens_passed + 1;
        proof {
            match lock {
                Some(l) => {
                    assert(advanced(s0.board, mv, self.board, l));
                    assert(advanced(s0.board_of(), mv, self.board_of(), l));
                },
                None => {},
            }
            let n = self.generations@.len();
            assert forall|i: int| 0 <= i < n implies #[trigger] self.generations@[i] == s0.generations@[i + 1] by {}
            assert(self.root < self.generations@[0].len()) by {
                let c0 = cs[first_with(cs, mv)];
                assert(s0.generations@[0].edges_within(s0.generations@[1].len()));
                match s0.generations@[0].children {
                    Children::Known(_, c) => {
                        assert(c@[s0.root as int]->0@ == cs);
                        assert(c@[s0.root as int]->0@[first_with(cs, mv)] == c0);
                    },
                    _ => {},
                }
            }
            assert forall|i: int| 0 <= i < n implies #[trigger] self.gen_ok(i) by {
                assert(s0.gen_ok(i + 1));
                s0.generations@[i + 1].lemma_wf_bound_mono(
                    eval_bound(i + 1),
                    eval_bound(i),
                    s0.generations@[i].len(),
                    if i == 0 { u32::MAX as nat } else { self.generations@[i - 1].len() },
                );
            }
            assert forall|i: int| 0 <= i < n - 1 implies #[trigger] self.edges_ok(i) by {
                assert(s0.edges_ok(i + 1));
            }
            assert forall|i: int| 0 <= i < n implies (#[trigger] self.generations@[i]).children_len() == self.generations@[i].len() && self.generations@[i].dedup_ok() && self.generations@[i].len() < u32::MAX by {
                assert(s0.generations@[i + 1].len() < u32::MAX);
            }
            assert(self.generations@.last() == s0.generations@.last());
        }
    }
}
/// The slots of the edges worth offering, in order: their node is not dead and their
/// placement fits the board.
pub open spec fn offered(next: Generation, cs: Seq<Child>, b: Board, n: int) -> Seq<int>
    decreases n,
{
    if n <= 0 {
        Seq::empty()
    } else if !next.death(cs[n - 1].node as int) && fits(b, cs[n - 1].placement) {
        offered(next, cs, b, n - 1).push(n - 1)
    } else {
        offered(next, cs, b, n - 1)
    }
}

/// The candidate for edge `c` at slot `i`: `m` with board `b1` and outcome `l` after the
/// placement on `b0`.
pub open spec fn candidate_for(next: Generation, c: Child, i: int, b0: Board, m: MoveCandidate<Value>) -> bool {
    &&& m.mv == c.placement
    &&& m.original_rank == i
    &&& m.evaluation == plus_reward(next.eval(c.node as int), c.reward)
    &&& m.hold == (m.board.hold_of() != b0.hold_of())
    &&& advanced(b0, c.placement, m.board, m.lock)
}

impl DagState {
    /// The moves that can be played now: for each child of the root whose node is not dead, in
    /// rank order, the placement, the board after it, what it is worth, and whether it used hold.
    /// Placements that do not fit the board are left out.
    pub fn get_next_candidates(&self) -> (r: Vec<MoveCandidate<Value>>)
        requires
            self.wf(),
        ensures
            candidates_of(*self, r@),
    {
        let mut out: Vec<MoveCandidate<Value>> = Vec::new();
        match &self.generations[0].children {
            Children::Known(_, c) => match &c[self.root as usize] {
                Some(list) => {
                    let ghost cs = list@;
                    proof {
                        assert(self.root_children() == Some(cs));
                        assert(self.generations@.len() >= 2) by {
                            if self.generations@.len() == 1 {
                                assert(self.generations@.last().no_edges());
                                reveal(Generation::no_edges);
                            }
                        }
                        assert(self.edges_ok(0));
                        assert(self.gen_ok(1));
                        reveal(Generation::edges_within);
                        reveal(Generation::wf);
                        if cs.len() > 0 {
                            assert(c@[self.root as int]->0@[0] == cs[0]);
                        }
                        assert(cs.len() <= MAX_CHILDREN);
                    }
                    let next = &self.generations[1];
                    let mut i: usize = 0;
                    while i < list.len()
                        invariant
                            self.wf(),
                            list@ == cs,
                            *next == self.generation(1),
                            i <= cs.len(),
                            cs.len() <= MAX_CHILDREN,
                            forall|t: int| 0 <= t < cs.len() ==> (#[trigger] cs[t]).node < next.len() && reward_within(cs[t].reward),
                            forall|t: int| 0 <= t < next.len() ==> value_within(#[trigger] next.eval(t), eval_bound(1)),
                            out@.len() == offered(*next, cs, self.board, i as int).len(),
                            forall|j: int| 0 <= j < out@.len() ==> candidate_for(*next, cs[offered(*next, cs, self.board, i as int)[j]], offered(*next, cs, self.board, i as int)[j], self.board, #[trigger] out@[j]),
                        decreases cs.len() - i,
                    {
                        let c = list[i];
                        let nd = &next.nodes[c.node as usize];
                        proof {
                            assert(cs[i as int] == c);
                        }
                        if !nd.death {
                            let mut board = self.board.clone_board();
                            let ghost b0 = board;
                            let lock = advance(&mut board, c.placement);
                            match lock {
                                Some(l) => {
                                    proof {
                                        assert(value_within(next.eval(c.node as int), eval_bound(1)));
                                        assert(fits(b0, c.placement));
                                        assert(fits(self.board, c.placement));
                                        assert(advanced(self.board, c.placement, board, l));
                                        assert(offered(*next, cs, self.board, i + 1) == offered(*next, cs, self.board, i as int).push(i as int));
                                    }
                                    let evaluation = nd.evaluation.add_reward(c.reward);
                                    let hold = !opt_piece_eq(board.held_piece(), self.board.held_piece());
                                    let ghost before = out@;
                                    out.push(MoveCandidate { mv: c.placement, lock: l, board, evaluation, hold, original_rank: i as u32 });
                                    proof {
                                        assert forall|j: int| 0 <= j < out@.len() implies candidate_for(*next, cs[offered(*next, cs, self.board, i + 1)[j]], offered(*next, cs, self.board, i + 1)[j], self.board, #[trigger] out@[j]) by {
                                            if j < before.len() {
                                                assert(out@[j] == before[j]);
                                                assert(offered(*next, cs, self.board, i + 1)[j] == offered(*next, cs, self.board, i as int)[j]);
                                            } else {
                                                let m = out@[j];
                                                assert(offered(*next, cs, self.board, i + 1)[j] == i);
                                                assert(m.mv == c.placement);
                                                assert(m.original_rank == i);
                                                assert(m.evaluation == plus_reward(next.eval(c.node as int), c.reward));
                                                assert(m.hold == (m.board.hold_of() != self.board.hold_of()));
                                                assert(advanced(self.board, c.placement, m.board, m.lock));
                                            }
                                        }
                                    }
                                },
                                None => {
                                    proof {
                                        assert(!fits(b0, c.placement));
                                        assert(!fits(self.board, c.placement));
                                        assert(offered(*next, cs, self.board, i + 1) == offered(*next, cs, self.board, i as int));
                                    }
                                },
                            }
                        } else {
                            proof {
                                assert(offered(*next, cs, self.board, i + 1) == offered(*next, cs, self.board, i as int));
                            }
                        }
                        i = i + 1;
                    }
                },
                None => {},
            },
            Children::Speculated(_) => {},
        }
        out
    }
}

/// Whether two optional pieces are the same.
fn opt_piece_eq(a: Option<Piece>, b: Option<Piece>) -> (r: bool)
    ensures
        r == (a == b),
{
    match (a, b) {
        (Some(x), Some(y)) => x == y,
        (None, None) => true,
        _ => false,
    }
}
/// The two boards are in the same state.
pub open spec fn same_state(a: Board, b: Board) -> bool {
    &&& a.rows() == b.rows()
    &&& a.heights_seq() == b.heights_seq()
    &&& a.queue() == b.queue()
    &&& a.hold_of() == b.hold_of()
    &&& a.bag_of() == b.bag_of()
    &&& a.combo_of() == b.combo_of()
    &&& a.b2b_of() == b.b2b_of()
}

/// Boards in the same state take the same placements to the same outcomes.
proof fn lemma_same_state(a: Board, b: Board, p: FallingPiece, c: Board, l: LockResult)
    requires
        same_state(a, b),
    ensures
        fits(a, p) == fits(b, p),
        advanced(a, p, c, l) == advanced(b, p, c, l),
        a.grid() == b.grid(),
{
    assert(a.grid() =~= b.grid());
}

impl DagState {
    /// The line the graph currently thinks best: from node `k` of generation `g`, the first
    /// child of each known generation, as long as there is one.
    pub open spec fn first_path(&self, g: int, k: int) -> Seq<Child>
        decreases self.gen_count() - g,
    {
        if 0 <= g < self.gen_count() && self.generation(g).known(k) is Some && self.generation(g).known(k)->0.len() > 0 {
            seq![self.generation(g).known(k)->0[0]] + self.first_path(g + 1, self.generation(g).known(k)->0[0].node as int)
        } else {
            Seq::empty()
        }
    }

    /// The best line found so far, each placement with its outcome, played out from the board
    /// at the root; it stops early at a placement that does not fit.
    pub fn get_plan(&self) -> (plan: Vec<(FallingPiece, LockResult)>)
        requires
            self.wf(),
        ensures
            plan_of(*self, plan@),
    {
        let mut plan: Vec<(FallingPiece, LockResult)> = Vec::new();
        let mut node: u32 = self.root;
        let mut board = self.board.clone_board();
        let ghost mut bs: Seq<Board> = seq![self.board];
        let ghost path = self.first_path(0, self.root as int);
        let mut g: usize = 0;
        while g < self.generations.len()
            invariant_except_break
                self.wf(),
                g <= self.gen_count(),
                g < self.gen_count() ==> node < self.generation(g as int).len(),
                path == self.first_path(0, self.root as int),
                plan@.len() == g,
                bs.len() == g + 1,
                bs[0] == self.board,
                same_state(board, bs[g as int]),
                board.wf(),
                self.first_path(g as int, node as int) == path.subrange(g as int, path.len() as int),
                g <= path.len(),
                forall|i: int| 0 <= i < plan@.len() ==> (#[trigger] plan@[i]).0 == path[i].placement,
                forall|i: int| 0 <= i < plan@.len() ==> advanced(bs[i], (#[trigger] plan@[i]).0, bs[i + 1], plan@[i].1),
            ensures
                plan@.len() <= path.len(),
                bs.len() == plan@.len() + 1,
                bs[0] == self.board,
                forall|i: int| 0 <= i < plan@.len() ==> (#[trigger] plan@[i]).0 == path[i].placement,
                forall|i: int| 0 <= i < plan@.len() ==> advanced(bs[i], (#[trigger] plan@[i]).0, bs[i + 1], plan@[i].1),
                plan@.len() < path.len() ==> !fits(bs[plan@.len() as int], path[plan@.len() as int].placement),
            decreases self.gen_count() - g,
        {
            let ghost fp = self.first_path(g as int, node as int);
            let first: Option<Child> = match &self.generations[g].children {
                Children::Known(_, c) => match &c[node as usize] {
                    Some(list) => {
                        if list.len() > 0 {
                            Some(list[0])
                        } else {
                            None
                        }
                    },
                    None => None,
                },
                Children::Speculated(_) => None,
            };
            match first {
                None => {
                    proof {
                        assert(fp.len() == 0);
                        assert(path.len() == g) by {
                            assert(path.subrange(g as int, path.len() as int).len() == 0);
                        }
                    }
                    break;
                },
                Some(f) => {
                    proof {
                        assert(fp == seq![f] + self.first_path(g + 1, f.node as int));
                        assert(path[g as int] == f) by {
                            assert(path.subrange(g as int, path.len() as int)[0] == f);
                        }
                        lemma_same_state(board, bs[g as int], f.placement, board, arbitrary());
                    }
                    let ghost b_before = board;
                    let r = advance(&mut board, f.placement);
                    match r {
                        Some(l) => {
                            proof {
                                lemma_same_state(b_before, bs[g as int], f.placement, board, l);
                                assert(advanced(bs[g as int], f.placement, board, l));
                                assert(self.edges_ok(g as int)) by {
                                    if g + 1 == self.gen_count() {
                                        assert(self.generations@.last().no_edges());
                                        reveal(Generation::no_edges);
                                        assert(false);
                                    }
                                }
                                reveal(Generation::edges_within);
                                match self.generations@[g as int].children {
                                    Children::Known(_, c) => {
                                        assert(c@[node as int]->0@[0] == f);
                                    },
                                    _ => {},
                                }
                                let fp1 = self.first_path(g + 1, f.node as int);
                                assert(fp1 == fp.subrange(1, fp.len() as int));
                                assert(fp1 == path.subrange(g + 1, path.len() as int));
                                bs = bs.push(board);
                            }
                            plan.push((f.placement, l));
                            node = f.node;
                        },
                        None => {
                            proof {
                                lemma_same_state(b_before, bs[g as int], f.placement, board, arbitrary());
                            }
                            break;
                        },
                    }
                },
            }
            g = g + 1;
        }
        proof {
            assert(bs[0] == self.board_of());
        }
        plan
    }
}
/// The view of an optional list of edges.
pub open spec fn opt_view(o: Option<Vec<Child>>) -> Option<Seq<Child>> {
    match o {
        Some(v) => Some(v@),
        None => None,
    }
}

/// A copy of a list of edges.
fn copy_edges(v: &Vec<Child>) -> (r: Vec<Child>)
    ensures
        r@ == v@,
{
    let mut r: Vec<Child> = Vec::new();
    let mut i: usize = 0;
    while i < v.len()
        invariant
            i <= v@.len(),
            r@ == v@.take(i as int),
        decreases v@.len() - i,
    {
        r.push(v[i]);
        proof {
            assert(v@.take(i + 1) =~= v@.take(i as int).push(v@[i as int]));
        }
        i = i + 1;
    }
    assert(v@.take(v@.len() as int) =~= v@);
    r
}

impl Generation {
    /// Turns a speculated generation into a known one now that its piece `p` is known: each
    /// expanded node keeps the children it had for `p`.
    fn convert(&mut self, p: Piece)
        requires
            old(self).piece() is None,
            old(self).slots_wf(),
        ensures
            final(self).piece() == Some(p),
            final(self).nodes == old(self).nodes,
            final(self).dedup == old(self).dedup,
            final(self).children_len() == old(self).children_len(),
            forall|j: int| 0 <= j < old(self).children_len() ==> #[trigger] final(self).known(j) == (if old(self).speculated_expanded(j) {
                old(self).speculated(j, slot_of(p))
            } else {
                None
            }),
            forall|n: nat| old(self).edges_within(n) ==> #[trigger] final(self).edges_within(n),
            old(self).no_edges() ==> final(self).no_edges(),
    {
        let sl = piece_slot(p);
        let ghost old_self = *self;
        let mut out: Vec<Option<Vec<Child>>> = Vec::new();
        match &self.children {
            Children::Speculated(c) => {
                let mut j: usize = 0;
                while j < c.len()
                    invariant
                        j <= c@.len(),
                        out@.len() == j,
                        old_self.children == Children::Speculated(*c),
                        old_self.slots_wf(),
                        sl == slot_of(p),
                        sl < 7,
                        forall|t: int| 0 <= t < j ==> #[trigger] opt_view(out@[t]) == match c@[t] {
                            Some(slots) => opt_view(slots@[sl as int]),
                            None => None,
                        },
                    decreases c@.len() - j,
                {
                    let e = match &c[j] {
                        Some(slots) => {
                            proof {
                                reveal(Generation::slots_wf);
                                assert(slots@.len() == 7);
                            }
                            match &slots[sl] {
                                Some(v) => Some(copy_edges(v)),
                                None => None,
                            }
                        },
                        None => None,
                    };
                    let ghost before = out@;
                    out.push(e);
                    proof {
                        assert forall|t: int| 0 <= t < j + 1 implies #[trigger] opt_view(out@[t]) == match c@[t] {
                            Some(slots) => opt_view(slots@[sl as int]),
                            None => None,
                        } by {
                            if t < j {
                                assert(out@[t] == before[t]);
                            }
                        }
                    }
                    j = j + 1;
                }
            },
            Children::Known(_, _) => {},
        }
        let ghost ov = out@;
        self.children = Children::Known(p, out);
        proof {
            reveal(Generation::edges_within);
            reveal(Generation::no_edges);
            reveal(Generation::slots_wf);
            match old_self.children {
                Children::Speculated(c) => {
                    assert forall|j: int| 0 <= j < old_self.children_len() implies #[trigger] self.known(j) == (if old_self.speculated_expanded(j) {
                        old_self.speculated(j, slot_of(p))
                    } else {
                        None
                    }) by {
                        assert(opt_view(ov[j]) == match c@[j] {
                            Some(slots) => opt_view(slots@[sl as int]),
                            None => None,
                        });
                    }
                    assert forall|n: nat| old_self.edges_within(n) implies #[trigger] self.edges_within(n) by {
                        assert forall|k: int, j: int|
                            #![trigger ov[k], ov[k]->0@[j]]
                            0 <= k < ov.len() && ov[k] is Some && 0 <= j < ov[k]->0@.len() implies {
                                &&& ov[k]->0@[j].node < n
                                &&& reward_within(ov[k]->0@[j].reward)
                                &&& ov[k]->0@.len() <= MAX_CHILDREN
                            } by {
                            assert(opt_view(ov[k]) == match c@[k] {
                                Some(slots) => opt_view(slots@[sl as int]),
                                None => None,
                            });
                            assert(c@[k] is Some);
                            assert(c@[k]->0@.len() == 7);
                            assert(c@[k]->0@[sl as int]->0@[j] == ov[k]->0@[j]);
                        }
                    }
                    if old_self.no_edges() {
                        assert forall|k: int| 0 <= k < ov.len() implies #[trigger] ov[k] is None by {
                            assert(opt_view(ov[k]) == match c@[k] {
                                Some(slots) => opt_view(slots@[sl as int]),
                                None => None,
                            });
                            assert(c@[k] is None);
                        }
                    }
                },
                _ => {},
            }
        }
    }
}
/// `b1` is `b0` with `p` added to the queue and taken from the bag, a bag emptied this way
/// being refilled.
pub open spec fn piece_added(b0: Board, p: Piece, b1: Board) -> bool {
    &&& b1.queue() == b0.queue().push(p)
    &&& b1.bag_of() == (if b0.bag_of().without(p) == PieceSet::empty_set() {
        PieceSet::full_set()
    } else {
        b0.bag_of().without(p)
    })
    &&& b1.rows() == b0.rows()
    &&& b1.heights_seq() == b0.heights_seq()
    &&& b1.combo_of() == b0.combo_of()
    &&& b1.b2b_of() == b0.b2b_of()
    &&& b1.hold_of() == b0.hold_of()
}

impl DagState {
    /// The first speculated generation among the first `n`, or `-1`.
    pub open spec fn first_speculated(&self, n: int) -> int
        decreases n,
    {
        if n <= 0 {
            -1
        } else if self.first_speculated(n - 1) >= 0 {
            self.first_speculated(n - 1)
        } else if self.generation(n - 1).piece() is None {
            n - 1
        } else {
            -1
        }
    }

    /// `first_speculated` finds the first speculated generation.
    proof fn lemma_first_speculated(&self, n: int)
        requires
            0 <= n,
        ensures
            -1 <= self.first_speculated(n) < n,
            self.first_speculated(n) >= 0 ==> self.generation(self.first_speculated(n)).piece() is None,
            forall|i: int| 0 <= i < n && (self.first_speculated(n) < 0 || i < self.first_speculated(n)) ==> (#[trigger] self.generation(i)).piece() is Some,
        decreases n,
    {
        if n > 0 {
            self.lemma_first_speculated(n - 1);
        }
    }

    /// Adds a piece to the queue. The first speculated generation becomes known: each of its
    /// expanded nodes keeps the children it had for that piece, and the graph is brought in
    /// line from that generation towards the root. With no speculated generation, an empty
    /// known generation is added for the piece.
    pub fn add_next_piece(&mut self, piece: Piece)
        requires
            old(self).wf(),
            old(self).gen_count() < MAX_GENERATIONS,
        ensures
            final(self).wf(),
            piece_filed(*final(self), *old(self), piece),
    {
        let ghost s0 = *self;
        let ghost b0 = self.board;
        self.board.add_next_piece(piece);
        proof {
            b0.lemma_same_state_wf(self.board);
            assert(self.wf()) by {
                assert forall|i: int| 0 <= i < self.generations@.len() implies #[trigger] self.gen_ok(i) by {
                    assert(s0.gen_ok(i));
                }
                assert forall|i: int| 0 <= i < self.generations@.len() - 1 implies #[trigger] self.edges_ok(i) by {
                    assert(s0.edges_ok(i));
                }
            }
            s0.lemma_first_speculated(s0.gen_count() as int);
        }
        let ghost s1 = *self;
        let n = self.generations.len();
        let mut i: usize = 0;
        while i < n
            invariant
                *self == s1,
                s0 == *old(self),
                s1.wf(),
                s0.wf(),
                s0.generations@ == s1.generations@,
                s0.gen_count() < MAX_GENERATIONS,
                s1.board == self.board,
                piece_added(s0.board_of(), piece, s1.board_of()),
                s1.root == s0.root,
                s1.gens_passed == s0.gens_passed,
                s1.use_hold == s0.use_hold,
                n == s1.gen_count(),
                i <= n,
                forall|t: int| 0 <= t < i ==> (#[trigger] s1.generation(t)).piece() is Some,
            decreases n - i,
        {
            let spec = match &self.generations[i].children {
                Children::Speculated(_) => true,
                Children::Known(_, _) => false,
            };
            if spec {
                proof {
                    assert(s1.first_speculated(n as int) == i) by {
                        s1.lemma_first_speculated(n as int);
                        assert(s1.generation(i as int).piece() is None);
                        if s1.first_speculated(n as int) < 0 || i < s1.first_speculated(n as int) {
                            assert(s1.generation(i as int).piece() is Some);
                        }
                        if s1.first_speculated(n as int) < i {
                            assert(s1.generation(s1.first_speculated(n as int)).piece() is Some);
                        }
                    }
                    assert(s0.first_speculated(n as int) == s1.first_speculated(n as int)) by {
                        lemma_first_speculated_same(s0, s1, n as int);
                    }
                    assert(s1.gen_ok(i as int));
                    reveal(Generation::wf);
                }
                self.convert_generation(i, piece);
                let ghost sc = *self;
                let count = self.generations[i].nodes.len();
                if count > 0 {
                    self.ensure_next(i);
                    let mut list: Vec<usize> = Vec::new();
                    let mut j: usize = 0;
                    while j < count
                        invariant
                            j <= count,
                            list@.len() == j,
                            forall|t: int| 0 <= t < j ==> #[trigger] list@[t] == t,
                        decreases count - j,
                    {
                        list.push(j);
                        j = j + 1;
                    }
                    let ghost s2 = *self;
                    proof {
                        assert(s2.generations@[i as int] == sc.generations@[i as int]);
                    }
                    self.backpropagate(i, list);
                    proof {
                        let a = self.generations@[i as int];
                        let a2 = s2.generations@[i as int];
                        let b = s0.generations@[i as int];
                        assert(s1.generations@[i as int] == b);
                        assert(a.same_frame(a2));
                        assert forall|j: int| 0 <= j < a.len() implies #[trigger] self.consistent(i as int, j) by {
                            assert(list@[j] == j);
                        }
                        assert forall|j: int| 0 <= j < a.len() implies (#[trigger] a.known(j) is Some) == (b.speculated_expanded(j) && b.speculated(j, slot_of(piece)) is Some) by {
                            assert(a.marked(j) == a2.marked(j));
                            assert(a.reordered_from(a2, j));
                        }
                        assert forall|j: int| 0 <= j < a.len() && #[trigger] a.known(j) is Some implies a.known(j)->0.len() == b.speculated(j, slot_of(piece))->0.len() by {
                            assert(a.marked(j) == a2.marked(j));
                            assert(a.reordered_from(a2, j));
                        }
                        assert forall|j: int, t: int| 0 <= j < a.len() && a.known(j) is Some && 0 <= t < a.known(j)->0.len() implies b.speculated(j, slot_of(piece))->0.contains(#[trigger] a.known(j)->0[t]) by {
                            assert(a.marked(j) == a2.marked(j));
                            assert(a.reordered_from(a2, j));
                            assert(a2.known(j)->0 == b.speculated(j, slot_of(piece))->0);
                        }
                        assert(self.board == s1.board);
                        assert(self.root == s1.root);
                        assert(self.board_of() == s1.board_of());
                    }
                } else {
                    proof {
                        assert(self.generations@[i as int].len() == 0);
                        assert(self.board == s1.board);
                        assert(self.root == s1.root);
                        assert(self.board_of() == s1.board_of());
                    }
                }
                return;
            }
            i = i + 1;
        }
        proof {
            assert(s0.first_speculated(n as int) < 0) by {
                s1.lemma_first_speculated(n as int);
                lemma_first_speculated_same(s0, s1, n as int);
                if s1.first_speculated(n as int) >= 0 {
                    assert(s1.generation(s1.first_speculated(n as int)).piece() is Some);
                }
            }
        }
        self.push_generation(Some(piece));
    }
}

/// Graphs with the same generations find the same first speculated one.
proof fn lemma_first_speculated_same(a: DagState, b: DagState, n: int)
    requires
        a.generations@ == b.generations@,
    ensures
        a.first_speculated(n) == b.first_speculated(n),
    decreases n,
{
    if n > 0 {
        lemma_first_speculated_same(a, b, n - 1);
    }
}
/// Row `y` of grid `g`, solid below the floor and empty above the top.
pub open spec fn grid_row(g: Seq<Seq<bool>>, y: int) -> Seq<bool> {
    if y < 0 {
        Seq::new(10, |x: int| true)
    } else if y >= 40 {
        Seq::new(10, |x: int| false)
    } else {
        g[y]
    }
}

/// The least rise of a column from grid `a` to grid `b`, over the first `n` columns.
pub open spec fn least_rise(a: Seq<Seq<bool>>, b: Seq<Seq<bool>>, n: int) -> int
    decreases n,
{
    if n <= 1 {
        column_height(b, 0, 40) - column_height(a, 0, 40)
    } else {
        let m = least_rise(a, b, n - 1);
        let d = column_height(b, n - 1, 40) - column_height(a, n - 1, 40);
        if d < m {
            d
        } else {
            m
        }
    }
}

/// Grid `b` is grid `a` pushed up by `d` rows.
pub open spec fn pushed_up(a: Seq<Seq<bool>>, b: Seq<Seq<bool>>, d: int) -> bool {
    forall|y: int| 0 <= y < 40 - d ==> #[trigger] grid_row(b, y + d) == grid_row(a, y)
}

/// The grid of a field given row by row.
pub open spec fn field_grid(field: [[bool; 10]; 40]) -> Seq<Seq<bool>> {
    Seq::new(40, |y: int| Seq::new(10, |x: int| field@[y]@[x]))
}

/// Rows of ten cells are equal exactly when their cells are.
proof fn lemma_row_eq(a: u16, b: u16)
    requires
        a < 1024,
        b < 1024,
    ensures
        (a == b) == (row_view(a) == row_view(b)),
{
    if row_view(a) == row_view(b) {
        assert forall|x: int| 0 <= x < 10 implies a.filled(x) == b.filled(x) by {
            assert(row_view(a)[x] == row_view(b)[x]);
        }
        assert(a.filled(0) == b.filled(0) && a.filled(1) == b.filled(1) && a.filled(2) == b.filled(2) && a.filled(3) == b.filled(3) && a.filled(4) == b.filled(4));
        assert(a.filled(5) == b.filled(5) && a.filled(6) == b.filled(6) && a.filled(7) == b.filled(7) && a.filled(8) == b.filled(8) && a.filled(9) == b.filled(9));
        crate::opener_book::lemma_row_bits_eq(a, b);
    }
}

impl DagState {
    /// The graph is just made: the root alone, and the empty known generations of the queue.
    pub closed spec fn is_fresh_graph(&self) -> bool {
        &&& is_fresh(self.generations@, self.board, self.use_hold)
        &&& self.root == 0
    }

    /// Starts over from a new field, back-to-back flag and combo counter, keeping the queue,
    /// hold and bag. Returns the number of rows the field was pushed up by, when the new field
    /// is the old one pushed up by the least rise of its columns and the counters are unchanged
    /// (garbage came in); otherwise `None`.
    pub fn reset(&mut self, field: [[bool; 10]; 40], b2b: bool, combo: u32) -> (r: Option<i32>)
        requires
            old(self).wf(),
            old(self).passed() + old(self).gen_count() + 1 <= u32::MAX,
            old(self).hold_used() && old(self).board_of().hold_of() is None ==> old(self).board_of().queue().len() >= 1,
            old(self).board_of().queue().len() <= MAX_GENERATIONS,
        ensures
            final(self).wf(),
            reset_to(*final(self), *old(self), field, b2b, combo, r),
    {
        let mut garbage_lines: Option<i32> = None;
        let ghost og = self.board.grid();
        let ghost fg = field_grid(field);
        if b2b == self.board.has_back_to_back_active() && combo == self.board.combo_count() {
            let mut b: Board = Board::new();
            b.set_field(field);
            proof {
                b.lemma_inv();
                self.board.lemma_inv();
                assert forall|yy: int| 0 <= yy < 40 implies #[trigger] b.grid()[yy] =~= fg[yy] by {}
                assert(b.grid() =~= fg);
            }
            let nh = b.column_heights();
            let oh = self.board.column_heights();
            proof {
                b.lemma_heights();
                self.board.lemma_heights();
            }
            let mut dif: i32 = nh[0] - oh[0];
            let mut x: usize = 1;
            while x < 10
                invariant
                    1 <= x <= 10,
                    b.wf(),
                    self.board.wf(),
                    b.grid() == fg,
                    self.board.grid() == og,
                    forall|c: int| 0 <= c < 10 ==> #[trigger] nh@[c] as int == column_height(fg, c, 40) && 0 <= nh@[c] <= 40,
                    forall|c: int| 0 <= c < 10 ==> #[trigger] oh@[c] as int == column_height(og, c, 40) && 0 <= oh@[c] <= 40,
                    dif == least_rise(og, fg, x as int),
                    -40 <= dif <= 40,
                decreases 10 - x,
            {
                let d = nh[x] - oh[x];
                if d < dif {
                    dif = d;
                }
                x = x + 1;
            }
            let mut ok = true;
            let mut y: i32 = 0;
            while y < 40 - dif
                invariant_except_break
                    b.wf(),
                    self.board.wf(),
                    b.grid() == fg,
                    self.board.grid() == og,
                    -40 <= dif <= 40,
                    0 <= y <= 40 - dif,
                    ok,
                    forall|t: int| 0 <= t < y ==> #[trigger] grid_row(fg, t + dif) == grid_row(og, t),
                ensures
                    ok == pushed_up(og, fg, dif as int),
                decreases 40 - dif - y,
            {
                let r1 = b.get_row(y + dif);
                let r2 = self.board.get_row(y);
                proof {
                    lemma_row_eq(r1, r2);
                    b.lemma_inv();
                    self.board.lemma_inv();
                    assert(row_view(r1) =~= grid_row(fg, y + dif));
                    assert(row_view(r2) =~= grid_row(og, y as int));
                }
                if r1 != r2 {
                    ok = false;
                    proof {
                        assert(grid_row(fg, y + dif) != grid_row(og, y as int));
                    }
                    break;
                }
                y = y + 1;
            }
            if ok {
                garbage_lines = Some(dif);
            }
        }
        self.board.set_field(field);
        proof {
            self.board.lemma_inv();
            assert forall|yy: int| 0 <= yy < 40 implies #[trigger] self.board.grid()[yy] =~= fg[yy] by {}
            assert(self.board.grid() =~= fg);
        }
        let ghost bf = self.board;
        self.board.set_counters(combo, b2b);
        proof {
            bf.lemma_same_state_wf(self.board);
        }
        let passed = self.gens_passed + self.generations.len() as u32 + 1;
        self.gens_passed = passed;
        self.root = 0;
        self.generations = fresh_generations(&self.board, self.use_hold);
        proof {
            self.lemma_fresh_wf();
        }
        garbage_lines
    }
}
/// The piece in slot `s` of the canonical order.
pub open spec fn slot_piece(s: int) -> Piece {
    if s == 0 {
        Piece::I
    } else if s == 1 {
        Piece::O
    } else if s == 2 {
        Piece::T
    } else if s == 3 {
        Piece::L
    } else if s == 4 {
        Piece::J
    } else if s == 5 {
        Piece::S
    } else {
        Piece::Z
    }
}

/// The piece in slot `s` of the canonical order.
pub(crate) fn piece_at(s: usize) -> (p: Piece)
    requires
        s < 7,
    ensures
        p == slot_piece(s as int),
        slot_of(p) == s,
{
    if s == 0 {
        Piece::I
    } else if s == 1 {
        Piece::O
    } else if s == 2 {
        Piece::T
    } else if s == 3 {
        Piece::L
    } else if s == 4 {
        Piece::J
    } else if s == 5 {
        Piece::S
    } else {
        Piece::Z
    }
}

/// The two placements put the same piece on the same cells.
pub open spec fn same_location(a: FallingPiece, b: FallingPiece) -> bool {
    if a.in_range() && b.in_range() {
        &&& a.kind.0 == b.kind.0
        &&& forall|i: int| 0 <= i < 4 ==> b.covers(#[trigger] a.cell(i).0, a.cell(i).1)
    } else {
        a == b
    }
}

/// Whether the two placements put the same piece on the same cells.
pub(crate) fn same_location_exec(a: &FallingPiece, b: &FallingPiece) -> (r: bool)
    ensures
        r == same_location(*a, *b),
{
    let ra = i32::MIN + 2 <= a.x && a.x <= i32::MAX - 2 && i32::MIN + 3 <= a.y && a.y <= i32::MAX - 3;
    let rb = i32::MIN + 2 <= b.x && b.x <= i32::MAX - 2 && i32::MIN + 3 <= b.y && b.y <= i32::MAX - 3;
    if !(ra && rb) {
        return *a == *b;
    }
    if a.kind.0 != b.kind.0 {
        return false;
    }
    let ca = a.cells();
    let cb = b.cells();
    let mut i: usize = 0;
    while i < 4
        invariant
            i <= 4,
            a.in_range(),
            b.in_range(),
            forall|t: int| 0 <= t < 4 ==> (ca@[t].0 as int, ca@[t].1 as int) == #[trigger] a.cell(t),
            forall|t: int| 0 <= t < 4 ==> (cb@[t].0 as int, cb@[t].1 as int) == #[trigger] b.cell(t),
            forall|t: int| 0 <= t < i ==> b.covers(#[trigger] a.cell(t).0, a.cell(t).1),
        decreases 4 - i,
    {
        let mut found = false;
        let mut j: usize = 0;
        while j < 4
            invariant
                j <= 4,
                i < 4,
                forall|t: int| 0 <= t < 4 ==> (ca@[t].0 as int, ca@[t].1 as int) == #[trigger] a.cell(t),
                forall|t: int| 0 <= t < 4 ==> (cb@[t].0 as int, cb@[t].1 as int) == #[trigger] b.cell(t),
                found ==> b.covers(a.cell(i as int).0, a.cell(i as int).1),
                !found ==> forall|t: int| 0 <= t < j ==> #[trigger] b.cell(t) != a.cell(i as int),
            decreases 4 - j,
        {
            if ca[i].0 == cb[j].0 && ca[i].1 == cb[j].1 {
                proof {
                    assert(b.cell(j as int) == a.cell(i as int));
                }
                found = true;
            }
            j = j + 1;
        }
        if !found {
            proof {
                assert forall|t: int| 0 <= t < 4 implies #[trigger] b.cell(t) != a.cell(i as int) by {}
                assert(!b.covers(a.cell(i as int).0, a.cell(i as int).1));
            }
            return false;
        }
        i = i + 1;
    }
    true
}

impl DagState {
    /// One edge from node `k` of generation `g` on board `b` leads to node `k2` on board `b2`:
    /// a child's placement played out, after, for a speculated node, a piece that may come was
    /// added to the queue.
    pub open spec fn step(&self, g: int, k: int, b: Board, k2: int, b2: Board) -> bool {
        let gen = self.generation(g);
        ||| exists|i: int, l: LockResult|
            gen.known(k) is Some && 0 <= i < gen.known(k)->0.len() && gen.known(k)->0[i].node == k2
                && #[trigger] advanced(b, gen.known(k)->0[i].placement, b2, l)
        ||| exists|s: int, bp: Board, i: int, l: LockResult|
            0 <= s < 7 && gen.speculated(k, s) is Some && #[trigger] piece_added(b, slot_piece(s), bp)
                && 0 <= i < gen.speculated(k, s)->0.len() && gen.speculated(k, s)->0[i].node == k2
                && #[trigger] advanced(bp, gen.speculated(k, s)->0[i].placement, b2, l)
    }

    /// `ks` and `bs` are the nodes and boards of a walk from the root, whose board is in the
    /// state of `b0`, along edges: the `i`-th step leads from node `ks[i]` of generation `i`.
    pub open spec fn walk(&self, b0: Board, ks: Seq<int>, bs: Seq<Board>) -> bool {
        &&& ks.len() >= 1
        &&& bs.len() == ks.len()
        &&& ks[0] == self.root_of()
        &&& same_state(b0, bs[0])
        &&& forall|i: int| 0 <= i < ks.len() - 1 ==> #[trigger] self.step(i, ks[i], bs[i], ks[i + 1], bs[i + 1])
    }
}

/// The last living edge's worth, searching from the end: the least, when the edges are ranked.
pub open spec fn last_alive(next: Generation, cs: Seq<Child>) -> Option<Value>
    decreases cs.len(),
{
    if cs.len() == 0 {
        None
    } else {
        match child_value(next, cs.last()) {
            Some(v) => Some(v),
            None => last_alive(next, cs.drop_last()),
        }
    }
}

/// How likely the search is to follow edge `i`: nothing for a dead line, else the square of how
/// far it lies above `m` plus ten, divided by one more than the square of its rank.
pub open spec fn pick_weight(next: Generation, cs: Seq<Child>, i: int, m: Value) -> int {
    match child_value(next, cs[i]) {
        None => 0,
        Some(e) => ((e.value - m.value + 10) * (e.value - m.value + 10)) / (i * i + 1),
    }
}

/// `last_alive` is the worth of a living edge.
proof fn lemma_last_alive(next: Generation, cs: Seq<Child>)
    ensures
        last_alive(next, cs) matches Some(v) ==> exists|i: int| 0 <= i < cs.len() && #[trigger] child_value(next, cs[i]) == Some(v),
        last_alive(next, cs) is None ==> forall|i: int| 0 <= i < cs.len() ==> #[trigger] child_value(next, cs[i]) is None,
    decreases cs.len(),
{
    if cs.len() > 0 {
        let d = cs.drop_last();
        lemma_last_alive(next, d);
        if child_value(next, cs.last()) is None {
            assert forall|i: int| 0 <= i < cs.len() - 1 implies #[trigger] cs[i] == d[i] by {}
            if last_alive(next, d) is Some {
                let v = last_alive(next, d)->0;
                let i = choose|i: int| 0 <= i < d.len() && #[trigger] child_value(next, d[i]) == Some(v);
                assert(child_value(next, cs[i]) == Some(v));
            } else {
                assert forall|i: int| 0 <= i < cs.len() implies #[trigger] child_value(next, cs[i]) is None by {
                    if i < cs.len() - 1 {
                        assert(cs[i] == d[i]);
                    }
                }
            }
        } else {
            assert(child_value(next, cs[cs.len() - 1]) == child_value(next, cs.last()));
        }
    }
}

/// Picks an edge at random, the better ones more likely: see `pick_weight`, measured from the
/// last living edge. `None` when no edge lives or none has weight.
fn random_choice(rng: &mut ThreadRng, next: &Generation, list: &Vec<Child>, Ghost(b): Ghost<int>) -> (r: Option<usize>)
    requires
        0 <= b,
        edges_sound(*next, list@, b),
        list@.len() <= MAX_CHILDREN,
    ensures
        last_alive(*next, list@) is None ==> r is None,
        last_alive(*next, list@) matches Some(m) ==> {
            &&& r is None <==> forall|i: int| 0 <= i < list@.len() ==> #[trigger] pick_weight(*next, list@, i, m) == 0
            &&& r matches Some(i) ==> i < list@.len() && pick_weight(*next, list@, i as int, m) > 0
        },
{
    let n = list.len();
    let mut m: Option<Value> = None;
    let mut i: usize = n;
    assert(list@.take(n as int) =~= list@);
    while i > 0
        invariant_except_break
            i <= n,
            n == list@.len(),
            m is None,
            last_alive(*next, list@) == last_alive(*next, list@.take(i as int)),
            edges_sound(*next, list@, b),
        ensures
            m == last_alive(*next, list@),
        decreases i,
    {
        i = i - 1;
        let v = child_value_exec(next, &list[i], Ghost(b));
        proof {
            let t = list@.take(i + 1);
            assert(t.drop_last() =~= list@.take(i as int));
            assert(t.last() == list@[i as int]);
        }
        if v.is_some() {
            m = v;
            break;
        }
    }
    proof {
        if i == 0 && m is None {
            assert(list@.take(0) =~= Seq::<Child>::empty());
        }
        lemma_last_alive(*next, list@);
    }
    let min = match m {
        None => {
            return None;
        },
        Some(v) => v,
    };
    proof {
        let j = choose|j: int| 0 <= j < list@.len() && #[trigger] child_value(*next, list@[j]) == Some(min);
        assert(value_within(min, b + REWARD_LIMIT));
    }
    let mut weights: Vec<i64> = Vec::new();
    let mut k: usize = 0;
    let ghost wmax: int = 1_700_000_000_000_000;
    while k < n
        invariant
            k <= n,
            n == list@.len(),
            n <= MAX_CHILDREN,
            edges_sound(*next, list@, b),
            value_within(min, b + REWARD_LIMIT),
            weights@.len() == k,
            forall|t: int| 0 <= t < k ==> #[trigger] weights@[t] as int == pick_weight(*next, list@, t, min),
            forall|t: int| 0 <= t < k ==> 0 <= #[trigger] weights@[t] <= wmax,
            wmax == 1_700_000_000_000_000,
        decreases n - k,
    {
        let v = child_value_exec(next, &list[k], Ghost(b));
        let w: i64 = match v {
            None => 0,
            Some(e) => {
                proof {
                    assert(b + REWARD_LIMIT <= 20_064_000);
                }
                let w = e.weight(&min, k);
                proof {
                    let d = e.value - min.value + 10;
                    assert(-41_000_000 <= d <= 41_000_000);
                    assert(d * d <= 1_681_000_000_000_000) by (nonlinear_arith)
                        requires
                            -41_000_000 <= d <= 41_000_000,
                    ;
                    assert(d * d >= 0) by (nonlinear_arith);
                    assert(k * k + 1 >= 1) by (nonlinear_arith);
                    assert((d * d) / (k * k + 1) <= d * d) by (nonlinear_arith)
                        requires
                            d * d >= 0,
                            k * k + 1 >= 1,
                    ;
                    assert((d * d) / (k * k + 1) >= 0) by (nonlinear_arith)
                        requires
                            d * d >= 0,
                            k * k + 1 >= 1,
                    ;
                }
                w
            },
        };
        weights.push(w);
        k = k + 1;
    }
    proof {
        let f = |t: int| weights@[t] as int;
        lemma_sum_range_bounds(0, n as int, f, 0, wmax);
        assert(n * wmax <= 4096 * wmax) by (nonlinear_arith)
            requires
                0 <= n <= 4096,
                wmax >= 0,
        ;
    }
    let dist = weighted_index(&weights);
    match dist {
        None => {
            proof {
                assert forall|t: int| 0 <= t < list@.len() implies #[trigger] pick_weight(*next, list@, t, min) == 0 by {
                    assert(weights@[t] as int == pick_weight(*next, list@, t, min));
                }
            }
            None
        },
        Some(d) => {
            let idx = sample_weighted(rng, &d);
            proof {
                assert(weights@[idx as int] as int == pick_weight(*next, list@, idx as int, min));
                let t = choose|t: int| 0 <= t < weights@.len() && #[trigger] weights@[t] > 0;
                assert(pick_weight(*next, list@, t, min) != 0);
            }
            Some(idx)
        },
    }
}

/// Edge `i` of `cs` is the first whose placement is at the location of `p`.
pub open spec fn first_at(cs: Seq<Child>, p: FallingPiece, i: int) -> bool {
    &&& 0 <= i < cs.len()
    &&& same_location(p, cs[i].placement)
    &&& forall|j: int| 0 <= j < i ==> !same_location(p, #[trigger] cs[j].placement)
}

/// Following `path` from the root of `d` reaches at once a leaf that can be handed out: the
/// root is expanded, and its first edge at the location of the path's first placement fits
/// the board and leads to a node that is neither expanded nor handed out.
pub open spec fn forced_leaf(d: DagState, path: Seq<FallingPiece>, i: int) -> bool {
    &&& path.len() > 0
    &&& d.root_children() matches Some(cs)
    &&& first_at(cs, path[0], i)
    &&& fits(d.board_of(), cs[i].placement)
    &&& !d.generation(1).expanded(cs[i].node as int)
    &&& !d.generation(1).marked(cs[i].node as int)
}

/// `path` cannot be followed from the root of `d`: the root is expanded, and the path is
/// empty or no edge leaves the root at the location of its first placement.
pub open spec fn forced_blocked(d: DagState, path: Seq<FallingPiece>) -> bool {
    &&& d.root_children() matches Some(cs)
    &&& (path.len() == 0 || forall|j: int| 0 <= j < cs.len() ==> !same_location(path[0], #[trigger] cs[j].placement))
}

/// The first edge whose placement is at `target`'s location.
fn forced_choice(list: &Vec<Child>, target: &FallingPiece) -> (r: Option<usize>)
    ensures
        r matches Some(i) ==> i < list@.len() && same_location(*target, list@[i as int].placement)
            && forall|j: int| 0 <= j < i ==> !same_location(*target, #[trigger] list@[j].placement),
        r is None ==> forall|j: int| 0 <= j < list@.len() ==> !same_location(*target, #[trigger] list@[j].placement),
{
    let mut i: usize = 0;
    while i < list.len()
        invariant
            i <= list@.len(),
            forall|j: int| 0 <= j < i ==> !same_location(*target, #[trigger] list@[j].placement),
        decreases list@.len() - i,
    {
        if same_location_exec(target, &list[i].placement) {
            return Some(i);
        }
        i = i + 1;
    }
    None
}
impl DagState {
    /// Walks from the root to a leaf that is not handed out yet, marks it and returns it with
    /// the board there. In known generations the edge is picked by following `path` from
    /// position `pos` when `forced`, else at random (see `random_choice`); in speculated ones
    /// the piece that comes is picked at random among those with children. The walk ends
    /// without a leaf when no edge is picked, when the leaf is already handed out, or when a
    /// placement does not fit its board. Also returns whether the path was used up.
    fn descend(&mut self, rng: &mut ThreadRng, forced: bool, path: &Vec<FallingPiece>) -> (r: (Option<(NodeId, Board)>, bool))
        requires
            old(self).wf(),
            old(self).passed() + old(self).gen_count() <= u32::MAX,
        ensures
            final(self).wf(),
            match r.0 {
                Some((id, b)) => {
                    let g = id.generation - old(self).passed();
                    let k = id.slab_key as int;
                    &&& 0 <= g < old(self).gen_count()
                    &&& 0 <= k < old(self).generation(g).len()
                    &&& !old(self).generation(g).expanded(k)
                    &&& !old(self).generation(g).marked(k)
                    &&& final(self).same_but_mark(old(self), g, k, true)
                    &&& exists|ks: Seq<int>, bs: Seq<Board>| {
                        &&& #[trigger] old(self).walk(old(self).board_of(), ks, bs)
                        &&& ks.len() == g + 1
                        &&& ks.last() == k
                        &&& bs.last() == b
                    }
                    &&& b.wf()
                },
                None => *final(self) == *old(self),
            },
            !forced ==> !r.1,
            forced && forced_blocked(*old(self), path@) ==> r.0 is None && r.1,
            forall|i: int| forced && #[trigger] forced_leaf(*old(self), path@, i) ==> (r.0 matches Some((id, _)) && id == (NodeId {
                generation: (old(self).passed() + 1) as u32,
                slab_key: old(self).root_children()->0[i].node,
            }) && r.1 == (path@.len() == 1)),
            ({
                let root = old(self).root_of();
                !old(self).generation(0).expanded(root) && !old(self).generation(0).marked(root) ==> {
                    &&& !r.1
                    &&& r.0 matches Some((id, b)) && id == (NodeId {
                        generation: old(self).passed() as u32,
                        slab_key: root as u32,
                    }) && same_state(old(self).board_of(), b)
                }
            }),
    {
        let ghost s0 = *self;
        let mut board = self.board.clone_board();
        let mut g: usize = 0;
        let mut node: u32 = self.root;
        let mut pos: usize = 0;
        let mut done = false;
        let ghost mut ks: Seq<int> = seq![node as int];
        let ghost mut bs: Seq<Board> = seq![board];
        proof {
            assert(same_state(s0.board, board));
            assert(s0.walk(s0.board, ks, bs));
        }
        loop
            invariant
                *self == s0,
                s0 == *old(self),
                s0.wf(),
                s0.passed() + s0.gen_count() <= u32::MAX,
                g < s0.gen_count(),
                node < s0.generation(g as int).len(),
                board.wf(),
                s0.walk(s0.board, ks, bs),
                ks.len() == g + 1,
                ks.last() == node,
                bs.last() == board,
                !forced ==> !done,
                g == 0 ==> node == s0.root && !done && same_state(s0.board, board),
                !s0.generation(0).expanded(s0.root as int) && !s0.generation(0).marked(s0.root as int) ==> g == 0,
                forced && forced_blocked(s0, path@) ==> g == 0,
                forall|i: int| forced && g >= 1 && #[trigger] forced_leaf(s0, path@, i) ==> g == 1 && node
                    == s0.root_children()->0[i].node && done == (path@.len() == 1),
                g == 0 ==> pos == 0,
            decreases s0.gen_count() - g,
        {
            let ghost cur = board;
            let gen = &self.generations[g];
            // the edges to choose from, and the piece added for a speculated node
            let mut list_opt: Option<&Vec<Child>> = None;
            let mut added: Option<usize> = None;
            match &gen.children {
                Children::Known(_, c) => {
                    match &c[node as usize] {
                        Some(v) => {
                            proof {
                                assert(s0.generation(g as int).known(node as int) == Some(v@));
                            }
                            list_opt = Some(v);
                        },
                        None => {},
                    }
                },
                Children::Speculated(c) => {
                    match &c[node as usize] {
                        Some(slots) => {
                            proof {
                                assert(s0.gen_ok(g as int));
                                reveal(Generation::wf);
                                reveal(Generation::slots_wf);
                                assert(slots@.len() == 7);
                            }
                            let mut items: Vec<usize> = Vec::new();
                            let mut t: usize = 0;
                            while t < 7
                                invariant
                                    t <= 7,
                                    slots@.len() == 7,
                                    forall|j: int| 0 <= j < items@.len() ==> #[trigger] items@[j] < 7 && slots@[items@[j] as int] is Some,
                                decreases 7 - t,
                            {
                                if slots[t].is_some() {
                                    items.push(t);
                                }
                                t = t + 1;
                            }
                            match choose_item(rng, &items) {
                                None => {
                                    return (None, done);
                                },
                                Some(sl) => {
                                    proof {
                                        let j = choose|j: int| 0 <= j < items@.len() && items@[j] == sl;
                                        assert(items@[j] < 7);
                                    }
                                    match &slots[sl] {
                                        Some(v) => {
                                            proof {
                                                assert(s0.generation(g as int).speculated(node as int, sl as int) == Some(v@));
                                            }
                                            list_opt = Some(v);
                                            added = Some(sl);
                                        },
                                        None => {},
                                    }
                                },
                            }
                        },
                        None => {},
                    }
                },
            }
            match list_opt {
                None => {
                    // a leaf
                    if gen.nodes[node as usize].marked {
                        return (None, done);
                    }
                    let id = NodeId { generation: g as u32 + self.gens_passed, slab_key: node };
                    proof {
                        assert(!s0.generation(g as int).expanded(node as int));
                    }
                    self.set_marked(g, node as usize, true);
                    proof {
                        assert(s0.walk(s0.board_of(), ks, bs));
                    }
                    return (Some((id, board)), done);
                },
                Some(list) => {
                    proof {
                        let sg = s0.generation(g as int);
                        match added {
                            None => {
                                assert(sg.known(node as int) == Some(list@));
                            },
                            Some(sl) => {
                                assert(sg.speculated(node as int, sl as int) == Some(list@));
                                assert(sl < 7);
                            },
                        }
                        if g + 1 == s0.gen_count() {
                            assert(s0.generations@.last().no_edges());
                            reveal(Generation::no_edges);
                            assert(false);
                        }
                        assert(s0.edges_ok(g as int));
                        assert(s0.gen_ok(g as int + 1));
                        reveal(Generation::edges_within);
                        reveal(Generation::wf);
                        match sg.children {
                            Children::Known(_, c) => {
                                assert(added is None);
                                assert(c@[node as int]->0@ == list@);
                                assert forall|j: int| 0 <= j < list@.len() implies (#[trigger] list@[j]).node < s0.generation(g as int + 1).len() && reward_within(list@[j].reward) by {
                                    assert(c@[node as int]->0@[j] == list@[j]);
                                }
                                if list@.len() > 0 {
                                    assert(c@[node as int]->0@[0] == list@[0]);
                                }
                            },
                            Children::Speculated(c) => {
                                let sl = added->0;
                                assert(c@[node as int]->0@[sl as int]->0@ == list@);
                                assert forall|j: int| 0 <= j < list@.len() implies (#[trigger] list@[j]).node < s0.generation(g as int + 1).len() && reward_within(list@[j].reward) by {
                                    assert(c@[node as int]->0@[sl as int]->0@[j] == list@[j]);
                                }
                                if list@.len() > 0 {
                                    assert(c@[node as int]->0@[sl as int]->0@[0] == list@[0]);
                                }
                            },
                        }
                        assert(list@.len() <= MAX_CHILDREN);
                        assert(edges_sound(s0.generation(g as int + 1), list@, eval_bound(g as int + 1)));
                    }
                    let next = &self.generations[g + 1];
                    let choice: Option<usize> = if forced {
                        if pos >= path.len() {
                            done = true;
                            return (None, done);
                        }
                        match forced_choice(list, &path[pos]) {
                            Some(i) => {
                                pos = pos + 1;
                                if pos == path.len() {
                                    done = true;
                                }
                                Some(i)
                            },
                            None => {
                                done = true;
                                None
                            },
                        }
                    } else {
                        random_choice(rng, next, list, Ghost(eval_bound(g as int + 1)))
                    };
                    let i = match choice {
                        None => {
                            return (None, done);
                        },
                        Some(i) => i,
                    };
                    let e = list[i];
                    match added {
                        Some(sl) => {
                            let ghost before = board;
                            board.add_next_piece(piece_at(sl));
                            proof {
                                before.lemma_same_state_wf(board);
                                assert(piece_added(cur, slot_piece(sl as int), board));
                            }
                        },
                        None => {},
                    }
                    let ghost bp = board;
                    let lock = advance(&mut board, e.placement);
                    match lock {
                        None => {
                            return (None, done);
                        },
                        Some(l) => {
                            proof {
                                assert(advanced(bp, e.placement, board, l));
                                let sg = s0.generation(g as int);
                                match added {
                                    None => {
                                        assert(sg.known(node as int)->0[i as int] == e);
                                        assert(bp == cur);
                                        assert(s0.step(g as int, node as int, cur, e.node as int, board));
                                    },
                                    Some(sl) => {
                                        assert(sg.speculated(node as int, sl as int)->0[i as int] == e);
                                        assert(s0.step(g as int, node as int, cur, e.node as int, board));
                                    },
                                }
                                let ks2 = ks.push(e.node as int);
                                let bs2 = bs.push(board);
                                assert forall|t: int| 0 <= t < ks2.len() - 1 implies #[trigger] s0.step(t, ks2[t], bs2[t], ks2[t + 1], bs2[t + 1]) by {
                                    if t < ks.len() - 1 {
                                        assert(ks2[t] == ks[t] && ks2[t + 1] == ks[t + 1] && bs2[t] == bs[t] && bs2[t + 1] == bs[t + 1]);
                                        assert(s0.step(t, ks[t], bs[t], ks[t + 1], bs[t + 1]));
                                    } else {
                                        assert(t == g);
                                        assert(ks2[t] == node && bs2[t] == cur);
                                    }
                                }
                                assert(s0.walk(s0.board, ks2, bs2));
                                ks = ks2;
                                bs = bs2;
                            }
                        },
                    }
                    g = g + 1;
                    node = e.node;
                },
            }
        }
    }
}
impl DagState {
    /// `b` and node `id` are a leaf found in `old` and handed out in `self`: the node was not
    /// expanded nor handed out, it is now marked and nothing else changed, and `b` is the board
    /// reached at it along edges from the root.
    pub open spec fn leaf_handed_out(&self, old: &DagState, id: NodeId, b: Board) -> bool {
        let g = id.generation - old.passed();
        let k = id.slab_key as int;
        &&& 0 <= g < old.gen_count()
        &&& 0 <= k < old.generation(g).len()
        &&& !old.generation(g).expanded(k)
        &&& !old.generation(g).marked(k)
        &&& self.same_but_mark(old, g, k, true)
        &&& exists|ks: Seq<int>, bs: Seq<Board>| {
            &&& #[trigger] old.walk(old.board_of(), ks, bs)
            &&& ks.len() == g + 1
            &&& ks.last() == k
            &&& bs.last() == b
        }
        &&& b.wf()
    }

    /// A leaf handed out stays marked until it comes back, so the next search cannot hand it
    /// out again: of two leaves handed out one after the other, with nothing else done to the
    /// graph in between, the second is another node than the first.
    pub proof fn lemma_leaves_differ(
        d0: DagState,
        d1: DagState,
        d2: DagState,
        id1: NodeId,
        b1: Board,
        id2: NodeId,
        b2: Board,
    )
        requires
            d1.leaf_handed_out(&d0, id1, b1),
            d2.leaf_handed_out(&d1, id2, b2),
        ensures
            id1.generation != id2.generation || id1.slab_key != id2.slab_key,
    {
    }

    /// Finds a leaf to expand, marks it and returns it with its board. The forced lines are
    /// tried first, from the last: a line is followed from the root by the location of its
    /// placements, and dropped once it was followed to its end or could not be followed. Then
    /// a walk picks edges at random, the better ones more likely. `None` when no leaf was found.
    pub fn find_and_mark_leaf(&mut self, forced_analysis_lines: &mut Vec<Vec<FallingPiece>>) -> (r: Option<(NodeId, Board)>)
        requires
            old(self).wf(),
            old(self).passed() + old(self).gen_count() <= u32::MAX,
        ensures
            final(self).wf(),
            final(self).hold_used() == old(self).hold_used(),
            match r {
                Some((id, b)) => final(self).leaf_handed_out(old(self), id, b),
                None => *final(self) == *old(self),
            },
            final(forced_analysis_lines)@.len() <= old(forced_analysis_lines)@.len(),
            forall|i: int| 0 <= i < final(forced_analysis_lines)@.len() ==> old(forced_analysis_lines)@.contains(
                #[trigger] final(forced_analysis_lines)@[i],
            ),
            ({
                let root = old(self).root_of();
                !old(self).generation(0).expanded(root) && !old(self).generation(0).marked(root) ==> {
                    &&& final(forced_analysis_lines)@ == old(forced_analysis_lines)@
                    &&& r matches Some((id, b)) && id == (NodeId {
                        generation: old(self).passed() as u32,
                        slab_key: root as u32,
                    }) && same_state(old(self).board_of(), b)
                }
            }),
            ({
                let lines = old(forced_analysis_lines)@;
                lines.len() > 0 && forced_blocked(*old(self), lines.last()@) ==> {
                    &&& final(forced_analysis_lines)@.len() < lines.len()
                    &&& forall|k: int| 0 <= k < final(forced_analysis_lines)@.len() ==> lines.drop_last().contains(
                        #[trigger] final(forced_analysis_lines)@[k],
                    )
                }
            }),
            forall|i: int| old(forced_analysis_lines)@.len() > 0 && #[trigger] forced_leaf(
                *old(self),
                old(forced_analysis_lines)@.last()@,
                i,
            ) ==> ({
                let lines = old(forced_analysis_lines)@;
                &&& r matches Some((id, _)) && id == (NodeId {
                    generation: (old(self).passed() + 1) as u32,
                    slab_key: old(self).root_children()->0[i].node,
                })
                &&& final(forced_analysis_lines)@ == if lines.last()@.len() == 1 {
                    lines.drop_last()
                } else {
                    lines
                }
            }),
    {
        let mut rng = local_rng();
        let ghost lines0 = forced_analysis_lines@;
        let mut i: usize = forced_analysis_lines.len();
        while i > 0
            invariant
                *self == *old(self),
                old(self).wf(),
                old(self).passed() + old(self).gen_count() <= u32::MAX,
                i <= forced_analysis_lines@.len(),
                forced_analysis_lines@.len() <= old(forced_analysis_lines)@.len(),
                forall|k: int| 0 <= k < forced_analysis_lines@.len() ==> old(forced_analysis_lines)@.contains(
                    #[trigger] forced_analysis_lines@[k],
                ),
                !old(self).generation(0).expanded(old(self).root_of()) && !old(self).generation(0).marked(
                    old(self).root_of(),
                ) ==> forced_analysis_lines@ == old(forced_analysis_lines)@,
                lines0 == old(forced_analysis_lines)@,
                i == lines0.len() ==> forced_analysis_lines@ == lines0,
                i < lines0.len() ==> forall|j: int| !#[trigger] forced_leaf(*old(self), lines0.last()@, j),
                i < lines0.len() ==> i < forced_analysis_lines@.len() + 1 && forced_analysis_lines@.len() < lines0.len()
                    || !forced_blocked(*old(self), lines0.last()@),
                i < lines0.len() && forced_blocked(*old(self), lines0.last()@) ==> forall|k: int|
                    0 <= k < forced_analysis_lines@.len() ==> lines0.drop_last().contains(#[trigger] forced_analysis_lines@[k]),
            decreases i,
        {
            i = i - 1;
            let ghost before = forced_analysis_lines@;
            let (choice, done) = self.descend(&mut rng, true, &forced_analysis_lines[i]);
            if done {
                forced_analysis_lines.swap_remove(i);
                proof {
                    assert forall|k: int| 0 <= k < forced_analysis_lines@.len() implies old(forced_analysis_lines)@.contains(
                        #[trigger] forced_analysis_lines@[k],
                    ) by {
                        if k == i {
                            assert(forced_analysis_lines@[k] == before[before.len() - 1]);
                            assert(old(forced_analysis_lines)@.contains(before[before.len() - 1]));
                        } else {
                            assert(forced_analysis_lines@[k] == before[k]);
                            assert(old(forced_analysis_lines)@.contains(before[k]));
                        }
                    }
                    if forced_blocked(*old(self), lines0.last()@) {
                        if before.len() == lines0.len() {
                            assert(before == lines0);
                            assert(forced_analysis_lines@ =~= lines0.drop_last());
                            assert forall|k: int| 0 <= k < forced_analysis_lines@.len() implies lines0.drop_last().contains(
                                #[trigger] forced_analysis_lines@[k],
                            ) by {
                                assert(lines0.drop_last()[k] == forced_analysis_lines@[k]);
                            }
                        } else {
                            assert forall|k: int| 0 <= k < forced_analysis_lines@.len() implies lines0.drop_last().contains(
                                #[trigger] forced_analysis_lines@[k],
                            ) by {
                                if k == i {
                                    assert(forced_analysis_lines@[k] == before[before.len() - 1]);
                                    assert(lines0.drop_last().contains(before[before.len() - 1]));
                                } else {
                                    assert(forced_analysis_lines@[k] == before[k]);
                                    assert(lines0.drop_last().contains(before[k]));
                                }
                            }
                        }
                    }
                }
            }
            proof {
                if i + 1 == lines0.len() {
                    assert(before == lines0);
                    assert(before[i as int] == lines0.last());
                    if forced_blocked(*old(self), lines0.last()@) {
                        assert(done);
                    }
                    if forced_leaf(*old(self), lines0.last()@, choose|j: int| forced_leaf(*old(self), lines0.last()@, j)) {
                        assert(choice is Some);
                        if !done {
                            assert(forced_analysis_lines@ == lines0);
                        } else {
                            assert(forced_analysis_lines@ =~= lines0.drop_last());
                        }
                    }
                }
            }
            if choice.is_some() {
                return choice;
            }
        }
        let empty: Vec<FallingPiece> = Vec::new();
        let (choice, _) = self.descend(&mut rng, false, &empty);
        choice
    }
}

/// `d` is the graph made for `board`: one root node with evaluation zero in generation `0`,
/// then an empty known generation for each later piece of the queue. With hold in use and
/// nothing held, the first piece of the queue is left for hold and the generations start at
/// the second.
pub open spec fn made_for(d: DagState, board: Board, use_hold: bool) -> bool {
    &&& d.board_of() == board
    &&& d.hold_used() == use_hold
    &&& d.root_of() == 0
    &&& d.passed() == 0
    &&& {
        let skip: int = if use_hold && board.hold_of() is None { 1 } else { 0 };
        let q = board.queue();
        &&& d.gen_count() == if q.len() > skip { q.len() - skip } else { 1 }
        &&& d.generation(0).len() == 1
        &&& d.generation(0).piece() == (if q.len() > skip {
            Some(q[skip])
        } else {
            None::<Piece>
        })
        &&& d.generation(0).eval(0) == (Value { value: 0, spike: 0 })
        &&& !d.generation(0).marked(0)
        &&& !d.generation(0).death(0)
        &&& d.generation(0).parents(0).len() == 0
        &&& forall|g: int|
            1 <= g < d.gen_count() ==> (#[trigger] d.generation(g)).len() == 0
                && d.generation(g).piece() == Some(q[skip + g])
    }
}

/// `cands` are the moves that can be played on the graph `d` now: one for each child of the
/// root whose node is not dead and whose placement fits the board, in rank order.
pub open spec fn candidates_of(d: DagState, cands: Seq<MoveCandidate<Value>>) -> bool {
    &&& d.root_children() is None ==> cands.len() == 0
    &&& d.root_children() matches Some(cs) ==> {
        let idx = offered(d.generation(1), cs, d.board_of(), cs.len() as int);
        &&& cands.len() == idx.len()
        &&& forall|j: int| 0 <= j < cands.len() ==> candidate_for(d.generation(1), cs[idx[j]], idx[j], d.board_of(), #[trigger] cands[j])
    }
}

/// `plan` is the line that the graph `d` expects: the placements along the first edges from
/// the root, each played out on the board before it, as far as they fit.
pub open spec fn plan_of(d: DagState, plan: Seq<(FallingPiece, LockResult)>) -> bool {
    let path = d.first_path(0, d.root_of());
    &&& plan.len() <= path.len()
    &&& forall|i: int| 0 <= i < plan.len() ==> (#[trigger] plan[i]).0 == path[i].placement
    &&& exists|bs: Seq<Board>| {
        &&& bs.len() == plan.len() + 1
        &&& bs[0] == d.board_of()
        &&& forall|i: int| 0 <= i < plan.len() ==> advanced(bs[i], (#[trigger] plan[i]).0, bs[i + 1], plan[i].1)
        &&& plan.len() < path.len() ==> !fits(bs[plan.len() as int], path[plan.len() as int].placement)
    }
}

/// `new` is `old` after `mv`, one of the root's children, was played: its node is the root,
/// the root's generation is gone and the board moved on.
pub open spec fn moved_on(new: DagState, old: DagState, mv: FallingPiece) -> bool {
    &&& new.passed() == old.passed() + 1
    &&& new.gen_count() == old.gen_count() - 1
    &&& forall|i: int| 0 <= i < new.gen_count() ==> #[trigger] new.generation(i) == old.generation(i + 1)
    &&& new.root_of() == old.root_children()->0[first_with(old.root_children()->0, mv)].node
    &&& new.hold_used() == old.hold_used()
    &&& exists|l: LockResult| advanced(old.board_of(), mv, new.board_of(), l)
}

/// The number of garbage rows that pushed the field of `old` up to `field`, when that alone
/// tells the two fields apart and the counters are unchanged.
pub open spec fn garbage_rise(old: DagState, field: [[bool; 10]; 40], b2b: bool, combo: u32) -> Option<i32> {
    let og = old.board_of().grid();
    let d = least_rise(og, field_grid(field), 10);
    if b2b == old.board_of().b2b_of() && combo == old.board_of().combo_of() && pushed_up(
        og,
        field_grid(field),
        d,
    ) {
        Some(d as i32)
    } else {
        None::<i32>
    }
}

/// `new` is `old` reset to `field` with the given back-to-back flag and combo counter, the
/// queue, hold and bag kept, with a fresh graph; `r` is the number of garbage rows the field
/// was pushed up by when that alone tells the two fields apart and the counters are unchanged.
pub open spec fn reset_to(new: DagState, old: DagState, field: [[bool; 10]; 40], b2b: bool, combo: u32, r: Option<i32>) -> bool {
    &&& r == garbage_rise(old, field, b2b, combo)
    &&& new.board_of().grid() == field_grid(field)
    &&& new.board_of().combo_of() == combo
    &&& new.board_of().b2b_of() == b2b
    &&& new.board_of().queue() == old.board_of().queue()
    &&& new.board_of().hold_of() == old.board_of().hold_of()
    &&& new.board_of().bag_of() == old.board_of().bag_of()
    &&& new.passed() == old.passed() + old.gen_count() + 1
    &&& new.hold_used() == old.hold_used()
    &&& new.is_fresh_graph()
}

/// `new` is `old` after the found children were filed as the known children of `node`: a
/// node dropped with its generation changes nothing; otherwise the node is no longer marked,
/// agrees with its children, and has one edge for each found child, each among the edges that
/// filing the children gives.
pub open spec fn known_filed(new: DagState, old: DagState, node: NodeId, children: Seq<ChildData>) -> bool {
    &&& node.generation < old.passed() ==> new == old
    &&& node.generation >= old.passed() ==> {
        let g = node.generation - old.passed();
        let k = node.slab_key as int;
        &&& new.board_of() == old.board_of()
        &&& new.root_of() == old.root_of()
        &&& new.passed() == old.passed()
        &&& new.hold_used() == old.hold_used()
        &&& new.gen_count() >= old.gen_count()
        &&& !new.generation(g).marked(k)
        &&& new.consistent(g, k)
        &&& new.generation(g).known(k) is Some
        &&& new.generation(g).known(k)->0.len() == children.len()
        &&& forall|i: int| 0 <= i < children.len() ==> expected_edges(new.generation(g + 1), children, old.hold_used()).contains(
            #[trigger] new.generation(g).known(k)->0[i],
        )
    }
}

/// `new` is `old` after the found children, one group per piece that may come, were filed as
/// the children of `node`: a node dropped with its generation changes nothing; otherwise the
/// node is no longer marked and agrees with its children. Where the generation's piece became
/// known meanwhile, the node takes the group of that piece (or keeps its children when that
/// piece has no group); otherwise it keeps one group per piece that may come.
pub open spec fn speculated_filed(new: DagState, old: DagState, node: NodeId, children: Seq<Option<Vec<ChildData>>>) -> bool {
    &&& node.generation < old.passed() ==> new == old
    &&& node.generation >= old.passed() ==> {
        let g = node.generation - old.passed();
        let k = node.slab_key as int;
        let gen = new.generation(g);
        let next = new.generation(g + 1);
        &&& new.board_of() == old.board_of()
        &&& new.root_of() == old.root_of()
        &&& new.passed() == old.passed()
        &&& new.hold_used() == old.hold_used()
        &&& new.gen_count() >= old.gen_count()
        &&& !gen.marked(k)
        &&& new.consistent(g, k)
        &&& gen.piece() == old.generation(g).piece()
        &&& gen.piece() matches Some(p) ==> match children[slot_of(p)] {
            Some(data) => {
                &&& gen.known(k) is Some
                &&& gen.known(k)->0.len() == data@.len()
                &&& forall|i: int| 0 <= i < data@.len() ==> expected_edges(next, data@, old.hold_used()).contains(#[trigger] gen.known(k)->0[i])
            },
            None => gen.reordered_from(old.generation(g), k),
        }
        &&& gen.piece() is None ==> {
            &&& gen.speculated_expanded(k)
            &&& forall|s: int| 0 <= s < 7 ==> ((#[trigger] gen.speculated(k, s) is Some) <==> children[s] is Some)
            &&& forall|s: int| 0 <= s < 7 && #[trigger] gen.speculated(k, s) is Some ==> gen.speculated(k, s)->0.len() == children[s]->0@.len()
            &&& forall|s: int, i: int| 0 <= s < 7 && gen.speculated(k, s) is Some && 0 <= i < gen.speculated(k, s)->0.len() ==> expected_edges(next, children[s]->0@, old.hold_used()).contains(#[trigger] gen.speculated(k, s)->0[i])
        }
    }
}

/// `new` is `old` with `piece` added to the queue: the first speculated generation takes, at
/// each node, the children it had for that piece, and its nodes agree with their children;
/// with no speculated generation, an empty generation for the piece is added.
pub open spec fn piece_filed(new: DagState, old: DagState, piece: Piece) -> bool {
    &&& piece_added(old.board_of(), piece, new.board_of())
    &&& new.root_of() == old.root_of()
    &&& new.passed() == old.passed()
    &&& new.hold_used() == old.hold_used()
    &&& {
        let f = old.first_speculated(old.gen_count() as int);
        &&& f < 0 ==> {
            &&& new.gen_count() == old.gen_count() + 1
            &&& forall|i: int| 0 <= i < old.gen_count() ==> #[trigger] new.generation(i) == old.generation(i)
            &&& new.generation(old.gen_count() as int).piece() == Some(piece)
            &&& new.generation(old.gen_count() as int).len() == 0
        }
        &&& f >= 0 ==> {
            let a = new.generation(f);
            let b = old.generation(f);
            &&& old.gen_count() <= new.gen_count() <= old.gen_count() + 1
            &&& a.piece() == Some(piece)
            &&& a.len() == b.len()
            &&& forall|j: int| 0 <= j < a.len() ==> (#[trigger] a.known(j) is Some) == (b.speculated_expanded(j) && b.speculated(j, slot_of(piece)) is Some)
            &&& forall|j: int| 0 <= j < a.len() && #[trigger] a.known(j) is Some ==> a.known(j)->0.len() == b.speculated(j, slot_of(piece))->0.len()
            &&& forall|j: int, i: int| 0 <= j < a.len() && a.known(j) is Some && 0 <= i < a.known(j)->0.len() ==> b.speculated(j, slot_of(piece))->0.contains(#[trigger] a.known(j)->0[i])
            &&& forall|j: int| 0 <= j < a.len() ==> #[trigger] new.consistent(f, j)
        }
    }
}

/// `new` is `old` with `node` no longer marked; a node dropped with its generation changes
/// nothing.
pub open spec fn unmarked(new: DagState, old: DagState, node: NodeId) -> bool {
    &&& node.generation >= old.passed() ==> new.same_but_mark(&old, node.generation - old.passed(), node.slab_key as int, false)
    &&& node.generation < old.passed() ==> new == old
}

/// The slots that `offered` lists lie among the edges, in increasing order, and each names an
/// edge whose placement fits the board.
proof fn lemma_offered(next: Generation, cs: Seq<Child>, b: Board, n: int)
    requires
        0 <= n <= cs.len(),
    ensures
        forall|j: int| 0 <= j < offered(next, cs, b, n).len() ==> {
            let i = #[trigger] offered(next, cs, b, n)[j];
            &&& 0 <= i < n
            &&& fits(b, cs[i].placement)
        },
    decreases n,
{
    if n > 0 {
        lemma_offered(next, cs, b, n - 1);
    }
}

/// Found children that the graph can take as the known children of `node`.
pub open spec fn known_fits(d: DagState, node: NodeId, children: Seq<ChildData>) -> bool {
    &&& d.valid_id(node)
    &&& node.generation >= d.passed() ==> {
        let g = node.generation - d.passed();
        &&& d.generation(g).piece() is Some
        &&& g + 1 == d.gen_count() ==> d.gen_count() < MAX_GENERATIONS
        &&& (if g + 1 < d.gen_count() {
            d.generation(g + 1).len() as int
        } else {
            0
        }) + children.len() < u32::MAX
    }
    &&& children.len() <= MAX_CHILDREN
    &&& forall|i: int| 0 <= i < children.len() ==> data_ok(#[trigger] children[i], d.hold_used())
}

/// Found children, one group per piece that may come, that the graph can take as the
/// speculated children of `node`.
pub open spec fn speculated_fits(d: DagState, node: NodeId, children: Seq<Option<Vec<ChildData>>>) -> bool {
    &&& d.valid_id(node)
    &&& children.len() == 7
    &&& forall|s: int| 0 <= s < 7 && #[trigger] children[s] is Some ==> {
        &&& children[s]->0@.len() <= MAX_CHILDREN
        &&& forall|i: int| 0 <= i < children[s]->0@.len() ==> data_ok(#[trigger] children[s]->0@[i], d.hold_used())
    }
    &&& node.generation >= d.passed() ==> {
        let g = node.generation - d.passed();
        &&& g + 1 == d.gen_count() ==> d.gen_count() < MAX_GENERATIONS
        &&& (if g + 1 < d.gen_count() {
            d.generation(g + 1).len() as int
        } else {
            0
        }) + slot_total(children, 7) < u32::MAX
    }
}

/// Every board of the found children is well formed.
pub open spec fn boards_wf(children: Seq<ChildData>) -> bool {
    forall|i: int| 0 <= i < children.len() ==> (#[trigger] children[i]).board.wf()
}

/// A found child whose board is well formed can be filed.
fn data_fits(d: &ChildData, hold_allowed: bool) -> (b: bool)
    requires
        d.board.wf(),
    ensures
        b == data_ok(*d, hold_allowed),
{
    if hold_allowed && d.board.held_piece().is_none() {
        match d.board.get_next_piece() {
            Ok(_) => {},
            Err(_) => return false,
        }
    }
    -LEAF_LIMIT <= d.evaluation.value && d.evaluation.value <= LEAF_LIMIT
        && -LEAF_LIMIT <= d.evaluation.spike && d.evaluation.spike <= LEAF_LIMIT
        && -REWARD_LIMIT <= d.reward.value && d.reward.value <= REWARD_LIMIT
        && -REWARD_LIMIT <= d.reward.attack && d.reward.attack <= REWARD_LIMIT
}

/// Every found child with a well-formed board can be filed.
fn all_data_fit(children: &Vec<ChildData>, hold_allowed: bool) -> (b: bool)
    requires
        boards_wf(children@),
    ensures
        b == forall|i: int| 0 <= i < children@.len() ==> data_ok(#[trigger] children@[i], hold_allowed),
{
    let mut i: usize = 0;
    while i < children.len()
        invariant
            boards_wf(children@),
            i <= children@.len(),
            forall|t: int| 0 <= t < i ==> data_ok(#[trigger] children@[t], hold_allowed),
        decreases children@.len() - i,
    {
        if !data_fits(&children[i], hold_allowed) {
            return false;
        }
        i = i + 1;
    }
    true
}

impl DagState {
    /// The number of generations dropped since the graph was made.
    pub fn passed_count(&self) -> (n: u32)
        ensures
            n == self.passed(),
    {
        self.gens_passed
    }

    /// The number of generations held.
    pub fn generation_count(&self) -> (n: usize)
        requires
            self.wf(),
        ensures
            n == self.gen_count(),
            n <= MAX_GENERATIONS,
    {
        self.generations.len()
    }

    /// The number of nodes fits in a `u32`.
    pub fn nodes_fit(&self) -> (b: bool)
        requires
            self.wf(),
        ensures
            b == (self.total_nodes() <= u32::MAX),
    {
        let mut n: u64 = 0;
        let mut g: usize = 0;
        while g < self.generations.len()
            invariant
                self.wf(),
                g <= self.gen_count(),
                n == self.nodes_before(g as int),
                n <= g * (u32::MAX as int),
            decreases self.gen_count() - g,
        {
            let len = self.generations[g].nodes.len();
            proof {
                assert(self.generations@[g as int].len() < u32::MAX);
                assert(self.nodes_before(g as int + 1) == self.nodes_before(g as int) + len);
            }
            n = n + len as u64;
            g = g + 1;
        }
        n <= u32::MAX as u64
    }

    /// `node` names a node that exists, or one dropped with its generation.
    pub fn is_valid_id(&self, node: NodeId) -> (b: bool)
        requires
            self.wf(),
        ensures
            b == self.valid_id(node),
    {
        if node.generation < self.gens_passed {
            return true;
        }
        let g = node.generation - self.gens_passed;
        if g as usize >= self.generations.len() {
            return false;
        }
        (node.slab_key as usize) < self.generations[g as usize].nodes.len()
    }

    /// The number of nodes of the generation after the one `node` is in, and whether one
    /// more generation may be added after it.
    fn next_len(&self, g: usize) -> (r: (u64, bool))
        requires
            self.wf(),
            g < self.gen_count(),
        ensures
            r.0 == (if g + 1 < self.gen_count() {
                self.generation(g + 1).len() as int
            } else {
                0
            }),
            r.0 < u32::MAX,
            r.1 == (g + 1 == self.gen_count() ==> self.gen_count() < MAX_GENERATIONS),
    {
        if g + 1 < self.generations.len() {
            (self.generations[g + 1].nodes.len() as u64, true)
        } else {
            (0, self.generations.len() < MAX_GENERATIONS)
        }
    }

    /// The graph can take `children` as the known children of `node`.
    pub fn accepts_known(&self, node: NodeId, children: &Vec<ChildData>) -> (b: bool)
        requires
            self.wf(),
            boards_wf(children@),
        ensures
            b == known_fits(*self, node, children@),
    {
        if !self.is_valid_id(node) || children.len() > MAX_CHILDREN {
            return false;
        }
        if node.generation >= self.gens_passed {
            let g = (node.generation - self.gens_passed) as usize;
            match &self.generations[g].children {
                Children::Known(_, _) => {},
                Children::Speculated(_) => return false,
            }
            let (next, room) = self.next_len(g);
            if !room || next + children.len() as u64 >= u32::MAX as u64 {
                return false;
            }
        }
        all_data_fit(children, self.use_hold)
    }

    /// The graph can take `children`, one group per piece that may come, as the speculated
    /// children of `node`.
    pub fn accepts_speculated(&self, node: NodeId, children: &Vec<Option<Vec<ChildData>>>) -> (b: bool)
        requires
            self.wf(),
            forall|s: int| 0 <= s < children@.len() && #[trigger] children@[s] is Some ==> boards_wf(children@[s]->0@),
        ensures
            b == speculated_fits(*self, node, children@),
    {
        if !self.is_valid_id(node) || children.len() != 7 {
            return false;
        }
        let mut total: u64 = 0;
        let mut s: usize = 0;
        while s < 7
            invariant
                children@.len() == 7,
                forall|t: int| 0 <= t < 7 && #[trigger] children@[t] is Some ==> boards_wf(children@[t]->0@),
                s <= 7,
                total == slot_total(children@, s as int),
                total <= s * MAX_CHILDREN,
                forall|t: int| 0 <= t < s && #[trigger] children@[t] is Some ==> {
                    &&& children@[t]->0@.len() <= MAX_CHILDREN
                    &&& forall|i: int| 0 <= i < children@[t]->0@.len() ==> data_ok(#[trigger] children@[t]->0@[i], self.hold_used())
                },
            decreases 7 - s,
        {
            proof {
                lemma_slot_total_step(children@, s as int);
            }
            match &children[s] {
                Some(data) => {
                    if data.len() > MAX_CHILDREN || !all_data_fit(data, self.use_hold) {
                        return false;
                    }
                    total = total + data.len() as u64;
                },
                None => {},
            }
            s = s + 1;
        }
        if node.generation >= self.gens_passed {
            let g = (node.generation - self.gens_passed) as usize;
            let (next, room) = self.next_len(g);
            if !room || next + total >= u32::MAX as u64 {
                return false;
            }
        }
        true
    }
}

/// Every move that the graph offers can be played: the root has children, the move is the
/// placement of one of them, and it fits the board.
pub proof fn lemma_candidate_playable(d: DagState, cands: Seq<MoveCandidate<Value>>, k: int)
    requires
        candidates_of(d, cands),
        0 <= k < cands.len(),
    ensures
        d.root_children() is Some,
        first_with(d.root_children()->0, cands[k].mv) >= 0,
        fits(d.board_of(), cands[k].mv),
{
    let cs = d.root_children()->0;
    let idx = offered(d.generation(1), cs, d.board_of(), cs.len() as int);
    lemma_offered(d.generation(1), cs, d.board_of(), cs.len() as int);
    assert(candidate_for(d.generation(1), cs[idx[k]], idx[k], d.board_of(), cands[k]));
    lemma_first_with(cs, cands[k].mv);
    if first_with(cs, cands[k].mv) < 0 {
        assert(cs[idx[k]].placement == cands[k].mv);
    }
}
} // verus!
