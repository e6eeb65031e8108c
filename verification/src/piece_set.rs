use vstd::prelude::*;
use crate::piece::Piece;

verus! {

/// A set of pieces, such as the pieces left in the current bag.
#[derive(Copy, Clone, Debug, PartialEq, Eq, Hash, Structural)]
pub struct PieceSet {
    i: bool,
    o: bool,
    t: bool,
    l: bool,
    j: bool,
    s: bool,
    z: bool,
}

/// All seven pieces in their canonical order.
pub open spec fn all_pieces() -> Seq<Piece> {
    seq![Piece::I, Piece::O, Piece::T, Piece::L, Piece::J, Piece::S, Piece::Z]
}

impl PieceSet {
    /// Whether `p` is in the set.
    pub closed spec fn has(self, p: Piece) -> bool {
        match p {
            Piece::I => self.i,
            Piece::O => self.o,
            Piece::T => self.t,
            Piece::L => self.l,
            Piece::J => self.j,
            Piece::S => self.s,
            Piece::Z => self.z,
        }
    }

    /// The set with `p` added.
    pub closed spec fn with(self, p: Piece) -> PieceSet {
        PieceSet {
            i: self.i || p == Piece::I,
            o: self.o || p == Piece::O,
            t: self.t || p == Piece::T,
            l: self.l || p == Piece::L,
            j: self.j || p == Piece::J,
            s: self.s || p == Piece::S,
            z: self.z || p == Piece::Z,
        }
    }

    /// The set with `p` taken out.
    pub closed spec fn without(self, p: Piece) -> PieceSet {
        PieceSet {
            i: self.i && p != Piece::I,
            o: self.o && p != Piece::O,
            t: self.t && p != Piece::T,
            l: self.l && p != Piece::L,
            j: self.j && p != Piece::J,
            s: self.s && p != Piece::S,
            z: self.z && p != Piece::Z,
        }
    }

    /// The set of all seven pieces.
    pub closed spec fn full_set() -> PieceSet {
        PieceSet { i: true, o: true, t: true, l: true, j: true, s: true, z: true }
    }

    /// The empty set.
    pub closed spec fn empty_set() -> PieceSet {
        PieceSet { i: false, o: false, t: false, l: false, j: false, s: false, z: false }
    }

    /// Membership of the constructed sets.
    pub broadcast proof fn lemma_has(self, p: Piece, q: Piece)
        ensures
            #[trigger] self.with(p).has(q) == (self.has(q) || q == p),
            #[trigger] self.without(p).has(q) == (self.has(q) && q != p),
    {
    }

    /// Membership of the constant sets.
    pub broadcast proof fn lemma_has_const(q: Piece)
        ensures
            #[trigger] PieceSet::full_set().has(q),
            !#[trigger] PieceSet::empty_set().has(q),
    {
    }

    /// A set is the full set exactly when it holds every piece.
    pub proof fn lemma_full_iff(self)
        ensures
            (self == PieceSet::full_set()) == (forall|p: Piece| self.has(p)),
            (self == PieceSet::empty_set()) == (forall|p: Piece| !self.has(p)),
    {
        self.lemma_fields();
    }

    /// The members in canonical order.
    pub open spec fn members(self) -> Seq<Piece> {
        all_pieces().filter(|p: Piece| self.has(p))
    }

    /// The members are at most seven pieces of the set, and some exist when the set is
    /// non-empty.
    pub proof fn lemma_members(self)
        ensures
            self.members().len() <= 7,
            forall|i: int|
                0 <= i < self.members().len() ==> #[trigger] self.has(self.members()[i]),
            (exists|p: Piece| self.has(p)) ==> self.members().len() > 0,
    {
        let pred = |p: Piece| self.has(p);
        all_pieces().lemma_filter_len(pred);
        assert forall|i: int| 0 <= i < self.members().len() implies #[trigger] self.has(
            self.members()[i],
        ) by {
            all_pieces().lemma_filter_pred(pred, i);
        }
        if exists|p: Piece| self.has(p) {
            let q = choose|q: Piece| self.has(q);
            match q {
                Piece::I => assert(all_pieces()[0] == q),
                Piece::O => assert(all_pieces()[1] == q),
                Piece::T => assert(all_pieces()[2] == q),
                Piece::L => assert(all_pieces()[3] == q),
                Piece::J => assert(all_pieces()[4] == q),
                Piece::S => assert(all_pieces()[5] == q),
                Piece::Z => assert(all_pieces()[6] == q),
            }
            all_pieces().lemma_filter_contains_rev(pred, q);
        }
    }

    /// Number of members.
    pub open spec fn len_spec(self) -> nat {
        self.members().len()
    }

    /// How many pieces the set holds.
    pub closed spec fn size(self) -> int {
        (if self.i { 1int } else { 0 }) + (if self.o { 1int } else { 0 }) + (if self.t { 1int } else { 0 })
            + (if self.l { 1int } else { 0 }) + (if self.j { 1int } else { 0 }) + (if self.s { 1int } else { 0 })
            + (if self.z { 1int } else { 0 })
    }

    /// The full set holds seven pieces, the empty set none, and only the empty set holds none;
    /// taking out a piece of the set leaves one piece fewer.
    pub proof fn lemma_size(self, p: Piece)
        ensures
            PieceSet::full_set().size() == 7,
            PieceSet::empty_set().size() == 0,
            0 <= self.size() <= 7,
            (self.size() == 0) == (self == PieceSet::empty_set()),
            self.has(p) ==> self.without(p).size() == self.size() - 1,
    {
    }

    proof fn lemma_fields(self)
        ensures
            self.has(Piece::I) == self.i,
            self.has(Piece::O) == self.o,
            self.has(Piece::T) == self.t,
            self.has(Piece::L) == self.l,
            self.has(Piece::J) == self.j,
            self.has(Piece::S) == self.s,
            self.has(Piece::Z) == self.z,
    {
    }

    /// Two sets with the same members are equal.
    pub proof fn lemma_ext(a: PieceSet, b: PieceSet)
        requires
            forall|p: Piece| a.has(p) == b.has(p),
        ensures
            a == b,
    {
        assert(a.has(Piece::I) == b.has(Piece::I));
        assert(a.has(Piece::O) == b.has(Piece::O));
        assert(a.has(Piece::T) == b.has(Piece::T));
        assert(a.has(Piece::L) == b.has(Piece::L));
        assert(a.has(Piece::J) == b.has(Piece::J));
        assert(a.has(Piece::S) == b.has(Piece::S));
        assert(a.has(Piece::Z) == b.has(Piece::Z));
    }

    /// The set of all seven pieces.
    pub fn all() -> (s: PieceSet)
        ensures
            s == PieceSet::full_set(),
            forall|p: Piece| s.has(p),
    {
        PieceSet { i: true, o: true, t: true, l: true, j: true, s: true, z: true }
    }

    /// The empty set.
    pub fn empty() -> (s: PieceSet)
        ensures
            s == PieceSet::empty_set(),
            forall|p: Piece| !s.has(p),
    {
        PieceSet { i: false, o: false, t: false, l: false, j: false, s: false, z: false }
    }

    /// The set that holds `p` alone.
    pub fn only(p: Piece) -> (s: PieceSet)
        ensures
            forall|q: Piece| s.has(q) == (q == p),
            s == PieceSet::empty_set().with(p),
    {
        let mut s = PieceSet::empty();
        s.insert(p);
        s
    }

    /// Whether `p` is in the set.
    pub fn contains(&self, p: Piece) -> (b: bool)
        ensures
            b == self.has(p),
    {
        match p {
            Piece::I => self.i,
            Piece::O => self.o,
            Piece::T => self.t,
            Piece::L => self.l,
            Piece::J => self.j,
            Piece::S => self.s,
            Piece::Z => self.z,
        }
    }

    fn set(&mut self, p: Piece, v: bool)
        ensures
            v ==> *final(self) == old(self).with(p),
            !v ==> *final(self) == old(self).without(p),
            final(self).has(p) == v,
            forall|q: Piece| q != p ==> final(self).has(q) == old(self).has(q),
    {
        match p {
            Piece::I => self.i = v,
            Piece::O => self.o = v,
            Piece::T => self.t = v,
            Piece::L => self.l = v,
            Piece::J => self.j = v,
            Piece::S => self.s = v,
            Piece::Z => self.z = v,
        }
    }

    /// Adds `p` to the set.
    pub fn insert(&mut self, p: Piece)
        ensures
            *final(self) == old(self).with(p),
            forall|q: Piece| final(self).has(q) == (old(self).has(q) || q == p),
    {
        self.set(p, true);
    }

    /// Removes `p` from the set.
    pub fn remove(&mut self, p: Piece)
        ensures
            *final(self) == old(self).without(p),
            forall|q: Piece| final(self).has(q) == (old(self).has(q) && q != p),
    {
        self.set(p, false);
    }

    /// The set holds no piece.
    pub fn is_empty(&self) -> (b: bool)
        ensures
            b == (forall|p: Piece| !self.has(p)),
            b == (*self == PieceSet::empty_set()),
    {
        proof { self.lemma_fields(); }
        !(self.i || self.o || self.t || self.l || self.j || self.s || self.z)
    }

    /// The set holds all seven pieces.
    pub fn is_all(&self) -> (b: bool)
        ensures
            b == (forall|p: Piece| self.has(p)),
            b == (*self == PieceSet::full_set()),
    {
        proof { self.lemma_fields(); }
        self.i && self.o && self.t && self.l && self.j && self.s && self.z
    }

    /// The members of the set in canonical order.
    pub fn to_vec(&self) -> (v: Vec<Piece>)
        ensures
            v@ == self.members(),
    {
        let ghost pred: spec_fn(Piece) -> bool = |p: Piece| self.has(p);
        let mut v: Vec<Piece> = Vec::new();
        let order = [Piece::I, Piece::O, Piece::T, Piece::L, Piece::J, Piece::S, Piece::Z];
        assert(order@ == all_pieces());
        let mut k: usize = 0;
        while k < 7
            invariant
                k <= 7,
                order@ == all_pieces(),
                forall|q: Piece| pred(q) == self.has(q),
                v@ == all_pieces().take(k as int).filter(pred),
            decreases 7 - k,
        {
            let p = order[k];
            if self.contains(p) {
                v.push(p);
            }
            proof {
                reveal_with_fuel(Seq::<_>::filter, 1);
                assert(all_pieces().take(k + 1).last() == p);
                assert(pred(p) == self.has(p));
                assert(all_pieces().take(k + 1).drop_last() =~= all_pieces().take(k as int));
            }
            k = k + 1;
        }
        assert(all_pieces().take(7) =~= all_pieces());
        assert(pred == (|p: Piece| self.has(p)));
        v
    }

    /// Number of members.
    pub fn len(&self) -> (n: usize)
        ensures
            n == self.len_spec(),
    {
        let v = self.to_vec();
        v.len()
    }
}

} // verus!
