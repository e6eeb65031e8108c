//! Ranking of candidate lines, best first, keeping the order of equals.
use vstd::prelude::*;

verus! {

broadcast use {vstd::seq_lib::group_to_multiset_ensures, vstd::multiset::group_multiset_axioms};

/// How good a line is: lines that do not end in death rank above those that do; among the
/// living, by value, then by spike.
#[derive(Copy, Clone, Debug, PartialEq, Eq, Structural)]
pub struct RankKey {
    pub alive: bool,
    pub value: i32,
    pub spike: i32,
}

/// `a` ranks strictly below `b`.
pub open spec fn key_lt(a: RankKey, b: RankKey) -> bool {
    ||| !a.alive && b.alive
    ||| a.alive && b.alive && (a.value < b.value || (a.value == b.value && a.spike < b.spike))
}

/// `a` ranks strictly below `b`.
pub fn key_less(a: RankKey, b: RankKey) -> (r: bool)
    ensures
        r == key_lt(a, b),
{
    if !a.alive {
        b.alive
    } else if !b.alive {
        false
    } else {
        a.value < b.value || (a.value == b.value && a.spike < b.spike)
    }
}

/// `order` with index `x` inserted after every index whose key is at least that of `x`,
/// searching from the end.
pub open spec fn insert_ranked(order: Seq<int>, keys: Seq<RankKey>, x: int) -> Seq<int>
    decreases order.len(),
{
    if order.len() == 0 {
        seq![x]
    } else if !key_lt(keys[order.last()], keys[x]) {
        order.push(x)
    } else {
        insert_ranked(order.drop_last(), keys, x).push(order.last())
    }
}

/// The indices `0..n` of `keys` ordered best first; equal keys keep their order.
pub open spec fn ranked(keys: Seq<RankKey>, n: int) -> Seq<int>
    decreases n,
{
    if n <= 0 {
        Seq::empty()
    } else {
        insert_ranked(ranked(keys, n - 1), keys, n - 1)
    }
}

/// The keys along `order` never increase.
pub open spec fn descending(order: Seq<int>, keys: Seq<RankKey>) -> bool {
    forall|i: int, j: int| 0 <= i < j < order.len() ==> !key_lt(#[trigger] keys[order[i]], #[trigger] keys[order[j]])
}

/// `key_lt` is a strict order whose complement is total and transitive.
pub proof fn lemma_key_order(a: RankKey, b: RankKey, c: RankKey)
    ensures
        !key_lt(a, a),
        key_lt(a, b) ==> !key_lt(b, a),
        !key_lt(a, b) && !key_lt(b, c) ==> !key_lt(a, c),
        key_lt(a, b) && key_lt(b, c) ==> key_lt(a, c),
{
}

/// Inserting where `insert_ranked` does: the part before `p` stays, `x` comes next, and the
/// rest follows.
proof fn lemma_insert_at(order: Seq<int>, keys: Seq<RankKey>, x: int, p: int)
    requires
        0 <= p <= order.len(),
        forall|j: int| p <= j < order.len() ==> key_lt(#[trigger] keys[order[j]], keys[x]),
        p == 0 || !key_lt(keys[order[p - 1]], keys[x]),
    ensures
        insert_ranked(order, keys, x) == order.insert(p, x),
    decreases order.len(),
{
    if order.len() == 0 {
        assert(order.insert(p, x) =~= seq![x]);
    } else if p == order.len() {
        assert(order.insert(p, x) =~= order.push(x));
    } else {
        assert(key_lt(keys[order[order.len() - 1]], keys[x]));
        let d = order.drop_last();
        assert forall|j: int| p <= j < d.len() implies key_lt(#[trigger] keys[d[j]], keys[x]) by {
            assert(d[j] == order[j]);
        }
        if p > 0 {
            assert(d[p - 1] == order[p - 1]);
        }
        lemma_insert_at(d, keys, x, p);
        assert(order.insert(p, x) =~= d.insert(p, x).push(order.last()));
    }
}

/// Inserting keeps the keys descending and adds exactly `x`.
proof fn lemma_insert_ranked(order: Seq<int>, keys: Seq<RankKey>, x: int)
    requires
        descending(order, keys),
    ensures
        descending(insert_ranked(order, keys, x), keys),
        insert_ranked(order, keys, x).to_multiset() == order.to_multiset().insert(x),
        insert_ranked(order, keys, x).len() == order.len() + 1,
    decreases order.len(),
{
    let r = insert_ranked(order, keys, x);
    if order.len() == 0 {
        assert(r.to_multiset() =~= order.to_multiset().insert(x)) by {
        }
    } else if !key_lt(keys[order.last()], keys[x]) {
        assert forall|i: int, j: int| 0 <= i < j < r.len() implies !key_lt(#[trigger] keys[r[i]], #[trigger] keys[r[j]]) by {
            if j == r.len() - 1 {
                if i < order.len() - 1 {
                    lemma_key_order(keys[order[i]], keys[order.last()], keys[x]);
                }
            }
        }
        assert(r.to_multiset() =~= order.to_multiset().insert(x));
    } else {
        let d = order.drop_last();
        let last = order.last();
        assert(descending(d, keys)) by {
            assert forall|i: int, j: int| 0 <= i < j < d.len() implies !key_lt(#[trigger] keys[d[i]], #[trigger] keys[d[j]]) by {
                assert(d[i] == order[i] && d[j] == order[j]);
            }
        }
        lemma_insert_ranked(d, keys, x);
        let rd = insert_ranked(d, keys, x);
        assert(r == rd.push(last));
        assert forall|i: int, j: int| 0 <= i < j < r.len() implies !key_lt(#[trigger] keys[r[i]], #[trigger] keys[r[j]]) by {
            if j == r.len() - 1 {
                assert(r[j] == last);
                assert(r[i] == rd[i]);
                assert(rd.to_multiset().count(rd[i]) > 0) by {
                    assert(rd.contains(rd[i]));
                }
                assert(d.to_multiset().insert(x).count(rd[i]) > 0);
                if rd[i] == x {
                    lemma_key_order(keys[last], keys[x], keys[x]);
                } else {
                    assert(d.to_multiset().count(rd[i]) > 0);
                    assert(d.contains(rd[i]));
                    let k = choose|k: int| 0 <= k < d.len() && d[k] == rd[i];
                    assert(order[k] == d[k]);
                    assert(!key_lt(keys[order[k]], keys[order[order.len() - 1]]));
                }
            } else {
                assert(r[i] == rd[i] && r[j] == rd[j]);
            }
        }
        assert(order =~= d.push(last));
        assert(r.to_multiset() =~= order.to_multiset().insert(x));
    }
}

/// The ranking is a reordering of `0..n` whose keys never increase.
pub proof fn lemma_ranked(keys: Seq<RankKey>, n: int)
    requires
        0 <= n,
    ensures
        ranked(keys, n).len() == n,
        descending(ranked(keys, n), keys),
        ranked(keys, n).to_multiset() == Seq::new(n as nat, |i: int| i).to_multiset(),
    decreases n,
{
    if n > 0 {
        lemma_ranked(keys, n - 1);
        lemma_insert_ranked(ranked(keys, n - 1), keys, n - 1);
        let s = Seq::new((n - 1) as nat, |i: int| i);
        assert(Seq::new(n as nat, |i: int| i) =~= s.push(n - 1));
    } else {
        assert(Seq::new(n as nat, |i: int| i) =~= Seq::<int>::empty());
        assert(ranked(keys, n) =~= Seq::<int>::empty());
    }
}

/// The ranking lists indices below `n`.
pub proof fn lemma_ranked_range(keys: Seq<RankKey>, n: int)
    requires
        0 <= n,
    ensures
        forall|i: int| 0 <= i < n ==> 0 <= #[trigger] ranked(keys, n)[i] < n,
{
    lemma_ranked(keys, n);
    let r = ranked(keys, n);
    let ids = Seq::new(n as nat, |t: int| t);
    assert forall|i: int| 0 <= i < n implies 0 <= #[trigger] ranked(keys, n)[i] < n by {
        assert(r.contains(r[i]));
        assert(r.to_multiset().count(r[i]) > 0);
        assert(ids.to_multiset().count(r[i]) > 0);
        assert(ids.contains(r[i]));
        let j = choose|j: int| 0 <= j < ids.len() && ids[j] == r[i];
        assert(ids[j] == j);
    }
}

/// The indices of `keys` ordered best first; equal keys keep their order.
pub fn rank(keys: &Vec<RankKey>) -> (order: Vec<usize>)
    ensures
        order@.len() == keys@.len(),
        forall|i: int| 0 <= i < order@.len() ==> #[trigger] order@[i] as int == ranked(keys@, keys@.len() as int)[i],
        forall|i: int| 0 <= i < order@.len() ==> #[trigger] order@[i] < keys@.len(),
{
    let mut order: Vec<usize> = Vec::new();
    let n = keys.len();
    let mut i: usize = 0;
    while i < n
        invariant
            i <= n,
            n == keys@.len(),
            order@.len() == i,
            forall|j: int| 0 <= j < order@.len() ==> #[trigger] order@[j] as int == ranked(keys@, i as int)[j],
            forall|j: int| 0 <= j < order@.len() ==> #[trigger] order@[j] < i,
        decreases n - i,
    {
        let ghost prev = ranked(keys@, i as int);
        proof {
            lemma_ranked(keys@, i as int);
        }
        let mut p: usize = order.len();
        while p > 0 && key_less(keys[order[p - 1]], keys[i])
            invariant
                p <= order@.len(),
                order@.len() == i,
                i < n,
                n == keys@.len(),
                forall|j: int| 0 <= j < order@.len() ==> #[trigger] order@[j] as int == prev[j],
                forall|j: int| 0 <= j < order@.len() ==> #[trigger] order@[j] < i,
                forall|j: int| p <= j < order@.len() ==> key_lt(#[trigger] keys@[prev[j]], keys@[i as int]),
            decreases p,
        {
            p = p - 1;
        }
        proof {
            assert(prev.len() == i);
            lemma_insert_at(prev, keys@, i as int, p as int);
        }
        let ghost before = order@;
        order.insert(p, i);
        proof {
            assert(ranked(keys@, i + 1) == prev.insert(p as int, i as int));
            assert forall|j: int| 0 <= j < order@.len() implies #[trigger] order@[j] as int == ranked(keys@, i + 1)[j] by {
                assert(order@ == before.insert(p as int, i));
                if j < p {
                    assert(order@[j] == before[j]);
                } else if j > p {
                    assert(order@[j] == before[j - 1]);
                }
            }
            assert forall|j: int| 0 <= j < order@.len() implies #[trigger] order@[j] < i + 1 by {
                assert(order@ == before.insert(p as int, i));
                if j < p {
                    assert(order@[j] == before[j]);
                } else if j > p {
                    assert(order@[j] == before[j - 1]);
                }
            }
        }
        i = i + 1;
    }
    order
}

} // verus!
