use vstd::prelude::*;
use crate::node::{
    Node, sorted, count_le, lemma_count_le_bound, lemma_count_le_sorted, lemma_count_le_split,
    lemma_first_index_exists, first_index,
};

verus! {

/// No index occurs twice.
pub open spec fn distinct(s: Seq<usize>) -> bool {
    forall|a: int, b: int| 0 <= a < s.len() && 0 <= b < s.len() && a != b ==> s[a] != s[b]
}

/// What a leaf's own search returns for `key`: the value of its first entry
/// with that key.
pub open spec fn leaf_lookup(nd: Node, key: usize) -> Option<usize> {
    if exists|j: int| first_index(nd.keys@, key, j) {
        Some(nd.values@[choose|j: int| first_index(nd.keys@, key, j)])
    } else {
        None
    }
}

/// A B+tree from `usize` keys to `usize` values. Nodes live in an arena and
/// refer to each other by index.
pub struct BTree {
    nodes: Vec<Node>,
    root: usize,
    order: usize,
    /// Height of each node above the leaves.
    levels: Ghost<Seq<nat>>,
    /// Inclusive key range that each node's subtree is confined to.
    lo: Ghost<Seq<int>>,
    hi: Ghost<Seq<int>>,
    /// Every pair inserted so far.
    entries: Ghost<Set<(usize, usize)>>,
    /// The leaves in the order of their forward links.
    chain: Ghost<Seq<usize>>,
}

impl BTree {
    /// The nodes, by arena index.
    pub closed spec fn arena(self) -> Seq<Node> {
        self.nodes@
    }

    /// The arena index of the root.
    pub closed spec fn root_index(self) -> int {
        self.root as int
    }

    /// The order every node was created with.
    pub closed spec fn order_spec(self) -> nat {
        self.order as nat
    }

    /// How far node `n` stands above the leaves.
    pub closed spec fn level(self, n: int) -> nat {
        self.levels@[n]
    }

    /// The lowest key that node `n`'s subtree may hold.
    pub closed spec fn bound_lo(self, n: int) -> int {
        self.lo@[n]
    }

    /// The highest key that node `n`'s subtree may hold.
    pub closed spec fn bound_hi(self, n: int) -> int {
        self.hi@[n]
    }

    /// The pairs inserted so far.
    pub closed spec fn entries(self) -> Set<(usize, usize)> {
        self.entries@
    }

    /// The separator bounding child `j` of node `n` from below.
    pub closed spec fn lower(self, n: int, j: int) -> int {
        if j == 0 { self.lo@[n] } else { self.nodes@[n].keys@[j - 1] as int }
    }

    /// The separator bounding child `j` of node `n` from above.
    pub closed spec fn upper(self, n: int, j: int) -> int {
        if j == self.nodes@[n].keys@.len() { self.hi@[n] } else { self.nodes@[n].keys@[j] as int }
    }

    /// Child `j` of node `n` sits one level below it, points back to it, and
    /// is confined to the range between the separators around it.
    pub closed spec fn child_ok(self, n: int, j: int) -> bool {
        let c = self.nodes@[n].children@[j] as int;
        &&& 0 <= c < self.nodes@.len()
        &&& self.levels@[c] + 1 == self.levels@[n]
        &&& self.nodes@[c].parent == Some(n as usize)
        &&& self.lo@[c] == self.lower(n, j)
        &&& self.hi@[c] == self.upper(n, j)
    }

    /// Node `n` is well formed, where only node `over` may hold one key too many.
    pub closed spec fn node_ok(self, n: int, over: int) -> bool {
        let nd = self.nodes@[n];
        &&& nd.order == self.order
        &&& sorted(nd.keys@)
        &&& (nd.keys@.len() < self.order || (n == over && nd.keys@.len() == self.order))
        &&& forall|j: int|
            0 <= j < nd.keys@.len() ==> self.lo@[n] <= #[trigger] nd.keys@[j] <= self.hi@[n]
        &&& nd.is_leaf == (self.levels@[n] == 0)
        &&& self.lo@[n] <= self.hi@[n]
        &&& nd.parent matches Some(q) ==> q < self.nodes@.len()
        &&& nd.is_leaf ==> {
            &&& nd.values@.len() == nd.keys@.len()
            &&& nd.children@.len() == 0
            &&& forall|j: int|
                0 <= j < nd.keys@.len() ==> self.entries@.contains(
                    (#[trigger] nd.keys@[j], nd.values@[j]),
                )
            &&& nd.next matches Some(x) ==> x < self.nodes@.len() && self.nodes@[x as int].is_leaf
                && self.hi@[n] <= self.lo@[x as int]
        }
        &&& !nd.is_leaf ==> {
            &&& nd.children@.len() == nd.keys@.len() + 1
            &&& distinct(nd.children@)
            &&& forall|j: int| 0 <= j < nd.children@.len() ==> #[trigger] self.child_ok(n, j)
        }
    }

    /// Every node is well formed, where only node `over` may overflow by one.
    pub closed spec fn inv(self, over: int) -> bool {
        &&& self.order >= 2
        &&& self.levels@.len() == self.nodes@.len()
        &&& self.lo@.len() == self.nodes@.len()
        &&& self.hi@.len() == self.nodes@.len()
        &&& self.root < self.nodes@.len()
        &&& self.nodes@[self.root as int].parent is None
        &&& self.lo@[self.root as int] == 0
        &&& self.hi@[self.root as int] == usize::MAX
        &&& forall|n: int| 0 <= n < self.nodes@.len() ==> #[trigger] self.node_ok(n, over)
    }

    /// Leaf `n` holds the pair `e` at position `j`.
    pub closed spec fn holds_at(self, e: (usize, usize), n: int, j: int) -> bool {
        &&& 0 <= n < self.nodes@.len()
        &&& self.nodes@[n].is_leaf
        &&& 0 <= j < self.nodes@[n].keys@.len()
        &&& j < self.nodes@[n].values@.len()
        &&& self.nodes@[n].keys@[j] == e.0
        &&& self.nodes@[n].values@[j] == e.1
    }

    /// Some leaf holds the pair `e`.
    pub closed spec fn stored(self, e: (usize, usize)) -> bool {
        exists|n: int, j: int| self.holds_at(e, n, j)
    }

    /// Every inserted pair but `pending` is held by a leaf.
    pub closed spec fn complete(self, pending: Option<(usize, usize)>) -> bool {
        forall|e: (usize, usize)|
            #[trigger] self.entries@.contains(e) && pending != Some(e) ==> self.stored(e)
    }

    /// The leaf reached from node `n` by always taking the first child.
    pub closed spec fn leftmost(self, n: int, d: nat) -> int
        decreases d,
    {
        if d == 0 || self.nodes@[n].is_leaf {
            n
        } else {
            self.leftmost(self.nodes@[n].children@[0] as int, (d - 1) as nat)
        }
    }

    /// The forward links run from the leftmost leaf through every leaf once.
    pub closed spec fn chain_ok(self) -> bool {
        let ch = self.chain@;
        &&& ch.len() >= 1
        &&& distinct(ch)
        &&& forall|k: int|
            0 <= k < ch.len() ==> #[trigger] ch[k] < self.nodes@.len() && self.nodes@[ch[k] as int].is_leaf
        &&& forall|k: int| 0 <= k < ch.len() - 1 ==> self.nodes@[#[trigger] ch[k] as int].next == Some(ch[k + 1])
        &&& self.nodes@[ch.last() as int].next is None
        &&& forall|n: int|
            0 <= n < self.nodes@.len() && #[trigger] self.nodes@[n].is_leaf ==> ch.contains(n as usize)
        &&& ch[0] == self.leftmost(self.root as int, self.levels@[self.root as int])
    }

    /// Every node of `t0` above level `lvl` is as it was, bounds included.
    pub closed spec fn unchanged_above(self, t0: BTree, lvl: nat) -> bool {
        forall|m: int|
            #![trigger self.nodes@[m]]
            0 <= m < t0.nodes@.len() && t0.levels@[m] > lvl ==> self.nodes@[m] == t0.nodes@[m]
                && self.hi@[m] == t0.hi@[m]
    }

    /// Changing one node keeps every node above its level.
    proof fn lemma_unchanged_but_one(self, t0: BTree, n: int)
        requires
            0 <= n < t0.nodes@.len(),
            t0.levels@.len() == t0.nodes@.len(),
            self.nodes@ == t0.nodes@.update(n, self.nodes@[n]),
            self.hi == t0.hi,
        ensures
            self.unchanged_above(t0, t0.levels@[n]),
    {
        assert forall|m: int|
            #![trigger self.nodes@[m]]
            0 <= m < t0.nodes@.len() && t0.levels@[m] > t0.levels@[n] implies self.nodes@[m]
                == t0.nodes@[m] && self.hi@[m] == t0.hi@[m] by {
            assert(m != n);
        }
    }

    /// Two steps that each keep the nodes above a level keep them together.
    proof fn lemma_unchanged_compose(self, mid: BTree, t0: BTree, l1: nat, l2: nat)
        requires
            mid.unchanged_above(t0, l1),
            self.unchanged_above(mid, l2),
            l1 <= l2,
            mid.nodes@.len() >= t0.nodes@.len(),
            forall|m: int| 0 <= m < t0.nodes@.len() ==> mid.levels@[m] == t0.levels@[m],
        ensures
            self.unchanged_above(t0, l2),
    {
        assert forall|m: int|
            #![trigger self.nodes@[m]]
            0 <= m < t0.nodes@.len() && t0.levels@[m] > l2 implies self.nodes@[m] == t0.nodes@[m]
                && self.hi@[m] == t0.hi@[m] by {
            assert(mid.nodes@[m] == t0.nodes@[m]);
            assert(mid.levels@[m] == t0.levels@[m]);
        }
    }


    /// The tree is well formed, its leaves hold exactly the inserted pairs, and
    /// its leaf chain is whole.
    pub open spec fn wf(self) -> bool {
        self.inv(-1) && self.complete(None) && self.chain_ok() && self.searchable() && self.owned()
    }

    /// Node `n` is the root, or its parent holds it among its children.
    pub closed spec fn owned_at(self, n: int) -> bool {
        n == self.root || match self.nodes@[n].parent {
            Some(q) => q < self.nodes@.len() && self.nodes@[q as int].children@.contains(n as usize),
            None => false,
        }
    }

    /// Every node but the root is held by its parent.
    pub closed spec fn owned(self) -> bool {
        forall|n: int| 0 <= n < self.nodes@.len() ==> #[trigger] self.owned_at(n)
    }

    /// The descent for every inserted key reaches a leaf holding that key.
    pub closed spec fn searchable(self) -> bool {
        forall|e: (usize, usize)| #[trigger] self.entries@.contains(e) ==> self.finds(self.root as int, e.0)
    }

    /// Every key that the descent from the root found before is found after.
    pub closed spec fn keeps_found(self, t0: BTree) -> bool {
        forall|k: usize| #[trigger] t0.finds(t0.root as int, k) ==> self.finds(self.root as int, k)
    }

    /// Only the first-child links and the leaf flags decide the leftmost leaf.
    proof fn lemma_leftmost_frame(self, other: BTree, over: int, y: int)
        requires
            self.inv(over),
            0 <= y < self.nodes@.len(),
            other.nodes@.len() >= self.nodes@.len(),
            other.levels@.len() >= self.nodes@.len(),
            forall|m: int|
                0 <= m < self.nodes@.len() ==> {
                    &&& (#[trigger] other.nodes@[m]).is_leaf == self.nodes@[m].is_leaf
                    &&& other.levels@[m] == self.levels@[m]
                    &&& !self.nodes@[m].is_leaf ==> other.nodes@[m].children@.len() > 0
                        && other.nodes@[m].children@[0] == self.nodes@[m].children@[0]
                },
        ensures
            other.leftmost(y, other.levels@[y]) == self.leftmost(y, self.levels@[y]),
        decreases self.levels@[y],
    {
        assert(self.node_ok(y, over));
        assert(other.nodes@[y].is_leaf == self.nodes@[y].is_leaf);
        if !self.nodes@[y].is_leaf {
            assert(self.child_ok(y, 0));
            self.lemma_leftmost_frame(other, over, self.nodes@[y].children@[0] as int);
        }
    }

    /// The leaf that a search for `key` reaches from node `n` in `d` steps.
    pub closed spec fn leaf_for(self, n: int, key: usize, d: nat) -> int
        decreases d,
    {
        if d == 0 || self.nodes@[n].is_leaf {
            n
        } else {
            let nd = self.nodes@[n];
            self.leaf_for(nd.children@[count_le(nd.keys@, key) as int] as int, key, (d - 1) as nat)
        }
    }

    /// The leaf that the descent for `key` from node `n` reaches holds that key.
    pub closed spec fn finds(self, n: int, key: usize) -> bool {
        let l = self.leaf_for(n, key, self.levels@[n]);
        exists|j: int| 0 <= j < self.nodes@[l].keys@.len() && self.nodes@[l].keys@[j] == key
    }

    /// The descent from `y` reads only nodes at or below its level, so another
    /// arena that agrees on those nodes descends to the same leaf.
    proof fn lemma_leaf_for_frame(self, other: BTree, over: int, y: int, key: usize)
        requires
            self.inv(over),
            0 <= y < self.nodes@.len(),
            other.nodes@.len() >= self.nodes@.len(),
            other.levels@.len() >= self.nodes@.len(),
            forall|m: int|
                0 <= m < self.nodes@.len() && self.levels@[m] <= self.levels@[y] ==> {
                    &&& (#[trigger] other.nodes@[m]).keys == self.nodes@[m].keys
                    &&& other.nodes@[m].children == self.nodes@[m].children
                    &&& other.nodes@[m].is_leaf == self.nodes@[m].is_leaf
                    &&& other.levels@[m] == self.levels@[m]
                },
        ensures
            other.leaf_for(y, key, other.levels@[y]) == self.leaf_for(y, key, self.levels@[y]),
            0 <= self.leaf_for(y, key, self.levels@[y]) < self.nodes@.len(),
            self.levels@[self.leaf_for(y, key, self.levels@[y])] == 0,
        decreases self.levels@[y],
    {
        assert(self.node_ok(y, over));
        assert(other.nodes@[y].keys == self.nodes@[y].keys);
        let nd = self.nodes@[y];
        if !nd.is_leaf {
            let i = count_le(nd.keys@, key) as int;
            lemma_count_le_bound(nd.keys@, key);
            assert(self.child_ok(y, i));
            let c = nd.children@[i] as int;
            self.lemma_leaf_for_frame(other, over, c, key);
        }
    }

    /// The descent from `y` reads the leaf flags, and the keys and children of
    /// `y` and of the internal nodes below its level; an arena that agrees on
    /// those descends to the same leaf.
    proof fn lemma_leaf_for_frame2(self, other: BTree, over: int, y: int, key: usize)
        requires
            self.inv(over),
            0 <= y < self.nodes@.len(),
            other.nodes@.len() >= self.nodes@.len(),
            other.levels@.len() >= self.nodes@.len(),
            forall|m: int|
                0 <= m < self.nodes@.len() ==> {
                    &&& (#[trigger] other.nodes@[m]).is_leaf == self.nodes@[m].is_leaf
                    &&& other.levels@[m] == self.levels@[m]
                    &&& (m == y || self.levels@[m] < self.levels@[y]) && !self.nodes@[m].is_leaf ==> {
                        &&& other.nodes@[m].keys == self.nodes@[m].keys
                        &&& other.nodes@[m].children == self.nodes@[m].children
                    }
                },
        ensures
            other.leaf_for(y, key, other.levels@[y]) == self.leaf_for(y, key, self.levels@[y]),
            0 <= self.leaf_for(y, key, self.levels@[y]) < self.nodes@.len(),
            self.levels@[self.leaf_for(y, key, self.levels@[y])] == 0,
        decreases self.levels@[y],
    {
        assert(self.node_ok(y, over));
        assert(other.nodes@[y].is_leaf == self.nodes@[y].is_leaf);
        let nd = self.nodes@[y];
        if !nd.is_leaf {
            let i = count_le(nd.keys@, key) as int;
            lemma_count_le_bound(nd.keys@, key);
            assert(self.child_ok(y, i));
            let c = nd.children@[i] as int;
            self.lemma_leaf_for_frame2(other, over, c, key);
        }
    }

    /// A split of child `c` of `p` keeps every key that a descent from `y`
    /// found still found.
    proof fn lemma_split_keeps_finds(
        self,
        t0: BTree,
        p: int,
        i: int,
        c: int,
        r: int,
        sep: usize,
        y: int,
        k: usize,
    )
        requires
            t0.inv(c),
            0 <= p < t0.nodes@.len(),
            !t0.nodes@[p].is_leaf,
            0 <= i < t0.nodes@[p].children@.len(),
            c == t0.nodes@[p].children@[i],
            r == t0.nodes@.len(),
            r <= usize::MAX,
            self.nodes@.len() == r + 1,
            self.levels@.len() == r + 1,
            forall|m: int|
                0 <= m < r ==> (#[trigger] self.nodes@[m]).is_leaf == t0.nodes@[m].is_leaf
                    && self.levels@[m] == t0.levels@[m],
            forall|m: int|
                0 <= m < r && m != p && m != c ==> (#[trigger] self.nodes@[m]).keys == t0.nodes@[m].keys
                    && self.nodes@[m].children == t0.nodes@[m].children,
            self.nodes@[p].keys@ == t0.nodes@[p].keys@.insert(i, sep),
            self.nodes@[p].children@ == t0.nodes@[p].children@.insert(i + 1, r as usize),
            t0.lower(p, i) <= sep <= t0.upper(p, i),
            forall|kk: usize|
                count_le(t0.nodes@[p].keys@, kk) == i && #[trigger] t0.finds(c, kk) ==> self.finds(p, kk),
            0 <= y < r,
            y != c,
            t0.finds(y, k),
        ensures
            self.finds(y, k),
        decreases t0.levels@[y],
    {
        assert(t0.node_ok(y, c));
        assert(t0.node_ok(p, c));
        assert(t0.child_ok(p, i));
        let ny = t0.nodes@[y];
        let lv = t0.levels@[y];
        if y == p {
            let op = t0.nodes@[p];
            let np = self.nodes@[p];
            let j = count_le(op.keys@, k) as int;
            lemma_count_le_sorted(op.keys@, k);
            assert(t0.child_ok(p, j));
            let d = op.children@[j] as int;
            assert(t0.leaf_for(p, k, lv) == t0.leaf_for(d, k, (lv - 1) as nat));
            if j == i {
                assert(t0.finds(c, k));
            } else {
                assert(d != c) by {
                    assert(distinct(op.children@));
                }
                let jn: int = if j < i { j } else { j + 1 };
                if j < i {
                    assert forall|q: int| 0 <= q < j implies np.keys@[q] <= k by {
                        assert(np.keys@[q] == op.keys@[q]);
                    }
                    assert forall|q: int| j <= q < np.keys@.len() implies np.keys@[q] > k by {
                        if q < i {
                            assert(np.keys@[q] == op.keys@[q]);
                        } else if q > i {
                            assert(np.keys@[q] == op.keys@[q - 1]);
                        } else {
                            assert(op.keys@[i - 1] >= op.keys@[j]);
                        }
                    }
                    lemma_count_le_split(np.keys@, k, j);
                    assert(np.children@[j] == d);
                } else {
                    assert forall|q: int| 0 <= q < j + 1 implies np.keys@[q] <= k by {
                        if q < i {
                            assert(np.keys@[q] == op.keys@[q]);
                        } else if q > i {
                            assert(np.keys@[q] == op.keys@[q - 1]);
                        } else {
                            assert(op.keys@[i] <= op.keys@[j - 1]);
                        }
                    }
                    assert forall|q: int| j + 1 <= q < np.keys@.len() implies np.keys@[q] > k by {
                        assert(np.keys@[q] == op.keys@[q - 1]);
                    }
                    lemma_count_le_split(np.keys@, k, j + 1);
                    assert(np.children@[j + 1] == d);
                }
                assert(self.leaf_for(p, k, lv) == self.leaf_for(d, k, (lv - 1) as nat));
                assert forall|m: int| 0 <= m < t0.nodes@.len() implies {
                    &&& (#[trigger] self.nodes@[m]).is_leaf == t0.nodes@[m].is_leaf
                    &&& self.levels@[m] == t0.levels@[m]
                    &&& (m == d || t0.levels@[m] < t0.levels@[d]) && !t0.nodes@[m].is_leaf ==> {
                        &&& self.nodes@[m].keys == t0.nodes@[m].keys
                        &&& self.nodes@[m].children == t0.nodes@[m].children
                    }
                } by {
                    if m == c || m == p {
                        assert(t0.child_ok(p, i));
                    }
                }
                t0.lemma_leaf_for_frame2(self, c, d, k);
                let l = t0.leaf_for(d, k, (lv - 1) as nat);
                assert(t0.node_ok(l, c));
                assert(l != c && l != p);
                assert(self.nodes@[l].keys == t0.nodes@[l].keys);
            }
        } else if lv <= t0.levels@[c] {
            assert forall|m: int| 0 <= m < t0.nodes@.len() implies {
                &&& (#[trigger] self.nodes@[m]).is_leaf == t0.nodes@[m].is_leaf
                &&& self.levels@[m] == t0.levels@[m]
                &&& (m == y || t0.levels@[m] < t0.levels@[y]) && !t0.nodes@[m].is_leaf ==> {
                    &&& self.nodes@[m].keys == t0.nodes@[m].keys
                    &&& self.nodes@[m].children == t0.nodes@[m].children
                }
            } by {}
            t0.lemma_leaf_for_frame2(self, c, y, k);
            let l = t0.leaf_for(y, k, lv);
            assert(t0.node_ok(l, c));
            assert(l != c && l != p);
            assert(self.nodes@[l].keys == t0.nodes@[l].keys);
        } else {
            let j = count_le(ny.keys@, k) as int;
            lemma_count_le_bound(ny.keys@, k);
            assert(t0.child_ok(y, j));
            let d = ny.children@[j] as int;
            assert(d != c) by {
                assert(t0.nodes@[c].parent == Some(p as usize));
                assert(t0.nodes@[d].parent == Some(y as usize));
            }
            assert(t0.leaf_for(y, k, lv) == t0.leaf_for(d, k, (lv - 1) as nat));
            self.lemma_split_keeps_finds(t0, p, i, c, r, sep, d, k);
            assert(self.nodes@[y].keys == ny.keys && self.nodes@[y].children == ny.children);
            assert(self.leaf_for(y, k, lv) == self.leaf_for(d, k, (lv - 1) as nat));
        }
    }

    /// Adding a key to one leaf keeps every found key found.
    proof fn lemma_leaf_insert_keeps_found(self, t0: BTree, n: int, pos: int, key: usize)
        requires
            t0.inv(-1),
            0 <= n < t0.nodes@.len(),
            t0.nodes@[n].is_leaf,
            self.nodes@.len() == t0.nodes@.len(),
            self.levels == t0.levels,
            self.root == t0.root,
            forall|m: int| 0 <= m < t0.nodes@.len() && m != n ==> #[trigger] self.nodes@[m] == t0.nodes@[m],
            self.nodes@[n].is_leaf,
            0 <= pos <= t0.nodes@[n].keys@.len(),
            self.nodes@[n].keys@ == t0.nodes@[n].keys@.insert(pos, key),
        ensures
            self.keeps_found(t0),
    {
        let rt = t0.root as int;
        assert(t0.node_ok(rt, -1));
        assert forall|k: usize| #[trigger] t0.finds(t0.root as int, k) implies self.finds(self.root as int, k) by {
            assert forall|m: int| 0 <= m < t0.nodes@.len() implies {
                &&& (#[trigger] self.nodes@[m]).is_leaf == t0.nodes@[m].is_leaf
                &&& self.levels@[m] == t0.levels@[m]
                &&& (m == rt || t0.levels@[m] < t0.levels@[rt]) && !t0.nodes@[m].is_leaf ==> {
                    &&& self.nodes@[m].keys == t0.nodes@[m].keys
                    &&& self.nodes@[m].children == t0.nodes@[m].children
                }
            } by {
                if m != n {
                    assert(self.nodes@[m] == t0.nodes@[m]);
                }
            }
            t0.lemma_leaf_for_frame2(self, -1, rt, k);
            let l = t0.leaf_for(rt, k, t0.levels@[rt]);
            let j = choose|j: int| 0 <= j < t0.nodes@[l].keys@.len() && t0.nodes@[l].keys@[j] == k;
            if l == n {
                if j < pos {
                    assert(self.nodes@[l].keys@[j] == k);
                } else {
                    assert(self.nodes@[l].keys@[j + 1] == k);
                }
            } else {
                assert(self.nodes@[l] == t0.nodes@[l]);
                assert(self.nodes@[l].keys@[j] == k);
            }
        }
    }

    /// What a lookup of `key` finds: the first entry with that key in the leaf
    /// that the descent by separators reaches.
    pub open spec fn lookup(self, key: usize) -> Option<usize> {
        leaf_lookup(self.arena()[self.leaf_for(self.root_index(), key, self.level(self.root_index()))], key)
    }

    /// An empty tree whose nodes split when they exceed `order - 1` keys.
    pub fn new(order: usize) -> (t: BTree)
        requires
            order >= 2,
        ensures
            t.wf(),
            t.order_spec() == order,
            t.entries() == Set::<(usize, usize)>::empty(),
            t.arena().len() == 1,
            t.root_index() == 0,
            t.arena()[0].order == order,
            t.arena()[0].keys@.len() == 0,
            t.arena()[0].values@.len() == 0,
            t.arena()[0].children@.len() == 0,
            t.arena()[0].next is None,
            t.arena()[0].parent is None,
            t.arena()[0].is_leaf,
            t.level(0) == 0,
    {
        let mut nodes: Vec<Node> = Vec::new();
        nodes.push(Node::new(order));
        let ghost levels = seq![0nat];
        let ghost lo = seq![0int];
        let ghost hi = seq![usize::MAX as int];
        let ghost chain = seq![0usize];
        let t = BTree {
            nodes,
            root: 0,
            order,
            levels: Ghost(levels),
            lo: Ghost(lo),
            hi: Ghost(hi),
            entries: Ghost(Set::empty()),
            chain: Ghost(chain),
        };
        assert(t.node_ok(0, -1));
        t
    }

    /// The current root, for inspection.
    pub fn root(&self) -> (r: &Node)
        requires
            self.wf(),
        ensures
            *r == self.arena()[self.root_index()],
    {
        &self.nodes[self.root]
    }

    /// The number of nodes in the arena.
    pub fn node_count(&self) -> (r: usize)
        ensures
            r == self.arena().len(),
    {
        self.nodes.len()
    }

    /// The node at arena index `i`, for inspection; children and leaf links
    /// are indices into the same arena.
    pub fn node(&self, i: usize) -> (r: &Node)
        requires
            i < self.arena().len(),
        ensures
            *r == self.arena()[i as int],
    {
        &self.nodes[i]
    }

    /// The value stored under `key`, found by descending by separators to a
    /// leaf and taking its first entry with that key. Where copies of a key
    /// span several leaves, that is the first copy in the leaf the descent
    /// reaches, which need not be the copy inserted first.
    pub fn get(&self, key: usize) -> (r: Option<usize>)
        requires
            self.wf(),
        ensures
            r == self.lookup(key),
            r matches Some(v) ==> self.entries().contains((key, v)),
    {
        let mut cur = self.root;
        while !self.nodes[cur].is_leaf
            invariant
                self.wf(),
                0 <= cur < self.nodes@.len(),
                self.leaf_for(cur as int, key, self.levels@[cur as int]) == self.leaf_for(
                    self.root as int,
                    key,
                    self.levels@[self.root as int],
                ),
            decreases self.levels@[cur as int],
        {
            assert(self.node_ok(cur as int, -1));
            let i = self.nodes[cur].position(key);
            assert(self.child_ok(cur as int, i as int));
            cur = self.nodes[cur].children[i];
        }
        assert(self.node_ok(cur as int, -1));
        let r = self.nodes[cur].get(key);
        proof {
            let nd = self.nodes@[cur as int];
            if r is Some {
                let j = choose|j: int| first_index(nd.keys@, key, j) && r == Some(nd.values@[j]);
                let j2 = choose|j: int| first_index(nd.keys@, key, j);
                assert(j == j2) by {
                    if j < j2 {
                        assert(nd.keys@[j] != key);
                    } else if j2 < j {
                        assert(nd.keys@[j2] != key);
                    }
                }
            } else {
                assert(!exists|j: int| first_index(nd.keys@, key, j));
            }
        }
        r
    }
}

/// `a` and `b` agree on everything but their parent link.
pub open spec fn same_but_parent(a: Node, b: Node) -> bool {
    &&& a.order == b.order
    &&& a.keys == b.keys
    &&& a.values == b.values
    &&& a.next == b.next
    &&& a.children == b.children
    &&& a.is_leaf == b.is_leaf
}

impl BTree {

    /// The split keeps the leaf chain whole: a new right leaf joins it just
    /// after the leaf it came from.
    #[verifier::rlimit(60)]
    proof fn lemma_split_chain(self, t0: BTree, t1: BTree, p: int, c: int, r: int, idx: int)
        requires
            t0.inv(c),
            t0.chain_ok(),
            0 <= p < t0.nodes@.len(),
            0 <= c < t0.nodes@.len(),
            !t0.nodes@[p].is_leaf,
            r == t0.nodes@.len(),
            r <= usize::MAX,
            self.nodes@.len() == r + 1,
            self.root == t0.root,
            self.chain == t1.chain,
            t0.nodes@[c].is_leaf ==> 0 <= idx < t0.chain@.len() && t0.chain@[idx] == c
                && t1.chain@ == t0.chain@.insert(idx + 1, r as usize),
            !t0.nodes@[c].is_leaf ==> t1.chain == t0.chain,
            self.levels@[t0.root as int] == t0.levels@[t0.root as int],
            self.leftmost(t0.root as int, t0.levels@[t0.root as int]) == t0.leftmost(
                t0.root as int,
                t0.levels@[t0.root as int],
            ),
            forall|m: int|
                0 <= m < r && m != c ==> (#[trigger] self.nodes@[m]).is_leaf == t0.nodes@[m].is_leaf
                    && self.nodes@[m].next == t0.nodes@[m].next,
            self.nodes@[c].is_leaf == t0.nodes@[c].is_leaf,
            self.nodes@[r].is_leaf == t0.nodes@[c].is_leaf,
            t0.nodes@[c].is_leaf ==> self.nodes@[c].next == Some(r as usize) && self.nodes@[r].next
                == t0.nodes@[c].next,
        ensures
            self.chain_ok(),
    {
        let ch0 = t0.chain@;
        let ch = self.chain@;
        assert forall|k: int| 0 <= k < ch0.len() implies #[trigger] ch0[k] < r by {}
        if t0.nodes@[c].is_leaf {
            assert(distinct(ch)) by {
                assert forall|a: int, b: int| 0 <= a < ch.len() && 0 <= b < ch.len() && a != b implies ch[a]
                    != ch[b] by {
                    let a0 = if a <= idx { a } else { a - 1 };
                    let b0 = if b <= idx { b } else { b - 1 };
                    if a != idx + 1 && b != idx + 1 {
                        assert(ch[a] == ch0[a0] && ch[b] == ch0[b0]);
                    } else if a == idx + 1 {
                        assert(ch[b] == ch0[b0]);
                    } else {
                        assert(ch[a] == ch0[a0]);
                    }
                }
            }
            assert forall|k: int| 0 <= k < ch.len() implies #[trigger] ch[k] < self.nodes@.len()
                && self.nodes@[ch[k] as int].is_leaf by {
                if k <= idx {
                    assert(ch[k] == ch0[k]);
                } else if k > idx + 1 {
                    assert(ch[k] == ch0[k - 1]);
                }
            }
            assert forall|k: int| 0 <= k < ch.len() - 1 implies self.nodes@[#[trigger] ch[k] as int].next
                == Some(ch[k + 1]) by {
                if k < idx {
                    assert(ch[k] == ch0[k] && ch[k + 1] == ch0[k + 1]);
                    assert(ch0[k] != c);
                } else if k == idx {
                    assert(ch[k] == c && ch[k + 1] == r);
                } else if k == idx + 1 {
                    assert(ch[k] == r && ch[k + 1] == ch0[idx + 1]);
                } else {
                    assert(ch[k] == ch0[k - 1] && ch[k + 1] == ch0[k]);
                    assert(ch0[k - 1] != c);
                }
            }
            if idx == ch0.len() - 1 {
                assert(ch.last() == r);
            } else {
                assert(ch.last() == ch0.last());
                assert(ch0.last() != c);
            }
            assert forall|m: int| 0 <= m < self.nodes@.len() && #[trigger] self.nodes@[m].is_leaf implies ch.contains(
                m as usize,
            ) by {
                if m == r {
                    assert(ch[idx + 1] == r);
                } else {
                    assert(t0.nodes@[m].is_leaf);
                    assert(ch0.contains(m as usize));
                    let k = choose|k: int| 0 <= k < ch0.len() && ch0[k] == m;
                    if k <= idx {
                        assert(ch[k] == m);
                    } else {
                        assert(ch[k + 1] == m);
                    }
                }
            }
            assert(ch[0] == ch0[0]);
        } else {
            assert forall|k: int| 0 <= k < ch.len() implies #[trigger] ch[k] < self.nodes@.len()
                && self.nodes@[ch[k] as int].is_leaf by {
                assert(ch[k] == ch0[k]);
            }
            assert forall|k: int| 0 <= k < ch.len() - 1 implies self.nodes@[#[trigger] ch[k] as int].next
                == Some(ch[k + 1]) by {
                assert(ch[k] == ch0[k]);
            }
            assert(ch.last() != c);
            assert forall|m: int| 0 <= m < self.nodes@.len() && #[trigger] self.nodes@[m].is_leaf implies ch.contains(
                m as usize,
            ) by {
                assert(t0.nodes@[m].is_leaf);
            }
        }
    }

    /// After the split, the descent for a key that used to reach a leaf holding
    /// it through `c` reaches such a leaf through `p`.
    #[verifier::rlimit(60)]
    proof fn lemma_split_finds(
        self,
        t0: BTree,
        t1: BTree,
        p: int,
        i: int,
        c: int,
        r: int,
        mid: int,
        sep: usize,
        key: usize,
        idx: int,
    )
        requires
            t0.inv(c),
            count_le(t0.nodes@[p].keys@, key) == i,
            t0.chain_ok(),
            t0.nodes@[c].is_leaf ==> 0 <= idx < t0.chain@.len() && t0.chain@[idx] == c
                && t1.chain@ == t0.chain@.insert(idx + 1, r as usize),
            !t0.nodes@[c].is_leaf ==> t1.chain == t0.chain,
            self.chain == t1.chain,
            t0.complete(None),
            0 <= p < t0.nodes@.len(),
            !t0.nodes@[p].is_leaf,
            0 <= i < t0.nodes@[p].children@.len(),
            c == t0.nodes@[p].children@[i],
            t0.nodes@[c].keys@.len() == t0.order,
            t0.nodes@[p].keys@.len() < t0.order,
            r == t0.nodes@.len(),
            r <= usize::MAX,
            mid == t0.order / 2,
            sep == t0.nodes@[c].keys@[mid],
            ({
                let oc = t0.nodes@[c];
                let left = t1.nodes@[c];
                let right = t1.nodes@[r];
                &&& left.order == oc.order
                &&& left.is_leaf == oc.is_leaf
                &&& left.parent == oc.parent
                &&& left.keys@ == oc.keys@.subrange(0, mid)
                &&& right.order == t0.order
                &&& right.is_leaf == oc.is_leaf
                &&& right.parent == Some(p as usize)
                &&& oc.is_leaf ==> {
                    &&& right.keys@ == oc.keys@.subrange(mid, oc.keys@.len() as int)
                    &&& left.values@ == oc.values@.subrange(0, mid)
                    &&& right.values@ == oc.values@.subrange(mid, oc.values@.len() as int)
                    &&& left.next == Some(r as usize)
                    &&& right.next == oc.next
                    &&& left.children@.len() == 0
                    &&& right.children@.len() == 0
                }
                &&& !oc.is_leaf ==> {
                    &&& right.keys@ == oc.keys@.subrange(mid + 1, oc.keys@.len() as int)
                    &&& left.children@ == oc.children@.subrange(0, mid + 1)
                    &&& right.children@ == oc.children@.subrange(mid + 1, oc.children@.len() as int)
                }
            }),
            t1.nodes@.len() == r + 1,
            t1.nodes@[p].keys@ == t0.nodes@[p].keys@.insert(i, sep),
            t1.nodes@[p].children@ == t0.nodes@[p].children@.insert(i + 1, r as usize),
            t1.nodes@[p].order == t0.nodes@[p].order,
            t1.nodes@[p].values == t0.nodes@[p].values,
            t1.nodes@[p].next == t0.nodes@[p].next,
            t1.nodes@[p].parent == t0.nodes@[p].parent,
            t1.nodes@[p].is_leaf == t0.nodes@[p].is_leaf,
            forall|m: int| 0 <= m < r && m != p && m != c ==> t1.nodes@[m] == t0.nodes@[m],
            t1.levels@ == t0.levels@.push(t0.levels@[c]),
            t1.lo@ == t0.lo@.push(sep as int),
            t1.hi@ == t0.hi@.push(t0.hi@[c]).update(c, sep as int),
            t1.entries == t0.entries,
            t1.root == t0.root,
            t1.order == t0.order,
            self.nodes@.len() == t1.nodes@.len(),
            self.levels == t1.levels,
            self.lo == t1.lo,
            self.hi == t1.hi,
            self.entries == t1.entries,
            self.root == t1.root,
            self.order == t1.order,
            forall|m: int|
                0 <= m < t1.nodes@.len() ==> same_but_parent(
                    #[trigger] self.nodes@[m],
                    t1.nodes@[m],
                ),
            forall|m: int|
                0 <= m < t1.nodes@.len() ==> (#[trigger] self.nodes@[m]).parent == if t1.nodes@[
                    r].children@.contains(m as usize) {
                    Some(r as usize)
                } else {
                    t1.nodes@[m].parent
                },
            self.node_ok(p, p),
            self.nodes@[p] == t1.nodes@[p],
            self.nodes@[c].keys == t1.nodes@[c].keys,
            self.nodes@[c].children == t1.nodes@[c].children,
            self.nodes@[r] == t1.nodes@[r],
            t0.finds(c, key),
        ensures
            self.finds(p, key),
    {
        let oc = t0.nodes@[c];
        let op = t0.nodes@[p];
        let np = self.nodes@[p];
        let lv = t0.levels@[c];
        assert(t0.node_ok(p, c));
        assert(t0.child_ok(p, i));
        assert(t0.node_ok(c, c));
        lemma_count_le_sorted(op.keys@, key);
        let child: int = if key < sep { c } else { r };
        if key < sep {
            assert forall|j: int| 0 <= j < i implies np.keys@[j] <= key by {
                assert(np.keys@[j] == op.keys@[j]);
            }
            assert forall|j: int| i <= j < np.keys@.len() implies np.keys@[j] > key by {
                if j > i {
                    assert(np.keys@[j] == op.keys@[j - 1]);
                }
            }
            lemma_count_le_split(np.keys@, key, i);
            assert(np.children@[i] == c);
        } else {
            assert forall|j: int| 0 <= j < i + 1 implies np.keys@[j] <= key by {
                if j < i {
                    assert(np.keys@[j] == op.keys@[j]);
                }
            }
            assert forall|j: int| i + 1 <= j < np.keys@.len() implies np.keys@[j] > key by {
                assert(np.keys@[j] == op.keys@[j - 1]);
            }
            lemma_count_le_split(np.keys@, key, i + 1);
            assert(np.children@[i + 1] == r);
        }
        assert(self.levels@[p] == lv + 1);
        assert(self.levels@[child] == lv);
        assert(self.leaf_for(p, key, self.levels@[p]) == self.leaf_for(child, key, lv));
        let l0 = t0.leaf_for(c, key, lv);
        let jw = choose|j: int| 0 <= j < t0.nodes@[l0].keys@.len() && t0.nodes@[l0].keys@[j] == key;
        if lv == 0 {
            assert(l0 == c);
            assert(self.leaf_for(child, key, lv) == child);
            if key < sep {
                if jw >= mid {
                    assert(oc.keys@[jw] >= oc.keys@[mid]);
                }
                assert(self.nodes@[c].keys@[jw] == key);
            } else if key == sep {
                assert(self.nodes@[r].keys@[0] == key);
            } else {
                if jw < mid {
                    assert(oc.keys@[jw] <= oc.keys@[mid]);
                }
                assert(self.nodes@[r].keys@[jw - mid] == key);
            }
        } else {
            let ic = count_le(oc.keys@, key) as int;
            lemma_count_le_sorted(oc.keys@, key);
            let y = oc.children@[ic] as int;
            assert(l0 == t0.leaf_for(y, key, (lv - 1) as nat));
            assert(t0.child_ok(c, ic));
            if key < sep {
                assert(ic <= mid);
                let nk = self.nodes@[c].keys@;
                assert forall|j: int| 0 <= j < ic implies nk[j] <= key by {
                    assert(nk[j] == oc.keys@[j]);
                }
                assert forall|j: int| ic <= j < nk.len() implies nk[j] > key by {
                    assert(nk[j] == oc.keys@[j]);
                }
                lemma_count_le_split(nk, key, ic);
                assert(self.nodes@[c].children@[ic] == y);
            } else {
                assert(ic > mid);
                let nk = self.nodes@[r].keys@;
                assert forall|j: int| 0 <= j < ic - mid - 1 implies nk[j] <= key by {
                    assert(nk[j] == oc.keys@[mid + 1 + j]);
                }
                assert forall|j: int| ic - mid - 1 <= j < nk.len() implies nk[j] > key by {
                    assert(nk[j] == oc.keys@[mid + 1 + j]);
                }
                lemma_count_le_split(nk, key, ic - mid - 1);
                assert(self.nodes@[r].children@[ic - mid - 1] == y);
            }
            assert(self.leaf_for(child, key, lv) == self.leaf_for(y, key, (lv - 1) as nat));
            assert forall|m: int|
                0 <= m < t0.nodes@.len() && t0.levels@[m] <= t0.levels@[y] implies {
                    &&& (#[trigger] self.nodes@[m]).keys == t0.nodes@[m].keys
                    &&& self.nodes@[m].children == t0.nodes@[m].children
                    &&& self.nodes@[m].is_leaf == t0.nodes@[m].is_leaf
                    &&& self.levels@[m] == t0.levels@[m]
                } by {
                assert(t0.node_ok(p, c));
                assert(same_but_parent(self.nodes@[m], t1.nodes@[m]));
            }
            t0.lemma_leaf_for_frame(self, c, y, key);
            assert(self.nodes@[l0].keys == t0.nodes@[l0].keys);
            assert(self.nodes@[l0].keys@[jw] == key);
        }
    }

    /// The split keeps every node held by its parent: the new node and the
    /// children that moved to it are held by their new parents.
    #[verifier::rlimit(60)]
    proof fn lemma_split_owned(
        self,
        t0: BTree,
        t1: BTree,
        p: int,
        i: int,
        c: int,
        r: int,
        mid: int,
        sep: usize,
        key: usize,
        idx: int,
    )
        requires
            t0.inv(c),
            count_le(t0.nodes@[p].keys@, key) == i,
            t0.chain_ok(),
            t0.nodes@[c].is_leaf ==> 0 <= idx < t0.chain@.len() && t0.chain@[idx] == c
                && t1.chain@ == t0.chain@.insert(idx + 1, r as usize),
            !t0.nodes@[c].is_leaf ==> t1.chain == t0.chain,
            self.chain == t1.chain,
            t0.complete(None),
            t0.owned(),
            0 <= p < t0.nodes@.len(),
            !t0.nodes@[p].is_leaf,
            0 <= i < t0.nodes@[p].children@.len(),
            c == t0.nodes@[p].children@[i],
            t0.nodes@[c].keys@.len() == t0.order,
            t0.nodes@[p].keys@.len() < t0.order,
            r == t0.nodes@.len(),
            r <= usize::MAX,
            mid == t0.order / 2,
            sep == t0.nodes@[c].keys@[mid],
            ({
                let oc = t0.nodes@[c];
                let left = t1.nodes@[c];
                let right = t1.nodes@[r];
                &&& left.order == oc.order
                &&& left.is_leaf == oc.is_leaf
                &&& left.parent == oc.parent
                &&& left.keys@ == oc.keys@.subrange(0, mid)
                &&& right.order == t0.order
                &&& right.is_leaf == oc.is_leaf
                &&& right.parent == Some(p as usize)
                &&& oc.is_leaf ==> {
                    &&& right.keys@ == oc.keys@.subrange(mid, oc.keys@.len() as int)
                    &&& left.values@ == oc.values@.subrange(0, mid)
                    &&& right.values@ == oc.values@.subrange(mid, oc.values@.len() as int)
                    &&& left.next == Some(r as usize)
                    &&& right.next == oc.next
                    &&& left.children@.len() == 0
                    &&& right.children@.len() == 0
                }
                &&& !oc.is_leaf ==> {
                    &&& right.keys@ == oc.keys@.subrange(mid + 1, oc.keys@.len() as int)
                    &&& left.children@ == oc.children@.subrange(0, mid + 1)
                    &&& right.children@ == oc.children@.subrange(mid + 1, oc.children@.len() as int)
                }
            }),
            t1.nodes@.len() == r + 1,
            t1.nodes@[p].keys@ == t0.nodes@[p].keys@.insert(i, sep),
            t1.nodes@[p].children@ == t0.nodes@[p].children@.insert(i + 1, r as usize),
            t1.nodes@[p].order == t0.nodes@[p].order,
            t1.nodes@[p].values == t0.nodes@[p].values,
            t1.nodes@[p].next == t0.nodes@[p].next,
            t1.nodes@[p].parent == t0.nodes@[p].parent,
            t1.nodes@[p].is_leaf == t0.nodes@[p].is_leaf,
            forall|m: int| 0 <= m < r && m != p && m != c ==> t1.nodes@[m] == t0.nodes@[m],
            t1.levels@ == t0.levels@.push(t0.levels@[c]),
            t1.lo@ == t0.lo@.push(sep as int),
            t1.hi@ == t0.hi@.push(t0.hi@[c]).update(c, sep as int),
            t1.entries == t0.entries,
            t1.root == t0.root,
            t1.order == t0.order,
            self.nodes@.len() == t1.nodes@.len(),
            self.levels == t1.levels,
            self.lo == t1.lo,
            self.hi == t1.hi,
            self.entries == t1.entries,
            self.root == t1.root,
            self.order == t1.order,
            forall|m: int|
                0 <= m < t1.nodes@.len() ==> same_but_parent(
                    #[trigger] self.nodes@[m],
                    t1.nodes@[m],
                ),
            forall|m: int|
                0 <= m < t1.nodes@.len() ==> (#[trigger] self.nodes@[m]).parent == if t1.nodes@[
                    r].children@.contains(m as usize) {
                    Some(r as usize)
                } else {
                    t1.nodes@[m].parent
                },
        ensures
            self.owned(),
    {
        let oc = t0.nodes@[c];
        let op = t0.nodes@[p];
        let moved = t1.nodes@[r].children@;
        assert(t0.node_ok(p, c));
        assert(t0.child_ok(p, i));
        assert(t0.node_ok(c, c));
        assert(same_but_parent(self.nodes@[p], t1.nodes@[p]));
        assert(same_but_parent(self.nodes@[r], t1.nodes@[r]));
        assert(same_but_parent(self.nodes@[c], t1.nodes@[c]));
        assert forall|m: int| 0 <= m < self.nodes@.len() implies #[trigger] self.owned_at(m) by {
            if m != self.root {
                let np = self.nodes@[p];
                if m == r {
                    assert(!moved.contains(r as usize)) by {
                        if moved.contains(r as usize) {
                            let k = choose|k: int| 0 <= k < moved.len() && moved[k] == r as usize;
                            assert(moved[k] == oc.children@[mid + 1 + k]);
                            assert(t0.child_ok(c, mid + 1 + k));
                        }
                    }
                    assert(np.children@[i + 1] == r as usize);
                } else if moved.contains(m as usize) {
                    assert(self.nodes@[m].parent == Some(r as usize));
                    assert(self.nodes@[r].children@ == moved);
                } else {
                    assert(t0.owned_at(m));
                    assert(m != t0.root);
                    let q = t0.nodes@[m].parent->0 as int;
                    let k = choose|k: int| 0 <= k < t0.nodes@[q].children@.len() && t0.nodes@[q].children@[k] == m as usize;
                    assert(t0.node_ok(q, c));
                    assert(t0.child_ok(q, k));
                    assert(same_but_parent(self.nodes@[m], t1.nodes@[m]));
                    if m == c || m == p {
                        assert(self.nodes@[m].parent == t0.nodes@[m].parent);
                    } else {
                        assert(t1.nodes@[m] == t0.nodes@[m]);
                    }
                    assert(self.nodes@[m].parent == Some(q as usize));
                    if q == p {
                        if k <= i {
                            assert(np.children@[k] == m as usize);
                        } else {
                            assert(np.children@[k + 1] == m as usize);
                        }
                    } else if q == c {
                        if k > mid {
                            assert(moved[k - mid - 1] == m as usize);
                        }
                        assert(self.nodes@[c].children@[k] == m as usize);
                    } else {
                        assert(same_but_parent(self.nodes@[q], t1.nodes@[q]));
                        assert(t1.nodes@[q] == t0.nodes@[q]);
                        assert(self.nodes@[q].children@[k] == m as usize);
                    }
                }
            }
        }
    }

    #[verifier::rlimit(60)]
    proof fn lemma_split_child_ok(
        self,
        t0: BTree,
        t1: BTree,
        p: int,
        i: int,
        c: int,
        r: int,
        mid: int,
        sep: usize,
        key: usize,
        idx: int,
    )
        requires
            t0.inv(c),
            count_le(t0.nodes@[p].keys@, key) == i,
            t0.chain_ok(),
            t0.nodes@[c].is_leaf ==> 0 <= idx < t0.chain@.len() && t0.chain@[idx] == c
                && t1.chain@ == t0.chain@.insert(idx + 1, r as usize),
            !t0.nodes@[c].is_leaf ==> t1.chain == t0.chain,
            self.chain == t1.chain,
            t0.complete(None),
            0 <= p < t0.nodes@.len(),
            !t0.nodes@[p].is_leaf,
            0 <= i < t0.nodes@[p].children@.len(),
            c == t0.nodes@[p].children@[i],
            t0.nodes@[c].keys@.len() == t0.order,
            t0.nodes@[p].keys@.len() < t0.order,
            r == t0.nodes@.len(),
            r <= usize::MAX,
            mid == t0.order / 2,
            sep == t0.nodes@[c].keys@[mid],
            ({
                let oc = t0.nodes@[c];
                let left = t1.nodes@[c];
                let right = t1.nodes@[r];
                &&& left.order == oc.order
                &&& left.is_leaf == oc.is_leaf
                &&& left.parent == oc.parent
                &&& left.keys@ == oc.keys@.subrange(0, mid)
                &&& right.order == t0.order
                &&& right.is_leaf == oc.is_leaf
                &&& right.parent == Some(p as usize)
                &&& oc.is_leaf ==> {
                    &&& right.keys@ == oc.keys@.subrange(mid, oc.keys@.len() as int)
                    &&& left.values@ == oc.values@.subrange(0, mid)
                    &&& right.values@ == oc.values@.subrange(mid, oc.values@.len() as int)
                    &&& left.next == Some(r as usize)
                    &&& right.next == oc.next
                    &&& left.children@.len() == 0
                    &&& right.children@.len() == 0
                }
                &&& !oc.is_leaf ==> {
                    &&& right.keys@ == oc.keys@.subrange(mid + 1, oc.keys@.len() as int)
                    &&& left.children@ == oc.children@.subrange(0, mid + 1)
                    &&& right.children@ == oc.children@.subrange(mid + 1, oc.children@.len() as int)
                }
            }),
            t1.nodes@.len() == r + 1,
            t1.nodes@[p].keys@ == t0.nodes@[p].keys@.insert(i, sep),
            t1.nodes@[p].children@ == t0.nodes@[p].children@.insert(i + 1, r as usize),
            t1.nodes@[p].order == t0.nodes@[p].order,
            t1.nodes@[p].values == t0.nodes@[p].values,
            t1.nodes@[p].next == t0.nodes@[p].next,
            t1.nodes@[p].parent == t0.nodes@[p].parent,
            t1.nodes@[p].is_leaf == t0.nodes@[p].is_leaf,
            forall|m: int| 0 <= m < r && m != p && m != c ==> t1.nodes@[m] == t0.nodes@[m],
            t1.levels@ == t0.levels@.push(t0.levels@[c]),
            t1.lo@ == t0.lo@.push(sep as int),
            t1.hi@ == t0.hi@.push(t0.hi@[c]).update(c, sep as int),
            t1.entries == t0.entries,
            t1.root == t0.root,
            t1.order == t0.order,
            self.nodes@.len() == t1.nodes@.len(),
            self.levels == t1.levels,
            self.lo == t1.lo,
            self.hi == t1.hi,
            self.entries == t1.entries,
            self.root == t1.root,
            self.order == t1.order,
            forall|m: int|
                0 <= m < t1.nodes@.len() ==> same_but_parent(
                    #[trigger] self.nodes@[m],
                    t1.nodes@[m],
                ),
            forall|m: int|
                0 <= m < t1.nodes@.len() ==> (#[trigger] self.nodes@[m]).parent == if t1.nodes@[
                    r].children@.contains(m as usize) {
                    Some(r as usize)
                } else {
                    t1.nodes@[m].parent
                },
        ensures
            self.inv(p),
            self.complete(None),
            self.chain_ok(),
            self.keeps_found(t0),
            t0.finds(c, key) ==> self.finds(p, key),
            forall|m: int|
                #![trigger self.nodes@[m]]
                0 <= m < t0.nodes@.len() && t0.levels@[m] >= t0.levels@[p] && m != p
                    ==> self.nodes@[m] == t0.nodes@[m] && self.hi@[m] == t0.hi@[m],
            self.nodes@[p].parent == t0.nodes@[p].parent,
    {
        let oc = t0.nodes@[c];
        let op = t0.nodes@[p];
        let moved = t1.nodes@[r].children@;
        assert(t0.node_ok(p, c));
        assert(t0.child_ok(p, i));
        assert(t0.node_ok(c, c));
        assert(t0.lo@[c] <= sep <= t0.hi@[c]) by {
            assert(oc.keys@[mid] == sep);
        }
        // Nodes that moved to the right half were children of `c`, one level below it.
        assert forall|m: int| 0 <= m < t1.nodes@.len() && moved.contains(m as usize) implies
            t0.levels@[m] + 1 == t0.levels@[c] && t0.nodes@[m].parent == Some(c as usize) && m < r
            && m != c && m != p && exists|k: int| mid + 1 <= k < oc.children@.len() && oc.children@[k] == m by {
            let k = choose|k: int| 0 <= k < moved.len() && moved[k] == m;
            assert(!oc.is_leaf);
            assert(moved[k] == oc.children@[mid + 1 + k]);
            assert(t0.child_ok(c, mid + 1 + k));
        }
        assert forall|m: int| 0 <= m < t1.nodes@.len() && !moved.contains(m as usize) implies
            self.nodes@[m] == t1.nodes@[m] by {
            assert(same_but_parent(self.nodes@[m], t1.nodes@[m]));
        }
        assert(!moved.contains(p as usize));
        assert(!moved.contains(c as usize));
        assert(!moved.contains(r as usize)) by {
            if moved.contains(r as usize) {
                let k = choose|k: int| 0 <= k < moved.len() && moved[k] == r;
                assert(!oc.is_leaf);
                assert(moved[k] == oc.children@[mid + 1 + k]);
                assert(t0.child_ok(c, mid + 1 + k));
            }
        }
        assert forall|m: int| 0 <= m < self.nodes@.len() implies #[trigger] self.node_ok(m, p) by {
            if m == p {
                let np = self.nodes@[p];
                assert(np == t1.nodes@[p]);
                let klen = op.keys@.len() as int;
                if i > 0 {
                    assert(t0.lower(p, i) == op.keys@[i - 1]);
                }
                if i < klen {
                    assert(t0.upper(p, i) == op.keys@[i]);
                }
                assert(sorted(np.keys@)) by {
                    assert forall|a: int, b: int| 0 <= a <= b < np.keys@.len() implies np.keys@[a]
                        <= np.keys@[b] by {
                        if a < i && b > i {
                            assert(np.keys@[b] == op.keys@[b - 1]);
                        } else if a > i {
                            assert(np.keys@[a] == op.keys@[a - 1]);
                        }
                    }
                }
                assert forall|j: int| 0 <= j < np.keys@.len() implies self.lo@[p] <= #[trigger] np.keys@[j]
                    <= self.hi@[p] by {
                    if j < i {
                        assert(np.keys@[j] == op.keys@[j]);
                    } else if j > i {
                        assert(np.keys@[j] == op.keys@[j - 1]);
                    } else {
                        if i > 0 {
                            assert(self.lo@[p] <= op.keys@[i - 1]);
                        }
                        if i < klen {
                            assert(op.keys@[i] <= self.hi@[p]);
                        }
                    }
                }
                assert(distinct(np.children@)) by {
                    assert forall|k: int| 0 <= k < op.children@.len() implies op.children@[k] < r by {
                        assert(t0.child_ok(p, k));
                    }
                    assert forall|a: int, b: int|
                        0 <= a < np.children@.len() && 0 <= b < np.children@.len() && a != b implies
                        np.children@[a] != np.children@[b] by {
                        let a0 = if a <= i { a } else { a - 1 };
                        let b0 = if b <= i { b } else { b - 1 };
                        if a != i + 1 && b != i + 1 {
                            assert(np.children@[a] == op.children@[a0]);
                            assert(np.children@[b] == op.children@[b0]);
                        } else if a == i + 1 {
                            assert(np.children@[b] == op.children@[b0]);
                        } else {
                            assert(np.children@[a] == op.children@[a0]);
                        }
                    }
                }
                assert forall|j: int| 0 <= j < np.children@.len() implies #[trigger] self.child_ok(p, j) by {
                    if j < i {
                        let y = op.children@[j];
                        assert(np.children@[j] == y);
                        assert(t0.child_ok(p, j));
                        assert(y != c) by { assert(op.children@[i] == c); }
                        assert(!moved.contains(y));
                        if j > 0 {
                            assert(np.keys@[j - 1] == op.keys@[j - 1]);
                        }
                        assert(np.keys@[j] == op.keys@[j]);
                    } else if j == i {
                        assert(np.children@[j] == c);
                        if j > 0 {
                            assert(np.keys@[j - 1] == op.keys@[j - 1]);
                        }
                        assert(np.keys@[j] == sep);
                    } else if j == i + 1 {
                        assert(np.children@[j] == r);
                        assert(np.keys@[i] == sep);
                        if i < klen {
                            assert(np.keys@[i + 1] == op.keys@[i]);
                        }
                    } else {
                        let y = op.children@[j - 1];
                        assert(np.children@[j] == y);
                        assert(t0.child_ok(p, j - 1));
                        assert(y != c) by { assert(op.children@[i] == c); }
                        assert(!moved.contains(y));
                        assert(np.keys@[j - 1] == op.keys@[j - 2]);
                        if j - 1 < klen {
                            assert(np.keys@[j] == op.keys@[j - 1]);
                        }
                    }
                }
            } else if m == c {
                let nl = self.nodes@[c];
                assert(same_but_parent(nl, t1.nodes@[c]));
                assert(nl.parent == oc.parent);
                assert forall|j: int| 0 <= j < nl.keys@.len() implies self.lo@[c] <= #[trigger] nl.keys@[j]
                    <= self.hi@[c] by {
                    assert(nl.keys@[j] == oc.keys@[j]);
                }
                if oc.is_leaf {
                    assert forall|j: int| 0 <= j < nl.keys@.len() implies self.entries@.contains(
                        (#[trigger] nl.keys@[j], nl.values@[j]),
                    ) by {
                        assert(nl.keys@[j] == oc.keys@[j]);
                        assert(nl.values@[j] == oc.values@[j]);
                    }
                    assert(self.nodes@[r] == t1.nodes@[r]);
                } else {
                    assert forall|j: int| 0 <= j < nl.children@.len() implies #[trigger] self.child_ok(c, j) by {
                        let y = oc.children@[j];
                        assert(nl.children@[j] == y);
                        assert(t0.child_ok(c, j));
                        assert(!moved.contains(y)) by {
                            if moved.contains(y) {
                                let k = choose|k: int| mid + 1 <= k < oc.children@.len() && oc.children@[k] == y;
                                assert(oc.children@[k] == oc.children@[j]);
                            }
                        }
                        if j > 0 {
                            assert(nl.keys@[j - 1] == oc.keys@[j - 1]);
                        }
                        if j < mid {
                            assert(nl.keys@[j] == oc.keys@[j]);
                        }
                    }
                }
            } else if m == r {
                let nr = self.nodes@[r];
                assert(nr == t1.nodes@[r]);
                let off = if oc.is_leaf { mid } else { mid + 1 };
                assert forall|j: int| 0 <= j < nr.keys@.len() implies self.lo@[r] <= #[trigger] nr.keys@[j]
                    <= self.hi@[r] by {
                    assert(nr.keys@[j] == oc.keys@[off + j]);
                }
                if oc.is_leaf {
                    assert forall|j: int| 0 <= j < nr.keys@.len() implies self.entries@.contains(
                        (#[trigger] nr.keys@[j], nr.values@[j]),
                    ) by {
                        assert(nr.keys@[j] == oc.keys@[mid + j]);
                        assert(nr.values@[j] == oc.values@[mid + j]);
                    }
                    if oc.next is Some {
                        let x = oc.next->0 as int;
                        assert(same_but_parent(self.nodes@[x], t1.nodes@[x]));
                        assert(x != p);
                    }
                } else {
                    assert forall|j: int| 0 <= j < nr.children@.len() implies #[trigger] self.child_ok(r, j) by {
                        let y = oc.children@[mid + 1 + j];
                        assert(nr.children@[j] == y);
                        assert(moved[j] == y);
                        assert(moved.contains(y));
                        assert(t0.child_ok(c, mid + 1 + j));
                        if j > 0 {
                            assert(nr.keys@[j - 1] == oc.keys@[mid + j]);
                        }
                        if j < nr.keys@.len() {
                            assert(nr.keys@[j] == oc.keys@[mid + 1 + j]);
                        }
                    }
                }
            } else {
                let nm = self.nodes@[m];
                let om = t0.nodes@[m];
                assert(t0.node_ok(m, c));
                assert(t1.nodes@[m] == om);
                assert(same_but_parent(nm, om));
                if om.is_leaf {
                    if om.next is Some {
                        let x = om.next->0 as int;
                        assert(same_but_parent(self.nodes@[x], t1.nodes@[x]));
                    }
                } else {
                    assert forall|j: int| 0 <= j < nm.children@.len() implies #[trigger] self.child_ok(m, j) by {
                        let y = om.children@[j] as int;
                        assert(t0.child_ok(m, j));
                        assert(y != c);
                        assert(!moved.contains(y as usize));
                        assert(y != r);
                        if y != p {
                            assert(self.nodes@[y] == t0.nodes@[y]);
                        }
                    }
                }
            }
        }
        assert forall|m: int|
            0 <= m < t0.nodes@.len() && t0.levels@[m] >= t0.levels@[p] && m != p implies
            self.nodes@[m] == t0.nodes@[m] && self.hi@[m] == t0.hi@[m] by {
            if moved.contains(m as usize) {
                assert(t0.levels@[m] + 1 == t0.levels@[c]);
            }
            assert(m != c);
        }
        assert forall|e: (usize, usize)| #[trigger] self.entries@.contains(e) implies self.stored(e) by {
            let (m, j) = choose|m: int, j: int| t0.holds_at(e, m, j);
            assert(t0.node_ok(m, c));
            if m == c {
                assert(same_but_parent(self.nodes@[c], t1.nodes@[c]));
                if j < mid {
                    assert(self.holds_at(e, c, j));
                } else {
                    assert(self.nodes@[r] == t1.nodes@[r]);
                    assert(self.holds_at(e, r, j - mid));
                }
            } else {
                assert(m != p);
                assert(same_but_parent(self.nodes@[m], t1.nodes@[m]));
                assert(self.holds_at(e, m, j));
            }
        }
        assert forall|m: int|
            0 <= m < t0.nodes@.len() implies {
                &&& (#[trigger] self.nodes@[m]).is_leaf == t0.nodes@[m].is_leaf
                &&& self.levels@[m] == t0.levels@[m]
                &&& !t0.nodes@[m].is_leaf ==> self.nodes@[m].children@.len() > 0
                    && self.nodes@[m].children@[0] == t0.nodes@[m].children@[0]
            } by {
            assert(t0.node_ok(m, c));
            assert(same_but_parent(self.nodes@[m], t1.nodes@[m]));
            if m == c && !oc.is_leaf {
                assert(self.nodes@[c].children@[0] == oc.children@[0]);
            }
        }
        t0.lemma_leftmost_frame(self, c, t0.root as int);
        self.lemma_split_chain(t0, t1, p, c, r, idx);
        if t0.finds(c, key) {
            self.lemma_split_finds(t0, t1, p, i, c, r, mid, sep, key, idx);
        }
        let rt = self.root as int;
        assert(t0.nodes@[rt].parent is None);
        assert(rt != c);
        assert(!moved.contains(rt as usize));
        assert forall|kk: usize|
            count_le(t0.nodes@[p].keys@, kk) == i && #[trigger] t0.finds(c, kk) implies self.finds(p, kk) by {
            self.lemma_split_finds(t0, t1, p, i, c, r, mid, sep, kk, idx);
        }
        assert(t0.lower(p, i) <= sep <= t0.upper(p, i));
        assert forall|m: int| 0 <= m < r implies (#[trigger] self.nodes@[m]).is_leaf == t0.nodes@[m].is_leaf
            && self.levels@[m] == t0.levels@[m] by {
            assert(same_but_parent(self.nodes@[m], t1.nodes@[m]));
        }
        assert forall|m: int| 0 <= m < r && m != p && m != c implies (#[trigger] self.nodes@[m]).keys
            == t0.nodes@[m].keys && self.nodes@[m].children == t0.nodes@[m].children by {
            assert(same_but_parent(self.nodes@[m], t1.nodes@[m]));
        }
        assert(self.nodes@[p] == t1.nodes@[p]);
        assert forall|k: usize| #[trigger] t0.finds(t0.root as int, k) implies self.finds(self.root as int, k) by {
            self.lemma_split_keeps_finds(t0, p, i, c, r, sep, rt, k);
        }
    }

    /// Splits the overflowing child `c` at position `i` of internal node `p`.
    /// With `mid` half of `c`'s keys, `c` keeps its first `mid` keys. A new node
    /// of the same kind and order, appended to the arena, takes the rest, and
    /// the separator `c.keys[mid]` goes into `p` at position `i` with the new
    /// node right after `c`. A leaf's separator stays in the new leaf, which
    /// joins the leaf chain after `c`. An internal node's separator leaves it,
    /// and the children after it move to the new node. `p` may overflow in
    /// turn. Every key found before is found after, and `key`, if the descent
    /// for it led through `c`, is then found through `p`.
    pub fn split_child(&mut self, p: usize, i: usize, Ghost(key): Ghost<usize>)
        requires
            count_le(old(self).arena()[p as int].keys@, key) == i,
            old(self).inv(old(self).arena()[p as int].children@[i as int] as int),
            p < old(self).arena().len(),
            !old(self).arena()[p as int].is_leaf,
            i < old(self).arena()[p as int].children@.len(),
            old(self).arena()[old(self).arena()[p as int].children@[i as int] as int].keys@.len()
                == old(self).order_spec(),
            old(self).arena()[p as int].keys@.len() < old(self).order_spec(),
            old(self).complete(None),
            old(self).chain_ok(),
            old(self).owned(),
        ensures
            final(self).inv(p as int),
            final(self).complete(None),
            final(self).chain_ok(),
            final(self).owned(),
            final(self).keeps_found(*old(self)),
            ({
                let c = old(self).arena()[p as int].children@[i as int] as int;
                let oc = old(self).arena()[c];
                let mid = old(self).order_spec() as int / 2;
                let r = old(self).arena().len() as int;
                let nl = final(self).arena()[c];
                let nr = final(self).arena()[r];
                &&& final(self).arena()[p as int].keys@ == old(self).arena()[p as int].keys@.insert(
                    i as int,
                    oc.keys@[mid],
                )
                &&& final(self).arena()[p as int].children@ == old(self).arena()[p as int].children@.insert(
                    i as int + 1,
                    r as usize,
                )
                &&& nl.keys@ == oc.keys@.subrange(0, mid)
                &&& nl.is_leaf == oc.is_leaf
                &&& nr.is_leaf == oc.is_leaf
                &&& nr.order == oc.order
                &&& nr.parent == Some(p)
                &&& oc.is_leaf ==> {
                    &&& nl.values@ == oc.values@.subrange(0, mid)
                    &&& nr.keys@ == oc.keys@.subrange(mid, oc.keys@.len() as int)
                    &&& nr.values@ == oc.values@.subrange(mid, oc.values@.len() as int)
                    &&& nl.next == Some(r as usize)
                    &&& nr.next == oc.next
                }
                &&& !oc.is_leaf ==> {
                    &&& nr.keys@ == oc.keys@.subrange(mid + 1, oc.keys@.len() as int)
                    &&& nl.children@ == oc.children@.subrange(0, mid + 1)
                    &&& nr.children@ == oc.children@.subrange(mid + 1, oc.children@.len() as int)
                }
            }),
            old(self).finds(old(self).arena()[p as int].children@[i as int] as int, key)
                ==> final(self).finds(p as int, key),
            final(self).arena().len() == old(self).arena().len() + 1,
            final(self).root_index() == old(self).root_index(),
            final(self).order_spec() == old(self).order_spec(),
            final(self).entries() == old(self).entries(),
            forall|m: int|
                0 <= m < old(self).arena().len() ==> final(self).level(m) == old(self).level(m)
                    && final(self).bound_lo(m) == old(self).bound_lo(m),
            forall|m: int|
                #![trigger final(self).arena()[m]]
                0 <= m < old(self).arena().len() && old(self).level(m) >= old(self).level(p as int)
                    && m != p ==> final(self).arena()[m] == old(self).arena()[m] && final(self).bound_hi(m)
                    == old(self).bound_hi(m),
            final(self).unchanged_above(*old(self), old(self).level(p as int)),
            forall|m: int|
                0 <= m < old(self).arena().len() && m != p && m != old(self).arena()[p as int].children@[i as int]
                    ==> same_but_parent(#[trigger] final(self).arena()[m], old(self).arena()[m])
                    && (final(self).arena()[m].parent == old(self).arena()[m].parent
                    || old(self).arena()[m].parent == Some(old(self).arena()[p as int].children@[i as int])),
            final(self).bound_hi(p as int) == old(self).bound_hi(p as int),
            final(self).arena()[p as int].keys@.len() == old(self).arena()[p as int].keys@.len() + 1,
            final(self).arena()[p as int].parent == old(self).arena()[p as int].parent,
    {
        let ghost t0 = *self;
        let c = self.nodes[p].children[i];
        proof {
            assert(t0.node_ok(p as int, c as int));
            assert(t0.child_ok(p as int, i as int));
            assert(t0.node_ok(c as int, c as int));
        }
        let r = self.nodes.len();
        let mut left = Node::new(2);
        self.nodes.set_and_swap(c, &mut left);
        let mid = left.keys.len() / 2;
        let right: Node;
        let sep: usize;
        if left.is_leaf {
            let (s, rn) = left.split_leaf(r);
            sep = s;
            right = rn;
        } else {
            let mut rn = Node::new(self.order);
            rn.is_leaf = false;
            rn.parent = Some(p);
            let mut upper_keys = left.keys.split_off(mid);
            sep = upper_keys.remove(0);
            rn.keys = upper_keys;
            rn.children = left.children.split_off(mid + 1);
            proof {
                assert forall|k: int| 0 <= k < rn.children@.len() implies #[trigger] rn.children@[k]
                    < t0.nodes@.len() by {
                    assert(t0.child_ok(c as int, mid + 1 + k));
                }
            }
            right = rn;
        }
        proof {
            let oc = t0.nodes@[c as int];
            assert(sep == oc.keys@[mid as int]);
            assert(mid >= 1 && mid < oc.keys@.len());
            assert(left.keys@ == oc.keys@.subrange(0, mid as int));
            if oc.is_leaf {
                assert(right.keys@ == oc.keys@.subrange(mid as int, oc.keys@.len() as int));
            } else {
                assert(right.keys@ == oc.keys@.subrange(mid as int + 1, oc.keys@.len() as int));
                assert(left.children@ == oc.children@.subrange(0, mid as int + 1));
                assert(right.children@ == oc.children@.subrange(
                    mid as int + 1,
                    oc.children@.len() as int,
                ));
            }
        }
        self.nodes.set(c, left);
        self.nodes.push(right);
        self.levels = Ghost(self.levels@.push(t0.levels@[c as int]));
        self.lo = Ghost(self.lo@.push(sep as int));
        self.hi = Ghost(self.hi@.push(t0.hi@[c as int]).update(c as int, sep as int));
        let ghost idx: int = if t0.nodes@[c as int].is_leaf {
            choose|k: int| 0 <= k < t0.chain@.len() && t0.chain@[k] == c
        } else {
            0
        };
        proof {
            if t0.nodes@[c as int].is_leaf {
                assert(t0.chain_ok());
                assert(t0.chain@.contains(c));
            }
        }
        if self.nodes[c].is_leaf {
            self.chain = Ghost(self.chain@.insert(idx + 1, r));
        }
        let mut pn = Node::new(2);
        self.nodes.set_and_swap(p, &mut pn);
        pn.keys.insert(i, sep);
        pn.children.insert(i + 1, r);
        self.nodes.set(p, pn);
        let ghost t1 = *self;
        let nc = self.nodes[r].children.len();
        let total = self.nodes.len();
        let mut j: usize = 0;
        while j < nc
            invariant
                self.nodes@.len() == t1.nodes@.len(),
                self.levels == t1.levels,
                self.lo == t1.lo,
                self.hi == t1.hi,
                self.entries == t1.entries,
                self.chain == t1.chain,
                self.root == t1.root,
                self.order == t1.order,
                r < t1.nodes@.len(),
                total == t1.nodes@.len(),
                j <= nc,
                nc == t1.nodes@[r as int].children@.len(),
                forall|m: int|
                    0 <= m < t1.nodes@.len() ==> same_but_parent(
                        #[trigger] self.nodes@[m],
                        t1.nodes@[m],
                    ),
                forall|m: int|
                    0 <= m < t1.nodes@.len() ==> (#[trigger] self.nodes@[m]).parent == if t1.nodes@[
                        r as int].children@.subrange(0, j as int).contains(m as usize) {
                        Some(r)
                    } else {
                        t1.nodes@[m].parent
                    },
                forall|k: int| 0 <= k < nc ==> #[trigger] t1.nodes@[r as int].children@[k] < t1.nodes@.len(),
            decreases nc - j,
        {
            proof {
                assert(same_but_parent(self.nodes@[r as int], t1.nodes@[r as int]));
            }
            let x = self.nodes[r].children[j];
            let mut xn = Node::new(2);
            self.nodes.set_and_swap(x, &mut xn);
            xn.parent = Some(r);
            self.nodes.set(x, xn);
            proof {
                let done = t1.nodes@[r as int].children@.subrange(0, j as int);
                let done1 = t1.nodes@[r as int].children@.subrange(0, j as int + 1);
                assert(done1 == done.push(x));
                assert forall|m: int| 0 <= m < t1.nodes@.len() implies (
                #[trigger] self.nodes@[m]).parent == if done1.contains(m as usize) {
                    Some(r)
                } else {
                    t1.nodes@[m].parent
                } by {
                    if m != x {
                        let mu = m as usize;
                        if done1.contains(mu) {
                            let k = choose|k: int| 0 <= k < done1.len() && done1[k] == mu;
                            assert(done1[j as int] == x);
                            assert(k < j);
                            assert(done[k] == mu);
                        }
                        if done.contains(mu) {
                            let k = choose|k: int| 0 <= k < done.len() && done[k] == mu;
                            assert(done1[k] == mu);
                        }
                    } else {
                        assert(done1[j as int] == x);
                    }
                }
            }
            j += 1;
        }
        proof {
            let moved = t1.nodes@[r as int].children@;
            assert(moved.subrange(0, nc as int) == moved);
            assert forall|m: int|
                0 <= m < t0.nodes@.len() && m != p && m != c implies same_but_parent(
                    #[trigger] self.nodes@[m],
                    t0.nodes@[m],
                ) && (self.nodes@[m].parent == t0.nodes@[m].parent || t0.nodes@[m].parent == Some(c)) by {
                assert(t1.nodes@[m] == t0.nodes@[m]);
                if moved.contains(m as usize) {
                    let k = choose|k: int| 0 <= k < moved.len() && moved[k] == m as usize;
                    assert(!t0.nodes@[c as int].is_leaf);
                    assert(moved[k] == t0.nodes@[c as int].children@[mid + 1 + k]);
                    assert(t0.node_ok(c as int, c as int));
                    assert(t0.child_ok(c as int, mid + 1 + k));
                }
            }
            assert(same_but_parent(self.nodes@[c as int], t1.nodes@[c as int]));
            assert(same_but_parent(self.nodes@[r as int], t1.nodes@[r as int]));
            assert(same_but_parent(self.nodes@[p as int], t1.nodes@[p as int]));
            assert(!moved.contains(r));
            assert(self.nodes@[r as int].parent == Some(p));
            assert(t0 == *old(self));
            self.lemma_split_child_ok(*old(self), t1, p as int, i as int, c as int, r as int, mid as int, sep, key, idx);
            self.lemma_split_owned(*old(self), t1, p as int, i as int, c as int, r as int, mid as int, sep, key, idx);
            assert forall|m: int|
                0 <= m < t0.nodes@.len() && t0.levels@[m] >= t0.levels@[p as int] && m != p implies
                self.nodes@[m] == t0.nodes@[m] && self.hi@[m] == t0.hi@[m] by {
                assert(self.hi@[m] == t0.hi@[m]);
                assert(self.nodes@[m] == t0.nodes@[m]);
            }
            assert(self.unchanged_above(t0, t0.levels@[p as int]));

        }
    }
}

impl BTree {
    /// Inserts `(key, value)` into the subtree of node `n`: descends by the
    /// separators to a leaf, places the pair there after every equal key, and
    /// splits each child that overflows on the way back up (see
    /// `split_child`). Returns whether `n` itself now overflows; its parent, or
    /// for the root `insert`, then splits it. The caller has already recorded
    /// the pair among the entries.
    #[verifier::rlimit(60)]
    pub fn insert_subtree(&mut self, n: usize, key: usize, value: usize) -> (overflow: bool)
        requires
            old(self).inv(-1),
            old(self).complete(Some((key, value))),
            old(self).chain_ok(),
            old(self).owned(),
            n < old(self).arena().len(),
            old(self).bound_lo(n as int) <= key <= old(self).bound_hi(n as int),
            old(self).entries().contains((key, value)),
        ensures
            final(self).inv(n as int),
            final(self).complete(None),
            final(self).chain_ok(),
            final(self).owned(),
            final(self).keeps_found(*old(self)),
            final(self).finds(n as int, key),
            old(self).arena()[n as int].is_leaf ==> {
                &&& final(self).arena()[n as int].keys@ == old(self).arena()[n as int].keys@.insert(
                    count_le(old(self).arena()[n as int].keys@, key) as int,
                    key,
                )
                &&& final(self).arena()[n as int].values@ == old(self).arena()[n as int].values@.insert(
                    count_le(old(self).arena()[n as int].keys@, key) as int,
                    value,
                )
                &&& final(self).arena()[n as int].is_leaf
                &&& final(self).arena()[n as int].next == old(self).arena()[n as int].next
                &&& final(self).arena()[n as int].children == old(self).arena()[n as int].children
            },
            overflow == (final(self).arena()[n as int].keys@.len() == final(self).order_spec()),
            final(self).arena().len() >= old(self).arena().len(),
            final(self).root_index() == old(self).root_index(),
            final(self).order_spec() == old(self).order_spec(),
            final(self).entries() == old(self).entries(),
            forall|m: int|
                0 <= m < old(self).arena().len() ==> final(self).level(m) == old(self).level(m)
                    && final(self).bound_lo(m) == old(self).bound_lo(m),
            final(self).unchanged_above(*old(self), old(self).level(n as int)),
            final(self).bound_hi(n as int) == old(self).bound_hi(n as int),
            final(self).arena()[n as int].parent == old(self).arena()[n as int].parent,
        decreases old(self).level(n as int),
    {
        let ghost t0 = *self;
        proof {
            assert(t0.node_ok(n as int, -1));
        }
        if self.nodes[n].is_leaf {
            let mut nd = Node::new(2);
            self.nodes.set_and_swap(n, &mut nd);
            let overflow = nd.place(key, value);
            self.nodes.set(n, nd);
            proof {
                let nn = self.nodes@[n as int];
                let on = t0.nodes@[n as int];
                let i = count_le(on.keys@, key) as int;
                assert forall|j: int| 0 <= j < nn.keys@.len() implies self.lo@[n as int]
                    <= #[trigger] nn.keys@[j] <= self.hi@[n as int] && self.entries@.contains(
                    (nn.keys@[j], nn.values@[j]),
                ) by {
                    if j < i {
                        assert(nn.keys@[j] == on.keys@[j] && nn.values@[j] == on.values@[j]);
                    } else if j > i {
                        assert(nn.keys@[j] == on.keys@[j - 1] && nn.values@[j] == on.values@[j - 1]);
                    }
                }
                assert(self.nodes@[n as int].keys@[i] == key);
                assert(self.leaf_for(n as int, key, self.levels@[n as int]) == n);
                self.lemma_leaf_insert_keeps_found(t0, n as int, i, key);
                assert forall|m: int| 0 <= m < self.nodes@.len() implies #[trigger] self.owned_at(m) by {
                    assert(t0.owned_at(m));
                    if m != n {
                        assert(self.nodes@[m] == t0.nodes@[m]);
                    }
                    if self.nodes@[m].parent is Some {
                        let q = self.nodes@[m].parent->0 as int;
                        if q != n && q < self.nodes@.len() {
                            assert(self.nodes@[q] == t0.nodes@[q]);
                        }
                    }
                }
                assert forall|m: int|
                    0 <= m < t0.nodes@.len() implies {
                        &&& (#[trigger] self.nodes@[m]).is_leaf == t0.nodes@[m].is_leaf
                        &&& self.levels@[m] == t0.levels@[m]
                        &&& !t0.nodes@[m].is_leaf ==> self.nodes@[m].children@.len() > 0
                            && self.nodes@[m].children@[0] == t0.nodes@[m].children@[0]
                    } by {
                    assert(t0.node_ok(m, -1));
                }
                t0.lemma_leftmost_frame(*self, -1, t0.root as int);
                let ch = self.chain@;
                assert forall|k: int| 0 <= k < ch.len() implies #[trigger] ch[k] < self.nodes@.len()
                    && self.nodes@[ch[k] as int].is_leaf by {
                    assert(ch[k] < t0.nodes@.len());
                }
                assert forall|k: int| 0 <= k < ch.len() - 1 implies self.nodes@[#[trigger] ch[k] as int].next
                    == Some(ch[k + 1]) by {
                    assert(ch[k] < t0.nodes@.len());
                }
                assert forall|m: int| 0 <= m < self.nodes@.len() && #[trigger] self.nodes@[m].is_leaf implies ch.contains(
                    m as usize,
                ) by {
                    assert(t0.nodes@[m].is_leaf);
                }
                assert(ch[ch.len() - 1] < t0.nodes@.len());
                assert forall|e: (usize, usize)| #[trigger] self.entries@.contains(e) implies self.stored(
                    e,
                ) by {
                    if e == (key, value) {
                        assert(self.holds_at(e, n as int, i));
                    } else {
                        let (m, j) = choose|m: int, j: int| t0.holds_at(e, m, j);
                        if m != n {
                            assert(self.holds_at(e, m, j));
                        } else if j < i {
                            assert(self.holds_at(e, m, j));
                        } else {
                            assert(self.holds_at(e, m, j + 1));
                        }
                    }
                }
                assert forall|m: int| 0 <= m < self.nodes@.len() implies #[trigger] self.node_ok(
                    m,
                    n as int,
                ) by {
                    assert(t0.node_ok(m, -1));
                    if m != n {
                        let om = t0.nodes@[m];
                        if om.is_leaf {
                        } else {
                            assert forall|j: int| 0 <= j < om.children@.len() implies #[trigger] self.child_ok(
                                m,
                                j,
                            ) by {
                                assert(t0.child_ok(m, j));
                            }
                        }
                    }
                }
            }
            proof {
                assert(t0 == *old(self));
                assert(self.nodes@ == t0.nodes@.update(n as int, self.nodes@[n as int]));
                self.lemma_unchanged_but_one(t0, n as int);
            }
            overflow
        } else {
            let i = self.nodes[n].position(key);
            let c = self.nodes[n].children[i];
            proof {
                assert(t0.child_ok(n as int, i as int));
            }
            let child_over = self.insert_subtree(c, key, value);
            let ghost t1 = *self;
            proof {
                assert(self.nodes@[n as int] == t0.nodes@[n as int]);
            }
            if child_over {
                self.split_child(n, i, Ghost(key));
            } else {
                proof {
                    assert(self.leaf_for(n as int, key, self.levels@[n as int]) == self.leaf_for(
                        c as int,
                        key,
                        self.levels@[c as int],
                    ));
                    assert forall|m: int| 0 <= m < self.nodes@.len() implies #[trigger] self.node_ok(
                        m,
                        n as int,
                    ) by {
                        assert(self.node_ok(m, c as int));
                    }
                }
            }
            proof {
                assert(self.node_ok(n as int, n as int));
                assert(t0 == *old(self));
                assert(self.unchanged_above(t1, t1.levels@[n as int]));
                assert forall|k: usize| #[trigger] t0.finds(t0.root as int, k) implies self.finds(
                    self.root as int,
                    k,
                ) by {
                    assert(t1.finds(t1.root as int, k));
                }
                assert forall|m: int| 0 <= m < t0.nodes@.len() implies t1.levels@[m] == t0.levels@[m] by {
                    assert(t1.level(m) == t0.level(m));
                }
                self.lemma_unchanged_compose(t1, t0, t0.levels@[c as int], t0.levels@[n as int]);
            }
            self.nodes[n].keys.len() == self.order
        }
    }

    /// Inserts `(key, value)`. Equal keys are kept, the newest after the
    /// older ones; overflowing nodes split up to the root, which grows a new
    /// root above it when it splits.
    #[verifier::rlimit(100)]
    pub fn insert(&mut self, key: usize, value: usize)
        requires
            old(self).wf(),
        ensures
            final(self).wf(),
            final(self).entries() == old(self).entries().insert((key, value)),
            final(self).order_spec() == old(self).order_spec(),
            (forall|v: usize| !old(self).entries().contains((key, v))) ==> final(self).lookup(key)
                == Some(value),
            final(self).arena().len() >= old(self).arena().len(),
            ({
                let r0 = old(self).arena()[old(self).root_index()];
                let i = count_le(r0.keys@, key) as int;
                let ks = r0.keys@.insert(i, key);
                let vs = r0.values@.insert(i, value);
                let mid = ks.len() / 2;
                let nr = final(self).arena()[final(self).root_index()];
                let left = final(self).arena()[old(self).root_index()];
                let right = final(self).arena()[nr.children@[1] as int];
                r0.is_leaf && r0.keys@.len() + 1 == old(self).order_spec() ==> {
                    &&& final(self).root_index() != old(self).root_index()
                    &&& nr.keys@ == seq![ks[mid as int]]
                    &&& nr.children@.len() == 2
                    &&& nr.children@[0] == old(self).root_index()
                    &&& left.is_leaf && right.is_leaf
                    &&& left.keys@ == ks.subrange(0, mid as int)
                    &&& left.values@ == vs.subrange(0, mid as int)
                    &&& right.keys@ == ks.subrange(mid as int, ks.len() as int)
                    &&& right.values@ == vs.subrange(mid as int, vs.len() as int)
                    &&& left.next == Some(nr.children@[1])
                    &&& right.next == r0.next
                }
            }),
            ({
                let r0 = old(self).arena()[old(self).root_index()];
                r0.is_leaf && r0.keys@.len() + 1 < old(self).order_spec() ==> {
                    &&& final(self).root_index() == old(self).root_index()
                    &&& final(self).arena()[final(self).root_index()].keys@ == r0.keys@.insert(
                        count_le(r0.keys@, key) as int,
                        key,
                    )
                    &&& final(self).arena()[final(self).root_index()].values@ == r0.values@.insert(
                        count_le(r0.keys@, key) as int,
                        value,
                    )
                    &&& final(self).arena()[final(self).root_index()].is_leaf
                    &&& final(self).arena()[final(self).root_index()].next == r0.next
                    &&& final(self).arena()[final(self).root_index()].children == r0.children
                    &&& final(self).level(final(self).root_index()) == 0
                }
            }),
            final(self).root_index() == old(self).root_index() ==> final(self).level(
                final(self).root_index(),
            ) == old(self).level(old(self).root_index()),
            final(self).root_index() != old(self).root_index() ==> {
                let nr = final(self).arena()[final(self).root_index()];
                &&& final(self).root_index() >= old(self).arena().len()
                &&& !nr.is_leaf
                &&& nr.parent is None
                &&& nr.keys@.len() == 1
                &&& nr.children@.len() == 2
                &&& nr.children@[0] == old(self).root_index()
                &&& final(self).level(final(self).root_index()) == old(self).level(old(self).root_index()) + 1
            },
    {
        let ghost t0 = *self;
        self.entries = Ghost(self.entries@.insert((key, value)));
        proof {
            assert forall|m: int| 0 <= m < self.nodes@.len() implies #[trigger] self.node_ok(m, -1) by {
                assert(t0.node_ok(m, -1));
                let om = t0.nodes@[m];
                if !om.is_leaf {
                    assert forall|j: int| 0 <= j < om.children@.len() implies #[trigger] self.child_ok(m, j) by {
                        assert(t0.child_ok(m, j));
                    }
                }
            }
            assert forall|e: (usize, usize)|
                #[trigger] self.entries@.contains(e) && Some((key, value)) != Some(e) implies self.stored(
                e,
            ) by {
                assert(t0.entries@.contains(e));
                let (m, j) = choose|m: int, j: int| t0.holds_at(e, m, j);
                assert(self.holds_at(e, m, j));
            }
            assert(t0.chain_ok());
            assert(self.nodes == t0.nodes && self.chain == t0.chain && self.levels == t0.levels);
            assert(self.leftmost(self.root as int, self.levels@[self.root as int]) == t0.leftmost(
                t0.root as int,
                t0.levels@[t0.root as int],
            )) by {
                assert forall|m: int|
                    0 <= m < t0.nodes@.len() implies {
                        &&& (#[trigger] self.nodes@[m]).is_leaf == t0.nodes@[m].is_leaf
                        &&& self.levels@[m] == t0.levels@[m]
                        &&& !t0.nodes@[m].is_leaf ==> self.nodes@[m].children@.len() > 0
                            && self.nodes@[m].children@[0] == t0.nodes@[m].children@[0]
                    } by {
                    assert(t0.node_ok(m, -1));
                }
                t0.lemma_leftmost_frame(*self, -1, t0.root as int);
            }
            let ch = self.chain@;
            assert forall|m: int| 0 <= m < self.nodes@.len() && #[trigger] self.nodes@[m].is_leaf implies ch.contains(
                m as usize,
            ) by {
                assert(t0.nodes@[m].is_leaf);
            }
        }
        let root = self.root;
        let ghost ta = *self;
        proof {
            assert forall|m: int| 0 <= m < self.nodes@.len() implies #[trigger] self.owned_at(m) by {
                assert(t0.owned_at(m));
            }
            assert forall|k: usize| #[trigger] t0.finds(t0.root as int, k) implies ta.finds(ta.root as int, k) by {
                assert forall|m: int| 0 <= m < t0.nodes@.len() implies {
                    &&& (#[trigger] ta.nodes@[m]).is_leaf == t0.nodes@[m].is_leaf
                    &&& ta.levels@[m] == t0.levels@[m]
                    &&& (m == root as int || t0.levels@[m] < t0.levels@[root as int]) && !t0.nodes@[m].is_leaf ==> {
                        &&& ta.nodes@[m].keys == t0.nodes@[m].keys
                        &&& ta.nodes@[m].children == t0.nodes@[m].children
                    }
                } by {}
                t0.lemma_leaf_for_frame2(ta, -1, root as int, k);
                let l = t0.leaf_for(root as int, k, t0.levels@[root as int]);
                assert(ta.nodes@[l] == t0.nodes@[l]);
            }
        }
        let over = self.insert_subtree(root, key, value);
        proof {
            let r0 = t0.nodes@[root as int];
            if r0.is_leaf && r0.keys@.len() + 1 < t0.order {
                assert(ta.nodes@[root as int] == r0);
                lemma_count_le_bound(r0.keys@, key);
                assert(self.nodes@[root as int].keys@.len() == r0.keys@.len() + 1);
                assert(!over);
            }
            if r0.is_leaf && r0.keys@.len() + 1 == t0.order {
                assert(ta.nodes@[root as int] == r0);
                lemma_count_le_bound(r0.keys@, key);
                assert(self.nodes@[root as int].keys@.len() == r0.keys@.len() + 1);
                assert(over);
            }
        }
        if over {
            let ghost t1 = *self;
            let r = self.nodes.len();
            let mut nr = Node::new(self.order);
            nr.is_leaf = false;
            nr.children.push(root);
            self.nodes.push(nr);
            self.levels = Ghost(self.levels@.push(self.levels@[root as int] + 1));
            self.lo = Ghost(self.lo@.push(0));
            self.hi = Ghost(self.hi@.push(usize::MAX as int));
            let mut on = Node::new(2);
            self.nodes.set_and_swap(root, &mut on);
            on.parent = Some(r);
            self.nodes.set(root, on);
            self.root = r;
            proof {
                assert(self.child_ok(r as int, 0));
                assert forall|m: int| 0 <= m < self.nodes@.len() implies #[trigger] self.node_ok(
                    m,
                    root as int,
                ) by {
                    if m < r {
                        assert(t1.node_ok(m, root as int));
                        let om = t1.nodes@[m];
                        if om.is_leaf {
                            if om.next is Some {
                                let x = om.next->0 as int;
                                assert(self.nodes@[x].is_leaf == t1.nodes@[x].is_leaf);
                            }
                        } else {
                            assert forall|j: int| 0 <= j < om.children@.len() implies #[trigger] self.child_ok(
                                m,
                                j,
                            ) by {
                                assert(t1.child_ok(m, j));
                                assert(om.children@[j] != root);
                            }
                        }
                    }
                }
            }
            proof {
                assert forall|e: (usize, usize)| #[trigger] self.entries@.contains(e) implies self.stored(
                    e,
                ) by {
                    let (m, j) = choose|m: int, j: int| t1.holds_at(e, m, j);
                    assert(self.holds_at(e, m, j));
                }
                assert forall|m: int|
                    0 <= m < t1.nodes@.len() && t1.levels@[m] <= t1.levels@[root as int] implies {
                        &&& (#[trigger] self.nodes@[m]).keys == t1.nodes@[m].keys
                        &&& self.nodes@[m].children == t1.nodes@[m].children
                        &&& self.nodes@[m].is_leaf == t1.nodes@[m].is_leaf
                        &&& self.levels@[m] == t1.levels@[m]
                    } by {}
                t1.lemma_leaf_for_frame(*self, root as int, root as int, key);
                assert forall|m: int|
                    0 <= m < t1.nodes@.len() implies {
                        &&& (#[trigger] self.nodes@[m]).is_leaf == t1.nodes@[m].is_leaf
                        &&& self.levels@[m] == t1.levels@[m]
                        &&& !t1.nodes@[m].is_leaf ==> self.nodes@[m].children@.len() > 0
                            && self.nodes@[m].children@[0] == t1.nodes@[m].children@[0]
                    } by {
                    assert(t1.node_ok(m, root as int));
                }
                t1.lemma_leftmost_frame(*self, root as int, root as int);
                assert(self.nodes@[r as int].children@[0] == root);
                assert(self.leftmost(r as int, self.levels@[r as int]) == self.leftmost(
                    root as int,
                    self.levels@[root as int],
                ));
                let ch = self.chain@;
                assert forall|k: int| 0 <= k < ch.len() implies #[trigger] ch[k] < self.nodes@.len()
                    && self.nodes@[ch[k] as int].is_leaf by {
                    assert(ch[k] < t1.nodes@.len());
                }
                assert forall|k: int| 0 <= k < ch.len() - 1 implies self.nodes@[#[trigger] ch[k] as int].next
                    == Some(ch[k + 1]) by {
                    assert(ch[k] < t1.nodes@.len());
                }
                assert(ch[ch.len() - 1] < t1.nodes@.len());
                assert forall|m: int| 0 <= m < self.nodes@.len() && #[trigger] self.nodes@[m].is_leaf implies ch.contains(
                    m as usize,
                ) by {
                    assert(t1.nodes@[m].is_leaf);
                }
                let l = t1.leaf_for(root as int, key, t1.levels@[root as int]);
                assert(self.nodes@[l].keys == t1.nodes@[l].keys);
                assert(self.finds(root as int, key));
                assert(self.nodes@[r as int].keys@.len() == 0);
                assert(count_le(self.nodes@[r as int].keys@, key) == 0);
                assert forall|k: usize| #[trigger] t1.finds(t1.root as int, k) implies self.finds(
                    self.root as int,
                    k,
                ) by {
                    assert forall|m: int| 0 <= m < t1.nodes@.len() implies {
                    &&& (#[trigger] self.nodes@[m]).is_leaf == t1.nodes@[m].is_leaf
                    &&& self.levels@[m] == t1.levels@[m]
                    &&& (m == root as int || t1.levels@[m] < t1.levels@[root as int]) && !t1.nodes@[m].is_leaf ==> {
                        &&& self.nodes@[m].keys == t1.nodes@[m].keys
                        &&& self.nodes@[m].children == t1.nodes@[m].children
                    }
                } by {}
                    t1.lemma_leaf_for_frame2(*self, root as int, root as int, k);
                    let l = t1.leaf_for(root as int, k, t1.levels@[root as int]);
                    assert(self.nodes@[l].keys == t1.nodes@[l].keys);
                    assert(count_le(self.nodes@[r as int].keys@, k) == 0);
                    assert(self.leaf_for(r as int, k, self.levels@[r as int]) == self.leaf_for(
                        root as int,
                        k,
                        self.levels@[root as int],
                    ));
                }
            }
            proof {
                assert(t1.nodes@[root as int].parent is None);
                assert forall|m: int| 0 <= m < self.nodes@.len() implies #[trigger] self.owned_at(m) by {
                    if m == root {
                        assert(self.nodes@[r as int].children@[0] == root);
                    } else if m < r {
                        assert(t1.owned_at(m));
                        assert(self.nodes@[m] == t1.nodes@[m]);
                        let q = t1.nodes@[m].parent->0 as int;
                        if q == root {
                            assert(self.nodes@[q].children == t1.nodes@[q].children);
                        } else {
                            assert(self.nodes@[q] == t1.nodes@[q]);
                        }
                    }
                }
            }
            let total = self.nodes.len();
            let ghost t2 = *self;
            self.split_child(r, 0, Ghost(key));
            proof {
                let r0 = t0.nodes@[root as int];
                if r0.is_leaf && r0.keys@.len() + 1 == t0.order {
                    lemma_count_le_bound(r0.keys@, key);
                    assert(ta.nodes@[root as int] == r0);
                    assert(t2.nodes@[root as int].keys@ == t1.nodes@[root as int].keys@);
                    assert(t2.nodes@[r as int].keys@.len() == 0);
                    assert(t2.nodes@[r as int].children@ == seq![root]);
                    assert(self.nodes@[r as int].keys@ =~= seq![t2.nodes@[root as int].keys@[t0.order as int / 2]]);
                    assert(self.nodes@[r as int].children@ =~= seq![root, t2.nodes@.len() as usize]);
                    let i = count_le(r0.keys@, key) as int;
                    let ks = r0.keys@.insert(i, key);
                    let vs = r0.values@.insert(i, value);
                    assert(t2.nodes@[root as int].keys@ == ks);
                    assert(t2.nodes@[root as int].values@ == vs);
                    assert(ks.len() == t0.order);
                    let mid = ks.len() / 2;
                    assert(mid == t0.order as int / 2);
                    let nr = self.nodes@[r as int];
                    let rr = nr.children@[1] as int;
                    assert(total == t2.nodes@.len());
                    assert(rr == t2.nodes@.len());
                    assert(self.nodes@[root as int].keys@ == ks.subrange(0, mid as int));
                    assert(self.nodes@[root as int].values@ == vs.subrange(0, mid as int));
                    assert(self.nodes@[rr].keys@ == ks.subrange(mid as int, ks.len() as int));
                    assert(self.nodes@[rr].values@ == vs.subrange(mid as int, vs.len() as int));
                    assert(self.nodes@[root as int].next == Some(nr.children@[1]));
                    assert(self.nodes@[rr].next == r0.next);
                    assert(nr.keys@ == seq![ks[mid as int]]);
                }
            }
            proof {
                assert forall|k: usize| #[trigger] t0.finds(t0.root as int, k) implies self.finds(
                    self.root as int,
                    k,
                ) by {
                    assert(ta.finds(ta.root as int, k));
                    assert(t1.finds(t1.root as int, k));
                    assert(t2.finds(t2.root as int, k));
                }
            }
            proof {
                assert(self.node_ok(r as int, r as int));
                assert forall|m: int| 0 <= m < self.nodes@.len() implies #[trigger] self.node_ok(m, -1) by {
                    assert(self.node_ok(m, r as int));
                }
            }
        } else {
            proof {
                assert forall|m: int| 0 <= m < self.nodes@.len() implies #[trigger] self.node_ok(m, -1) by {
                    assert(self.node_ok(m, root as int));
                }
                assert forall|k: usize| #[trigger] t0.finds(t0.root as int, k) implies self.finds(
                    self.root as int,
                    k,
                ) by {
                    assert(ta.finds(ta.root as int, k));
                }
            }
        }
        proof {
            let rt = self.root as int;
            assert(self.finds(rt, key));
            self.lemma_leaf_for(rt, key);
            let l = self.leaf_for(rt, key, self.levels@[rt]);
            let nd = self.nodes@[l];
            assert(self.node_ok(l, -1));
            let j = choose|j: int| 0 <= j < nd.keys@.len() && nd.keys@[j] == key;
            lemma_first_index_exists(nd.keys@, key, j);
            let f = choose|f: int| first_index(nd.keys@, key, f);
            assert(self.entries@.contains((nd.keys@[f], nd.values@[f])));
            assert(exists|f: int| first_index(nd.keys@, key, f));
            assert(leaf_lookup(nd, key) == Some(nd.values@[f]));
            assert(self.lookup(key) == Some(nd.values@[f]));
            assert forall|e: (usize, usize)| #[trigger] self.entries@.contains(e) implies self.finds(
                self.root as int,
                e.0,
            ) by {
                if e != (key, value) {
                    assert(t0.entries@.contains(e));
                    assert(t0.finds(t0.root as int, e.0));
                }
            }
            assert(t0 == *old(self));
            if forall|v: usize| !old(self).entries().contains((key, v)) {
                assert(!old(self).entries().contains((key, nd.values@[f])));
                assert(nd.values@[f] == value);
            }
        }
    }
}

impl BTree {
    /// The node reached from node `n` by taking child `path[0]`, then child
    /// `path[1]` of that node, and so on.
    pub open spec fn follow(self, n: int, path: Seq<int>) -> int
        decreases path.len(),
    {
        if path.len() == 0 {
            n
        } else {
            self.follow(self.arena()[n].children@[path[0]] as int, path.drop_first())
        }
    }

    /// Every step of `path` from node `n` picks an existing child of an
    /// internal node.
    pub open spec fn valid_path(self, n: int, path: Seq<int>) -> bool
        decreases path.len(),
    {
        path.len() == 0 || {
            let nd = self.arena()[n];
            &&& !nd.is_leaf
            &&& 0 <= path[0] < nd.children@.len()
            &&& self.valid_path(nd.children@[path[0]] as int, path.drop_first())
        }
    }

    /// Every node's keys are in non-decreasing order.
    pub proof fn lemma_keys_sorted(self, n: int)
        requires
            self.wf(),
            0 <= n < self.arena().len(),
        ensures
            sorted(self.arena()[n].keys@),
    {
        assert(self.node_ok(n, -1));
    }

    /// No node holds more than `order - 1` keys.
    pub proof fn lemma_capacity(self, n: int)
        requires
            self.wf(),
            0 <= n < self.arena().len(),
        ensures
            self.arena()[n].order == self.order_spec(),
            self.arena()[n].keys@.len() <= self.order_spec() - 1,
            self.arena()[n].keys@.len() <= self.arena()[n].order - 1,
    {
        assert(self.node_ok(n, -1));
    }

    /// An internal node has one child more than it has keys; a leaf has one
    /// value per key and no children.
    pub proof fn lemma_structure(self, n: int)
        requires
            self.wf(),
            0 <= n < self.arena().len(),
        ensures
            !self.arena()[n].is_leaf ==> self.arena()[n].children@.len() == self.arena()[n].keys@.len()
                + 1,
            self.arena()[n].is_leaf ==> self.arena()[n].values@.len() == self.arena()[n].keys@.len()
                && self.arena()[n].children@.len() == 0,
            self.arena()[self.root_index()].parent is None,
            distinct(self.arena()[n].children@),
            forall|j: int|
                0 <= j < self.arena()[n].children@.len() ==> #[trigger] self.arena()[n].children@[j]
                    < self.arena().len() && self.arena()[self.arena()[n].children@[j] as int].parent
                    == Some(n as usize),
    {
        assert(self.node_ok(n, -1));
        assert forall|j: int|
            0 <= j < self.arena()[n].children@.len() implies #[trigger] self.arena()[n].children@[j]
                < self.arena().len() && self.arena()[self.arena()[n].children@[j] as int].parent
                == Some(n as usize) by {
            assert(self.child_ok(n, j));
        }
    }

    /// Every node but the root is held by exactly one container: its parent,
    /// which lists it among its children.
    pub proof fn lemma_owned(self, n: int)
        requires
            self.wf(),
            0 <= n < self.arena().len(),
            n != self.root_index(),
        ensures
            self.arena()[n].parent is Some,
            self.arena()[n].parent->0 < self.arena().len(),
            self.arena()[self.arena()[n].parent->0 as int].children@.contains(n as usize),
    {
        assert(self.owned_at(n));
    }

    /// Each node sits in at most one children list, at one position.
    pub proof fn lemma_single_parent(self, m1: usize, j1: int, m2: usize, j2: int)
        requires
            self.wf(),
            m1 < self.arena().len(),
            m2 < self.arena().len(),
            0 <= j1 < self.arena()[m1 as int].children@.len(),
            0 <= j2 < self.arena()[m2 as int].children@.len(),
            self.arena()[m1 as int].children@[j1] == self.arena()[m2 as int].children@[j2],
        ensures
            m1 == m2 && j1 == j2,
    {
        assert(self.node_ok(m1 as int, -1));
        assert(self.node_ok(m2 as int, -1));
        assert(self.child_ok(m1 as int, j1));
        assert(self.child_ok(m2 as int, j2));
        assert(distinct(self.nodes@[m1 as int].children@));
        if j1 != j2 {
            assert(self.nodes@[m1 as int].children@[j1] != self.nodes@[m1 as int].children@[j2]);
        }
    }

    /// Following a path down from a node lowers the level by one per step.
    pub proof fn lemma_path_level(self, n: int, path: Seq<int>)
        requires
            self.wf(),
            0 <= n < self.arena().len(),
            self.valid_path(n, path),
        ensures
            0 <= self.follow(n, path) < self.arena().len(),
            self.level(self.follow(n, path)) + path.len() == self.level(n),
        decreases path.len(),
    {
        if path.len() > 0 {
            assert(self.node_ok(n, -1));
            assert(self.child_ok(n, path[0]));
            let c = self.arena()[n].children@[path[0]] as int;
            self.lemma_path_level(c, path.drop_first());
        }
    }

    /// All leaves lie at the same depth: any two paths from the root that end
    /// at leaves have the same length.
    pub proof fn lemma_balanced(self, p1: Seq<int>, p2: Seq<int>)
        requires
            self.wf(),
            self.valid_path(self.root_index(), p1),
            self.valid_path(self.root_index(), p2),
            self.arena()[self.follow(self.root_index(), p1)].is_leaf,
            self.arena()[self.follow(self.root_index(), p2)].is_leaf,
        ensures
            p1.len() == p2.len(),
    {
        self.lemma_path_level(self.root_index(), p1);
        self.lemma_path_level(self.root_index(), p2);
        assert(self.node_ok(self.follow(self.root_index(), p1), -1));
        assert(self.node_ok(self.follow(self.root_index(), p2), -1));
    }

    /// The descent for any key from a node ends at a leaf of the arena.
    pub proof fn lemma_leaf_for(self, n: int, key: usize)
        requires
            self.wf(),
            0 <= n < self.arena().len(),
        ensures
            0 <= self.leaf_for(n, key, self.level(n)) < self.arena().len(),
            self.arena()[self.leaf_for(n, key, self.level(n))].is_leaf,
        decreases self.level(n),
    {
        assert(self.node_ok(n, -1));
        let nd = self.arena()[n];
        if !nd.is_leaf {
            let i = count_le(nd.keys@, key) as int;
            lemma_count_le_bound(nd.keys@, key);
            assert(self.child_ok(n, i));
            self.lemma_leaf_for(nd.children@[i] as int, key);
        }
    }

    /// The leaves hold exactly the inserted pairs: a pair was inserted if and
    /// only if some leaf holds it at some position.
    pub proof fn lemma_leaves_hold_entries(self, k: usize, v: usize)
        requires
            self.wf(),
        ensures
            self.entries().contains((k, v)) <==> exists|n: int, j: int|
                0 <= n < self.arena().len() && self.arena()[n].is_leaf && 0 <= j
                    < self.arena()[n].keys@.len() && self.arena()[n].keys@[j] == k
                    && self.arena()[n].values@[j] == v,
    {
        if self.entries().contains((k, v)) {
            let (n, j) = choose|n: int, j: int| self.holds_at((k, v), n, j);
            assert(self.holds_at((k, v), n, j));
        }
        if exists|n: int, j: int|
            0 <= n < self.arena().len() && self.arena()[n].is_leaf && 0 <= j
                < self.arena()[n].keys@.len() && self.arena()[n].keys@[j] == k
                && self.arena()[n].values@[j] == v {
            let (n, j) = choose|n: int, j: int|
                0 <= n < self.arena().len() && self.arena()[n].is_leaf && 0 <= j
                    < self.arena()[n].keys@.len() && self.arena()[n].keys@[j] == k
                    && self.arena()[n].values@[j] == v;
            assert(self.node_ok(n, -1));
            assert(self.arena()[n].keys@[j] == k);
        }
    }

    /// A leaf's forward link, where it has one, leads to another leaf of the
    /// arena.
    pub proof fn lemma_next_is_leaf(self, n: int)
        requires
            self.wf(),
            0 <= n < self.arena().len(),
            self.arena()[n].is_leaf,
            self.arena()[n].next is Some,
        ensures
            0 <= self.arena()[n].next->0 < self.arena().len(),
            self.arena()[self.arena()[n].next->0 as int].is_leaf,
    {
        assert(self.node_ok(n, -1));
    }

    /// Every key of a leaf is at most every key of the leaf its forward link
    /// leads to.
    pub proof fn lemma_next_keys_ordered(self, n: int, a: int, b: int)
        requires
            self.wf(),
            0 <= n < self.arena().len(),
            self.arena()[n].is_leaf,
            self.arena()[n].next is Some,
            0 <= a < self.arena()[n].keys@.len(),
            0 <= b < self.arena()[self.arena()[n].next->0 as int].keys@.len(),
        ensures
            self.arena()[n].keys@[a] <= self.arena()[self.arena()[n].next->0 as int].keys@[b],
    {
        assert(self.node_ok(n, -1));
        let x = self.arena()[n].next->0 as int;
        assert(self.node_ok(x, -1));
        assert(self.nodes@[n].keys@[a] <= self.hi@[n]);
        assert(self.lo@[x] <= self.nodes@[x].keys@[b]);
    }

    /// Following forward links from the leftmost leaf visits every leaf exactly
    /// once, in non-decreasing key order: the returned sequence starts at the
    /// leaf reached by always taking the first child, holds each leaf of the
    /// arena once, links each leaf to the one after it, and ends at a leaf
    /// without a link.
    pub proof fn lemma_leaf_chain(self) -> (ch: Seq<usize>)
        requires
            self.wf(),
        ensures
            ch.len() >= 1,
            ch[0] == self.leftmost(self.root_index(), self.level(self.root_index())),
            distinct(ch),
            forall|k: int|
                0 <= k < ch.len() ==> #[trigger] ch[k] < self.arena().len() && self.arena()[ch[k] as int].is_leaf,
            forall|n: int|
                0 <= n < self.arena().len() && #[trigger] self.arena()[n].is_leaf ==> ch.contains(n as usize),
            forall|k: int| 0 <= k < ch.len() - 1 ==> self.arena()[#[trigger] ch[k] as int].next == Some(ch[k + 1]),
            self.arena()[ch.last() as int].next is None,
            forall|k1: int, k2: int, a: int, b: int|
                0 <= k1 < k2 < ch.len() && 0 <= a < self.arena()[ch[k1] as int].keys@.len() && 0 <= b
                    < self.arena()[ch[k2] as int].keys@.len() ==> #[trigger] self.arena()[ch[k1] as int].keys@[a]
                    <= #[trigger] self.arena()[ch[k2] as int].keys@[b],
    {
        let ch = self.chain@;
        assert forall|k1: int, k2: int, a: int, b: int|
            0 <= k1 < k2 < ch.len() && 0 <= a < self.arena()[ch[k1] as int].keys@.len() && 0 <= b
                < self.arena()[ch[k2] as int].keys@.len() implies #[trigger] self.arena()[ch[k1] as int].keys@[a]
                <= #[trigger] self.arena()[ch[k2] as int].keys@[b] by {
            assert(ch[k1] < self.arena().len() && ch[k2] < self.arena().len());
            assert(self.node_ok(ch[k1] as int, -1));
            assert(self.node_ok(ch[k2] as int, -1));
            self.lemma_chain_bounds(k1, k2);
        }
        ch
    }

    /// Along the leaf chain, the upper bound of a leaf is at most the lower
    /// bound of every leaf after it.
    proof fn lemma_chain_bounds(self, k1: int, k2: int)
        requires
            self.wf(),
            0 <= k1 < k2 < self.chain@.len(),
        ensures
            self.hi@[self.chain@[k1] as int] <= self.lo@[self.chain@[k2] as int],
        decreases k2 - k1,
    {
        let ch = self.chain@;
        assert(ch[k1] < self.nodes@.len());
        assert(self.node_ok(ch[k1] as int, -1));
        assert(self.nodes@[ch[k1] as int].next == Some(ch[k1 + 1]));
        if k1 + 1 < k2 {
            assert(ch[k1 + 1] < self.nodes@.len());
            assert(self.node_ok(ch[k1 + 1] as int, -1));
            self.lemma_chain_bounds(k1 + 1, k2);
        }
    }

    /// Every inserted key is found: a lookup of it returns one of the values
    /// inserted under it, and exactly that value when only one value was
    /// inserted under the key.
    pub proof fn lemma_lookup_finds(self, k: usize, v: usize)
        requires
            self.wf(),
            self.entries().contains((k, v)),
        ensures
            self.lookup(k) is Some,
            self.entries().contains((k, self.lookup(k)->0)),
            (forall|w: usize| self.entries().contains((k, w)) ==> w == v) ==> self.lookup(k) == Some(v),
    {
        let rt = self.root as int;
        assert(self.finds(rt, k));
        self.lemma_leaf_for(rt, k);
        let l = self.leaf_for(rt, k, self.levels@[rt]);
        let nd = self.nodes@[l];
        assert(self.node_ok(l, -1));
        let j = choose|j: int| 0 <= j < nd.keys@.len() && nd.keys@[j] == k;
        lemma_first_index_exists(nd.keys@, k, j);
        let f = choose|f: int| first_index(nd.keys@, k, f);
        assert(self.entries@.contains((nd.keys@[f], nd.values@[f])));
        assert(leaf_lookup(nd, k) == Some(nd.values@[f]));
        assert(self.lookup(k) == Some(nd.values@[f]));
    }

    /// A lookup of a key that was never inserted finds nothing.
    pub proof fn lemma_miss(self, key: usize)
        requires
            self.wf(),
            forall|v: usize| !self.entries().contains((key, v)),
        ensures
            self.lookup(key) is None,
    {
        let l = self.leaf_for(self.root_index(), key, self.level(self.root_index()));
        self.lemma_leaf_for(self.root_index(), key);
        assert(self.node_ok(l, -1));
        let nd = self.arena()[l];
        if exists|j: int| first_index(nd.keys@, key, j) {
            let j = choose|j: int| first_index(nd.keys@, key, j);
            assert(self.entries().contains((nd.keys@[j], nd.values@[j])));
        }
    }
}

} // verus!
