use vstd::prelude::*;

verus! {

/// Keys in non-decreasing order.
pub open spec fn sorted(s: Seq<usize>) -> bool {
    forall|i: int, j: int| 0 <= i <= j < s.len() ==> s[i] <= s[j]
}

/// How many elements of `s` are at most `k`.
pub open spec fn count_le(s: Seq<usize>, k: usize) -> nat
    decreases s.len(),
{
    if s.len() == 0 {
        0
    } else {
        (if s[0] <= k { 1nat } else { 0nat }) + count_le(s.subrange(1, s.len() as int), k)
    }
}

/// In a sorted sequence, a split point with every element before it at most `k`
/// and every element from it on above `k` is the count of elements at most `k`.
pub proof fn lemma_count_le_split(s: Seq<usize>, k: usize, i: int)
    requires
        0 <= i <= s.len(),
        forall|j: int| 0 <= j < i ==> s[j] <= k,
        forall|j: int| i <= j < s.len() ==> s[j] > k,
    ensures
        count_le(s, k) == i,
    decreases s.len(),
{
    if s.len() > 0 {
        let t = s.subrange(1, s.len() as int);
        if i > 0 {
            lemma_count_le_split(t, k, i - 1);
        } else {
            lemma_count_le_split(t, k, 0);
        }
    }
}

/// The count never exceeds the length.
pub proof fn lemma_count_le_bound(s: Seq<usize>, k: usize)
    ensures
        count_le(s, k) <= s.len(),
    decreases s.len(),
{
    if s.len() > 0 {
        lemma_count_le_bound(s.subrange(1, s.len() as int), k);
    }
}

/// In a sorted sequence the elements before the count are at most `k` and
/// those from it on are above `k`.
pub proof fn lemma_count_le_sorted(s: Seq<usize>, k: usize)
    requires
        sorted(s),
    ensures
        count_le(s, k) <= s.len(),
        forall|j: int| 0 <= j < count_le(s, k) ==> s[j] <= k,
        forall|j: int| count_le(s, k) <= j < s.len() ==> s[j] > k,
    decreases s.len(),
{
    if s.len() > 0 {
        let t = s.subrange(1, s.len() as int);
        assert(sorted(t));
        lemma_count_le_sorted(t, k);
        assert forall|j: int| 1 <= j < s.len() implies s[j] == t[j - 1] by {}
        if s[0] > k {
            assert(count_le(t, k) == 0) by {
                if count_le(t, k) > 0 {
                    assert(t[0] <= k);
                    assert(s[1] <= k);
                }
            }
        }
    }
}

/// Where a key occurs, it has a first occurrence.
pub proof fn lemma_first_index_exists(s: Seq<usize>, k: usize, j: int)
    requires
        0 <= j < s.len(),
        s[j] == k,
    ensures
        exists|f: int| first_index(s, k, f),
    decreases j,
{
    if exists|m: int| 0 <= m < j && s[m] == k {
        let m = choose|m: int| 0 <= m < j && s[m] == k;
        lemma_first_index_exists(s, k, m);
    } else {
        assert(first_index(s, k, j));
    }
}

/// The first index of `s` that holds `k`, if any.
pub open spec fn first_index(s: Seq<usize>, k: usize, j: int) -> bool {
    0 <= j < s.len() && s[j] == k && forall|m: int| 0 <= m < j ==> s[m] != k
}

/// One page of the tree. A leaf holds keys with parallel values; an internal
/// node holds separator keys and the arena indices of its children.
#[derive(Debug)]
pub struct Node {
    /// Maximum fan-out; a node holds at most `order - 1` keys.
    pub order: usize,
    pub keys: Vec<usize>,
    /// For a leaf, the value of each key at the same position.
    pub values: Vec<usize>,
    /// For a leaf, the next leaf to the right.
    pub next: Option<usize>,
    /// For an internal node, one more child than keys.
    pub children: Vec<usize>,
    /// The internal node that holds this one among its children.
    pub parent: Option<usize>,
    pub is_leaf: bool,
}

impl Node {
    /// An empty leaf of the given order.
    pub fn new(order: usize) -> (r: Node)
        requires
            order >= 2,
        ensures
            r.order == order,
            r.keys@.len() == 0,
            r.values@.len() == 0,
            r.children@.len() == 0,
            r.next is None,
            r.parent is None,
            r.is_leaf,
    {
        Node {
            order,
            keys: Vec::new(),
            values: Vec::new(),
            next: None,
            children: Vec::new(),
            parent: None,
            is_leaf: true,
        }
    }

    /// The node holds more keys than its order allows.
    pub fn is_overflow(&self) -> (r: bool)
        requires
            self.order >= 1,
        ensures
            r == (self.keys@.len() > self.order - 1),
    {
        self.keys.len() > self.order - 1
    }

    /// The number of keys at most `key`: the stable insertion point, and for an
    /// internal node the child to descend into.
    pub fn position(&self, key: usize) -> (i: usize)
        requires
            sorted(self.keys@),
        ensures
            i == count_le(self.keys@, key),
            i <= self.keys@.len(),
            forall|j: int| 0 <= j < i ==> self.keys@[j] <= key,
            forall|j: int| i <= j < self.keys@.len() ==> self.keys@[j] > key,
    {
        let mut lo: usize = 0;
        let mut hi: usize = self.keys.len();
        while lo < hi
            invariant
                0 <= lo <= hi <= self.keys@.len(),
                sorted(self.keys@),
                forall|j: int| 0 <= j < lo ==> self.keys@[j] <= key,
                forall|j: int| hi <= j < self.keys@.len() ==> self.keys@[j] > key,
            decreases hi - lo,
        {
            let mid = lo + (hi - lo) / 2;
            if self.keys[mid] <= key {
                lo = mid + 1;
            } else {
                hi = mid;
            }
        }
        proof {
            lemma_count_le_split(self.keys@, key, lo as int);
        }
        lo
    }

    /// Places `(key, value)` after every key at most `key`, keeping the keys
    /// sorted and equal keys in insertion order. Returns whether the node now
    /// overflows.
    pub fn place(&mut self, key: usize, value: usize) -> (overflow: bool)
        requires
            sorted(old(self).keys@),
            old(self).values@.len() == old(self).keys@.len(),
            old(self).order >= 1,
        ensures
            final(self).keys@ == old(self).keys@.insert(count_le(old(self).keys@, key) as int, key),
            final(self).values@ == old(self).values@.insert(
                count_le(old(self).keys@, key) as int,
                value,
            ),
            sorted(final(self).keys@),
            count_le(old(self).keys@, key) <= old(self).keys@.len(),
            final(self).order == old(self).order,
            final(self).children == old(self).children,
            final(self).next == old(self).next,
            final(self).parent == old(self).parent,
            final(self).is_leaf == old(self).is_leaf,
            overflow == (final(self).keys@.len() > final(self).order - 1),
    {
        let i = self.position(key);
        self.keys.insert(i, key);
        self.values.insert(i, value);
        assert(sorted(self.keys@)) by {
            assert forall|a: int, b: int| 0 <= a <= b < self.keys@.len() implies self.keys@[a]
                <= self.keys@[b] by {
                if a < i && b > i {
                    assert(self.keys@[b] == old(self).keys@[b - 1]);
                } else if a > i {
                    assert(self.keys@[a] == old(self).keys@[a - 1]);
                }
            }
        }
        self.is_overflow()
    }

    /// Splits this leaf in two: it keeps the first half of its entries, and a
    /// new leaf of the same order and parent takes the rest. The new leaf is
    /// to live at arena index `sibling`: this leaf links to it, and it takes
    /// over this leaf's old link. Returns the separator for the parent, the
    /// new leaf's first key, which stays in the new leaf, and the new leaf.
    pub fn split_leaf(&mut self, sibling: usize) -> (r: (usize, Node))
        requires
            old(self).is_leaf,
            old(self).values@.len() == old(self).keys@.len(),
            old(self).keys@.len() >= 2,
        ensures
            ({
                let ok = old(self).keys@;
                let ov = old(self).values@;
                let mid = ok.len() / 2;
                let (sep, right) = r;
                &&& final(self).keys@ == ok.subrange(0, mid as int)
                &&& final(self).values@ == ov.subrange(0, mid as int)
                &&& final(self).next == Some(sibling)
                &&& right.keys@ == ok.subrange(mid as int, ok.len() as int)
                &&& right.values@ == ov.subrange(mid as int, ov.len() as int)
                &&& sep == ok[mid as int]
                &&& right.next == old(self).next
                &&& right.order == old(self).order
                &&& right.is_leaf
                &&& right.parent == old(self).parent
                &&& right.children@.len() == 0
                &&& final(self).order == old(self).order
                &&& final(self).parent == old(self).parent
                &&& final(self).is_leaf
                &&& final(self).children == old(self).children
            }),
    {
        let mid = self.keys.len() / 2;
        let keys = self.keys.split_off(mid);
        let values = self.values.split_off(mid);
        let sep = keys[0];
        let right = Node {
            order: self.order,
            keys,
            values,
            next: self.next,
            children: Vec::new(),
            parent: self.parent,
            is_leaf: true,
        };
        self.next = Some(sibling);
        (sep, right)
    }

    /// Inserts `(key, value)` into this leaf after every key at most `key`.
    /// When the leaf then holds more than `order - 1` keys it splits: it keeps
    /// the first half, and the new right sibling, to live at arena index
    /// `sibling`, takes the rest and joins the leaf chain after it. Returns the
    /// separator and the new sibling after a split, nothing otherwise.
    pub fn insert(&mut self, key: usize, value: usize, sibling: usize) -> (r: Option<(usize, Node)>)
        requires
            old(self).is_leaf,
            sorted(old(self).keys@),
            old(self).values@.len() == old(self).keys@.len(),
            old(self).order >= 2,
            old(self).keys@.len() <= old(self).order - 1,
        ensures
            ({
                let i = count_le(old(self).keys@, key) as int;
                let ks = old(self).keys@.insert(i, key);
                let vs = old(self).values@.insert(i, value);
                let mid = ks.len() / 2;
                &&& final(self).order == old(self).order
                &&& final(self).parent == old(self).parent
                &&& final(self).is_leaf
                &&& final(self).children == old(self).children
                &&& ks.len() <= old(self).order - 1 ==> {
                    &&& r is None
                    &&& final(self).keys@ == ks
                    &&& final(self).values@ == vs
                    &&& final(self).next == old(self).next
                }
                &&& ks.len() > old(self).order - 1 ==> {
                    &&& r is Some
                    &&& final(self).keys@ == ks.subrange(0, mid as int)
                    &&& final(self).values@ == vs.subrange(0, mid as int)
                    &&& final(self).next == Some(sibling)
                    &&& ({
                        let (sep, right) = r->0;
                        &&& sep == ks[mid as int]
                        &&& right.keys@ == ks.subrange(mid as int, ks.len() as int)
                        &&& right.values@ == vs.subrange(mid as int, vs.len() as int)
                        &&& right.next == old(self).next
                        &&& right.order == old(self).order
                        &&& right.is_leaf
                        &&& right.parent == old(self).parent
                        &&& right.children@.len() == 0
                    })
                }
            }),
    {
        let overflow = self.place(key, value);
        if overflow {
            Some(self.split_leaf(sibling))
        } else {
            None
        }
    }

    /// The value of the first entry whose key is `key`, searching this node's
    /// own entries.
    pub fn get(&self, key: usize) -> (r: Option<usize>)
        requires
            self.values@.len() == self.keys@.len(),
        ensures
            r is Some ==> exists|j: int|
                first_index(self.keys@, key, j) && r == Some(self.values@[j]),
            r is None ==> forall|j: int| 0 <= j < self.keys@.len() ==> self.keys@[j] != key,
    {
        let mut j: usize = 0;
        while j < self.keys.len()
            invariant
                j <= self.keys@.len(),
                self.values@.len() == self.keys@.len(),
                forall|m: int| 0 <= m < j ==> self.keys@[m] != key,
            decreases self.keys@.len() - j,
        {
            if self.keys[j] == key {
                assert(first_index(self.keys@, key, j as int));
                return Some(self.values[j]);
            }
            j += 1;
        }
        None
    }
}

} // verus!
