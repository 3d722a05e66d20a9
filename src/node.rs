use vstd::prelude::*;
use vstd::multiset::Multiset;
use vstd::seq_lib::{lemma_multiset_commutative, to_multiset_contains};
use crate::entry::Entry;

verus! {

/// Above this many entries a node first tries a binary probe for an exact match.
pub const LINEAR_LIMIT: usize = 512;

/// A degree is usable when it is at least 2 and a node's slot counts fit comfortably.
pub open spec fn valid_degree(t: nat) -> bool {
    2 <= t && 2 * t <= isize::MAX
}

/// The outcome of a lookup of `key` in the entries `m`: some stored entry with
/// that key, or nothing when no stored entry has it.
pub open spec fn found_in<P: Copy>(m: Multiset<Entry<P>>, key: u64, r: Option<Entry<P>>) -> bool {
    match r {
        Some(e) => e.key == key && m.count(e) > 0,
        None => forall|e: Entry<P>| #[trigger] m.count(e) > 0 ==> e.key != key,
    }
}

/// A node of the tree. `keys` holds its `n` entries in ascending key order; an
/// internal node owns `n + 1` children in `child`. `height` is the distance to
/// the leaves, which all lie at the same depth.
pub struct Node<P: Copy> {
    pub t: usize,
    pub n: usize,
    pub leaf: bool,
    pub keys: Vec<Entry<P>>,
    pub child: Vec<Node<P>>,
    pub height: Ghost<nat>,
}

/// The entries of the subtrees `cs`, each of height `d`, one subtree after the other.
pub open spec fn flatten<P: Copy>(cs: Seq<Node<P>>, d: nat) -> Seq<Entry<P>>
    decreases d, cs.len(),
{
    if cs.len() == 0 {
        Seq::empty()
    } else {
        flatten(cs.drop_last(), d) + cs.last().entries_at(d)
    }
}

/// Number of entries of `s` whose key is at most `key`: in sorted keys, the
/// slot where a new entry with that key goes, after those with an equal key.
pub open spec fn rank<P: Copy>(s: Seq<Entry<P>>, key: u64) -> int
    decreases s.len(),
{
    if s.len() == 0 {
        0
    } else {
        rank(s.drop_last(), key) + if s.last().key <= key {
            1int
        } else {
            0int
        }
    }
}

/// `h` is the lower half of the full node `y`: its first `t-1` entries and,
/// in an internal node, its first `t` children.
pub open spec fn is_lower_half<P: Copy>(h: Node<P>, y: Node<P>) -> bool {
    &&& h.t == y.t
    &&& h.leaf == y.leaf
    &&& h.height == y.height
    &&& h.n == y.t - 1
    &&& h.keys@ == y.keys@.subrange(0, y.t - 1)
    &&& h.child@ == if y.leaf {
        Seq::<Node<P>>::empty()
    } else {
        y.child@.subrange(0, y.t as int)
    }
}

/// `h` is the upper half of the full node `y`: its last `t-1` entries and, in
/// an internal node, its last `t` children.
pub open spec fn is_upper_half<P: Copy>(h: Node<P>, y: Node<P>) -> bool {
    &&& h.t == y.t
    &&& h.leaf == y.leaf
    &&& h.height == y.height
    &&& h.n == y.t - 1
    &&& h.keys@ == y.keys@.subrange(y.t as int, 2 * y.t - 1)
    &&& h.child@ == if y.leaf {
        Seq::<Node<P>>::empty()
    } else {
        y.child@.subrange(y.t as int, 2 * y.t)
    }
}

/// The entries of the lower half of the full node `y`.
pub open spec fn lower_entries<P: Copy>(y: Node<P>) -> Seq<Entry<P>> {
    if y.height@ == 0 {
        y.keys@.subrange(0, y.t - 1)
    } else {
        y.keys@.subrange(0, y.t - 1) + flatten(y.child@.subrange(0, y.t as int), (y.height@ - 1) as nat)
    }
}

/// The entries of the upper half of the full node `y`.
pub open spec fn upper_entries<P: Copy>(y: Node<P>) -> Seq<Entry<P>> {
    if y.height@ == 0 {
        y.keys@.subrange(y.t as int, 2 * y.t - 1)
    } else {
        y.keys@.subrange(y.t as int, 2 * y.t - 1) + flatten(
            y.child@.subrange(y.t as int, 2 * y.t),
            (y.height@ - 1) as nat,
        )
    }
}

/// `lo` and `hi` are the halves of the full node `y` after `e` went into one of
/// them: the lower half when `e`'s key is at most the median's, else the upper
/// one. The other half is exactly as the split left it.
pub open spec fn halves_take<P: Copy>(lo: Node<P>, hi: Node<P>, y: Node<P>, e: Entry<P>) -> bool {
    if e.key <= y.keys@[y.t - 1].key {
        &&& lo.height == y.height
        &&& lo.contents().to_multiset() == lower_entries(y).to_multiset().insert(e)
        &&& is_upper_half(hi, y)
    } else {
        &&& is_lower_half(lo, y)
        &&& hi.height == y.height
        &&& hi.contents().to_multiset() == upper_entries(y).to_multiset().insert(e)
    }
}

/// `x1` is the internal node `x0` after `e` went into its child `c`. A full
/// child is split first: its median moves up to slot `c`, and `e` goes into
/// one of the two halves. The other children keep their places.
pub open spec fn descended<P: Copy>(x0: Node<P>, x1: Node<P>, c: int, e: Entry<P>) -> bool {
    let y = x0.child@[c];
    if y.is_full() {
        &&& x1.n == x0.n + 1
        &&& x1.keys@ == x0.keys@.insert(c, y.keys@[x0.t - 1])
        &&& x1.child@.len() == x0.child@.len() + 1
        &&& x1.child@.take(c) == x0.child@.take(c)
        &&& x1.child@.skip(c + 2) == x0.child@.skip(c + 1)
        &&& halves_take(x1.child@[c], x1.child@[c + 1], y, e)
    } else {
        &&& x1.n == x0.n
        &&& x1.keys@ == x0.keys@
        &&& x1.child@ == x0.child@.update(c, x1.child@[c])
        &&& x1.child@[c].contents().to_multiset() == y.contents().to_multiset().insert(e)
    }
}

/// `x1` is the non-full node `x0` after `e` was inserted into it: a leaf takes
/// `e` after its keys that are at most `e`'s; an internal node passes it to the
/// child after those keys.
pub open spec fn inserted_non_full<P: Copy>(x0: Node<P>, x1: Node<P>, e: Entry<P>) -> bool {
    let c = rank(x0.keys@, e.key);
    if x0.leaf {
        &&& x1.n == x0.n + 1
        &&& x1.keys@ == x0.keys@.insert(c, e)
    } else {
        descended(x0, x1, c, e)
    }
}

impl<P: Copy> Node<P> {
    /// Lower bound on the keys of child `i`, inside a node whose keys lie in `[lo, hi]`.
    pub open spec fn lo_of(self, i: int, lo: int) -> int {
        if i == 0 {
            lo
        } else {
            self.keys@[i - 1].key as int
        }
    }

    /// Upper bound on the keys of child `i`, inside a node whose keys lie in `[lo, hi]`.
    pub open spec fn hi_of(self, i: int, hi: int) -> int {
        if i == self.n {
            hi
        } else {
            self.keys@[i].key as int
        }
    }

    /// The node is a well-formed subtree of height `d` whose keys lie in `[lo, hi]`:
    /// sorted keys, at most `2t-1` of them, every child of height `d-1` holding at
    /// least `t-1` entries and keys between the separators around it.
    pub open spec fn wf_in(self, d: nat, lo: int, hi: int) -> bool
        decreases d,
    {
        &&& self.height@ == d
        &&& valid_degree(self.t as nat)
        &&& self.n == self.keys.len()
        &&& self.n <= 2 * self.t - 1
        &&& (self.leaf <==> d == 0)
        &&& forall|i: int, j: int|
            0 <= i < j < self.n ==> self.keys@[i].key <= self.keys@[j].key
        &&& forall|i: int| 0 <= i < self.n ==> lo <= #[trigger] self.keys@[i].key <= hi
        &&& if d == 0 {
            self.child.len() == 0
        } else {
            &&& self.child.len() == self.n + 1
            &&& forall|i: int|
                0 <= i <= self.n ==> {
                    &&& (#[trigger] self.child@[i]).t == self.t
                    &&& self.child@[i].n >= self.t - 1
                    &&& self.child@[i].wf_in((d - 1) as nat, self.lo_of(i, lo), self.hi_of(i, hi))
                }
        }
    }

    /// A well-formed subtree with no bound on its keys beyond their type.
    pub open spec fn wf(self) -> bool {
        self.wf_in(self.height@, 0, u64::MAX as int)
    }

    /// The entries of the subtree of height `d`: the node's own, then each child's in turn.
    pub open spec fn entries_at(self, d: nat) -> Seq<Entry<P>>
        decreases d, 0nat,
    {
        if d == 0 {
            self.keys@
        } else {
            self.keys@ + flatten(self.child@, (d - 1) as nat)
        }
    }

    /// The entries of the subtree, in the order a traversal yields them.
    pub open spec fn contents(self) -> Seq<Entry<P>> {
        self.entries_at(self.height@)
    }

    /// Within every node of the subtree of height `d`, keys strictly ascend.
    pub open spec fn strictly_sorted_at(self, d: nat) -> bool
        decreases d,
    {
        &&& forall|i: int, j: int| 0 <= i < j < self.n ==> self.keys@[i].key < self.keys@[j].key
        &&& d > 0 ==> forall|i: int| 0 <= i <= self.n ==> (#[trigger] self.child@[i]).strictly_sorted_at((d - 1) as nat)
    }

    /// The node holds `2t-1` entries.
    pub open spec fn is_full(self) -> bool {
        self.n == 2 * self.t - 1
    }
}


impl<P: Copy> Node<P> {
    /// An empty node of degree `t`, a leaf or not as asked.
    pub fn new(t: usize, leaf: bool) -> (r: Node<P>)
        ensures
            r.t == t,
            r.n == 0,
            r.leaf == leaf,
            r.keys@.len() == 0,
            r.child@.len() == 0,
            r.height@ == 0,
    {
        Node { t, n: 0, leaf, keys: Vec::new(), child: Vec::new(), height: Ghost(0) }
    }

    /// Appends the subtree's entries to `out`: first the node's own, then each
    /// child's subtree from left to right.
    pub fn traverse(&self, out: &mut Vec<Entry<P>>)
        requires
            self.wf(),
        ensures
            final(out)@ == old(out)@ + self.contents(),
        decreases self.height@,
    {
        let ghost start = out@;
        let mut i: usize = 0;
        while i < self.n
            invariant
                self.wf(),
                i <= self.n,
                out@ == start + self.keys@.take(i as int),
            decreases self.n - i,
        {
            out.push(self.keys[i]);
            assert(self.keys@.take(i + 1) =~= self.keys@.take(i as int).push(self.keys@[i as int]));
            i += 1;
        }
        assert(self.keys@.take(self.n as int) =~= self.keys@);
        if !self.leaf {
            let ghost d = (self.height@ - 1) as nat;
            let mut i: usize = 0;
            assert(self.child@.take(0) =~= Seq::<Node<P>>::empty());
            while i <= self.n
                invariant
                    self.wf(),
                    !self.leaf,
                    d == self.height@ - 1,
                    i <= self.n + 1,
                    out@ == start + self.keys@ + flatten(self.child@.take(i as int), d),
                decreases self.n + 1 - i,
            {
                let c = &self.child[i];
                proof {
                    lemma_child_wf(*self, i as int);
                }
                c.traverse(out);
                proof {
                    let cs = self.child@.take(i + 1);
                    assert(cs.drop_last() =~= self.child@.take(i as int));
                    assert(cs.last() == *c);
                    assert(out@ =~= start + self.keys@ + flatten(cs, d));
                }
                i += 1;
            }
            assert(self.child@.take(self.n + 1) =~= self.child@);
        }
    }


    /// Looks up an entry with key `key` in the subtree. A node of more than
    /// `LINEAR_LIMIT` entries first probes its keys by halving, unless
    /// `force_linear` is set; on a miss it scans the same node linearly to find
    /// the child to descend into.
    pub fn search(&self, key: &u64, force_linear: bool) -> (r: Option<Entry<P>>)
        requires
            self.wf(),
        ensures
            found_in(self.contents().to_multiset(), *key, r),
        decreases self.height@, if force_linear { 0nat } else { 1nat },
    {
        let mut i: usize = 0;
        if !force_linear && self.n > LINEAR_LIMIT {
            let l = self.binary_search_keys(key);
            if l == -1 {
                return self.search(key, true);
            } else {
                i = l as usize;
            }
        } else {
            while i < self.n && self.keys[i].key < *key
                invariant
                    self.wf(),
                    i <= self.n,
                    forall|j: int| 0 <= j < i ==> self.keys@[j].key < *key,
                decreases self.n - i,
            {
                i += 1;
            }
        }
        let ghost d = self.height@;
        let ghost all = self.contents();
        assert(all == self.entries_at(d));
        if i < self.n && self.keys[i].key == *key {
            proof {
                assert(all[i as int] == self.keys@[i as int]);
                to_multiset_contains(all, self.keys@[i as int]);
            }
            return Some(self.keys[i]);
        }
        assert(forall|j: int| 0 <= j < i ==> self.keys@[j].key < *key);
        assert(forall|j: int| i <= j < self.n ==> self.keys@[j].key > *key);
        if i >= self.child.len() || self.leaf {
            proof {
                assert forall|e: Entry<P>| #[trigger] all.to_multiset().count(e) > 0 implies e.key != *key by {
                    to_multiset_contains(all, e);
                    let k = choose|k: int| 0 <= k < all.len() && all[k] == e;
                    assert(all[k] == self.keys@[k]);
                }
            }
            return None;
        }
        let c = &self.child[i];
        let ghost dd = (d - 1) as nat;
        proof {
            lemma_child_wf(*self, i as int);
        }
        let r = c.search(key, force_linear);
        proof {
            let f = flatten(self.child@, dd);
            match r {
                Some(e) => {
                    to_multiset_contains(c.entries_at(dd), e);
                    lemma_flatten_contains_child(self.child@, dd, i as int, e);
                    let k = choose|k: int| 0 <= k < f.len() && f[k] == e;
                    assert(all[self.keys@.len() + k] == e);
                    to_multiset_contains(all, e);
                },
                None => {
                    assert forall|e: Entry<P>| #[trigger] all.to_multiset().count(e) > 0 implies e.key != *key by {
                        to_multiset_contains(all, e);
                        let k = choose|k: int| 0 <= k < all.len() && all[k] == e;
                        if k >= self.keys@.len() {
                            assert(f[k - self.keys@.len()] == e);
                            lemma_flatten_contains(self.child@, dd, e);
                            let j = choose|j: int| 0 <= j < self.child@.len() && (#[trigger] self.child@[j]).entries_at(dd).contains(e);
                            lemma_in_range(self.child@[j], dd, self.lo_of(j, 0), self.hi_of(j, u64::MAX as int), e);
                            if j == i {
                                to_multiset_contains(c.entries_at(dd), e);
                            } else if j < i {
                                assert(self.keys@[j].key < *key);
                            } else {
                                assert(self.keys@[j - 1].key > *key);
                            }
                        }
                    }
                },
            }
        }
        r
    }


    /// Splits the full child at `child_index` into two nodes of `t-1` entries
    /// each; its median entry moves up into this node at slot `pos` and the
    /// upper half becomes the child right after the lower one. The median goes
    /// to the slot whose index is the child's, so `pos` equals `child_index`.
    pub fn split_nodes(&mut self, pos: usize, child_index: usize)
        requires
            old(self).wf(),
            !old(self).leaf,
            old(self).n < 2 * old(self).t - 1,
            pos == child_index,
            pos <= old(self).n,
            old(self).child@[pos as int].is_full(),
        ensures
            final(self).wf(),
            final(self).t == old(self).t,
            final(self).height == old(self).height,
            final(self).n == old(self).n + 1,
            final(self).keys@ == old(self).keys@.insert(
                pos as int,
                old(self).child@[pos as int].keys@[old(self).t - 1],
            ),
            final(self).contents().to_multiset() == old(self).contents().to_multiset(),
            final(self).child@.len() == old(self).child@.len() + 1,
            final(self).child@.take(pos as int) == old(self).child@.take(pos as int),
            final(self).child@.skip(pos + 2) == old(self).child@.skip(pos + 1),
            is_lower_half(final(self).child@[pos as int], old(self).child@[pos as int]),
            is_upper_half(final(self).child@[pos + 1], old(self).child@[pos as int]),
    {
        let ghost s0 = *self;
        let ghost d = self.height@;
        let ghost dd = (d - 1) as nat;
        let ghost lo = s0.lo_of(pos as int, 0);
        let ghost hi = s0.hi_of(pos as int, u64::MAX as int);
        let t = self.t;
        let mut y = self.child.remove(child_index);
        let ghost y0 = y;
        assert(y0 == s0.child@[pos as int]);
        assert(y0.wf_in(dd, lo, hi));
        let z_keys = y.keys.split_off(t);
        let m = y.keys.pop().unwrap();
        let z_child = if y.leaf {
            Vec::new()
        } else {
            y.child.split_off(t)
        };
        y.n = t - 1;
        let z = Node { t, n: t - 1, leaf: y.leaf, keys: z_keys, child: z_child, height: Ghost(dd) };
        let ghost mg = m;
        proof {
            assert(y.keys@ =~= y0.keys@.subrange(0, t - 1));
            assert(z.keys@ =~= y0.keys@.subrange(t as int, y0.keys@.len() as int));
            lemma_split_halves(y0, y, z, mg, dd, lo, hi);
        }
        self.child.insert(pos, y);
        self.child.insert(pos + 1, z);
        self.keys.insert(pos, m);
        self.n = self.n + 1;
        proof {
            lemma_split_parent(s0, *self, pos as int, y0, y, z, mg);
            assert(self.child@.take(pos as int) =~= s0.child@.take(pos as int));
            assert(self.child@.skip(pos + 2) =~= s0.child@.skip(pos + 1));
            assert(self.child@[pos as int] == y);
            assert(self.child@[pos + 1] == z);
            if !y0.leaf {
                assert(y.child@ =~= y0.child@.subrange(0, t as int));
                assert(z.child@ =~= y0.child@.subrange(t as int, 2 * t));
            } else {
                assert(y.child@ =~= Seq::<Node<P>>::empty());
                assert(z.child@ =~= Seq::<Node<P>>::empty());
            }
        }
    }

    /// Inserts an entry into a subtree whose root has room for one more entry,
    /// splitting a full child on the way down before descending into it. In a
    /// leaf the new entry goes after the entries whose key equals `key`.
    pub fn insert_non_full(&mut self, key: u64, value: P)
        requires
            old(self).wf(),
            !old(self).is_full(),
        ensures
            final(self).wf(),
            final(self).t == old(self).t,
            final(self).height == old(self).height,
            old(self).n <= final(self).n <= old(self).n + 1,
            final(self).contents().to_multiset() == old(self).contents().to_multiset().insert(
                (Entry { key: key, value: value }),
            ),
            inserted_non_full(*old(self), *final(self), (Entry { key: key, value: value })),
        decreases old(self).height@,
    {
        let mut i: usize = self.n;
        while i > 0 && self.keys[i - 1].key > key
            invariant
                self.wf(),
                i <= self.n,
                forall|j: int| i <= j < self.n ==> self.keys@[j].key > key,
            decreases i,
        {
            i -= 1;
        }
        if self.leaf {
            let ghost s0 = *self;
            self.keys.insert(i, Entry::new(key, value));
            self.n += 1;
            proof {
                let e = Entry { key: key, value: value };
                assert forall|a: int, b: int| 0 <= a < b < self.n implies self.keys@[a].key <= self.keys@[b].key by {
                    if b < i {
                    } else if b == i {
                        assert(s0.keys@[a].key <= key);
                    } else if a < i {
                    } else if a == i {
                        assert(s0.keys@[b - 1].key > key);
                    }
                }
                assert(self.wf());
                vstd::seq_lib::to_multiset_insert(s0.keys@, i as int, e);
                lemma_rank(s0.keys@, key, i as int);
            }
        } else {
            let ghost s0 = *self;
            let ghost c = i as int;
            proof {
                assert(0 < i ==> self.keys@[i - 1].key <= key);
                lemma_rank(s0.keys@, key, c);
            }
            if self.child[i].n == 2 * self.t - 1 {
                self.split_nodes(i, i);
                let ghost s1 = *self;
                if self.keys[i].key < key {
                    i += 1;
                }
                self.insert_into_child(i, key, value);
                proof {
                    lemma_split_descend(s0, s1, *self, c, i as int, Entry { key: key, value: value });
                }
            } else {
                self.insert_into_child(i, key, value);
            }
        }
    }

    /// Inserts an entry into child `j`, which has room for it and whose
    /// separators admit `key`.
    pub(crate) fn insert_into_child(&mut self, j: usize, key: u64, value: P)
        requires
            old(self).wf(),
            !old(self).leaf,
            j <= old(self).n,
            !old(self).child@[j as int].is_full(),
            old(self).lo_of(j as int, 0) <= key <= old(self).hi_of(j as int, u64::MAX as int),
        ensures
            final(self).wf(),
            final(self).t == old(self).t,
            final(self).height == old(self).height,
            final(self).n == old(self).n,
            final(self).keys@ == old(self).keys@,
            final(self).child@ == old(self).child@.update(j as int, final(self).child@[j as int]),
            final(self).child@[j as int].height == old(self).child@[j as int].height,
            final(self).child@[j as int].contents().to_multiset() == old(self).child@[
                j as int
            ].contents().to_multiset().insert((Entry { key: key, value: value })),
            final(self).contents().to_multiset() == old(self).contents().to_multiset().insert(
                (Entry { key: key, value: value }),
            ),
        decreases old(self).height@, 0nat,
    {
        let ghost s0 = *self;
        let ghost d = self.height@;
        let ghost dd = (d - 1) as nat;
        let ghost lo = s0.lo_of(j as int, 0);
        let ghost hi = s0.hi_of(j as int, u64::MAX as int);
        let ghost c0 = s0.child@[j as int];
        let ghost e = Entry { key: key, value: value };
        proof {
            lemma_child_wf(*self, j as int);
        }
        self.child[j].insert_non_full(key, value);
        proof {
            let c1 = self.child@[j as int];
            assert(self.child@ == s0.child@.update(j as int, c1));
            assert forall|x: Entry<P>| c1.entries_at(dd).contains(x) implies lo <= x.key <= hi by {
                to_multiset_contains(c1.entries_at(dd), x);
                to_multiset_contains(c0.entries_at(dd), x);
                if x != e {
                    lemma_in_range(c0, dd, lo, hi, x);
                }
            }
            lemma_rebound(c1, dd, 0, u64::MAX as int, lo, hi);
            assert forall|i: int| 0 <= i <= self.n implies {
                &&& (#[trigger] self.child@[i]).t == self.t
                &&& self.child@[i].n >= self.t - 1
                &&& self.child@[i].wf_in(dd, self.lo_of(i, 0), self.hi_of(i, u64::MAX as int))
            } by {
                if i != j {
                    assert(self.child@[i] == s0.child@[i]);
                }
            }
            assert(self.wf());
            let a = s0.child@.take(j as int);
            let b = s0.child@.skip(j + 1);
            assert(s0.child@ =~= a + seq![c0] + b);
            assert(self.child@ =~= a + seq![c1] + b);
            lemma_flatten_append(a + seq![c0], b, dd);
            lemma_flatten_append(a, seq![c0], dd);
            lemma_flatten_one(c0, dd);
            lemma_flatten_append(a + seq![c1], b, dd);
            lemma_flatten_append(a, seq![c1], dd);
            lemma_flatten_one(c1, dd);
            lemma_ms_replace(s0.keys@, flatten(a, dd), c0.entries_at(dd), c1.entries_at(dd), flatten(b, dd), e);
        }
    }

    /// Index of an entry whose key equals `key`, found by halving the sorted key
    /// slots; -1 when no entry has that key.
    pub fn binary_search_keys(&self, key: &u64) -> (r: isize)
        requires
            self.wf(),
        ensures
            r == -1 <==> forall|i: int| 0 <= i < self.n ==> self.keys@[i].key != *key,
            r != -1 ==> 0 <= r < self.n && self.keys@[r as int].key == *key,
    {
        let mut low: isize = 0;
        let mut high: isize = self.n as isize - 1;
        while low <= high
            invariant
                self.wf(),
                0 <= low,
                high < self.n,
                low <= high + 1,
                forall|i: int| 0 <= i < low ==> self.keys@[i].key < *key,
                forall|i: int| high < i < self.n ==> self.keys@[i].key > *key,
            decreases high + 1 - low,
        {
            let mid = low + (high - low) / 2;
            let k = self.keys[mid as usize].key;
            if k == *key {
                return mid;
            }
            if *key < k {
                high = mid - 1;
            } else {
                low = mid + 1;
            }
        }
        -1
    }
}

/// The two halves of a split full node are well formed around its median and
/// hold, with the median, what the node held.
proof fn lemma_split_halves<P: Copy>(y0: Node<P>, y: Node<P>, z: Node<P>, mg: Entry<P>, dd: nat, lo: int, hi: int)
    requires
        y0.wf_in(dd, lo, hi),
        y0.is_full(),
        y.t == y0.t && z.t == y0.t,
        y.n == y0.t - 1 && z.n == y0.t - 1,
        y.leaf == y0.leaf && z.leaf == y0.leaf,
        y.height@ == dd && z.height@ == dd,
        mg == y0.keys@[y0.t - 1],
        y.keys@ == y0.keys@.subrange(0, y0.t - 1),
        z.keys@ == y0.keys@.subrange(y0.t as int, y0.keys@.len() as int),
        dd > 0 ==> y.child@ == y0.child@.subrange(0, y0.t as int),
        dd > 0 ==> z.child@ == y0.child@.subrange(y0.t as int, y0.child@.len() as int),
        dd == 0 ==> y.child@.len() == 0 && z.child@.len() == 0,
    ensures
        y.wf_in(dd, lo, mg.key as int),
        z.wf_in(dd, mg.key as int, hi),
        y0.entries_at(dd).to_multiset() == y.entries_at(dd).to_multiset().add(z.entries_at(dd).to_multiset()).insert(mg),
{
    let t = y0.t;
    assert(mg == y0.keys@[t - 1]);
    assert(y.keys@ =~= y0.keys@.take(t - 1));
    assert(z.keys@ =~= y0.keys@.skip(t as int));
    if dd > 0 {
        assert(y.child@ =~= y0.child@.take(t as int));
        assert(z.child@ =~= y0.child@.skip(t as int));
        assert forall|i: int| 0 <= i <= y.n implies (#[trigger] y.child@[i]).wf_in((dd - 1) as nat, y.lo_of(i, lo), y.hi_of(i, mg.key as int)) by {
            assert(y.child@[i] == y0.child@[i]);
        }
        assert forall|i: int| 0 <= i <= z.n implies (#[trigger] z.child@[i]).wf_in((dd - 1) as nat, z.lo_of(i, mg.key as int), z.hi_of(i, hi)) by {
            assert(z.child@[i] == y0.child@[i + t]);
        }
    }
    assert(y.wf_in(dd, lo, mg.key as int));
    assert(z.wf_in(dd, mg.key as int, hi));
    let k1 = y.keys@;
    let k2 = z.keys@;
    assert(y0.keys@ =~= k1 + seq![mg] + k2);
    if dd > 0 {
        let f1 = flatten(y.child@, (dd - 1) as nat);
        let f2 = flatten(z.child@, (dd - 1) as nat);
        lemma_flatten_append(y.child@, z.child@, (dd - 1) as nat);
        assert(y0.child@ =~= y.child@ + z.child@);
        lemma_ms_halves(k1, mg, k2, f1, f2);
        assert(y0.entries_at(dd) =~= k1 + seq![mg] + k2 + (f1 + f2));
    } else {
        let e = Seq::<Entry<P>>::empty();
        lemma_ms_halves(k1, mg, k2, e, e);
        assert(y0.entries_at(dd) =~= k1 + seq![mg] + k2 + (e + e));
        assert(y.entries_at(dd) =~= k1 + e);
        assert(z.entries_at(dd) =~= k2 + e);
    }
    assert(y0.entries_at(dd).to_multiset() == y.entries_at(dd).to_multiset().add(z.entries_at(dd).to_multiset()).insert(mg));
}

/// After the split, the parent is well formed and holds what it held.
proof fn lemma_split_parent<P: Copy>(s0: Node<P>, s1: Node<P>, pos: int, y0: Node<P>, y: Node<P>, z: Node<P>, mg: Entry<P>)
    requires
        s0.wf(),
        !s0.leaf,
        s0.n < 2 * s0.t - 1,
        0 <= pos <= s0.n,
        y0 == s0.child@[pos],
        y0.is_full(),
        mg == y0.keys@[y0.t - 1],
        y.wf_in((s0.height@ - 1) as nat, s0.lo_of(pos, 0), mg.key as int),
        z.wf_in((s0.height@ - 1) as nat, mg.key as int, s0.hi_of(pos, u64::MAX as int)),
        y.t == s0.t && z.t == s0.t,
        y.n == s0.t - 1 && z.n == s0.t - 1,
        y0.entries_at((s0.height@ - 1) as nat).to_multiset() == y.entries_at((s0.height@ - 1) as nat).to_multiset().add(z.entries_at((s0.height@ - 1) as nat).to_multiset()).insert(mg),
        s1.t == s0.t && s1.leaf == s0.leaf && s1.height == s0.height,
        s1.n == s0.n + 1,
        s1.keys@ == s0.keys@.insert(pos, mg),
        s1.child@ == s0.child@.remove(pos).insert(pos, y).insert(pos + 1, z),
    ensures
        s1.wf(),
        s1.contents().to_multiset() == s0.contents().to_multiset(),
{
    let d = s0.height@;
    let dd = (d - 1) as nat;
    let lo = s0.lo_of(pos, 0);
    let hi = s0.hi_of(pos, u64::MAX as int);
    let a = s0.child@.take(pos);
    let b = s0.child@.skip(pos + 1);
    assert(s0.child@ =~= a + seq![y0] + b);
    assert(s1.child@ =~= a + seq![y, z] + b);
    assert(s1.keys@ =~= s0.keys@.insert(pos, mg));
    assert(y0 == s0.child@[pos]);
    assert(y0.wf_in(dd, lo, hi));
    assert(mg == y0.entries_at(dd)[y0.t - 1]);
    assert(y0.entries_at(dd).contains(mg));
    lemma_in_range(y0, dd, lo, hi, mg);
    assert forall|i: int| 0 <= i <= s1.n implies {
        &&& (#[trigger] s1.child@[i]).t == s1.t
        &&& s1.child@[i].n >= s1.t - 1
        &&& s1.child@[i].wf_in(dd, s1.lo_of(i, 0), s1.hi_of(i, u64::MAX as int))
    } by {
        if i < pos {
            assert(s1.child@[i] == s0.child@[i]);
        } else if i == pos {
            assert(s1.child@[i] == y);
        } else if i == pos + 1 {
            assert(s1.child@[i] == z);
        } else {
            assert(s1.child@[i] == s0.child@[i - 1]);
        }
    }
    assert(s1.wf());
    lemma_flatten_append(a + seq![y0], b, dd);
    lemma_flatten_append(a, seq![y0], dd);
    lemma_flatten_one(y0, dd);
    lemma_flatten_append(a + seq![y, z], b, dd);
    lemma_flatten_append(a, seq![y, z], dd);
    lemma_flatten_append(seq![y], seq![z], dd);
    assert(seq![y] + seq![z] =~= seq![y, z]);
    lemma_flatten_one(y, dd);
    lemma_flatten_one(z, dd);
    lemma_ms_parent(s0.keys@, pos, mg, flatten(a, dd), y0.entries_at(dd), y.entries_at(dd), z.entries_at(dd), flatten(b, dd));
    assert(s0.contents() == s0.keys@ + (flatten(a, dd) + y0.entries_at(dd) + flatten(b, dd)));
    assert(s1.contents() == s1.keys@ + (flatten(a, dd) + (y.entries_at(dd) + z.entries_at(dd)) + flatten(b, dd)));
    assert(s1.child@[pos] == y);
    assert(s1.child@[pos + 1] == z);
    assert(s1.contents().to_multiset() =~= s0.contents().to_multiset());
}

proof fn lemma_ms_halves<A>(k1: Seq<A>, m: A, k2: Seq<A>, f1: Seq<A>, f2: Seq<A>)
    ensures
        (k1 + seq![m] + k2 + (f1 + f2)).to_multiset() =~= (k1 + f1).to_multiset().add(
            (k2 + f2).to_multiset(),
        ).insert(m),
{
    broadcast use lemma_multiset_commutative;
    broadcast use vstd::multiset::group_multiset_axioms;

    let rest = k1 + k2 + (f1 + f2);
    assert(k1 + seq![m] + k2 + (f1 + f2) =~= rest.insert(k1.len() as int, m));
    vstd::seq_lib::to_multiset_insert(rest, k1.len() as int, m);
    assert(rest.to_multiset() =~= (k1 + f1).to_multiset().add((k2 + f2).to_multiset()));
}

proof fn lemma_ms_parent<A>(
    keys: Seq<A>,
    pos: int,
    m: A,
    fa: Seq<A>,
    c0: Seq<A>,
    c1: Seq<A>,
    c2: Seq<A>,
    fb: Seq<A>,
)
    requires
        0 <= pos <= keys.len(),
        c0.to_multiset() == c1.to_multiset().add(c2.to_multiset()).insert(m),
    ensures
        (keys.insert(pos, m) + (fa + (c1 + c2) + fb)).to_multiset() =~= (keys + (fa + c0
            + fb)).to_multiset(),
{
    broadcast use lemma_multiset_commutative;
    broadcast use vstd::multiset::group_multiset_axioms;

    let rest = keys + (fa + (c1 + c2) + fb);
    assert(keys.insert(pos, m) + (fa + (c1 + c2) + fb) =~= rest.insert(pos, m));
    vstd::seq_lib::to_multiset_insert(rest, pos, m);
    assert(rest.to_multiset().insert(m) =~= (keys + (fa + c0 + fb)).to_multiset());
}

proof fn lemma_ms_replace<A>(keys: Seq<A>, fa: Seq<A>, c0: Seq<A>, c1: Seq<A>, fb: Seq<A>, e: A)
    requires
        c1.to_multiset() == c0.to_multiset().insert(e),
    ensures
        (keys + (fa + c1 + fb)).to_multiset() =~= (keys + (fa + c0 + fb)).to_multiset().insert(e),
{
    broadcast use lemma_multiset_commutative;
    broadcast use vstd::multiset::group_multiset_axioms;

}

/// No two positions of `s` hold the same key.
pub open spec fn unique_keys<P: Copy>(s: Seq<Entry<P>>) -> bool {
    forall|a: int, b: int| 0 <= a < b < s.len() ==> s[a].key != s[b].key
}

/// In a subtree whose entries have pairwise distinct keys, every node's keys
/// strictly ascend.
pub proof fn lemma_unique_strict<P: Copy>(x: Node<P>, d: nat, lo: int, hi: int)
    requires
        x.wf_in(d, lo, hi),
        unique_keys(x.entries_at(d)),
    ensures
        x.strictly_sorted_at(d),
    decreases d,
{
    let s = x.entries_at(d);
    assert forall|i: int, j: int| 0 <= i < j < x.n implies x.keys@[i].key < x.keys@[j].key by {
        assert(s[i] == x.keys@[i]);
        assert(s[j] == x.keys@[j]);
    }
    if d > 0 {
        let dd = (d - 1) as nat;
        assert forall|i: int| 0 <= i <= x.n implies (#[trigger] x.child@[i]).strictly_sorted_at(dd) by {
            let cs = x.child@;
            let a = cs.take(i);
            let b = cs.skip(i + 1);
            assert(cs =~= a + seq![cs[i]] + b);
            lemma_flatten_append(a + seq![cs[i]], b, dd);
            lemma_flatten_append(a, seq![cs[i]], dd);
            lemma_flatten_one(cs[i], dd);
            let c = cs[i].entries_at(dd);
            let off = x.keys@.len() + flatten(a, dd).len();
            assert(s == x.keys@ + (flatten(a, dd) + c + flatten(b, dd)));
            assert forall|p: int, q: int| 0 <= p < q < c.len() implies c[p].key != c[q].key by {
                assert(s[off + p] == c[p]);
                assert(s[off + q] == c[q]);
            }
            lemma_unique_strict(cs[i], dd, x.lo_of(i, lo), x.hi_of(i, hi));
        }
    }
}

/// Child `i` of a well-formed internal node is well formed on its own.
pub proof fn lemma_child_wf<P: Copy>(x: Node<P>, i: int)
    requires
        x.wf(),
        !x.leaf,
        0 <= i <= x.n,
    ensures
        x.child@[i].wf(),
        x.child@[i].t == x.t,
        x.child@[i].height@ == x.height@ - 1,
        x.child@[i].n >= x.t - 1,
{
    let c = x.child@[i];
    let dd = (x.height@ - 1) as nat;
    assert forall|e: Entry<P>| c.entries_at(dd).contains(e) implies 0 <= e.key <= u64::MAX by {}
    lemma_rebound(c, dd, x.lo_of(i, 0), x.hi_of(i, u64::MAX as int), 0, u64::MAX as int);
}

/// The position found by scanning sorted keys is the rank of `key`.
proof fn lemma_rank<P: Copy>(s: Seq<Entry<P>>, key: u64, i: int)
    requires
        0 <= i <= s.len(),
        forall|j: int| 0 <= j < i ==> s[j].key <= key,
        forall|j: int| i <= j < s.len() ==> s[j].key > key,
    ensures
        rank(s, key) == i,
    decreases s.len(),
{
    if s.len() > 0 {
        let p = s.drop_last();
        if i == s.len() {
            lemma_rank(p, key, i - 1);
        } else {
            lemma_rank(p, key, i);
        }
    }
}

/// A half of a split node holds the entries that the half's spec names.
proof fn lemma_half_entries<P: Copy>(h: Node<P>, y: Node<P>)
    requires
        y.leaf <==> y.height@ == 0,
        y.keys@.len() == 2 * y.t - 1,
        !y.leaf ==> y.child@.len() == 2 * y.t,
        2 <= y.t,
    ensures
        is_lower_half(h, y) ==> h.contents() == lower_entries(y),
        is_upper_half(h, y) ==> h.contents() == upper_entries(y),
{
}

/// A split of child `c` followed by an insertion into the half that the
/// median's key selects is the descent that `descended` describes.
pub proof fn lemma_split_descend<P: Copy>(s0: Node<P>, s1: Node<P>, s2: Node<P>, c: int, j: int, e: Entry<P>)
    requires
        s0.wf(),
        !s0.leaf,
        0 <= c <= s0.n,
        s0.child@[c].is_full(),
        s1.n == s0.n + 1,
        s1.t == s0.t,
        s1.keys@ == s0.keys@.insert(c, s0.child@[c].keys@[s0.t - 1]),
        s1.child@.len() == s0.child@.len() + 1,
        s1.child@.take(c) == s0.child@.take(c),
        s1.child@.skip(c + 2) == s0.child@.skip(c + 1),
        is_lower_half(s1.child@[c], s0.child@[c]),
        is_upper_half(s1.child@[c + 1], s0.child@[c]),
        j == if s1.keys@[c].key < e.key { c + 1 } else { c },
        s2.n == s1.n,
        s2.keys@ == s1.keys@,
        s2.child@ == s1.child@.update(j, s2.child@[j]),
        s2.child@[j].height == s1.child@[j].height,
        s2.child@[j].contents().to_multiset() == s1.child@[j].contents().to_multiset().insert(e),
    ensures
        descended(s0, s2, c, e),
{
    let y = s0.child@[c];
    lemma_child_wf(s0, c);
    lemma_half_entries(s1.child@[c], y);
    lemma_half_entries(s1.child@[c + 1], y);
    assert(s2.child@.take(c) =~= s1.child@.take(c));
    assert(s2.child@.skip(c + 2) =~= s1.child@.skip(c + 2));
    if j == c {
        assert(s2.child@[c + 1] == s1.child@[c + 1]);
    } else {
        assert(s2.child@[c] == s1.child@[c]);
    }
}

pub proof fn lemma_flatten_append<P: Copy>(a: Seq<Node<P>>, b: Seq<Node<P>>, d: nat)
    ensures
        flatten(a + b, d) == flatten(a, d) + flatten(b, d),
    decreases b.len(),
{
    if b.len() == 0 {
        assert(a + b =~= a);
        assert(flatten(a, d) + flatten(b, d) =~= flatten(a, d));
    } else {
        assert((a + b).drop_last() =~= a + b.drop_last());
        lemma_flatten_append(a, b.drop_last(), d);
        assert(flatten(a + b, d) =~= flatten(a, d) + flatten(b, d));
    }
}

pub proof fn lemma_flatten_one<P: Copy>(c: Node<P>, d: nat)
    ensures
        flatten(seq![c], d) == c.entries_at(d),
{
    assert(seq![c].drop_last() =~= Seq::<Node<P>>::empty());
    assert(flatten(Seq::<Node<P>>::empty(), d) =~= Seq::<Entry<P>>::empty());
    assert(seq![c].last() == c);
    assert(flatten(seq![c], d) =~= c.entries_at(d));
}

/// Every entry of the flattened subtrees comes from one of them.
pub proof fn lemma_flatten_contains<P: Copy>(cs: Seq<Node<P>>, d: nat, e: Entry<P>)
    requires
        flatten(cs, d).contains(e),
    ensures
        exists|i: int| 0 <= i < cs.len() && (#[trigger] cs[i]).entries_at(d).contains(e),
    decreases cs.len(),
{
    let a = flatten(cs.drop_last(), d);
    let b = cs.last().entries_at(d);
    let k = choose|k: int| 0 <= k < flatten(cs, d).len() && flatten(cs, d)[k] == e;
    if k < a.len() {
        assert(a[k] == e);
        lemma_flatten_contains(cs.drop_last(), d, e);
        let i = choose|i: int| 0 <= i < cs.drop_last().len() && (#[trigger] cs.drop_last()[i]).entries_at(d).contains(e);
        assert(cs[i] == cs.drop_last()[i]);
    } else {
        assert(b[k - a.len()] == e);
        assert(cs[cs.len() - 1] == cs.last());
        assert(cs[cs.len() - 1].entries_at(d).contains(e));
    }
}

/// The entries of child `i` appear among the flattened entries of all children.
pub proof fn lemma_flatten_contains_child<P: Copy>(cs: Seq<Node<P>>, d: nat, i: int, e: Entry<P>)
    requires
        0 <= i < cs.len(),
        cs[i].entries_at(d).contains(e),
    ensures
        flatten(cs, d).contains(e),
{
    lemma_flatten_append(cs.take(i), cs.skip(i), d);
    assert(cs =~= cs.take(i) + cs.skip(i));
    lemma_flatten_append(seq![cs[i]], cs.skip(i + 1), d);
    assert(cs.skip(i) =~= seq![cs[i]] + cs.skip(i + 1));
    lemma_flatten_one(cs[i], d);
    let s = cs[i].entries_at(d);
    let k = choose|k: int| 0 <= k < s.len() && s[k] == e;
    let pre = flatten(cs.take(i), d);
    assert(flatten(cs, d)[pre.len() + k] == e);
}

/// Every entry of a well-formed subtree has its key in the subtree's bounds.
pub proof fn lemma_in_range<P: Copy>(x: Node<P>, d: nat, lo: int, hi: int, e: Entry<P>)
    requires
        x.wf_in(d, lo, hi),
        x.entries_at(d).contains(e),
    ensures
        lo <= e.key <= hi,
    decreases d,
{
    let k = choose|k: int| 0 <= k < x.entries_at(d).len() && x.entries_at(d)[k] == e;
    if k < x.keys@.len() {
        assert(x.keys@[k] == e);
    } else {
        let f = flatten(x.child@, (d - 1) as nat);
        assert(f[k - x.keys@.len()] == e);
        assert(f.contains(e));
        lemma_flatten_contains(x.child@, (d - 1) as nat, e);
        let i = choose|i: int| 0 <= i < x.child@.len() && (#[trigger] x.child@[i]).entries_at((d - 1) as nat).contains(e);
        lemma_in_range(x.child@[i], (d - 1) as nat, x.lo_of(i, lo), x.hi_of(i, hi), e);
        if i > 0 {
            assert(lo <= x.keys@[i - 1].key);
        }
        if i < x.n {
            assert(x.keys@[i].key <= hi);
        }
    }
}

/// A well-formed subtree whose entries all lie in `[lo, hi]` is well-formed under those bounds.
pub proof fn lemma_rebound<P: Copy>(x: Node<P>, d: nat, a: int, b: int, lo: int, hi: int)
    requires
        x.wf_in(d, a, b),
        forall|e: Entry<P>| x.entries_at(d).contains(e) ==> lo <= e.key <= hi,
    ensures
        x.wf_in(d, lo, hi),
    decreases d,
{
    assert forall|i: int| 0 <= i < x.n implies lo <= #[trigger] x.keys@[i].key <= hi by {
        assert(x.entries_at(d)[i] == x.keys@[i]);
        assert(x.entries_at(d).contains(x.keys@[i]));
    }
    if d > 0 {
        let dd = (d - 1) as nat;
        assert forall|i: int| 0 <= i <= x.n implies (#[trigger] x.child@[i]).wf_in(dd, x.lo_of(i, lo), x.hi_of(i, hi)) by {
            let c = x.child@[i];
            assert forall|e: Entry<P>| c.entries_at(dd).contains(e) implies x.lo_of(i, lo) <= e.key <= x.hi_of(i, hi) by {
                lemma_in_range(c, dd, x.lo_of(i, a), x.hi_of(i, b), e);
                lemma_flatten_contains_child(x.child@, dd, i, e);
                let f = flatten(x.child@, dd);
                let k = choose|k: int| 0 <= k < f.len() && f[k] == e;
                assert(x.entries_at(d)[x.keys@.len() + k] == e);
                assert(x.entries_at(d).contains(e));
            }
            lemma_rebound(c, dd, x.lo_of(i, a), x.hi_of(i, b), x.lo_of(i, lo), x.hi_of(i, hi));
        }
    }
}

} // verus!
