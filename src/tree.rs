use vstd::prelude::*;
use vstd::multiset::Multiset;
use vstd::seq_lib::to_multiset_contains;
use crate::entry::Entry;
use crate::node::{
    found_in, halves_take, inserted_non_full, lemma_flatten_one, lemma_split_descend, valid_degree,
    Node,
};

verus! {

/// An empty sequence holds nothing.
pub proof fn lemma_empty_multiset<A>()
    ensures
        Seq::<A>::empty().to_multiset() == Multiset::<A>::empty(),
{
    assert forall|a: A| Seq::<A>::empty().to_multiset().count(a) == 0 by {
        to_multiset_contains(Seq::<A>::empty(), a);
    }
    assert(Seq::<A>::empty().to_multiset() =~= Multiset::<A>::empty());
}

/// A B-tree of minimum degree `t`, keyed by `u64`. It is empty exactly when
/// `root` is `None`; it grows only by insertion.
pub struct BTree<P: Copy> {
    pub root: Option<Node<P>>,
    pub t: usize,
}

impl<P: Copy> View for BTree<P> {
    type V = Multiset<Entry<P>>;

    /// The entries that the tree holds, counted with their multiplicity.
    open spec fn view(&self) -> Multiset<Entry<P>> {
        self.entries().to_multiset()
    }
}

/// `root` is the leaf that the first insertion, of `e`, creates.
pub open spec fn first_root<P: Copy>(root: Option<Node<P>>, e: Entry<P>) -> bool {
    &&& root is Some
    &&& root->Some_0.leaf
    &&& root->Some_0.height@ == 0
    &&& root->Some_0.keys@ == seq![e]
}

/// `r` is the root after `e` was inserted below the root `r0`. A full root is
/// split under a new root one level higher, holding only the old root's median,
/// with the two halves as children; this is the only way the height grows.
/// Otherwise the root keeps its height and takes `e` as `insert_non_full` does.
pub open spec fn root_grown<P: Copy>(r0: Node<P>, r: Node<P>, e: Entry<P>) -> bool {
    if r0.is_full() {
        &&& !r.leaf
        &&& r.height@ == r0.height@ + 1
        &&& r.n == 1
        &&& r.keys@ == seq![r0.keys@[r0.t - 1]]
        &&& r.child@.len() == 2
        &&& halves_take(r.child@[0], r.child@[1], r0, e)
    } else {
        &&& r.height == r0.height
        &&& inserted_non_full(r0, r, e)
    }
}

impl<P: Copy> BTree<P> {
    /// Every node is well formed, of the tree's degree, and a present root holds an entry.
    pub open spec fn wf(self) -> bool {
        &&& valid_degree(self.t as nat)
        &&& match self.root {
            Some(r) => r.wf() && r.t == self.t && r.n >= 1,
            None => true,
        }
    }

    /// The entries of the tree in traversal order: each node's own entries, then
    /// its children's subtrees from left to right.
    pub open spec fn entries(self) -> Seq<Entry<P>> {
        match self.root {
            Some(r) => r.contents(),
            None => Seq::empty(),
        }
    }

    /// An empty tree of minimum degree `t`.
    pub fn new(t: usize) -> (r: BTree<P>)
        requires
            valid_degree(t as nat),
        ensures
            r.wf(),
            r.t == t,
            r.root is None,
            r@ == Multiset::<Entry<P>>::empty(),
    {
        proof {
            lemma_empty_multiset::<Entry<P>>();
        }
        BTree { root: None, t }
    }

    /// All entries of the tree in node order, or `None` for an empty tree.
    pub fn traverse(&self) -> (r: Option<Vec<Entry<P>>>)
        requires
            self.wf(),
        ensures
            r is None <==> self.root is None,
            r matches Some(v) ==> v@ == self.entries(),
    {
        let mut out: Vec<Entry<P>> = Vec::new();
        match &self.root {
            Some(r) => {
                r.traverse(&mut out);
                assert(out@ =~= self.entries());
                Some(out)
            },
            None => None,
        }
    }

    /// Looks up an entry with key `key`.
    pub fn search(&self, key: &u64) -> (r: Option<Entry<P>>)
        requires
            self.wf(),
        ensures
            found_in(self@, *key, r),
    {
        proof {
            lemma_empty_multiset::<Entry<P>>();
        }
        match &self.root {
            Some(r) => r.search(key, false),
            None => None,
        }
    }

    /// Looks up an entry with key `key`, scanning every node linearly.
    pub fn search_linear(&self, key: &u64) -> (r: Option<Entry<P>>)
        requires
            self.wf(),
        ensures
            found_in(self@, *key, r),
    {
        proof {
            lemma_empty_multiset::<Entry<P>>();
        }
        match &self.root {
            Some(r) => r.search(key, true),
            None => None,
        }
    }

    /// Inserts an entry. A full root is split first, which is the only way the
    /// tree grows in height.
    pub fn insert(&mut self, key: u64, value: P)
        requires
            old(self).wf(),
        ensures
            final(self).wf(),
            final(self).t == old(self).t,
            final(self)@ == old(self)@.insert((Entry { key: key, value: value })),
            old(self).root is None ==> first_root(final(self).root, (Entry { key: key, value: value })),
            old(self).root is Some ==> final(self).root is Some,
            old(self).root is Some ==> root_grown(
                old(self).root->Some_0,
                final(self).root->Some_0,
                (Entry { key: key, value: value }),
            ),
    {
        let ghost e = Entry { key: key, value: value };
        let t = self.t;
        match self.root.take() {
            None => {
                let mut root = Node::new(t, true);
                root.keys.push(Entry::new(key, value));
                root.n = 1;
                self.root = Some(root);
                proof {
                    let r = self.root->Some_0;
                    assert(r.wf());
                    assert(r.contents() =~= seq![e]);
                    assert(Seq::<Entry<P>>::empty().push(e) =~= seq![e]);
                    vstd::seq_lib::to_multiset_build(Seq::<Entry<P>>::empty(), e);
                }
            },
            Some(mut r) => {
                if r.n == 2 * t - 1 {
                    let ghost h = r.height@;
                    let ghost r0 = r;
                    let mut ch: Vec<Node<P>> = Vec::new();
                    ch.push(r);
                    let mut s = Node { t, n: 0, leaf: false, keys: Vec::new(), child: ch, height: Ghost(h + 1) };
                    proof {
                        assert(s.child@[0] == r0);
                        assert(s.wf());
                        lemma_flatten_one(r0, h);
                        assert(s.child@ =~= seq![r0]);
                        assert(s.contents() =~= r0.contents());
                    }
                    let ghost s0 = s;
                    s.split_nodes(0, 0);
                    let ghost s1 = s;
                    let mut index: usize = 0;
                    if s.keys[0].key < key {
                        index += 1;
                    }
                    s.insert_into_child(index, key, value);
                    proof {
                        lemma_split_descend(s0, s1, s, 0, index as int, e);
                        assert(s0.keys@.insert(0, r0.keys@[t - 1]) =~= seq![r0.keys@[t - 1]]);
                    }
                    self.root = Some(s);
                } else {
                    r.insert_non_full(key, value);
                    self.root = Some(r);
                }
            },
        }
    }
}

} // verus!
