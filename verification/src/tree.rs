//! The summarized B+-tree: a sequence of items held in well-formed nodes, built
//! by appending and taken apart by splitting.

use vstd::prelude::*;
use crate::algebra::{Item, item_laws, obeys_clone, summaries, total};
use crate::node::{Node, TREE_BASE, TREE_MAX};

verus! {

/// A sequence of items in a balanced tree whose nodes cache the fold of the
/// summaries below them.
#[derive(Debug)]
pub struct SumTree<T: Item> {
    pub root: Node<T>,
}

impl<T: Item> View for SumTree<T> {
    type V = Seq<T>;

    /// The items of the tree, in order.
    open spec fn view(&self) -> Seq<T> {
        self.root.items()
    }
}

impl<T: Item + Clone> Clone for SumTree<T> {
    /// A copy of the tree: every item and every summary is cloned.
    fn clone(&self) -> (t: Self)
        ensures
            self.wf() && obeys_clone::<T>() ==> t.wf() && t@ == self@,
    {
        SumTree { root: self.root.duplicate() }
    }
}

impl<T: Item> SumTree<T> {
    /// The tree's invariant: the item type is lawful, the root is well formed
    /// as a root, and the number of items fits in `usize`.
    pub open spec fn wf(self) -> bool {
        &&& item_laws::<T>()
        &&& self.root.wf(true)
        &&& self@.len() <= usize::MAX
    }

    /// The number of levels below the root.
    pub open spec fn height(self) -> nat {
        self.root.height()
    }

    /// The empty tree.
    pub fn new() -> (t: Self)
        ensures
            item_laws::<T>() ==> t.wf(),
            t@ == Seq::<T>::empty(),
    {
        SumTree { root: Node::empty() }
    }

    /// A tree of one item.
    pub fn from_item(item: T) -> (t: Self)
        requires
            item_laws::<T>(),
        ensures
            t.wf(),
            t@ == seq![item],
    {
        let mut items = Vec::new();
        items.push(item);
        SumTree { root: Node::new_leaf(items) }
    }

    /// Whether the tree holds no item.
    pub fn is_empty(&self) -> (b: bool)
        requires
            self.wf(),
        ensures
            b == (self@.len() == 0),
    {
        proof {
            if self.root is Internal {
                self.root->child_trees@.last().lemma_nonempty();
            }
        }
        self.root.is_leaf() && self.root.node_fanout() == 0
    }

    /// The left fold, from the identity, of the summaries of all items.
    pub fn summary(&self) -> (s: &T::Summary)
        ensures
            *s == self.root.summary_spec(),
            self.wf() ==> *s == total(summaries(self@)),
    {
        proof {
            if self.wf() {
                self.root.lemma_summary_is_total(true);
            }
        }
        self.root.summary()
    }

    /// The tree of the items of `left` followed by those of `right`.
    ///
    /// Where `left` is at least as tall, `right` is spliced in along the
    /// rightmost spine of `left`; otherwise the children of `right` are joined
    /// on one after another.
    #[verifier::rlimit(50)]
    pub fn join(left: Self, right: Self) -> (t: Self)
        requires
            left.wf(),
            right.wf(),
            left@.len() + right@.len() <= usize::MAX,
        ensures
            t.wf(),
            t@ == left@ + right@,
        decreases right.height(),
    {
        if left.is_empty() {
            assert(left@ + right@ =~= right@);
            right
        } else if right.is_empty() {
            assert(left@ + right@ =~= left@);
            left
        } else if left.root.node_height() >= right.root.node_height() {
            let (a, b) = Node::concat(left.root, right.root, Ghost(true));
            match b {
                None => {
                    assert(a.items() + Node::items_of(b) =~= a.items());
                    SumTree { root: a }
                },
                Some(b) => {
                    proof {
                        a.lemma_size();
                        assert((a.items() + b.items()).len() == a.items().len() + b.items().len());
                        Node::<T>::lemma_height_fits(a.height(), a.items().len());
                    }
                    let mut pair = Vec::new();
                    pair.push(a);
                    pair.push(b);
                    proof {
                        assert(pair@ =~= seq![a].push(b));
                        Node::lemma_flatten_push(seq![a], b);
                        Node::lemma_flatten_push(Seq::empty(), a);
                        assert(Seq::<Node<T>>::empty().push(a) =~= seq![a]);
                        assert(Node::flatten(pair@) =~= a.items() + b.items());
                    }
                    SumTree { root: Node::new_internal(pair) }
                },
            }
        } else {
            let ghost h = (right.height() - 1) as nat;
            let ghost all = right@;
            let mut children = right.root.into_children();
            let mut acc = left;
            let ghost mut done = Seq::<Node<T>>::empty();
            proof {
                assert(done + children@ =~= children@);
                assert(acc@ + Node::flatten(children@) == left@ + all);
            }
            while children.len() > 0
                invariant
                    acc.wf(),
                    Node::siblings(children@, h),
                    h < right.height(),
                    acc@ + Node::flatten(children@) == left@ + all,
                    left@.len() + all.len() <= usize::MAX,
                decreases children.len(),
            {
                let ghost before = children@;
                let child = children.remove(0);
                proof {
                    assert(child == before[0]);
                    child.lemma_wf_as_root();
                    assert(before =~= seq![child] + children@);
                    Node::lemma_flatten_concat(seq![child], children@);
                    Node::lemma_flatten_push(Seq::empty(), child);
                    assert(Seq::<Node<T>>::empty().push(child) =~= seq![child]);
                    assert(Node::flatten(seq![child]) =~= child.items());
                    assert((acc@ + child.items()) + Node::flatten(children@) =~= acc@ + (
                    child.items() + Node::flatten(children@)));
                    assert(forall|i: int|
                        0 <= i < children@.len() ==> children@[i] == before[i + 1]);
                }
                acc = Self::join(acc, SumTree { root: child });
            }
            proof {
                assert(acc@ + Node::flatten(children@) =~= acc@);
            }
            acc
        }
    }

    /// Appends the items of `other` after those of this tree.
    pub fn append(&mut self, other: Self)
        requires
            old(self).wf(),
            other.wf(),
            old(self)@.len() + other@.len() <= usize::MAX,
        ensures
            final(self).wf(),
            final(self)@ == old(self)@ + other@,
    {
        let mut left = Self::new();
        core::mem::swap(self, &mut left);
        *self = Self::join(left, other);
    }

    /// Appends one item after those of this tree.
    pub fn push(&mut self, item: T)
        requires
            old(self).wf(),
            old(self)@.len() < usize::MAX,
        ensures
            final(self).wf(),
            final(self)@ == old(self)@.push(item),
    {
        proof {
            assert(old(self)@ + seq![item] =~= old(self)@.push(item));
        }
        self.append(Self::from_item(item));
    }

    /// How many of `rest` items or nodes that are still to be placed the next
    /// node takes: as many as a node holds, unless fewer than `TREE_BASE`
    /// would then be left for the node after it.
    pub open spec fn fill(rest: int) -> int {
        if rest <= TREE_MAX {
            rest
        } else if rest - TREE_MAX >= TREE_BASE {
            TREE_MAX as int
        } else {
            rest - TREE_BASE
        }
    }

    /// How many of `rest` items or nodes the next node takes.
    fn next_fill(rest: usize) -> (n: usize)
        ensures
            n == Self::fill(rest as int),
    {
        if rest <= TREE_MAX {
            rest
        } else if rest - TREE_MAX >= TREE_BASE {
            TREE_MAX
        } else {
            rest - TREE_BASE
        }
    }

    /// The leaves over `items`, which are more than one leaf holds: each leaf
    /// but the last is filled as `fill` says.
    #[verifier::rlimit(50)]
    fn leaves_of(items: Vec<T>) -> (nodes: Vec<Node<T>>)
        requires
            item_laws::<T>(),
            items.len() > TREE_MAX,
        ensures
            Node::siblings(nodes@, 0),
            Node::flatten(nodes@) == items@,
            nodes.len() >= 2,
    {
        let n = items.len();
        let ghost all = items@;
        let mut nodes: Vec<Node<T>> = Vec::new();
        let mut chunk: Vec<T> = Vec::new();
        let mut want = Self::next_fill(n);
        let mut placed: usize = 0;
        proof {
            assert(all.take(0) =~= Seq::<T>::empty());
            assert(Node::flatten(nodes@) + chunk@ =~= all.take(0));
        }
        for item in it: items
            invariant
                item_laws::<T>(),
                it.seq() == all,
                n == all.len(),
                n > TREE_MAX,
                placed == it.index(),
                Node::siblings(nodes@, 0),
                Node::flatten(nodes@) + chunk@ == all.take(it.index()),
                nodes.len() <= 1 ==> Node::flatten(nodes@).len() <= TREE_MAX,
                it.index() < n ==> chunk.len() < want && TREE_BASE <= want <= TREE_MAX,
                it.index() < n ==> it.index() + (want - chunk.len()) <= n,
                it.index() < n ==> n - it.index() - (want - chunk.len()) == 0 || n - it.index() - (
                want - chunk.len()) >= TREE_BASE,
                it.index() == n ==> chunk.len() == 0,
        {
            let ghost before = Node::flatten(nodes@);
            let ghost row = nodes@;
            proof {
                assert(all.take(it.index() + 1) =~= all.take(it.index()).push(item));
                assert(before + chunk@.push(item) =~= (before + chunk@).push(item));
            }
            chunk.push(item);
            placed += 1;
            if chunk.len() == want {
                let mut full: Vec<T> = Vec::new();
                core::mem::swap(&mut full, &mut chunk);
                let leaf = Node::new_leaf(full);
                proof {
                    Node::lemma_flatten_push(row, leaf);
                    assert(Node::flatten(row.push(leaf)) + Seq::<T>::empty() =~= before
                        + leaf.items());
                    if row.len() == 0 {
                        assert(before =~= Seq::<T>::empty());
                    }
                }
                nodes.push(leaf);
                want = Self::next_fill(n - placed);
            }
        }
        proof {
            assert(all.take(n as int) =~= all);
            assert(Node::flatten(nodes@) + chunk@ =~= Node::flatten(nodes@));
        }
        nodes
    }

    /// The parents over a row of siblings that is longer than one node holds:
    /// each parent but the last is filled as `fill` says.
    #[verifier::rlimit(50)]
    fn parents_of(nodes: Vec<Node<T>>, Ghost(h): Ghost<nat>) -> (parents: Vec<Node<T>>)
        requires
            item_laws::<T>(),
            nodes.len() > TREE_MAX,
            Node::siblings(nodes@, h),
            h < 255,
        ensures
            Node::siblings(parents@, h + 1),
            Node::flatten(parents@) == Node::flatten(nodes@),
            parents.len() >= 2,
            parents.len() < nodes.len(),
    {
        let n = nodes.len();
        let ghost all = nodes@;
        let mut parents: Vec<Node<T>> = Vec::new();
        let mut chunk: Vec<Node<T>> = Vec::new();
        let mut want = Self::next_fill(n);
        let mut placed: usize = 0;
        proof {
            assert(all.take(0) =~= Seq::<Node<T>>::empty());
            assert(Node::flatten(parents@) + Node::flatten(chunk@) =~= Node::flatten(all.take(0)));
        }
        for node in it: nodes
            invariant
                item_laws::<T>(),
                it.seq() == all,
                n == all.len(),
                n > TREE_MAX,
                placed == it.index(),
                h < 255,
                Node::siblings(all, h),
                Node::siblings(chunk@, h),
                Node::siblings(parents@, h + 1),
                Node::flatten(parents@) + Node::flatten(chunk@) == Node::flatten(
                    all.take(it.index()),
                ),
                parents.len() * 2 + chunk.len() <= it.index(),
                parents.len() == 0 ==> chunk.len() == it.index(),
                parents.len() == 1 ==> it.index() - chunk.len() <= TREE_MAX,
                it.index() < n ==> chunk.len() < want && TREE_BASE <= want <= TREE_MAX,
                it.index() < n ==> it.index() + (want - chunk.len()) <= n,
                it.index() < n ==> n - it.index() - (want - chunk.len()) == 0 || n - it.index() - (
                want - chunk.len()) >= TREE_BASE,
                it.index() == n ==> chunk.len() == 0,
        {
            let ghost before = Node::flatten(parents@);
            let ghost row = parents@;
            let ghost held = chunk@;
            proof {
                assert(all.take(it.index() + 1) =~= all.take(it.index()).push(node));
                Node::lemma_flatten_push(all.take(it.index()), node);
                Node::lemma_flatten_push(held, node);
                assert(before + (Node::flatten(held) + node.items()) =~= (before + Node::flatten(
                    held,
                )) + node.items());
                assert(node == all[it.index() as int]);
            }
            chunk.push(node);
            placed += 1;
            if chunk.len() == want {
                let mut full: Vec<Node<T>> = Vec::new();
                core::mem::swap(&mut full, &mut chunk);
                let parent = Node::new_internal(full);
                proof {
                    Node::lemma_flatten_push(row, parent);
                    assert(Node::flatten(chunk@) =~= Seq::<T>::empty());
                    assert(Node::flatten(row.push(parent)) + Seq::<T>::empty() =~= before
                        + parent.items());
                }
                parents.push(parent);
                want = Self::next_fill(n - placed);
            }
        }
        proof {
            assert(all.take(n as int) =~= all);
            assert(Node::flatten(chunk@) =~= Seq::<T>::empty());
            assert(Node::flatten(parents@) + Seq::<T>::empty() =~= Node::flatten(parents@));
        }
        parents
    }

    /// The tree of `items`, in their order, built from the leaves up: the
    /// items are laid out in leaves, the leaves under parents, and so on until
    /// one node is left.
    pub fn from_items(items: Vec<T>) -> (t: Self)
        requires
            item_laws::<T>(),
        ensures
            t.wf(),
            t@ == items@,
    {
        if items.len() <= TREE_MAX {
            return SumTree { root: Node::new_leaf(items) };
        }
        let ghost count = items@.len();
        let mut nodes = Self::leaves_of(items);
        let ghost mut h: nat = 0;
        while nodes.len() > TREE_MAX
            invariant
                item_laws::<T>(),
                count == items@.len(),
                count <= usize::MAX,
                Node::siblings(nodes@, h),
                Node::flatten(nodes@) == items@,
                nodes.len() >= 2,
            decreases nodes.len(),
        {
            proof {
                Node::lemma_row_size(nodes@, h);
                vstd::arithmetic::power2::lemma_pow2_strictly_increases(h, h + 1);
                Node::<T>::lemma_height_fits(h, items@.len());
            }
            nodes = Self::parents_of(nodes, Ghost(h));
            proof {
                h = h + 1;
            }
        }
        proof {
            Node::lemma_row_size(nodes@, h);
            vstd::arithmetic::power2::lemma_pow2_strictly_increases(h, h + 1);
            Node::<T>::lemma_height_fits(h, items@.len());
        }
        SumTree { root: Node::new_internal(nodes) }
    }

    /// The tree over a row of siblings: empty for none, the node itself for
    /// one, a new root above them otherwise.
    pub(crate) fn from_children(children: Vec<Node<T>>, Ghost(h): Ghost<nat>) -> (t: Self)
        requires
            item_laws::<T>(),
            children.len() <= TREE_MAX,
            Node::siblings(children@, h),
            Node::flatten(children@).len() <= usize::MAX,
        ensures
            t.wf(),
            t@ == Node::flatten(children@),
    {
        let mut children = children;
        if children.len() == 0 {
            Self::new()
        } else if children.len() == 1 {
            let ghost only = children@[0];
            let ghost row = children@;
            let child = children.pop().unwrap();
            proof {
                child.lemma_wf_as_root();
                Node::lemma_flatten_push(Seq::empty(), only);
                assert(Seq::<Node<T>>::empty().push(only) =~= seq![only]);
                assert(row =~= seq![only]);
                assert(Node::flatten(seq![only]) =~= only.items());
            }
            SumTree { root: child }
        } else {
            proof {
                Node::lemma_row_size(children@, h);
                vstd::arithmetic::power2::lemma_pow2_strictly_increases(h, h + 1);
                Node::<T>::lemma_height_fits(h, Node::flatten(children@).len());
            }
            SumTree { root: Node::new_internal(children) }
        }
    }

    /// Splits the subtree at `node` at the place that `path` leads to, from
    /// index `depth` of the path on: the items before the place, and the items
    /// from it on, each as a tree. Whole subtrees move from the node into the
    /// two trees; no item is copied.
    #[verifier::rlimit(50)]
    pub(crate) fn split_node(
        node: Node<T>,
        path: &Vec<usize>,
        depth: usize,
        Ghost(root): Ghost<bool>,
    ) -> (r: (Self, Self))
        requires
            item_laws::<T>(),
            node.wf(root),
            node.items().len() <= usize::MAX,
            depth < path.len(),
            node.path_valid(path@.skip(depth as int)),
        ensures
            r.0.wf(),
            r.1.wf(),
            r.0@ == node.items().take(node.path_offset(path@.skip(depth as int))),
            r.1@ == node.items().skip(node.path_offset(path@.skip(depth as int))),
        decreases node.height(),
    {
        let index = path[depth];
        let ghost rest = path@.skip(depth as int);
        let ghost all = node.items();
        proof {
            assert(rest[0] == index);
        }
        if node.is_leaf() {
            let mut items = node.into_items();
            let right = items.split_off(index);
            proof {
                assert(items@ =~= all.take(index as int));
                assert(right@ =~= all.skip(index as int));
            }
            (SumTree { root: Node::new_leaf(items) }, SumTree { root: Node::new_leaf(right) })
        } else {
            let ghost h = (node.height() - 1) as nat;
            let mut children = node.into_children();
            let ghost kids = children@;
            let ghost cut = kids[index as int].path_offset(path@.skip(depth + 1));
            proof {
                assert(Node::siblings(kids, h));
                assert(rest.drop_first() =~= path@.skip(depth + 1));
                Node::lemma_row_parts(kids, index as int);
                kids[index as int].lemma_path_offset_bounds(path@.skip(depth + 1));
            }
            let after = children.split_off(index + 1);
            let mid = children.pop().unwrap();
            proof {
                assert(children@ =~= kids.subrange(0, index as int));
                assert(after@ =~= kids.subrange(index + 1, kids.len() as int));
            }
            let ghost front = Node::flatten(children@);
            let ghost back = Node::flatten(after@);
            proof {
                Self::lemma_parts_fit(front, mid.items(), back, cut);
            }
            let (mid_left, mid_right) = Self::split_node(mid, path, depth + 1, Ghost(false));
            let before = Self::from_children(children, Ghost(h));
            let behind = Self::from_children(after, Ghost(h));
            let left = Self::join(before, mid_left);
            let right = Self::join(mid_right, behind);
            (left, right)
        }
    }

    /// A sequence of three parts, cut inside the middle part, falls into the
    /// first part with the start of the middle, and the end of the middle with
    /// the last part.
    pub proof fn lemma_parts_fit(front: Seq<T>, mid: Seq<T>, back: Seq<T>, cut: int)
        requires
            0 <= cut <= mid.len(),
        ensures
            ((front + mid) + back).len() == front.len() + mid.len() + back.len(),
            ((front + mid) + back).take(front.len() + cut) == front + mid.take(cut),
            ((front + mid) + back).skip(front.len() + cut) == mid.skip(cut) + back,
    {
        let all = (front + mid) + back;
        assert(all.take(front.len() + cut) =~= front + mid.take(cut));
        assert(all.skip(front.len() + cut) =~= mid.skip(cut) + back);
    }

    /// Splits the tree at the place that `path` leads to, into the items before
    /// the place and the items from it on.
    pub fn split_at(self, path: &Vec<usize>) -> (r: (Self, Self))
        requires
            self.wf(),
            self.root.path_valid(path@),
        ensures
            r.0.wf(),
            r.1.wf(),
            r.0@ == self@.take(self.root.path_offset(path@)),
            r.1@ == self@.skip(self.root.path_offset(path@)),
    {
        proof {
            assert(path@.skip(0) =~= path@);
        }
        Self::split_node(self.root, path, 0, Ghost(true))
    }
    /// The first item of the tree, if there is one.
    pub fn first(&self) -> (r: Option<&T>)
        requires
            self.wf(),
        ensures
            r == (if self@.len() > 0 {
                Some(&self@[0])
            } else {
                None
            }),
    {
        self.root.first()
    }

    /// The items of the tree, in order, moved out of it.
    pub fn into_vec(self) -> (v: Vec<T>)
        requires
            self.wf(),
        ensures
            v@ == self@,
    {
        let mut v = Vec::new();
        self.root.collect(&mut v);
        proof {
            assert(Seq::<T>::empty() + self@ =~= self@);
        }
        v
    }

    /// The only item of a tree of one item.
    pub fn into_single(self) -> (item: T)
        requires
            self.wf(),
            self@.len() == 1,
        ensures
            item == self@[0],
    {
        let mut v = self.into_vec();
        v.pop().unwrap()
    }

    /// Splits a tree that is not empty into its first item and the rest.
    pub fn split_first(self) -> (r: (T, Self))
        requires
            self.wf(),
            self@.len() > 0,
        ensures
            r.0 == self@[0],
            r.1.wf(),
            r.1@ == self@.skip(1),
    {
        let mut path: Vec<usize> = Vec::new();
        let mut node = &self.root;
        let ghost mut done = Seq::<usize>::empty();
        proof {
            self.root.lemma_first_path(true, 1);
            assert(done + node.first_path(1) =~= self.root.first_path(1));
        }
        loop
            invariant_except_break
                path@ == done,
            invariant
                done + node.first_path(1) == self.root.first_path(1),
                node.wf(true) || node.wf(false),
            ensures
                path@ == self.root.first_path(1),
            decreases node.height(),
        {
            match node {
                Node::Leaf { .. } => {
                    path.push(1);
                    proof {
                        assert(done.push(1usize) =~= done + node.first_path(1));
                    }
                    break ;
                },
                Node::Internal { child_trees, .. } => {
                    path.push(0);
                    proof {
                        let c = child_trees@[0];
                        assert(c.wf(false));
                        assert(done.push(0usize) + c.first_path(1) =~= done + node.first_path(1));
                        done = done.push(0usize);
                    }
                    node = &child_trees[0];
                },
            }
        }
        let ghost all = self@;
        let (one, rest) = self.split_at(&path);
        proof {
            assert(all.take(1) =~= seq![all[0]]);
        }
        (one.into_single(), rest)
    }
}

} // verus!
