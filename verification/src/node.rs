//! The nodes of a summarized B+-tree: their shape, the sequence of items they
//! stand for, and what makes them well formed.

use vstd::prelude::*;
use vstd::arithmetic::power2::{pow2, lemma_pow2_unfold, lemma_pow2_strictly_increases, lemma2_to64};
use crate::algebra::{
    advance_all, Dimension, dimension_laws, Item, item_laws, lemma_advance_concat,
    lemma_advance_sum, lemma_sum_concat, lemma_summaries_concat, lemma_total_is_sum, obeys_clone,
    sum, summaries, Summary, total,
};

verus! {

/// The least number of items in a leaf, and of children in an internal node,
/// that is not the root.
pub const TREE_BASE: usize = 8;

/// The greatest number of items in a leaf and of children in an internal node.
pub const TREE_MAX: usize = 16;

/// A node of the tree. A leaf holds a bounded run of items with their
/// summaries; an internal node holds its children with theirs. Both cache the
/// fold of everything below them.
#[derive(Debug)]
pub enum Node<T: Item> {
    Leaf { summary: T::Summary, items: Vec<T>, item_summaries: Vec<T::Summary> },
    Internal {
        height: u8,
        summary: T::Summary,
        child_summaries: Vec<T::Summary>,
        child_trees: Vec<Node<T>>,
    },
}

impl<T: Item> Node<T> {
    /// The number of levels below this node.
    pub open spec fn height(self) -> nat {
        match self {
            Node::Leaf { .. } => 0,
            Node::Internal { height, .. } => height as nat,
        }
    }

    /// The summary cached in this node.
    pub open spec fn summary_spec(self) -> T::Summary {
        match self {
            Node::Leaf { summary, .. } => summary,
            Node::Internal { summary, .. } => summary,
        }
    }

    /// The items below this node, in order.
    pub open spec fn items(self) -> Seq<T>
        decreases self,
    {
        match self {
            Node::Leaf { items, .. } => items@,
            Node::Internal { child_trees, .. } => Self::flatten(child_trees@),
        }
    }

    /// The items below a row of nodes, in order.
    pub open spec fn flatten(nodes: Seq<Node<T>>) -> Seq<T>
        decreases nodes,
    {
        if nodes.len() == 0 {
            Seq::empty()
        } else {
            Self::flatten(nodes.drop_last()) + nodes.last().items()
        }
    }

    /// The summaries cached in a row of nodes, one for one.
    pub open spec fn cached(nodes: Seq<Node<T>>) -> Seq<T::Summary> {
        Seq::new(nodes.len(), |i: int| nodes[i].summary_spec())
    }

    /// The least fanout of a node: a root may be as small as it likes, but an
    /// internal root has two children.
    pub open spec fn min_fanout(self, root: bool) -> int {
        if !root {
            TREE_BASE as int
        } else if self is Leaf {
            0
        } else {
            2
        }
    }

    /// The number of items of a leaf, or of children of an internal node.
    pub open spec fn fanout(self) -> int {
        match self {
            Node::Leaf { items, .. } => items.len() as int,
            Node::Internal { child_trees, .. } => child_trees.len() as int,
        }
    }

    /// Well-formedness of the subtree at this node: the fanout of every node
    /// lies between `TREE_BASE` and `TREE_MAX` (the root excepted), all leaves
    /// lie at one depth, and every cached summary is the fold of the summaries
    /// directly below it; a leaf without items caches the identity.
    pub open spec fn wf(self, root: bool) -> bool
        decreases self,
    {
        &&& self.min_fanout(root) <= self.fanout() <= TREE_MAX
        &&& match self {
            Node::Leaf { summary, items, item_summaries } => {
                &&& item_summaries@ == summaries(items@)
                &&& items.len() > 0 ==> summary == sum(item_summaries@)
                &&& items.len() == 0 ==> summary == T::Summary::zero_spec()
            },
            Node::Internal { height, summary, child_summaries, child_trees } => {
                &&& height >= 1
                &&& child_summaries@ == Self::cached(child_trees@)
                &&& summary == sum(child_summaries@)
                &&& forall|i: int|
                    0 <= i < child_trees.len() ==> {
                        &&& (#[trigger] child_trees[i]).wf(false)
                        &&& child_trees[i].height() == height - 1
                    }
            },
        }
    }

    /// A row of nodes that may stand side by side under one parent: each well
    /// formed and none a root, all of height `h`.
    pub open spec fn siblings(nodes: Seq<Node<T>>, h: nat) -> bool {
        forall|i: int|
            0 <= i < nodes.len() ==> {
                &&& (#[trigger] nodes[i]).wf(false)
                &&& nodes[i].height() == h
            }
    }

    /// The items below a row with one more node are those below the row, then
    /// those below the node.
    pub proof fn lemma_flatten_push(nodes: Seq<Node<T>>, n: Node<T>)
        ensures
            Self::flatten(nodes.push(n)) == Self::flatten(nodes) + n.items(),
    {
        assert(nodes.push(n).drop_last() =~= nodes);
    }

    /// The items below two rows joined are those below the first, then those
    /// below the second.
    pub proof fn lemma_flatten_concat(a: Seq<Node<T>>, b: Seq<Node<T>>)
        ensures
            Self::flatten(a + b) == Self::flatten(a) + Self::flatten(b),
        decreases b.len(),
    {
        if b.len() == 0 {
            assert(a + b =~= a);
        } else {
            assert((a + b).drop_last() =~= a + b.drop_last());
            Self::lemma_flatten_concat(a, b.drop_last());
        }
    }

    /// The number of items below the first `i` nodes of a row.
    pub open spec fn child_offset(nodes: Seq<Node<T>>, i: int) -> int {
        Self::flatten(nodes.subrange(0, i)).len() as int
    }

    /// Where the items of node `i` of a row lie among the items of the row.
    pub proof fn lemma_child_window(nodes: Seq<Node<T>>, i: int)
        requires
            0 <= i < nodes.len(),
        ensures
            0 <= Self::child_offset(nodes, i),
            Self::child_offset(nodes, i + 1) == Self::child_offset(nodes, i) + nodes[i].items().len(),
            Self::child_offset(nodes, i + 1) <= Self::flatten(nodes).len(),
            Self::flatten(nodes).subrange(
                Self::child_offset(nodes, i),
                Self::child_offset(nodes, i + 1),
            ) == nodes[i].items(),
            Self::flatten(nodes).subrange(0, Self::child_offset(nodes, i)) == Self::flatten(
                nodes.subrange(0, i),
            ),
    {
        let front = nodes.subrange(0, i);
        let back = nodes.subrange(i + 1, nodes.len() as int);
        assert(nodes.subrange(0, i + 1) =~= front.push(nodes[i]));
        Self::lemma_flatten_push(front, nodes[i]);
        assert(nodes =~= nodes.subrange(0, i + 1) + back);
        Self::lemma_flatten_concat(nodes.subrange(0, i + 1), back);
        assert(Self::flatten(nodes).subrange(
            Self::child_offset(nodes, i),
            Self::child_offset(nodes, i + 1),
        ) =~= nodes[i].items());
        assert(Self::flatten(nodes).subrange(0, Self::child_offset(nodes, i)) =~= Self::flatten(
            front,
        ));
    }

    /// The items below a row are those below the nodes before node `i`, then
    /// those below node `i`, then those below the nodes after it.
    pub proof fn lemma_row_parts(nodes: Seq<Node<T>>, i: int)
        requires
            0 <= i < nodes.len(),
        ensures
            Self::flatten(nodes) == (Self::flatten(nodes.subrange(0, i)) + nodes[i].items())
                + Self::flatten(nodes.subrange(i + 1, nodes.len() as int)),
    {
        let front = nodes.subrange(0, i);
        let back = nodes.subrange(i + 1, nodes.len() as int);
        assert(nodes =~= front.push(nodes[i]) + back);
        Self::lemma_flatten_concat(front.push(nodes[i]), back);
        Self::lemma_flatten_push(front, nodes[i]);
    }

    /// The offsets of a row start at zero and end at the number of its items.
    pub proof fn lemma_child_offset_ends(nodes: Seq<Node<T>>)
        ensures
            Self::child_offset(nodes, 0) == 0,
            Self::child_offset(nodes, nodes.len() as int) == Self::flatten(nodes).len(),
    {
        assert(nodes.subrange(0, 0) =~= Seq::<Node<T>>::empty());
        assert(nodes.subrange(0, nodes.len() as int) =~= nodes);
    }

    /// Passing the cached summaries of the first `k` siblings of a row is
    /// passing the summaries of all items below them.
    pub proof fn lemma_advance_row<'a, D: Dimension<'a, T::Summary>>(
        d: D,
        nodes: Seq<Node<T>>,
        h: nat,
        k: int,
    )
        requires
            item_laws::<T>(),
            dimension_laws::<T::Summary, D>(),
            Self::siblings(nodes, h),
            0 <= k <= nodes.len(),
        ensures
            advance_all(d, Self::cached(nodes).subrange(0, k)) == advance_all(
                d,
                summaries(Self::flatten(nodes.subrange(0, k))),
            ),
        decreases k,
    {
        if k == 0 {
            assert(nodes.subrange(0, 0) =~= Seq::<Node<T>>::empty());
            assert(Self::cached(nodes).subrange(0, 0) =~= Seq::<T::Summary>::empty());
            assert(summaries(Self::flatten(nodes.subrange(0, 0))) =~= Seq::<T::Summary>::empty());
        } else {
            let c = nodes[k - 1];
            let front = nodes.subrange(0, k - 1);
            Self::lemma_advance_row(d, nodes, h, k - 1);
            assert(Self::cached(nodes).subrange(0, k).drop_last() =~= Self::cached(nodes).subrange(
                0,
                k - 1,
            ));
            assert(nodes.subrange(0, k) =~= front.push(c));
            Self::lemma_flatten_push(front, c);
            lemma_summaries_concat(Self::flatten(front), c.items());
            lemma_advance_concat(d, summaries(Self::flatten(front)), summaries(c.items()));
            c.lemma_nonempty();
            c.lemma_summary_is_fold(false);
            lemma_advance_sum(
                advance_all(d, summaries(Self::flatten(front))),
                summaries(c.items()),
            );
        }
    }

    /// Whether `path` leads from this node to a place in a leaf below it: one
    /// index for every level, the last of them an item's index or the number
    /// of items of the leaf.
    pub open spec fn path_valid(self, path: Seq<usize>) -> bool
        decreases path.len(),
    {
        match self {
            Node::Leaf { items, .. } => path.len() == 1 && path[0] <= items.len(),
            Node::Internal { child_trees, .. } => {
                &&& path.len() >= 2
                &&& path[0] < child_trees.len()
                &&& child_trees[path[0] as int].path_valid(path.drop_first())
            },
        }
    }

    /// The number of items below this node that lie before the place that
    /// `path` leads to.
    pub open spec fn path_offset(self, path: Seq<usize>) -> int
        decreases path.len(),
    {
        match self {
            Node::Leaf { .. } => path[0] as int,
            Node::Internal { child_trees, .. } => {
                if path.len() >= 2 && path[0] < child_trees.len() {
                    Self::child_offset(child_trees@, path[0] as int) + child_trees[path[0] as int].path_offset(
                        path.drop_first(),
                    )
                } else {
                    0
                }
            },
        }
    }

    /// The node that the first `d` indices of `path` lead to from this node.
    pub open spec fn descendant(self, path: Seq<usize>, d: nat) -> Self
        decreases d,
    {
        if d == 0 {
            self
        } else {
            match self {
                Node::Leaf { .. } => self,
                Node::Internal { child_trees, .. } => child_trees[path[0] as int].descendant(
                    path.drop_first(),
                    (d - 1) as nat,
                ),
            }
        }
    }

    /// Below a well-formed node all leaves lie at one depth: every path from
    /// the node to a leaf has one index for each level of the node.
    pub proof fn lemma_uniform_depth(self, root: bool, path: Seq<usize>)
        requires
            self.wf(root),
            self.path_valid(path),
        ensures
            path.len() == self.height() + 1,
        decreases path.len(),
    {
        match self {
            Node::Leaf { .. } => {},
            Node::Internal { child_trees, .. } => {
                let c = child_trees[path[0] as int];
                assert(c.wf(false));
                c.lemma_uniform_depth(false, path.drop_first());
            },
        }
    }

    /// Every node below a well-formed node is well formed, lies one level
    /// lower for each step down, and has between `TREE_BASE` and `TREE_MAX`
    /// items or children.
    pub proof fn lemma_fanout(self, root: bool, path: Seq<usize>, d: nat)
        requires
            self.wf(root),
            self.path_valid(path),
            0 < d < path.len(),
        ensures
            self.descendant(path, d).wf(false),
            self.descendant(path, d).height() + d == self.height(),
            TREE_BASE <= self.descendant(path, d).fanout() <= TREE_MAX,
        decreases d,
    {
        match self {
            Node::Leaf { .. } => {},
            Node::Internal { child_trees, .. } => {
                let c = child_trees[path[0] as int];
                assert(c.wf(false));
                if d > 1 {
                    c.lemma_fanout(false, path.drop_first(), (d - 1) as nat);
                } else {
                    assert(c.descendant(path.drop_first(), 0) == c);
                }
            },
        }
    }

    /// A valid path leads to a place among the items below the node.
    pub proof fn lemma_path_offset_bounds(self, path: Seq<usize>)
        requires
            self.path_valid(path),
        ensures
            0 <= self.path_offset(path) <= self.items().len(),
        decreases path.len(),
    {
        match self {
            Node::Leaf { .. } => {},
            Node::Internal { child_trees, .. } => {
                child_trees[path[0] as int].lemma_path_offset_bounds(path.drop_first());
                Self::lemma_child_window(child_trees@, path[0] as int);
            },
        }
    }

    /// The path through the first child of every node down to the place
    /// `index` of the first leaf.
    pub open spec fn first_path(self, index: usize) -> Seq<usize>
        decreases self,
    {
        match self {
            Node::Leaf { .. } => seq![index],
            Node::Internal { child_trees, .. } => {
                if child_trees.len() > 0 {
                    seq![0usize] + child_trees[0].first_path(index)
                } else {
                    seq![index]
                }
            },
        }
    }

    /// The path through the first children leads to the place `index` among
    /// the items, where the first leaf has as many.
    pub proof fn lemma_first_path(self, root: bool, index: usize)
        requires
            self.wf(root),
            index <= 1,
            index <= self.items().len(),
        ensures
            self.path_valid(self.first_path(index)),
            self.path_offset(self.first_path(index)) == index,
            self.first_path(index).len() == self.height() + 1,
        decreases self,
    {
        match self {
            Node::Leaf { .. } => {},
            Node::Internal { child_trees, .. } => {
                let c = child_trees[0];
                assert(c.wf(false));
                c.lemma_nonempty();
                c.lemma_first_path(false, index);
                let path = self.first_path(index);
                assert(path.drop_first() =~= c.first_path(index));
                Self::lemma_child_offset_ends(child_trees@);
            },
        }
    }

    /// The first item below this node, if there is one.
    pub fn first(&self) -> (r: Option<&T>)
        requires
            self.wf(true) || self.wf(false),
        ensures
            r == (if self.items().len() > 0 {
                Some(&self.items()[0])
            } else {
                None
            }),
        decreases self,
    {
        match self {
            Node::Leaf { items, .. } => {
                if items.len() > 0 {
                    Some(&items[0])
                } else {
                    None
                }
            },
            Node::Internal { child_trees, .. } => {
                proof {
                    let c = child_trees@[0];
                    assert(c.wf(false));
                    c.lemma_nonempty();
                    Self::lemma_child_window(child_trees@, 0);
                    Self::lemma_child_offset_ends(child_trees@);
                    assert(Self::flatten(child_trees@).subrange(0, c.items().len() as int)[0]
                        == Self::flatten(child_trees@)[0]);
                }
                child_trees[0].first()
            },
        }
    }

    /// Moves the items below this node onto the end of `out`, in order.
    pub fn collect(self, out: &mut Vec<T>)
        requires
            self.wf(true) || self.wf(false),
        ensures
            final(out)@ == old(out)@ + self.items(),
        decreases self.height(),
    {
        match self {
            Node::Leaf { items, .. } => {
                let mut items = items;
                out.append(&mut items);
            },
            Node::Internal { child_trees, .. } => {
                let ghost start = out@;
                let ghost kids = child_trees@;
                let ghost h = (self.height() - 1) as nat;
                proof {
                    assert(Self::siblings(kids, h));
                    assert(kids.take(0) =~= Seq::<Node<T>>::empty());
                    assert(start + Self::flatten(kids.take(0)) =~= start);
                }
                for child in it: child_trees
                    invariant
                        it.seq() == kids,
                        Self::siblings(kids, h),
                        h < self.height(),
                        out@ == start + Self::flatten(kids.take(it.index())),
                {
                    proof {
                        assert(kids.take(it.index() + 1) =~= kids.take(it.index()).push(child));
                        Self::lemma_flatten_push(kids.take(it.index()), child);
                        assert((start + Self::flatten(kids.take(it.index()))) + child.items()
                            =~= start + (Self::flatten(kids.take(it.index())) + child.items()));
                    }
                    child.collect(out);
                }
                proof {
                    assert(kids.take(kids.len() as int) =~= kids);
                }
            },
        }
    }

    /// A node that is well formed below a parent is well formed as a root.
    pub proof fn lemma_wf_as_root(self)
        requires
            self.wf(false),
        ensures
            self.wf(true),
    {
    }

    /// A well-formed node that is not a root has at least one item below it.
    pub proof fn lemma_nonempty(self)
        requires
            self.wf(false),
        ensures
            self.items().len() > 0,
        decreases self,
    {
        match self {
            Node::Leaf { .. } => {},
            Node::Internal { child_trees, .. } => {
                child_trees[child_trees.len() - 1].lemma_nonempty();
            },
        }
    }

    /// At every well-formed node with items below it, the cached summary is the
    /// left fold of the summaries of those items.
    pub proof fn lemma_summary_is_fold(self, root: bool)
        requires
            item_laws::<T>(),
            self.wf(root),
            self.items().len() > 0,
        ensures
            self.summary_spec() == sum(summaries(self.items())),
        decreases self,
    {
        match self {
            Node::Leaf { .. } => {},
            Node::Internal { child_trees, .. } => {
                Self::lemma_row_fold(child_trees@, (self.height() - 1) as nat);
            },
        }
    }

    /// At every well-formed node the cached summary is the left fold, from the
    /// identity, of the summaries of the items below it.
    pub proof fn lemma_summary_is_total(self, root: bool)
        requires
            item_laws::<T>(),
            self.wf(root),
        ensures
            self.summary_spec() == total(summaries(self.items())),
    {
        if self.items().len() > 0 {
            self.lemma_summary_is_fold(root);
            lemma_total_is_sum(summaries(self.items()));
        } else {
            match self {
                Node::Leaf { .. } => {},
                Node::Internal { child_trees, .. } => {
                    child_trees@.last().lemma_nonempty();
                },
            }
        }
    }

    /// Every node below a well-formed node caches the left fold, from the
    /// identity, of the summaries of the items below it.
    pub proof fn lemma_summaries_below(self, root: bool, path: Seq<usize>, d: nat)
        requires
            item_laws::<T>(),
            self.wf(root),
            self.path_valid(path),
            d < path.len(),
        ensures
            self.descendant(path, d).summary_spec() == total(
                summaries(self.descendant(path, d).items()),
            ),
    {
        if d == 0 {
            self.lemma_summary_is_total(root);
        } else {
            self.lemma_fanout(root, path, d);
            self.descendant(path, d).lemma_summary_is_total(false);
        }
    }

    /// Over a non-empty row of siblings, the fold of the cached summaries is
    /// the fold of the summaries of all items below the row.
    pub proof fn lemma_row_fold(nodes: Seq<Node<T>>, h: nat)
        requires
            item_laws::<T>(),
            Self::siblings(nodes, h),
            nodes.len() > 0,
        ensures
            Self::flatten(nodes).len() > 0,
            sum(Self::cached(nodes)) == sum(summaries(Self::flatten(nodes))),
        decreases nodes,
    {
        let last = nodes.last();
        last.lemma_nonempty();
        last.lemma_summary_is_fold(false);
        if nodes.len() == 1 {
            assert(Self::flatten(nodes.drop_last()) =~= Seq::<T>::empty());
            assert(Self::flatten(nodes) =~= last.items());
        } else {
            let front = nodes.drop_last();
            Self::lemma_row_fold(front, h);
            assert(Self::cached(nodes).drop_last() =~= Self::cached(front));
            lemma_summaries_concat(Self::flatten(front), last.items());
            lemma_sum_concat(summaries(Self::flatten(front)), summaries(last.items()));
        }
    }

    /// A well-formed node of height `h` that is not a root has at least `2^h`
    /// items below it.
    pub proof fn lemma_size(self)
        requires
            self.wf(false),
        ensures
            self.items().len() >= pow2(self.height()),
        decreases self,
    {
        lemma2_to64();
        match self {
            Node::Leaf { .. } => {},
            Node::Internal { child_trees, height, .. } => {
                let n = child_trees.len() as int;
                let a = child_trees[n - 2];
                let b = child_trees[n - 1];
                a.lemma_size();
                b.lemma_size();
                let front = child_trees@.drop_last();
                assert(front.drop_last().push(a) =~= front);
                Self::lemma_flatten_push(front.drop_last(), a);
                lemma_pow2_unfold(height as nat);
            },
        }
    }

    /// A row of at least two siblings of height `h` has at least `2^(h+1)`
    /// items below it.
    pub proof fn lemma_row_size(nodes: Seq<Node<T>>, h: nat)
        requires
            Self::siblings(nodes, h),
            nodes.len() >= 2,
        ensures
            Self::flatten(nodes).len() >= pow2(h + 1),
    {
        let n = nodes.len() as int;
        let a = nodes[n - 2];
        let b = nodes[n - 1];
        a.lemma_size();
        b.lemma_size();
        let front = nodes.drop_last();
        assert(front.drop_last().push(a) =~= front);
        Self::lemma_flatten_push(front.drop_last(), a);
        lemma_pow2_unfold(h + 1);
    }

    /// A height whose power of two does not exceed a length that fits in
    /// `usize` is below 64.
    pub proof fn lemma_height_fits(h: nat, len: nat)
        requires
            pow2(h) <= len <= usize::MAX,
        ensures
            h < 64,
    {
        lemma2_to64();
        if h > 64 {
            lemma_pow2_strictly_increases(64, h);
        }
    }

    /// The summary cached in this node.
    pub fn summary(&self) -> (s: &T::Summary)
        ensures
            *s == self.summary_spec(),
    {
        match self {
            Node::Leaf { summary, .. } => summary,
            Node::Internal { summary, .. } => summary,
        }
    }

    /// The number of levels below this node.
    pub fn node_height(&self) -> (h: u8)
        ensures
            h == self.height(),
    {
        match self {
            Node::Leaf { .. } => 0,
            Node::Internal { height, .. } => *height,
        }
    }

    /// Whether this node is a leaf.
    pub fn is_leaf(&self) -> (b: bool)
        ensures
            b == (self is Leaf),
    {
        match self {
            Node::Leaf { .. } => true,
            Node::Internal { .. } => false,
        }
    }

    /// The number of items of a leaf, or of children of an internal node.
    pub fn node_fanout(&self) -> (n: usize)
        ensures
            n == self.fanout(),
    {
        match self {
            Node::Leaf { items, .. } => items.len(),
            Node::Internal { child_trees, .. } => child_trees.len(),
        }
    }

    /// A copy of the subtree at this node: every item and every summary is
    /// cloned.
    pub fn duplicate(&self) -> (r: Self) where T: Clone
        ensures
            obeys_clone::<T>() && obeys_clone::<T::Summary>() ==> {
                &&& r.items() == self.items()
                &&& r.height() == self.height()
                &&& r.summary_spec() == self.summary_spec()
                &&& self.wf(true) ==> r.wf(true)
                &&& self.wf(false) ==> r.wf(false)
            },
        decreases self,
    {
        match self {
            Node::Leaf { summary, items, item_summaries } => {
                let r = Node::Leaf {
                    summary: summary.clone(),
                    items: items.clone(),
                    item_summaries: item_summaries.clone(),
                };
                proof {
                    if obeys_clone::<T>() && obeys_clone::<T::Summary>() {
                        assert(r->items@ =~= items@);
                        assert(r->item_summaries@ =~= item_summaries@);
                    }
                }
                r
            },
            Node::Internal { height, summary, child_summaries, child_trees } => {
                let mut copies: Vec<Node<T>> = Vec::new();
                let mut i: usize = 0;
                while i < child_trees.len()
                    invariant
                        0 <= i <= child_trees.len(),
                        copies.len() == i,
                        forall|j: int| 0 <= j < child_trees.len() ==> decreases_to!(self => child_trees@[j]),
                        obeys_clone::<T>() && obeys_clone::<T::Summary>() ==> forall|j: int|
                            0 <= j < i ==> {
                                &&& (#[trigger] copies@[j]).items() == child_trees@[j].items()
                                &&& copies@[j].height() == child_trees@[j].height()
                                &&& copies@[j].summary_spec() == child_trees@[j].summary_spec()
                                &&& child_trees@[j].wf(false) ==> copies@[j].wf(false)
                            },
                    decreases child_trees.len() - i,
                {
                    let copy = child_trees[i].duplicate();
                    copies.push(copy);
                    i += 1;
                }
                let r = Node::Internal {
                    height: *height,
                    summary: summary.clone(),
                    child_summaries: child_summaries.clone(),
                    child_trees: copies,
                };
                proof {
                    if obeys_clone::<T>() && obeys_clone::<T::Summary>() {
                        assert(r->child_summaries@ =~= child_summaries@);
                        Self::lemma_flatten_alike(copies@, child_trees@);
                        assert(Self::cached(copies@) =~= Self::cached(child_trees@));
                    }
                }
                r
            },
        }
    }

    /// Two rows of nodes with the same items, node for node, have the same
    /// items.
    pub proof fn lemma_flatten_alike(a: Seq<Node<T>>, b: Seq<Node<T>>)
        requires
            a.len() == b.len(),
            forall|j: int| 0 <= j < a.len() ==> (#[trigger] a[j]).items() == b[j].items(),
        ensures
            Self::flatten(a) == Self::flatten(b),
        decreases a.len(),
    {
        if a.len() > 0 {
            Self::lemma_flatten_alike(a.drop_last(), b.drop_last());
        }
    }

    /// The leaf without items.
    pub fn empty() -> (n: Self)
        ensures
            n is Leaf,
            n.items() == Seq::<T>::empty(),
            T::Summary::obeys_summary_spec() ==> n.wf(true),
    {
        let n = Node::Leaf {
            summary: T::Summary::zero(),
            items: Vec::new(),
            item_summaries: Vec::new(),
        };
        proof {
            assert(n.items() =~= Seq::<T>::empty());
            assert(n->item_summaries@ =~= summaries(n->items@));
        }
        n
    }

    /// A leaf over `items`, with its summaries computed.
    pub fn new_leaf(items: Vec<T>) -> (n: Self)
        requires
            item_laws::<T>(),
            items.len() <= TREE_MAX,
        ensures
            n is Leaf,
            n.items() == items@,
            n.wf(true),
            items.len() >= TREE_BASE ==> n.wf(false),
    {
        let mut item_summaries: Vec<T::Summary> = Vec::new();
        let mut summary = T::Summary::zero();
        let mut i: usize = 0;
        while i < items.len()
            invariant
                item_laws::<T>(),
                0 <= i <= items.len(),
                item_summaries@ == summaries(items@.subrange(0, i as int)),
                i > 0 ==> summary == sum(item_summaries@),
                i == 0 ==> summary == T::Summary::zero_spec(),
            decreases items.len() - i,
        {
            let s = items[i].summary();
            if i == 0 {
                summary = s.clone();
            } else {
                summary.add_summary(&s);
            }
            item_summaries.push(s);
            proof {
                assert(item_summaries@.drop_last() =~= summaries(items@.subrange(0, i as int)));
                assert(item_summaries@ =~= summaries(items@.subrange(0, i + 1)));
            }
            i += 1;
        }
        proof {
            assert(items@.subrange(0, i as int) =~= items@);
        }
        Node::Leaf { summary, items, item_summaries }
    }

    /// An internal node over `child_trees`, with its summaries computed.
    pub fn new_internal(child_trees: Vec<Node<T>>) -> (n: Self)
        requires
            item_laws::<T>(),
            2 <= child_trees.len() <= TREE_MAX,
            Self::siblings(child_trees@, child_trees@[0].height()),
            child_trees@[0].height() < 255,
        ensures
            n is Internal,
            n.wf(true),
            child_trees.len() >= TREE_BASE ==> n.wf(false),
            n.height() == child_trees@[0].height() + 1,
            n.items() == Self::flatten(child_trees@),
    {
        let height = child_trees[0].node_height() + 1;
        let mut child_summaries: Vec<T::Summary> = Vec::new();
        let mut summary = child_trees[0].summary().clone();
        child_summaries.push(child_trees[0].summary().clone());
        proof {
            assert(child_summaries@ =~= Self::cached(child_trees@.subrange(0, 1)));
        }
        let mut i: usize = 1;
        while i < child_trees.len()
            invariant
                item_laws::<T>(),
                1 <= i <= child_trees.len(),
                child_summaries@ == Self::cached(child_trees@.subrange(0, i as int)),
                summary == sum(child_summaries@),
            decreases child_trees.len() - i,
        {
            let s = child_trees[i].summary().clone();
            summary.add_summary(&s);
            child_summaries.push(s);
            proof {
                assert(child_summaries@.drop_last() =~= Self::cached(
                    child_trees@.subrange(0, i as int),
                ));
                assert(child_summaries@ =~= Self::cached(child_trees@.subrange(0, i + 1)));
            }
            i += 1;
        }
        proof {
            assert(child_trees@.subrange(0, i as int) =~= child_trees@);
        }
        Node::Internal { height, summary, child_summaries, child_trees }
    }

    /// The items of a leaf, taken out of it.
    pub fn into_items(self) -> (v: Vec<T>)
        requires
            self is Leaf,
        ensures
            v@ == self.items(),
    {
        match self {
            Node::Leaf { items, .. } => items,
            Node::Internal { .. } => Vec::new(),
        }
    }

    /// The children of an internal node, taken out of it.
    pub fn into_children(self) -> (v: Vec<Node<T>>)
        requires
            self is Internal,
        ensures
            v@ == self->child_trees@,
    {
        match self {
            Node::Leaf { .. } => Vec::new(),
            Node::Internal { child_trees, .. } => child_trees,
        }
    }

    /// One leaf over `items`, or two where one cannot hold them.
    pub(crate) fn pack_items(items: Vec<T>, Ghost(root): Ghost<bool>) -> (r: (Self, Option<Self>))
        requires
            item_laws::<T>(),
            items.len() <= 2 * TREE_MAX,
            !root ==> items.len() >= TREE_BASE,
        ensures
            r.0.height() == 0,
            r.0.items() + Self::items_of(r.1) == items@,
            match r.1 {
                Some(n) => r.0.wf(false) && n.wf(false) && n.height() == 0,
                None => r.0.wf(root),
            },
    {
        let mut items = items;
        if items.len() <= TREE_MAX {
            (Self::new_leaf(items), None)
        } else {
            let ghost all = items@;
            let mid = (items.len() + 1) / 2;
            let right = items.split_off(mid);
            proof {
                assert(items@ + right@ =~= all);
            }
            (Self::new_leaf(items), Some(Self::new_leaf(right)))
        }
    }

    /// The items below a node that may be absent.
    pub open spec fn items_of(n: Option<Self>) -> Seq<T> {
        match n {
            Some(n) => n.items(),
            None => Seq::empty(),
        }
    }
    /// One internal node over `children`, or two where one cannot hold them.
    pub(crate) fn pack_children(children: Vec<Node<T>>, Ghost(root): Ghost<bool>) -> (r: (
        Self,
        Option<Self>,
    ))
        requires
            item_laws::<T>(),
            2 <= children.len() <= 2 * TREE_MAX,
            !root ==> children.len() >= TREE_BASE,
            Self::siblings(children@, children@[0].height()),
            children@[0].height() < 255,
        ensures
            r.0.height() == children@[0].height() + 1,
            r.0.items() + Self::items_of(r.1) == Self::flatten(children@),
            match r.1 {
                Some(n) => r.0.wf(false) && n.wf(false) && n.height() == r.0.height(),
                None => r.0.wf(root),
            },
    {
        let mut children = children;
        if children.len() <= TREE_MAX {
            (Self::new_internal(children), None)
        } else {
            let ghost all = children@;
            let mid = (children.len() + 1) / 2;
            let right = children.split_off(mid);
            proof {
                assert(children@ + right@ =~= all);
                Self::lemma_flatten_concat(children@, right@);
            }
            (Self::new_internal(children), Some(Self::new_internal(right)))
        }
    }

    /// Joins `right` onto the end of `left`, along the rightmost spine of
    /// `left`, and rebalances upward. Where the result does not fit in one node
    /// of the height of `left`, it comes back as two.
    #[verifier::rlimit(50)]
    pub(crate) fn concat(left: Self, right: Self, Ghost(root): Ghost<bool>) -> (r: (Self, Option<Self>))
        requires
            item_laws::<T>(),
            left.wf(root),
            right.wf(true),
            left.height() >= right.height(),
            left.fanout() > 0,
            right.fanout() > 0,
        ensures
            r.0.height() == left.height(),
            r.0.items() + Self::items_of(r.1) == left.items() + right.items(),
            match r.1 {
                Some(n) => r.0.wf(false) && n.wf(false) && n.height() == left.height(),
                None => r.0.wf(root),
            },
        decreases left.height(),
    {
        let left_height = left.node_height();
        let right_height = right.node_height();
        if left_height == 0 {
            let mut items = left.into_items();
            let mut more = right.into_items();
            items.append(&mut more);
            Self::pack_items(items, Ghost(root))
        } else {
            let ghost h = (left.height() - 1) as nat;
            let ghost whole = left.items();
            let ghost rest = right.items();
            let mut children = left.into_children();
            assert(Self::siblings(children@, h));
            assert(whole == Self::flatten(children@));
            if right_height == left_height {
                let mut more = right.into_children();
                proof {
                    Self::lemma_flatten_concat(children@, more@);
                }
                children.append(&mut more);
            } else {
                let ghost before = children@;
                let last = children.pop().unwrap();
                assert(last == before[before.len() - 1]);
                assert(last.wf(false));
                let (a, b) = Self::concat(last, right, Ghost(false));
                proof {
                    assert(before =~= children@.push(last));
                    Self::lemma_flatten_push(children@, last);
                    Self::lemma_flatten_push(children@, a);
                }
                let ghost front = Self::flatten(children@);
                children.push(a);
                match b {
                    Some(b) => {
                        proof {
                            Self::lemma_flatten_push(children@, b);
                            assert((front + a.items()) + b.items() =~= front + (a.items()
                                + b.items()));
                        }
                        children.push(b);
                    },
                    None => {
                        assert(a.items() + Self::items_of(b) =~= a.items());
                    },
                }
                assert((front + last.items()) + rest =~= front + (last.items() + rest));
            }
            assert(Self::siblings(children@, h));
            assert(Self::flatten(children@) =~= whole + rest);
            Self::pack_children(children, Ghost(root))
        }
    }
}

} // verus!
