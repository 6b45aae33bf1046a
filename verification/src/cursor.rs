//! A cursor over a tree: a path of frames from the root to a leaf, with the
//! running coordinate of the position it stands at.

use vstd::prelude::*;
use crate::algebra::{
    advance_all, Bias, dim_at, Dimension, dimension_laws, Item, item_laws, lemma_dim_at_shift,
    lemma_skips_downward, monotone, passes, seek_rest, SeekTarget, skips_item, summaries,
};
use crate::node::Node;
use crate::tree::SumTree;

verus! {

/// One step of a cursor's path: a node, the index of the child (or, in a leaf,
/// of the item) that the path goes through, and the coordinate at the start of
/// the node. `base` is the position of the node's first item in the tree.
pub struct Frame<'a, T: Item, D> {
    pub node: &'a Node<T>,
    pub index: usize,
    pub start: D,
    pub base: Ghost<int>,
}

/// A positioned walker over a tree. It stands before the first item, at an
/// item, or at the end.
pub struct Cursor<'a, T: Item, D> {
    pub tree: &'a SumTree<T>,
    pub stack: Vec<Frame<'a, T, D>>,
    pub position: D,
    pub before_first: bool,
}

/// The frame's node covers the items of the tree from `base` on, its start
/// coordinate is the coordinate at `base`, and it is well formed.
pub open spec fn frame_covers<'a, T: Item, D: Dimension<'a, T::Summary>>(
    items: Seq<T>,
    f: Frame<'a, T, D>,
    root: bool,
) -> bool {
    &&& 0 <= f.base@
    &&& f.base@ + f.node.items().len() <= items.len()
    &&& items.subrange(f.base@, f.base@ + f.node.items().len()) == f.node.items()
    &&& f.start == dim_at::<T::Summary, D>(summaries(items), f.base@)
    &&& f.node.wf(root)
}

/// Frame `g` is the child that frame `f` goes through.
pub open spec fn frame_links<'a, T: Item, D: Dimension<'a, T::Summary>>(
    f: Frame<'a, T, D>,
    g: Frame<'a, T, D>,
) -> bool {
    &&& *f.node is Internal
    &&& f.index < f.node.fanout()
    &&& *g.node == f.node->child_trees@[f.index as int]
    &&& g.base@ == f.base@ + Node::child_offset(f.node->child_trees@, f.index as int)
}

/// The frames form a path from the root of `tree` downward.
pub open spec fn path_ok<'a, T: Item, D: Dimension<'a, T::Summary>>(
    tree: SumTree<T>,
    stack: Seq<Frame<'a, T, D>>,
) -> bool {
    &&& stack.len() >= 1
    &&& *stack[0].node == tree.root
    &&& stack[0].base@ == 0
    &&& forall|l: int| 0 <= l < stack.len() ==> frame_covers(tree@, #[trigger] stack[l], l == 0)
    &&& forall|l: int| 0 <= l < stack.len() - 1 ==> #[trigger] linked(stack, l)
}

/// Frame `l + 1` of a path is the child that frame `l` goes through.
pub open spec fn linked<'a, T: Item, D: Dimension<'a, T::Summary>>(
    stack: Seq<Frame<'a, T, D>>,
    l: int,
) -> bool {
    frame_links(stack[l], stack[l + 1])
}

/// The frame stands in a leaf, at one of its items or, in the last leaf of the
/// tree only, past its last item.
pub open spec fn at_leaf<'a, T: Item, D: Dimension<'a, T::Summary>>(
    items: Seq<T>,
    f: Frame<'a, T, D>,
) -> bool {
    &&& *f.node is Leaf
    &&& f.index <= f.node.fanout()
    &&& f.index == f.node.fanout() ==> f.base@ + f.index == items.len()
}

/// The coordinate reached from `start` by passing the first `k` of `sums`.
pub fn advance_over<'a, S: crate::algebra::Summary, D: Dimension<'a, S>>(
    start: &D,
    sums: &'a Vec<S>,
    k: usize,
) -> (d: D)
    requires
        dimension_laws::<S, D>(),
        k <= sums.len(),
    ensures
        d == advance_all(*start, sums@.subrange(0, k as int)),
{
    let mut d = start.clone();
    let mut i: usize = 0;
    while i < k
        invariant
            dimension_laws::<S, D>(),
            i <= k <= sums.len(),
            d == advance_all(*start, sums@.subrange(0, i as int)),
        decreases k - i,
    {
        d.add_summary(&sums[i]);
        proof {
            assert(sums@.subrange(0, i + 1).drop_last() =~= sums@.subrange(0, i as int));
        }
        i += 1;
    }
    d
}

/// In a frame that covers its node, the coordinate at the start of child `k`
/// is the frame's start after passing the cached summaries of the children
/// before it.
pub proof fn lemma_child_start<'a, T: Item, D: Dimension<'a, T::Summary>>(
    items: Seq<T>,
    f: Frame<'a, T, D>,
    root: bool,
    k: int,
)
    requires
        item_laws::<T>(),
        dimension_laws::<T::Summary, D>(),
        frame_covers(items, f, root),
        *f.node is Internal,
        0 <= k <= f.node.fanout(),
    ensures
        0 <= Node::child_offset(f.node->child_trees@, k) <= f.node.items().len(),
        advance_all(f.start, f.node->child_summaries@.subrange(0, k)) == dim_at::<T::Summary, D>(
            summaries(items),
            f.base@ + Node::child_offset(f.node->child_trees@, k),
        ),
{
    let kids = f.node->child_trees@;
    let h = (f.node.height() - 1) as nat;
    assert(Node::siblings(kids, h));
    Node::lemma_advance_row(f.start, kids, h, k);
    let off = Node::child_offset(kids, k);
    if k < kids.len() {
        Node::lemma_child_window(kids, k);
    } else {
        Node::lemma_child_offset_ends(kids);
        assert(kids.subrange(0, k) =~= kids);
        assert(f.node.items().subrange(0, off) =~= Node::flatten(kids.subrange(0, k)));
    }
    let part = summaries(Node::flatten(kids.subrange(0, k)));
    assert(summaries(items).subrange(f.base@, f.base@ + off) =~= part) by {
        assert(items.subrange(f.base@, f.base@ + off) =~= f.node.items().subrange(0, off));
    }
    lemma_dim_at_shift::<T::Summary, D>(summaries(items), f.base@, part);
}

/// In a frame that covers a leaf, the coordinate at item `j` of the leaf is
/// the frame's start after passing the summaries of the items before it.
pub proof fn lemma_item_start<'a, T: Item, D: Dimension<'a, T::Summary>>(
    items: Seq<T>,
    f: Frame<'a, T, D>,
    root: bool,
    j: int,
)
    requires
        frame_covers(items, f, root),
        *f.node is Leaf,
        0 <= j <= f.node.fanout(),
    ensures
        advance_all(f.start, f.node->item_summaries@.subrange(0, j)) == dim_at::<T::Summary, D>(
            summaries(items),
            f.base@ + j,
        ),
{
    let part = f.node->item_summaries@.subrange(0, j);
    assert(summaries(items).subrange(f.base@, f.base@ + j) =~= part) by {
        assert(items.subrange(f.base@, f.base@ + j) =~= f.node.items().subrange(0, j));
    }
    lemma_dim_at_shift::<T::Summary, D>(summaries(items), f.base@, part);
}

/// The frame of child `f.index` of the node of `f` covers that child.
pub proof fn lemma_child_covers<'a, T: Item, D: Dimension<'a, T::Summary>>(
    items: Seq<T>,
    f: Frame<'a, T, D>,
    root: bool,
    g: Frame<'a, T, D>,
)
    requires
        item_laws::<T>(),
        dimension_laws::<T::Summary, D>(),
        frame_covers(items, f, root),
        frame_links(f, g),
        g.start == advance_all(f.start, f.node->child_summaries@.subrange(0, f.index as int)),
    ensures
        frame_covers(items, g, false),
{
    let kids = f.node->child_trees@;
    let k = f.index as int;
    lemma_child_start(items, f, root, k);
    Node::lemma_child_window(kids, k);
    assert(kids[k].wf(false));
    let off = Node::child_offset(kids, k);
    let w = items.subrange(f.base@, f.base@ + f.node.items().len());
    assert(items.subrange(g.base@, g.base@ + g.node.items().len()) =~= w.subrange(
        off,
        off + g.node.items().len(),
    ));
}

/// Frame `g` lies below child `t.index` of frame `t`, at the first item of
/// that child's subtree or, where `rightmost`, in its last leaf.
pub open spec fn reaches<'a, T: Item, D: Dimension<'a, T::Summary>>(
    t: Frame<'a, T, D>,
    g: Frame<'a, T, D>,
    rightmost: bool,
) -> bool {
    if rightmost {
        g.base@ + g.node.items().len() == t.base@ + Node::child_offset(
            t.node->child_trees@,
            t.index + 1,
        )
    } else {
        g.base@ == t.base@ + Node::child_offset(t.node->child_trees@, t.index as int)
    }
}

/// A path stays a path when the child that its last frame goes through is
/// pushed onto it.
pub proof fn lemma_push_frame<'a, T: Item, D: Dimension<'a, T::Summary>>(
    tree: SumTree<T>,
    stack: Seq<Frame<'a, T, D>>,
    g: Frame<'a, T, D>,
)
    requires
        path_ok(tree, stack),
        frame_covers(tree@, g, false),
        frame_links(stack.last(), g),
    ensures
        path_ok(tree, stack.push(g)),
{
    let next = stack.push(g);
    assert forall|l: int| 0 <= l < next.len() implies frame_covers(
        tree@,
        #[trigger] next[l],
        l == 0,
    ) by {
        if l < stack.len() {
            assert(next[l] == stack[l]);
        }
    }
    assert forall|l: int| 0 <= l < next.len() - 1 implies #[trigger] linked(next, l) by {
        assert(next[l] == stack[l]);
        if l < stack.len() - 1 {
            assert(linked(stack, l));
            assert(next[l + 1] == stack[l + 1]);
        }
    }
}

/// The child that a frame goes through is reached from it.
pub proof fn lemma_reaches_first<'a, T: Item, D: Dimension<'a, T::Summary>>(
    t: Frame<'a, T, D>,
    g: Frame<'a, T, D>,
    rightmost: bool,
)
    requires
        frame_links(t, g),
    ensures
        reaches(t, g, rightmost),
{
    Node::lemma_child_window(t.node->child_trees@, t.index as int);
}

/// What is reached from a frame stays reached one level further down, through
/// the first child or, where `rightmost`, the last.
pub proof fn lemma_reaches_next<'a, T: Item, D: Dimension<'a, T::Summary>>(
    t: Frame<'a, T, D>,
    f: Frame<'a, T, D>,
    g: Frame<'a, T, D>,
    rightmost: bool,
)
    requires
        reaches(t, f, rightmost),
        frame_links(f, g),
        f.index == (if rightmost {
            f.node.fanout() - 1
        } else {
            0
        }),
    ensures
        reaches(t, g, rightmost),
{
    Node::lemma_child_window(f.node->child_trees@, f.index as int);
    Node::lemma_child_offset_ends(f.node->child_trees@);
}

/// Extends a path downward to a leaf, through the first child of every node
/// below the top frame, or through the last.
#[verifier::rlimit(50)]
pub(crate) fn descend<'a, T: Item, D: Dimension<'a, T::Summary>>(
    stack: &mut Vec<Frame<'a, T, D>>,
    rightmost: bool,
    Ghost(tree): Ghost<SumTree<T>>,
)
    requires
        tree.wf(),
        dimension_laws::<T::Summary, D>(),
        path_ok(tree, old(stack)@),
        *old(stack)@.last().node is Internal ==> old(stack)@.last().index < old(
            stack,
        )@.last().node.fanout(),
    ensures
        path_ok(tree, final(stack)@),
        final(stack)@.len() >= old(stack)@.len(),
        final(stack)@.subrange(0, old(stack)@.len() as int) == old(stack)@,
        *final(stack)@.last().node is Leaf,
        forall|l: int|
            old(stack)@.len() <= l < final(stack)@.len() ==> (#[trigger] final(stack)@[l]).index == (
            if rightmost {
                final(stack)@[l].node.fanout() - 1
            } else {
                0
            }),
        (final(stack)@.len() == old(stack)@.len()) == (*old(stack)@.last().node is Leaf),
        final(stack)@.len() > old(stack)@.len() ==> reaches(
            old(stack)@.last(),
            final(stack)@.last(),
            rightmost,
        ),
{
    let ghost first = stack@;
    loop
        invariant
            tree.wf(),
            dimension_laws::<T::Summary, D>(),
            path_ok(tree, stack@),
            *stack@.last().node is Internal ==> stack@.last().index < stack@.last().node.fanout(),
            stack@.len() >= first.len(),
            stack@.subrange(0, first.len() as int) == first,
            forall|l: int|
                first.len() <= l < stack@.len() ==> (#[trigger] stack@[l]).index == (if rightmost {
                    stack@[l].node.fanout() - 1
                } else {
                    0
                }),
            stack@.len() == first.len() ==> stack@ == first,
            stack@.len() > first.len() ==> *first.last().node is Internal && reaches(
                first.last(),
                stack@.last(),
                rightmost,
            ),
        ensures
            path_ok(tree, stack@),
            stack@.len() >= first.len(),
            stack@.subrange(0, first.len() as int) == first,
            *stack@.last().node is Leaf,
            forall|l: int|
                first.len() <= l < stack@.len() ==> (#[trigger] stack@[l]).index == (if rightmost {
                    stack@[l].node.fanout() - 1
                } else {
                    0
                }),
            stack@.len() == first.len() ==> stack@ == first,
            stack@.len() > first.len() ==> *first.last().node is Internal && reaches(
                first.last(),
                stack@.last(),
                rightmost,
            ),
        decreases stack@.last().node.height(),
    {
        let depth = stack.len();
        let top = &stack[depth - 1];
        let node: &'a Node<T> = top.node;
        match node {
            Node::Leaf { .. } => {
                break ;
            },
            Node::Internal { child_trees, child_summaries, .. } => {
                let ghost before = stack@;
                let ghost f = stack@[depth - 1];
                let child: &'a Node<T> = &child_trees[top.index];
                proof {
                    assert(frame_covers(tree@, f, depth - 1 == 0));
                    assert(child_trees@[f.index as int].wf(false));
                }
                let start = advance_over(&top.start, child_summaries, top.index);
                let index = if rightmost {
                    child.node_fanout() - 1
                } else {
                    0
                };
                let ghost base = f.base@ + Node::child_offset(child_trees@, f.index as int);
                let g = Frame { node: child, index, start, base: Ghost(base) };
                proof {
                    lemma_child_covers(tree@, f, depth - 1 == 0, g);
                    lemma_push_frame(tree, before, g);
                    if depth == first.len() {
                        assert(before == first);
                        lemma_reaches_first(f, g, rightmost);
                    } else {
                        lemma_reaches_next(first.last(), f, g, rightmost);
                    }
                }
                stack.push(g);
                proof {
                    assert(stack@.subrange(0, first.len() as int) =~= first);
                }
            },
        }
    }
}

/// The frame `f` with its index replaced.
pub open spec fn with_index<'a, T: Item, D: Dimension<'a, T::Summary>>(
    f: Frame<'a, T, D>,
    index: usize,
) -> Frame<'a, T, D> {
    Frame { node: f.node, index, start: f.start, base: f.base }
}

/// Replaces the index of the last frame of a path.
pub(crate) fn set_top_index<'a, T: Item, D: Dimension<'a, T::Summary>>(
    stack: &mut Vec<Frame<'a, T, D>>,
    index: usize,
)
    requires
        old(stack)@.len() >= 1,
    ensures
        final(stack)@ == old(stack)@.drop_last().push(with_index(old(stack)@.last(), index)),
{
    let top = stack.pop().unwrap();
    stack.push(Frame { node: top.node, index, start: top.start, base: top.base });
}

/// A path stays a path when the index of its last frame changes.
pub proof fn lemma_set_top_index<'a, T: Item, D: Dimension<'a, T::Summary>>(
    tree: SumTree<T>,
    stack: Seq<Frame<'a, T, D>>,
    index: usize,
)
    requires
        path_ok(tree, stack),
    ensures
        path_ok(tree, stack.drop_last().push(with_index(stack.last(), index))),
{
    let next = stack.drop_last().push(with_index(stack.last(), index));
    assert forall|l: int| 0 <= l < next.len() implies frame_covers(
        tree@,
        #[trigger] next[l],
        l == 0,
    ) by {
        assert(frame_covers(tree@, stack[l], l == 0));
    }
    assert forall|l: int| 0 <= l < next.len() - 1 implies #[trigger] linked(next, l) by {
        assert(linked(stack, l));
    }
}

/// The first `k` frames of a path are a path.
pub proof fn lemma_truncate<'a, T: Item, D: Dimension<'a, T::Summary>>(
    tree: SumTree<T>,
    stack: Seq<Frame<'a, T, D>>,
    k: int,
)
    requires
        path_ok(tree, stack),
        1 <= k <= stack.len(),
    ensures
        path_ok(tree, stack.subrange(0, k)),
{
    let next = stack.subrange(0, k);
    assert forall|l: int| 0 <= l < next.len() implies frame_covers(
        tree@,
        #[trigger] next[l],
        l == 0,
    ) by {
        assert(frame_covers(tree@, stack[l], l == 0));
    }
    assert forall|l: int| 0 <= l < next.len() - 1 implies #[trigger] linked(next, l) by {
        assert(linked(stack, l));
    }
}

/// Every frame from `level` down goes through the last child of its node
/// (`forward`) or through the first.
pub open spec fn on_edge<'a, T: Item, D: Dimension<'a, T::Summary>>(
    stack: Seq<Frame<'a, T, D>>,
    level: int,
    forward: bool,
) -> bool {
    forall|k: int|
        level <= k < stack.len() - 1 ==> (#[trigger] stack[k]).index == (if forward {
            stack[k].node.fanout() - 1
        } else {
            0
        })
}

/// Along the edge of a subtree, every node ends where the leaf ends
/// (`forward`) or starts where the leaf starts.
pub proof fn lemma_edge<'a, T: Item, D: Dimension<'a, T::Summary>>(
    tree: SumTree<T>,
    stack: Seq<Frame<'a, T, D>>,
    level: int,
    forward: bool,
)
    requires
        path_ok(tree, stack),
        0 <= level < stack.len(),
        on_edge(stack, level, forward),
    ensures
        forward ==> stack[level].base@ + stack[level].node.items().len() == stack.last().base@
            + stack.last().node.items().len(),
        !forward ==> stack[level].base@ == stack.last().base@,
    decreases stack.len() - level,
{
    if level < stack.len() - 1 {
        lemma_edge(tree, stack, level + 1, forward);
        let f = stack[level];
        assert(linked(stack, level));
        Node::lemma_child_window(f.node->child_trees@, f.index as int);
        Node::lemma_child_offset_ends(f.node->child_trees@);
    }
}

/// The deepest frame above the leaf that has a further child in the direction
/// of travel, as the number of frames down to it; zero where there is none.
pub(crate) fn climb<'a, T: Item, D: Dimension<'a, T::Summary>>(
    stack: &Vec<Frame<'a, T, D>>,
    forward: bool,
    Ghost(tree): Ghost<SumTree<T>>,
) -> (level: usize)
    requires
        path_ok(tree, stack@),
    ensures
        level < stack@.len(),
        on_edge(stack@, level as int, forward),
        level > 0 ==> (if forward {
            stack@[level - 1].index + 1 < stack@[level - 1].node.fanout()
        } else {
            stack@[level - 1].index > 0
        }),
{
    let mut level = stack.len() - 1;
    while level > 0
        invariant
            path_ok(tree, stack@),
            level < stack@.len(),
            on_edge(stack@, level as int, forward),
        ensures
            level < stack@.len(),
            on_edge(stack@, level as int, forward),
            level > 0 ==> (if forward {
                stack@[level - 1].index + 1 < stack@[level - 1].node.fanout()
            } else {
                stack@[level - 1].index > 0
            }),
        decreases level,
    {
        let f = &stack[level - 1];
        proof {
            assert(linked(stack@, level - 1));
        }
        let further = if forward {
            f.index + 1 < f.node.node_fanout()
        } else {
            f.index > 0
        };
        if further {
            break ;
        }
        level -= 1;
    }
    level
}

/// In a frame that covers a leaf, item `j` of the leaf is item `base + j` of
/// the tree, and passing it leads from the coordinate at `base + j` to the
/// next.
pub proof fn lemma_item_step<'a, T: Item, D: Dimension<'a, T::Summary>>(
    items: Seq<T>,
    f: Frame<'a, T, D>,
    root: bool,
    j: int,
)
    requires
        frame_covers(items, f, root),
        *f.node is Leaf,
        0 <= j < f.node.fanout(),
    ensures
        f.base@ + j < items.len(),
        items[f.base@ + j] == f.node->items@[j],
        f.node->item_summaries@[j] == items[f.base@ + j].summary_spec(),
        dim_at::<T::Summary, D>(summaries(items), f.base@ + j).advance_spec(
            f.node->item_summaries@[j],
        ) == dim_at::<T::Summary, D>(summaries(items), f.base@ + j + 1),
{
    lemma_item_start(items, f, root, j);
    lemma_item_start(items, f, root, j + 1);
    let sums = f.node->item_summaries@;
    assert(sums.subrange(0, j + 1).drop_last() =~= sums.subrange(0, j));
    assert(items.subrange(f.base@, f.base@ + f.node.items().len())[j] == items[f.base@ + j]);
}

/// Every item before position `p` is one that a seek for `target` moves past.
pub open spec fn all_passed<'a, S: crate::algebra::Summary, D: Dimension<'a, S>, Tg: SeekTarget<'a, S, D>>(
    target: &Tg,
    bias: Bias,
    s: Seq<S>,
    p: int,
) -> bool {
    forall|j: int| 0 <= j < p ==> skips_item::<S, D, Tg>(target, s, j, bias)
}

/// Under a monotone target, a seek that moves past item `p` moves past every
/// item up to it.
pub proof fn lemma_all_passed<'a, S: crate::algebra::Summary, D: Dimension<'a, S>, Tg: SeekTarget<'a, S, D>>(
    target: &Tg,
    bias: Bias,
    s: Seq<S>,
    p: int,
)
    requires
        monotone::<S, D, Tg>(target, s),
        0 <= p < s.len(),
        skips_item::<S, D, Tg>(target, s, p, bias),
    ensures
        all_passed::<S, D, Tg>(target, bias, s, p + 1),
{
    assert forall|j: int| 0 <= j < p + 1 implies skips_item::<S, D, Tg>(target, s, j, bias) by {
        lemma_skips_downward::<S, D, Tg>(target, s, bias, j, p);
    }
}

/// Where a seek from the start comes to rest at `q` and moves past item `p`,
/// a seek from `p` comes to rest at `q` too.
pub proof fn lemma_seek_forward<'a, S: crate::algebra::Summary, D: Dimension<'a, S>, Tg: SeekTarget<'a, S, D>>(
    target: &Tg,
    bias: Bias,
    s: Seq<S>,
    p: int,
    q: int,
)
    requires
        monotone::<S, D, Tg>(target, s),
        0 <= p < s.len(),
        skips_item::<S, D, Tg>(target, s, p, bias),
        seek_rest::<S, D, Tg>(target, bias, s, 0, q),
    ensures
        seek_rest::<S, D, Tg>(target, bias, s, p, q),
{
    if q <= p {
        lemma_skips_downward::<S, D, Tg>(target, s, bias, q, p);
    }
}

/// Finds the child of an internal node that a seek descends into: the first
/// whose end the seek does not move past, or the last child. `found` tells
/// which.
#[verifier::rlimit(50)]
pub(crate) fn scan_children<'a, T: Item, D: Dimension<'a, T::Summary>, Tg: SeekTarget<'a, T::Summary, D>>(
    target: &Tg,
    bias: Bias,
    f: &Frame<'a, T, D>,
    Ghost(items): Ghost<Seq<T>>,
    Ghost(root): Ghost<bool>,
) -> (r: (usize, D, bool))
    requires
        item_laws::<T>(),
        dimension_laws::<T::Summary, D>(),
        Tg::obeys_target_spec(),
        monotone::<T::Summary, D, Tg>(target, summaries(items)),
        frame_covers(items, *f, root),
        *f.node is Internal,
        all_passed::<T::Summary, D, Tg>(target, bias, summaries(items), f.base@),
    ensures
        r.0 < f.node.fanout(),
        r.1 == advance_all(f.start, f.node->child_summaries@.subrange(0, r.0 as int)),
        all_passed::<T::Summary, D, Tg>(
            target,
            bias,
            summaries(items),
            f.base@ + Node::child_offset(f.node->child_trees@, r.0 as int),
        ),
        r.2 ==> !skips_item::<T::Summary, D, Tg>(
            target,
            summaries(items),
            f.base@ + Node::child_offset(f.node->child_trees@, r.0 + 1) - 1,
            bias,
        ),
        !r.2 ==> r.0 == f.node.fanout() - 1,
{
    let node: &'a Node<T> = f.node;
    match node {
        Node::Leaf { .. } => (0, f.start.clone(), false),
        Node::Internal { child_summaries, child_trees, .. } => {
            let mut d = f.start.clone();
            let mut i: usize = 0;
            let mut found = false;
            proof {
                Node::lemma_child_offset_ends(child_trees@);
                assert(child_summaries@.subrange(0, 0) =~= Seq::<T::Summary>::empty());
            }
            while i + 1 < child_summaries.len()
                invariant_except_break
                    !found,
                invariant
                    item_laws::<T>(),
                    dimension_laws::<T::Summary, D>(),
                    Tg::obeys_target_spec(),
                    monotone::<T::Summary, D, Tg>(target, summaries(items)),
                    frame_covers(items, *f, root),
                    *f.node == *node,
                    *node matches Node::Internal { child_summaries: cs, child_trees: ct, .. }
                        && cs == *child_summaries && ct == *child_trees,
                    i < child_summaries.len(),
                    d == advance_all(f.start, child_summaries@.subrange(0, i as int)),
                    all_passed::<T::Summary, D, Tg>(
                        target,
                        bias,
                        summaries(items),
                        f.base@ + Node::child_offset(child_trees@, i as int),
                    ),
                ensures
                    i < child_summaries.len(),
                    d == advance_all(f.start, child_summaries@.subrange(0, i as int)),
                    all_passed::<T::Summary, D, Tg>(
                        target,
                        bias,
                        summaries(items),
                        f.base@ + Node::child_offset(child_trees@, i as int),
                    ),
                    found ==> !skips_item::<T::Summary, D, Tg>(
                        target,
                        summaries(items),
                        f.base@ + Node::child_offset(child_trees@, i + 1) - 1,
                        bias,
                    ),
                    !found ==> i == child_summaries.len() - 1,
                decreases child_summaries.len() - i,
            {
                let mut end = d.clone();
                end.add_summary(&child_summaries[i]);
                proof {
                    assert(child_summaries@.subrange(0, i + 1).drop_last()
                        =~= child_summaries@.subrange(0, i as int));
                    lemma_child_start(items, *f, root, i + 1);
                    Node::lemma_child_window(child_trees@, i as int);
                    assert(child_trees@[i as int].wf(false));
                    child_trees@[i as int].lemma_nonempty();
                }
                if passes(target, &end, bias) {
                    proof {
                        lemma_all_passed::<T::Summary, D, Tg>(
                            target,
                            bias,
                            summaries(items),
                            f.base@ + Node::child_offset(child_trees@, i + 1) - 1,
                        );
                    }
                    d = end;
                    i += 1;
                } else {
                    found = true;
                    break ;
                }
            }
            (i, d, found)
        },
    }
}

/// Finds the item of a leaf that a seek comes to rest at: the first that the
/// seek does not move past, or the end of the leaf.
#[verifier::rlimit(50)]
pub(crate) fn scan_items<'a, T: Item, D: Dimension<'a, T::Summary>, Tg: SeekTarget<'a, T::Summary, D>>(
    target: &Tg,
    bias: Bias,
    f: &Frame<'a, T, D>,
    Ghost(items): Ghost<Seq<T>>,
    Ghost(root): Ghost<bool>,
) -> (r: (usize, D))
    requires
        item_laws::<T>(),
        dimension_laws::<T::Summary, D>(),
        Tg::obeys_target_spec(),
        monotone::<T::Summary, D, Tg>(target, summaries(items)),
        frame_covers(items, *f, root),
        *f.node is Leaf,
        all_passed::<T::Summary, D, Tg>(target, bias, summaries(items), f.base@),
    ensures
        r.0 <= f.node.fanout(),
        r.1 == dim_at::<T::Summary, D>(summaries(items), f.base@ + r.0),
        all_passed::<T::Summary, D, Tg>(target, bias, summaries(items), f.base@ + r.0),
        r.0 < f.node.fanout() ==> !skips_item::<T::Summary, D, Tg>(
            target,
            summaries(items),
            f.base@ + r.0,
            bias,
        ),
{
    let node: &'a Node<T> = f.node;
    match node {
        Node::Internal { .. } => (0, f.start.clone()),
        Node::Leaf { item_summaries, .. } => {
            let mut d = f.start.clone();
            let mut j: usize = 0;
            proof {
                lemma_item_start(items, *f, root, 0);
            }
            while j < item_summaries.len()
                invariant
                    item_laws::<T>(),
                    dimension_laws::<T::Summary, D>(),
                    Tg::obeys_target_spec(),
                    monotone::<T::Summary, D, Tg>(target, summaries(items)),
                    frame_covers(items, *f, root),
                    *f.node == *node,
                    *node matches Node::Leaf { item_summaries: is, .. } && is == *item_summaries,
                    j <= item_summaries.len(),
                    d == dim_at::<T::Summary, D>(summaries(items), f.base@ + j),
                    all_passed::<T::Summary, D, Tg>(target, bias, summaries(items), f.base@ + j),
                ensures
                    j <= item_summaries.len(),
                    d == dim_at::<T::Summary, D>(summaries(items), f.base@ + j),
                    all_passed::<T::Summary, D, Tg>(target, bias, summaries(items), f.base@ + j),
                    j < item_summaries.len() ==> !skips_item::<T::Summary, D, Tg>(
                        target,
                        summaries(items),
                        f.base@ + j,
                        bias,
                    ),
                decreases item_summaries.len() - j,
            {
                let mut end = d.clone();
                end.add_summary(&item_summaries[j]);
                proof {
                    lemma_item_step(items, *f, root, j as int);
                }
                if passes(target, &end, bias) {
                    proof {
                        lemma_all_passed::<T::Summary, D, Tg>(
                            target,
                            bias,
                            summaries(items),
                            f.base@ + j,
                        );
                    }
                    d = end;
                    j += 1;
                } else {
                    break ;
                }
            }
            (j, d)
        },
    }
}

impl<'a, T: Item, D: Dimension<'a, T::Summary>> Cursor<'a, T, D> {
    /// The position among the items that the path leads to: the end is the
    /// number of items.
    pub open spec fn index(self) -> int {
        self.stack@.last().base@ + self.stack@.last().index
    }

    /// The position of the cursor: `-1` before the first item, the number of
    /// items at the end.
    pub open spec fn pos(self) -> int {
        if self.before_first {
            -1
        } else {
            self.index()
        }
    }

    /// The cursor's invariant: its frames are a path to a leaf of a
    /// well-formed tree, and its coordinate is the fold of every item before
    /// its position.
    pub open spec fn wf(self) -> bool {
        &&& self.tree.wf()
        &&& dimension_laws::<T::Summary, D>()
        &&& path_ok(*self.tree, self.stack@)
        &&& at_leaf(self.tree@, self.stack@.last())
        &&& self.position == dim_at::<T::Summary, D>(summaries(self.tree@), self.index())
        &&& self.before_first ==> self.index() == 0
    }

    /// A cursor before the first item of `tree`.
    pub fn new(tree: &'a SumTree<T>) -> (c: Self)
        requires
            tree.wf(),
            dimension_laws::<T::Summary, D>(),
        ensures
            c.wf(),
            c.tree == tree,
            c.pos() == -1,
    {
        let mut stack: Vec<Frame<'a, T, D>> = Vec::new();
        let root = Frame { node: &tree.root, index: 0, start: D::zero(), base: Ghost(0) };
        stack.push(root);
        proof {
            assert(tree@.subrange(0, tree@.len() as int) =~= tree@);
            assert(tree@.subrange(0, 0) =~= Seq::<T>::empty());
            assert(summaries(tree@).subrange(0, 0) =~= Seq::<T::Summary>::empty());
            assert(path_ok(*tree, stack@));
            if tree.root is Internal {
                Node::lemma_child_offset_ends(tree.root->child_trees@);
            }
        }
        descend(&mut stack, false, Ghost(*tree));
        proof {
            assert(stack@[0] == root);
            assert(frame_covers(tree@, stack@.last(), stack@.len() - 1 == 0));
        }
        Cursor { tree, stack, position: D::zero(), before_first: true }
    }

    /// The item that the cursor stands at, if it stands at one.
    pub fn item(&self) -> (r: Option<&'a T>)
        requires
            self.wf(),
        ensures
            r == (if 0 <= self.pos() < self.tree@.len() {
                Some(&self.tree@[self.pos()])
            } else {
                None
            }),
    {
        let depth = self.stack.len();
        let top = &self.stack[depth - 1];
        let leaf: &'a Node<T> = top.node;
        match leaf {
            Node::Internal { .. } => None,
            Node::Leaf { items, .. } => {
                if !self.before_first && top.index < items.len() {
                    proof {
                        assert(frame_covers(self.tree@, self.stack@[depth - 1], depth - 1 == 0));
                        lemma_item_step(self.tree@, *top, depth - 1 == 0, top.index as int);
                    }
                    Some(&items[top.index])
                } else {
                    None
                }
            },
        }
    }

    /// The coordinate at the cursor's position: the fold of every item
    /// strictly before it.
    pub fn start(&self) -> (d: &D)
        requires
            self.wf(),
        ensures
            *d == dim_at::<T::Summary, D>(summaries(self.tree@), self.index()),
    {
        &self.position
    }

    /// The coordinate past the item that the cursor stands at; the coordinate
    /// at its position where it stands at none.
    pub fn end(&self) -> (d: D)
        requires
            self.wf(),
        ensures
            d == dim_at::<T::Summary, D>(
                summaries(self.tree@),
                if 0 <= self.pos() < self.tree@.len() {
                    self.index() + 1
                } else {
                    self.index()
                },
            ),
    {
        let depth = self.stack.len();
        let top = &self.stack[depth - 1];
        let leaf: &'a Node<T> = top.node;
        let mut d = self.position.clone();
        match leaf {
            Node::Internal { .. } => {},
            Node::Leaf { item_summaries, .. } => {
                if !self.before_first && top.index < item_summaries.len() {
                    proof {
                        assert(frame_covers(self.tree@, self.stack@[depth - 1], depth - 1 == 0));
                        lemma_item_step(self.tree@, *top, depth - 1 == 0, top.index as int);
                    }
                    d.add_summary(&item_summaries[top.index]);
                }
            },
        }
        d
    }

    /// Moves one item forward; at the end, stays.
    #[verifier::rlimit(50)]
    pub fn next(&mut self)
        requires
            old(self).wf(),
        ensures
            final(self).wf(),
            final(self).tree == old(self).tree,
            final(self).pos() == (if old(self).pos() < old(self).tree@.len() {
                old(self).pos() + 1
            } else {
                old(self).pos()
            }),
    {
        if self.before_first {
            self.before_first = false;
            return ;
        }
        let depth = self.stack.len();
        let leaf: &'a Node<T> = self.stack[depth - 1].node;
        let index = self.stack[depth - 1].index;
        let ghost before = self.stack@;
        let ghost top = before[depth - 1];
        proof {
            assert(frame_covers(self.tree@, top, depth - 1 == 0));
        }
        match leaf {
            Node::Internal { .. } => {},
            Node::Leaf { items, item_summaries, .. } => {
                if index < items.len() {
                    proof {
                        lemma_item_step(self.tree@, top, depth - 1 == 0, index as int);
                    }
                    self.position.add_summary(&item_summaries[index]);
                    let level = if index + 1 < items.len() {
                        0
                    } else {
                        climb(&self.stack, true, Ghost(*self.tree))
                    };
                    if level == 0 {
                        proof {
                            lemma_set_top_index(*self.tree, before, (index + 1) as usize);
                            if index + 1 == items.len() {
                                lemma_edge(*self.tree, before, 0, true);
                            }
                        }
                        set_top_index(&mut self.stack, index + 1);
                    } else {
                        self.stack.truncate(level);
                        let turn = self.stack[level - 1].index;
                        let ghost kept = self.stack@;
                        proof {
                            assert(kept =~= before.subrange(0, level as int));
                            lemma_truncate(*self.tree, before, level as int);
                            lemma_set_top_index(*self.tree, kept, (turn + 1) as usize);
                            lemma_edge(*self.tree, before, level as int, true);
                            assert(linked(before, level - 1));
                            Node::lemma_child_window(
                                before[level - 1].node->child_trees@,
                                turn as int,
                            );
                        }
                        set_top_index(&mut self.stack, turn + 1);
                        let ghost turned = self.stack@;
                        descend(&mut self.stack, false, Ghost(*self.tree));
                        proof {
                            let last = self.stack@.last();
                            assert(frame_covers(
                                self.tree@,
                                self.stack@[self.stack@.len() - 1],
                                false,
                            ));
                            assert(reaches(turned.last(), last, false));
                        }
                    }
                }
            },
        }
    }

    /// Moves one item back; from the first item, to before it.
    #[verifier::rlimit(50)]
    pub fn prev(&mut self)
        requires
            old(self).wf(),
        ensures
            final(self).wf(),
            final(self).tree == old(self).tree,
            final(self).pos() == (if old(self).pos() >= 0 {
                old(self).pos() - 1
            } else {
                -1
            }),
    {
        if self.before_first {
            return ;
        }
        let depth = self.stack.len();
        let index = self.stack[depth - 1].index;
        let ghost before = self.stack@;
        if index > 0 {
            proof {
                lemma_set_top_index(*self.tree, before, (index - 1) as usize);
            }
            set_top_index(&mut self.stack, index - 1);
        } else {
            let level = climb(&self.stack, false, Ghost(*self.tree));
            proof {
                lemma_edge(*self.tree, before, level as int, false);
            }
            if level == 0 {
                self.before_first = true;
                return ;
            }
            self.stack.truncate(level);
            let turn = self.stack[level - 1].index;
            let ghost kept = self.stack@;
            proof {
                assert(kept =~= before.subrange(0, level as int));
                lemma_truncate(*self.tree, before, level as int);
                lemma_set_top_index(*self.tree, kept, (turn - 1) as usize);
                assert(linked(before, level - 1));
            }
            set_top_index(&mut self.stack, turn - 1);
            let ghost turned = self.stack@;
            descend(&mut self.stack, true, Ghost(*self.tree));
            proof {
                let last = self.stack@.last();
                assert(frame_covers(self.tree@, self.stack@[self.stack@.len() - 1], false));
                assert(reaches(turned.last(), last, true));
                assert(self.stack@[self.stack@.len() - 1].index == last.node.fanout() - 1);
            }
        }
        let depth = self.stack.len();
        let top = &self.stack[depth - 1];
        let leaf: &'a Node<T> = top.node;
        proof {
            assert(frame_covers(self.tree@, self.stack@[depth - 1], depth - 1 == 0));
        }
        match leaf {
            Node::Internal { .. } => {},
            Node::Leaf { item_summaries, .. } => {
                proof {
                    lemma_item_start(self.tree@, *top, depth - 1 == 0, top.index as int);
                }
                let d = advance_over(&top.start, item_summaries, top.index);
                self.position = d;
            },
        }
    }

    /// Moves forward to where `target` comes to rest under `bias`: the first
    /// position, at or after the cursor's, whose end coordinate compares
    /// `Less` to the target, or `Equal` under `Bias::Left`. A cursor before
    /// the first item seeks from the first item.
    #[verifier::rlimit(50)]
    pub fn seek<Tg: SeekTarget<'a, T::Summary, D>>(&mut self, target: &Tg, bias: Bias)
        requires
            old(self).wf(),
            Tg::obeys_target_spec(),
            monotone::<T::Summary, D, Tg>(target, summaries(old(self).tree@)),
        ensures
            final(self).wf(),
            final(self).tree == old(self).tree,
            final(self).pos() >= 0,
            seek_rest::<T::Summary, D, Tg>(
                target,
                bias,
                summaries(old(self).tree@),
                old(self).index(),
                final(self).pos(),
            ),
    {
        self.before_first = false;
        let ghost p = self.index();
        let ghost sums = summaries(self.tree@);
        if self.item().is_none() {
            return ;
        }
        let end = self.end();
        if !passes(target, &end, bias) {
            return ;
        }
        let tree: &'a SumTree<T> = self.tree;
        let mut stack: Vec<Frame<'a, T, D>> = Vec::new();
        stack.push(Frame { node: &tree.root, index: 0, start: D::zero(), base: Ghost(0) });
        let ghost mut bounded = false;
        proof {
            assert(tree@.subrange(0, tree@.len() as int) =~= tree@);
            assert(sums.subrange(0, 0) =~= Seq::<T::Summary>::empty());
            assert(path_ok(*tree, stack@));
        }
        loop
            invariant
                tree.wf(),
                dimension_laws::<T::Summary, D>(),
                Tg::obeys_target_spec(),
                sums == summaries(tree@),
                monotone::<T::Summary, D, Tg>(target, sums),
                path_ok(*tree, stack@),
                all_passed::<T::Summary, D, Tg>(target, bias, sums, stack@.last().base@),
                bounded ==> stack@.last().node.items().len() > 0 && !skips_item::<T::Summary, D, Tg>(
                    target,
                    sums,
                    stack@.last().base@ + stack@.last().node.items().len() - 1,
                    bias,
                ),
                !bounded ==> stack@.last().base@ + stack@.last().node.items().len() == tree@.len(),
            ensures
                path_ok(*tree, stack@),
                *stack@.last().node is Leaf,
                all_passed::<T::Summary, D, Tg>(target, bias, sums, stack@.last().base@),
                bounded ==> stack@.last().node.items().len() > 0 && !skips_item::<T::Summary, D, Tg>(
                    target,
                    sums,
                    stack@.last().base@ + stack@.last().node.items().len() - 1,
                    bias,
                ),
                !bounded ==> stack@.last().base@ + stack@.last().node.items().len() == tree@.len(),
            decreases stack@.last().node.height(),
        {
            let depth = stack.len();
            let top = &stack[depth - 1];
            let node: &'a Node<T> = top.node;
            proof {
                assert(frame_covers(tree@, stack@[depth - 1], depth - 1 == 0));
            }
            match node {
                Node::Leaf { .. } => {
                    break ;
                },
                Node::Internal { child_trees, .. } => {
                    let ghost before = stack@;
                    let (i, d, found) = scan_children(
                        target,
                        bias,
                        top,
                        Ghost(tree@),
                        Ghost(depth - 1 == 0),
                    );
                    let ghost f = with_index(before[depth - 1], i);
                    let ghost base = f.base@ + Node::child_offset(child_trees@, i as int);
                    set_top_index(&mut stack, i);
                    let g = Frame { node: &child_trees[i], index: 0, start: d, base: Ghost(base) };
                    proof {
                        lemma_set_top_index(*tree, before, i);
                        assert(frame_covers(tree@, f, depth - 1 == 0));
                        lemma_child_covers(tree@, f, depth - 1 == 0, g);
                        lemma_push_frame(*tree, stack@, g);
                        Node::lemma_child_window(child_trees@, i as int);
                        Node::lemma_child_offset_ends(child_trees@);
                        assert(child_trees@[i as int].wf(false));
                        child_trees@[i as int].lemma_nonempty();
                        bounded = bounded || found;
                    }
                    stack.push(g);
                },
            }
        }
        let depth = stack.len();
        let ghost before = stack@;
        proof {
            assert(frame_covers(tree@, stack@[depth - 1], depth - 1 == 0));
        }
        let (j, d) = scan_items(target, bias, &stack[depth - 1], Ghost(tree@), Ghost(depth - 1 == 0));
        proof {
            lemma_set_top_index(*tree, before, j);
        }
        set_top_index(&mut stack, j);
        self.stack = stack;
        self.position = d;
        proof {
            let q = before[depth - 1].base@ + j;
            assert(seek_rest::<T::Summary, D, Tg>(target, bias, sums, 0, q));
            lemma_seek_forward::<T::Summary, D, Tg>(target, bias, sums, p, q);
        }
    }

    /// The indices of the cursor's path, from the root down.
    pub fn path(&self) -> (v: Vec<usize>)
        requires
            self.wf(),
        ensures
            self.tree.root.path_valid(v@),
            self.tree.root.path_offset(v@) == self.index(),
    {
        let mut v: Vec<usize> = Vec::new();
        let mut l: usize = 0;
        while l < self.stack.len()
            invariant
                l <= self.stack@.len(),
                v@.len() == l,
                forall|k: int| 0 <= k < l ==> v@[k] == (#[trigger] self.stack@[k]).index,
            decreases self.stack@.len() - l,
        {
            v.push(self.stack[l].index);
            l += 1;
        }
        proof {
            lemma_path(*self.tree, self.stack@, v@, 0);
            assert(v@.skip(0) =~= v@);
            assert(*self.stack@[0].node == self.tree.root);
        }
        v
    }
}

/// From every frame of a cursor's path on, the indices of the frames lead from
/// the frame's node to the cursor's position.
pub proof fn lemma_path<'a, T: Item, D: Dimension<'a, T::Summary>>(
    tree: SumTree<T>,
    stack: Seq<Frame<'a, T, D>>,
    path: Seq<usize>,
    l: int,
)
    requires
        path_ok(tree, stack),
        *stack.last().node is Leaf,
        stack.last().index <= stack.last().node.fanout(),
        path.len() == stack.len(),
        forall|k: int| 0 <= k < stack.len() ==> path[k] == (#[trigger] stack[k]).index,
        0 <= l < stack.len(),
    ensures
        stack[l].node.path_valid(path.skip(l)),
        stack[l].node.path_offset(path.skip(l)) == stack.last().base@ + stack.last().index
            - stack[l].base@,
    decreases stack.len() - l,
{
    let rest = path.skip(l);
    assert(rest[0] == stack[l].index);
    if l < stack.len() - 1 {
        lemma_path(tree, stack, path, l + 1);
        assert(linked(stack, l));
        assert(rest.drop_first() =~= path.skip(l + 1));
    }
}

impl<T: Item> SumTree<T> {
    /// The path to where a seek for `target` from the start of the tree comes
    /// to rest.
    pub fn locate<'a, D: Dimension<'a, T::Summary>, Tg: SeekTarget<'a, T::Summary, D>>(
        &'a self,
        target: &Tg,
        bias: Bias,
    ) -> (path: Vec<usize>)
        requires
            self.wf(),
            dimension_laws::<T::Summary, D>(),
            Tg::obeys_target_spec(),
            monotone::<T::Summary, D, Tg>(target, summaries(self@)),
        ensures
            self.root.path_valid(path@),
            seek_rest::<T::Summary, D, Tg>(
                target,
                bias,
                summaries(self@),
                0,
                self.root.path_offset(path@),
            ),
    {
        let mut cursor = Cursor::<T, D>::new(self);
        cursor.seek(target, bias);
        cursor.path()
    }
}

} // verus!
