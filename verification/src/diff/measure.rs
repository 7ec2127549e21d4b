//! Why a walk over two documents comes to an end: a count of the patches
//! that it has still to yield, which every patch lowers by one.

use vstd::prelude::*;
use crate::diff::DiffView;
use crate::document::model::DocumentView;
use crate::document::vdocument::NodeId;

verus! {

/// Whether `rank` puts every pair of an old child and a new child below the
/// pair of their parents. A walk over two documents with such a rank comes
/// to an end.
pub open spec fn descends(
    old_doc: DocumentView,
    new_doc: DocumentView,
    rank: spec_fn(NodeId, NodeId) -> nat,
) -> bool {
    forall|x: NodeId, y: NodeId, i: int, j: int|
        0 <= i < old_doc.children_of(x).len() && 0 <= j < new_doc.children_of(y).len() ==> rank(
            #[trigger] old_doc.children_of(x)[i],
            #[trigger] new_doc.children_of(y)[j],
        ) < rank(x, y)
}

/// How many patches the walk yields for the children of the pair `(x, y)`
/// from the indices `i` and `j` on, and for everything below them.
pub open spec fn children_count(
    old_doc: DocumentView,
    new_doc: DocumentView,
    rank: spec_fn(NodeId, NodeId) -> nat,
    x: NodeId,
    y: NodeId,
    i: nat,
    j: nat,
) -> nat
    decreases rank(x, y), children_left(old_doc, new_doc, x, y, i, j),
{
    let old_children = old_doc.children_of(x);
    let new_children = new_doc.children_of(y);
    if i < old_children.len() && j < new_children.len() {
        let below = if rank(old_children[i as int], new_children[j as int]) < rank(x, y) {
            pair_count(old_doc, new_doc, rank, old_children[i as int], new_children[j as int])
        } else {
            0
        };
        below + children_count(old_doc, new_doc, rank, x, y, i + 1, j + 1)
    } else if j < new_children.len() {
        (new_children.len() - j) as nat
    } else if i < old_children.len() {
        (old_children.len() - i) as nat
    } else {
        0
    }
}

/// How many patches the walk yields for the pair `(x, y)` and everything
/// below it: its `Reuse` and those of its children.
pub open spec fn pair_count(
    old_doc: DocumentView,
    new_doc: DocumentView,
    rank: spec_fn(NodeId, NodeId) -> nat,
    x: NodeId,
    y: NodeId,
) -> nat
    decreases rank(x, y), children_left(old_doc, new_doc, x, y, 0, 0) + 1,
{
    1 + children_count(old_doc, new_doc, rank, x, y, 0, 0)
}

/// How many children of `x` and of `y` stand at or after `i` and `j`.
pub open spec fn children_left(
    old_doc: DocumentView,
    new_doc: DocumentView,
    x: NodeId,
    y: NodeId,
    i: nat,
    j: nat,
) -> nat {
    let old_left = if i < old_doc.children_of(x).len() {
        old_doc.children_of(x).len() - i
    } else {
        0
    };
    let new_left = if j < new_doc.children_of(y).len() {
        new_doc.children_of(y).len() - j
    } else {
        0
    };
    (old_left + new_left) as nat
}

/// How many patches the walk yields for the pairs of `queue` and everything
/// below them.
pub open spec fn queue_count(
    old_doc: DocumentView,
    new_doc: DocumentView,
    rank: spec_fn(NodeId, NodeId) -> nat,
    queue: Seq<(NodeId, NodeId)>,
) -> nat
    decreases queue.len(),
{
    if queue.len() == 0 {
        0
    } else {
        pair_count(old_doc, new_doc, rank, queue[0].0, queue[0].1) + queue_count(
            old_doc,
            new_doc,
            rank,
            queue.skip(1),
        )
    }
}

/// How many patches `walk` has still to yield, counted with `rank`.
pub open spec fn patches_left(walk: DiffView, rank: spec_fn(NodeId, NodeId) -> nat) -> nat {
    if walk.done {
        0
    } else {
        queue_count(walk.old_doc, walk.new_doc, rank, walk.queue) + match walk.parent {
            Some((x, y)) => children_count(
                walk.old_doc,
                walk.new_doc,
                rank,
                x,
                y,
                walk.old_child_idx,
                walk.new_child_idx,
            ),
            None => 0,
        }
    }
}

/// Where one of the documents has no cycle, there is a rank under which
/// child pairs stand below their parents.
pub proof fn lemma_ends_descends(walk: DiffView) -> (rank: spec_fn(NodeId, NodeId) -> nat)
    requires
        walk.ends(),
    ensures
        descends(walk.old_doc, walk.new_doc, rank),
{
    if walk.old_doc.acyclic() {
        let r = choose|r: spec_fn(NodeId) -> nat| walk.old_doc.ranked(r);
        |x: NodeId, y: NodeId| r(x)
    } else {
        let r = choose|r: spec_fn(NodeId) -> nat| walk.new_doc.ranked(r);
        |x: NodeId, y: NodeId| r(y)
    }
}

/// Each patch that the walk yields leaves one patch fewer to yield, and the
/// walk ends when none is left.
pub proof fn lemma_step_counts(walk: DiffView, rank: spec_fn(NodeId, NodeId) -> nat)
    requires
        descends(walk.old_doc, walk.new_doc, rank),
    ensures
        walk.step().1 is Some ==> patches_left(walk.step().0, rank) + 1 == patches_left(walk, rank),
        walk.step().1 is None ==> patches_left(walk, rank) == 0,
        walk.step().0.old_doc == walk.old_doc,
        walk.step().0.new_doc == walk.new_doc,
    decreases walk.parent is Some as int, walk.children_left(),
{
    if walk.done {
    } else if walk.parent is Some {
        let (x, y) = walk.parent->Some_0;
        let old_children = walk.old_children();
        let new_children = walk.new_children();
        let has_old = walk.old_child_idx < old_children.len();
        let has_new = walk.new_child_idx < new_children.len();
        if has_old && has_new {
            let pair = (
                old_children[walk.old_child_idx as int],
                new_children[walk.new_child_idx as int],
            );
            let next = DiffView {
                queue: walk.queue.push(pair),
                old_child_idx: walk.old_child_idx + 1,
                new_child_idx: walk.new_child_idx + 1,
                ..walk
            };
            assert(rank(pair.0, pair.1) < rank(x, y));
            lemma_queue_count_push(walk.old_doc, walk.new_doc, rank, walk.queue, pair);
            assert(patches_left(next, rank) == patches_left(walk, rank));
            lemma_step_counts(next, rank);
        } else if !has_old && !has_new {
            let next = DiffView { parent: None, ..walk };
            assert(patches_left(next, rank) == patches_left(walk, rank));
            lemma_step_counts(next, rank);
        }
    }
}

/// A walk that comes to an end yields exactly as many patches as it has
/// left to yield.
pub proof fn lemma_patches_left_exact(walk: DiffView, rank: spec_fn(NodeId, NodeId) -> nat)
    requires
        descends(walk.old_doc, walk.new_doc, rank),
    ensures
        walk.yields(walk.patches(patches_left(walk, rank))),
        walk.patches(patches_left(walk, rank)).len() == patches_left(walk, rank),
    decreases patches_left(walk, rank),
{
    lemma_step_counts(walk, rank);
    if walk.step().1 is Some {
        let next = walk.step().0;
        lemma_patches_left_exact(next, rank);
        let n = patches_left(next, rank);
        assert(walk.patches(n + 1) =~= seq![walk.step().1->Some_0] + next.patches(n));
        assert(walk.advance(n + 1) == next.advance(n));
    } else {
        assert(walk.patches(0) =~= Seq::empty());
    }
}

/// Queueing a pair adds what the walk yields for it.
pub proof fn lemma_queue_count_push(
    old_doc: DocumentView,
    new_doc: DocumentView,
    rank: spec_fn(NodeId, NodeId) -> nat,
    queue: Seq<(NodeId, NodeId)>,
    pair: (NodeId, NodeId),
)
    ensures
        queue_count(old_doc, new_doc, rank, queue.push(pair)) == queue_count(
            old_doc,
            new_doc,
            rank,
            queue,
        ) + pair_count(old_doc, new_doc, rank, pair.0, pair.1),
    decreases queue.len(),
{
    if queue.len() == 0 {
        assert(queue.push(pair).skip(1) =~= Seq::empty());
        assert(queue_count(old_doc, new_doc, rank, queue.push(pair).skip(1)) == 0);
    } else {
        assert(queue.push(pair).skip(1) =~= queue.skip(1).push(pair));
        lemma_queue_count_push(old_doc, new_doc, rank, queue.skip(1), pair);
    }
}

} // verus!
