//! Laws of the reconciler: which patches a walk over two documents yields.

use vstd::prelude::*;
use crate::component::{document_of, Component};
use crate::diff::{children_patches, matched_children, DiffView, Patch};
use crate::document::model::{DocumentError, DocumentView, root_id};
use crate::document::vdocument::NodeId;

verus! {

/// Whether `rel` pairs the nodes of two documents so that the roots are
/// paired and paired nodes have equally many children, paired in order: the
/// two documents then have the same structure.
pub open spec fn same_structure(
    old_doc: DocumentView,
    new_doc: DocumentView,
    rel: spec_fn(NodeId, NodeId) -> bool,
) -> bool {
    &&& rel(root_id(), root_id())
    &&& forall|x: NodeId, y: NodeId| #[trigger]
        rel(x, y) ==> old_doc.children_of(x).len() == new_doc.children_of(y).len()
    &&& forall|x: NodeId, y: NodeId, i: int|
        rel(x, y) && 0 <= i < old_doc.children_of(x).len() ==> rel(
            #[trigger] old_doc.children_of(x)[i],
            #[trigger] new_doc.children_of(y)[i],
        )
}

/// Whether a walk over two documents of the same structure is where such a
/// walk can be: every pair in it is paired by `rel`, and the children of the
/// pair at hand have been walked equally far.
pub open spec fn paired_walk(walk: DiffView, rel: spec_fn(NodeId, NodeId) -> bool) -> bool {
    &&& same_structure(walk.old_doc, walk.new_doc, rel)
    &&& forall|j: int| 0 <= j < walk.queue.len() ==> rel(#[trigger] walk.queue[j].0, walk.queue[j].1)
    &&& walk.parent matches Some((x, y)) ==> rel(x, y) && walk.old_child_idx == walk.new_child_idx
}

/// Whether `patch` reuses a pair of nodes that `rel` pairs.
pub open spec fn reuses(patch: Patch, rel: spec_fn(NodeId, NodeId) -> bool) -> bool {
    patch matches Patch::Reuse(x, y) && rel(x, y)
}

/// One step of a walk over two documents of the same structure yields a
/// `Reuse` of a pair, or ends the walk; the walk stays where such a walk
/// can be.
pub proof fn lemma_paired_step(walk: DiffView, rel: spec_fn(NodeId, NodeId) -> bool)
    requires
        paired_walk(walk, rel),
    ensures
        paired_walk(walk.step().0, rel),
        walk.step().1 matches Some(patch) ==> reuses(patch, rel),
    decreases walk.parent is Some as int, walk.children_left(),
{
    if walk.done {
    } else if walk.parent is Some {
        let (x, y) = walk.parent->Some_0;
        let old_children = walk.old_children();
        let new_children = walk.new_children();
        assert(old_children.len() == new_children.len());
        if walk.old_child_idx < old_children.len() {
            let next = DiffView {
                queue: walk.queue.push(
                    (
                        old_children[walk.old_child_idx as int],
                        new_children[walk.new_child_idx as int],
                    ),
                ),
                old_child_idx: walk.old_child_idx + 1,
                new_child_idx: walk.new_child_idx + 1,
                ..walk
            };
            assert(rel(
                walk.old_doc.children_of(x)[walk.old_child_idx as int],
                walk.new_doc.children_of(y)[walk.old_child_idx as int],
            ));
            lemma_paired_step(next, rel);
        } else {
            lemma_paired_step(DiffView { parent: None, ..walk }, rel);
        }
    } else if walk.queue.len() > 0 {
        assert(rel(walk.queue[0].0, walk.queue[0].1));
        let next = walk.step().0;
        assert forall|j: int| 0 <= j < next.queue.len() implies rel(
            #[trigger] next.queue[j].0,
            next.queue[j].1,
        ) by {
            assert(next.queue[j] == walk.queue[j + 1]);
        }
    }
}

/// Every patch of a walk over two documents of the same structure is a
/// `Reuse` of a pair of corresponding nodes: none is a `Create` or a
/// `Delete`.
pub proof fn lemma_paired_walk_reuses(walk: DiffView, rel: spec_fn(NodeId, NodeId) -> bool, n: nat)
    requires
        paired_walk(walk, rel),
    ensures
        forall|i: int| 0 <= i < walk.patches(n).len() ==> reuses(#[trigger] walk.patches(n)[i], rel),
    decreases n,
{
    lemma_paired_step(walk, rel);
    if n > 0 && walk.step().1 is Some {
        let first = walk.step().1->Some_0;
        let rest = walk.step().0.patches((n - 1) as nat);
        lemma_paired_walk_reuses(walk.step().0, rel, (n - 1) as nat);
        assert forall|i: int| 0 <= i < walk.patches(n).len() implies reuses(
            #[trigger] walk.patches(n)[i],
            rel,
        ) by {
            if i > 0 {
                assert(walk.patches(n)[i] == rest[i - 1]);
            }
        }
    }
}

/// Identity stability. Where two documents have the same structure, the
/// walk that compares them yields a `Reuse` for every pair of corresponding
/// nodes that it reaches and no `Create` or `Delete`, however many patches
/// are taken.
pub proof fn lemma_identity_stability(
    old_doc: DocumentView,
    new_doc: DocumentView,
    rel: spec_fn(NodeId, NodeId) -> bool,
    n: nat,
)
    requires
        same_structure(old_doc, new_doc, rel),
    ensures
        forall|i: int|
            0 <= i < DiffView::start(old_doc, new_doc).patches(n).len() ==> reuses(
                #[trigger] DiffView::start(old_doc, new_doc).patches(n)[i],
                rel,
            ),
{
    lemma_paired_walk_reuses(DiffView::start(old_doc, new_doc), rel, n);
}

/// A component tree rendered twice gives two documents with the same
/// model, and comparing two documents with the same children yields only
/// `Reuse` of a node with itself.
pub proof fn lemma_same_render_reuses<C: Component>(
    component: C,
    old_doc: DocumentView,
    new_doc: DocumentView,
    n: nat,
)
    requires
        document_of(component) == Ok::<DocumentView, DocumentError>(old_doc),
        document_of(component) == Ok::<DocumentView, DocumentError>(new_doc),
    ensures
        old_doc == new_doc,
        forall|i: int|
            0 <= i < DiffView::start(old_doc, new_doc).patches(n).len() ==> (
            #[trigger] DiffView::start(old_doc, new_doc).patches(n)[i] matches Patch::Reuse(x, y)
                && x == y),
{
    let rel = |x: NodeId, y: NodeId| x == y;
    assert(same_structure(old_doc, new_doc, rel));
    lemma_identity_stability(old_doc, new_doc, rel, n);
}

/// Matched children are queued without a patch: a walk that stands at the
/// same index `i` in both child sequences steps as the walk that has
/// queued all the matched pairs from `i` on.
proof fn lemma_skip_matched(walk: DiffView, i: nat)
    requires
        !walk.done,
        walk.parent is Some,
        walk.old_child_idx == i,
        walk.new_child_idx == i,
        i <= matched_children(walk.old_children(), walk.new_children()).len(),
    ensures
        walk.step() == (DiffView {
            queue: walk.queue + matched_children(walk.old_children(), walk.new_children()).skip(
                i as int,
            ),
            old_child_idx: matched_children(walk.old_children(), walk.new_children()).len(),
            new_child_idx: matched_children(walk.old_children(), walk.new_children()).len(),
            ..walk
        }).step(),
    decreases matched_children(walk.old_children(), walk.new_children()).len() - i,
{
    let matched = matched_children(walk.old_children(), walk.new_children());
    let target = DiffView {
        queue: walk.queue + matched.skip(i as int),
        old_child_idx: matched.len(),
        new_child_idx: matched.len(),
        ..walk
    };
    if i < matched.len() {
        let next = DiffView {
            queue: walk.queue.push(matched[i as int]),
            old_child_idx: i + 1,
            new_child_idx: i + 1,
            ..walk
        };
        lemma_skip_matched(next, i + 1);
        assert(next.queue + matched.skip(i as int + 1) =~= walk.queue + matched.skip(i as int));
    } else {
        assert(walk.queue + matched.skip(i as int) =~= walk.queue);
        assert(target =~= walk);
    }
}

/// With the old children exhausted, the next patches are a `Create` for
/// each new child that is left.
proof fn lemma_creates(walk: DiffView, k: nat)
    requires
        !walk.done,
        walk.parent is Some,
        walk.old_child_idx >= walk.old_children().len(),
        walk.new_child_idx + k <= walk.new_children().len(),
    ensures
        walk.patches(k) == Seq::new(
            k,
            |i: int| Patch::Create(walk.new_children()[walk.new_child_idx + i]),
        ),
        walk.advance(k) == (DiffView { new_child_idx: walk.new_child_idx + k, ..walk }),
    decreases k,
{
    let creates = Seq::new(k, |i: int| Patch::Create(walk.new_children()[walk.new_child_idx + i]));
    if k == 0 {
        assert(walk.patches(k) =~= creates);
        assert(walk.advance(k) =~= (DiffView { new_child_idx: walk.new_child_idx + k, ..walk }));
    } else {
        let next = walk.step().0;
        lemma_creates(next, (k - 1) as nat);
        assert(walk.patches(k) =~= creates);
        assert(walk.advance(k) =~= (DiffView { new_child_idx: walk.new_child_idx + k, ..walk }));
    }
}

/// With the new children exhausted, the next patches are a `Delete` for
/// each old child that is left.
proof fn lemma_deletes(walk: DiffView, k: nat)
    requires
        !walk.done,
        walk.parent is Some,
        walk.new_child_idx >= walk.new_children().len(),
        walk.old_child_idx + k <= walk.old_children().len(),
    ensures
        walk.patches(k) == Seq::new(
            k,
            |i: int| Patch::Delete(walk.old_children()[walk.old_child_idx + i]),
        ),
        walk.advance(k) == (DiffView { old_child_idx: walk.old_child_idx + k, ..walk }),
    decreases k,
{
    let deletes = Seq::new(k, |i: int| Patch::Delete(walk.old_children()[walk.old_child_idx + i]));
    if k == 0 {
        assert(walk.patches(k) =~= deletes);
        assert(walk.advance(k) =~= (DiffView { old_child_idx: walk.old_child_idx + k, ..walk }));
    } else {
        let next = walk.step().0;
        lemma_deletes(next, (k - 1) as nat);
        assert(walk.patches(k) =~= deletes);
        assert(walk.advance(k) =~= (DiffView { old_child_idx: walk.old_child_idx + k, ..walk }));
    }
}

/// Two walks that step alike yield the same patches and come to the same
/// state.
pub proof fn lemma_same_step(walk: DiffView, other: DiffView, n: nat)
    requires
        walk.step() == other.step(),
        n > 0,
    ensures
        walk.patches(n) == other.patches(n),
        walk.advance(n) == other.advance(n),
{
}

/// The patches of one pair. When the walk takes a pair of nodes from the
/// queue it yields the `Reuse` of the pair, then a `Create` for each new
/// child beyond the old children or a `Delete` for each old child beyond
/// the new children, in order; the children that stand at the same index
/// are matched, whatever they hold, and queued behind the pairs that wait.
/// Then the walk goes on as one with no pair at hand.
pub proof fn lemma_pair_patches(walk: DiffView)
    requires
        !walk.done,
        walk.parent is None,
        walk.queue.len() > 0,
    ensures
        ({
            let (x, y) = walk.queue[0];
            let old_children = walk.old_doc.children_of(x);
            let new_children = walk.new_doc.children_of(y);
            let unmatched = children_patches(old_children, new_children);
            &&& walk.patches(1 + unmatched.len()) == seq![Patch::Reuse(x, y)] + unmatched
            &&& walk.advance(1 + unmatched.len()).step() == (DiffView {
                queue: walk.queue.skip(1) + matched_children(old_children, new_children),
                parent: None,
                old_child_idx: old_children.len(),
                new_child_idx: new_children.len(),
                ..walk
            }).step()
        }),
{
    let (x, y) = walk.queue[0];
    let old_children = walk.old_doc.children_of(x);
    let new_children = walk.new_doc.children_of(y);
    let unmatched = children_patches(old_children, new_children);
    let matched = matched_children(old_children, new_children);
    let k = unmatched.len();
    let m = matched.len();
    let after = DiffView {
        queue: walk.queue.skip(1) + matched,
        parent: None,
        old_child_idx: old_children.len(),
        new_child_idx: new_children.len(),
        ..walk
    };
    let at_pair = walk.step().0;
    assert(walk.step().1 == Some(Patch::Reuse(x, y)));
    assert(at_pair.old_children() == old_children);
    assert(at_pair.new_children() == new_children);
    lemma_skip_matched(at_pair, 0);
    let queued = DiffView {
        queue: at_pair.queue + matched.skip(0),
        old_child_idx: m,
        new_child_idx: m,
        ..at_pair
    };
    assert(matched.skip(0) =~= matched);
    assert(at_pair.step() == queued.step());
    assert(walk.advance(1 + k) == at_pair.advance(k));
    assert(walk.patches(1 + k) =~= seq![Patch::Reuse(x, y)] + at_pair.patches(k));
    if k == 0 {
        assert(at_pair.patches(0) =~= Seq::empty());
        assert(at_pair.advance(0) == at_pair);
        assert(unmatched =~= Seq::empty());
        assert(old_children.len() == new_children.len());
        assert(queued.step() == (DiffView { parent: None, ..queued }).step());
        assert((DiffView { parent: None, ..queued }) =~= after);
    } else {
        lemma_same_step(at_pair, queued, k);
        let first = queued.step().0;
        assert(queued.advance(k) == first.advance((k - 1) as nat));
        assert(queued.patches(k) =~= seq![queued.step().1->Some_0] + first.patches(
            (k - 1) as nat,
        ));
        if old_children.len() <= new_children.len() {
            lemma_creates(first, (k - 1) as nat);
            let last = DiffView { new_child_idx: first.new_child_idx + (k - 1) as nat, ..first };
            assert(queued.patches(k) =~= unmatched);
            assert(last.step() == (DiffView { parent: None, ..last }).step());
            assert((DiffView { parent: None, ..last }) =~= after);
        } else {
            lemma_deletes(first, (k - 1) as nat);
            let last = DiffView { old_child_idx: first.old_child_idx + (k - 1) as nat, ..first };
            assert(queued.patches(k) =~= unmatched);
            assert(last.step() == (DiffView { parent: None, ..last }).step());
            assert((DiffView { parent: None, ..last }) =~= after);
        }
    }
}

/// The node that stands at `path` in `doc`: the root for the empty path,
/// else the child with the last index of `path` of the node at the path
/// before it, if there is one.
pub open spec fn node_at(doc: DocumentView, path: Seq<int>) -> Option<NodeId>
    decreases path.len(),
{
    if path.len() == 0 {
        Some(root_id())
    } else {
        match node_at(doc, path.drop_last()) {
            Some(parent) => if 0 <= path.last() < doc.children_of(parent).len() {
                Some(doc.children_of(parent)[path.last()])
            } else {
                None
            },
            None => None,
        }
    }
}

/// Whether the walk has no pair at hand and has not ended.
pub open spec fn between_pairs(walk: DiffView) -> bool {
    !walk.done && walk.parent is None
}

/// A pair that waits in the queue is reused: the walk yields its `Reuse`
/// after finitely many patches, and goes on as a walk between pairs whose
/// queue ends with the matched children of the pair.
proof fn lemma_queued_pair_is_reused(walk: DiffView, j: int) -> (found: (nat, DiffView))
    requires
        between_pairs(walk),
        0 <= j < walk.queue.len(),
    ensures
        found.0 > 0,
        walk.patches(found.0).len() == found.0,
        walk.patches(found.0).contains(Patch::Reuse(walk.queue[j].0, walk.queue[j].1)),
        walk.advance(found.0).step() == found.1.step(),
        between_pairs(found.1),
        found.1.old_doc == walk.old_doc,
        found.1.new_doc == walk.new_doc,
        ({
            let matched = matched_children(
                walk.old_doc.children_of(walk.queue[j].0),
                walk.new_doc.children_of(walk.queue[j].1),
            );
            &&& found.1.queue.len() >= matched.len()
            &&& found.1.queue.skip(found.1.queue.len() - matched.len()) == matched
        }),
    decreases j,
{
    let (x, y) = walk.queue[0];
    let old_children = walk.old_doc.children_of(x);
    let new_children = walk.new_doc.children_of(y);
    let unmatched = children_patches(old_children, new_children);
    let head_matched = matched_children(old_children, new_children);
    let k = 1 + unmatched.len();
    let after = DiffView {
        queue: walk.queue.skip(1) + head_matched,
        parent: None,
        old_child_idx: old_children.len(),
        new_child_idx: new_children.len(),
        ..walk
    };
    lemma_pair_patches(walk);
    assert(walk.patches(k)[0] == Patch::Reuse(x, y));
    if j == 0 {
        assert(after.queue.skip(after.queue.len() - head_matched.len()) =~= head_matched);
        (k, after)
    } else {
        assert(after.queue[j - 1] == walk.queue[j]);
        let (n, rest) = lemma_queued_pair_is_reused(after, j - 1);
        walk.lemma_patches_add(k, n);
        lemma_same_step(walk.advance(k), after, n);
        let reuse = Patch::Reuse(walk.queue[j].0, walk.queue[j].1);
        let i = choose|i: int| 0 <= i < after.patches(n).len() && after.patches(n)[i] == reuse;
        assert(walk.patches(k + n)[k + i] == reuse);
        (k + n, rest)
    }
}

/// A pair of nodes that stand at the same path in the two documents comes
/// to wait in the queue after finitely many patches.
proof fn lemma_path_is_queued(old_doc: DocumentView, new_doc: DocumentView, path: Seq<int>) -> (found:
    (nat, DiffView, int))
    requires
        node_at(old_doc, path) is Some,
        node_at(new_doc, path) is Some,
    ensures
        ({
            let (n, walk, j) = found;
            let start = DiffView::start(old_doc, new_doc);
            &&& start.patches(n).len() == n
            &&& between_pairs(walk)
            &&& walk.old_doc == old_doc
            &&& walk.new_doc == new_doc
            &&& n == 0 ==> walk == start
            &&& n > 0 ==> start.advance(n).step() == walk.step()
            &&& 0 <= j < walk.queue.len()
            &&& walk.queue[j] == (node_at(old_doc, path)->Some_0, node_at(new_doc, path)->Some_0)
        }),
    decreases path.len(),
{
    let start = DiffView::start(old_doc, new_doc);
    if path.len() == 0 {
        assert(start.patches(0) =~= Seq::empty());
        (0, start, 0)
    } else {
        let (n, walk, j) = lemma_path_is_queued(old_doc, new_doc, path.drop_last());
        let (x, y) = walk.queue[j];
        let (more, after) = lemma_queued_pair_is_reused(walk, j);
        let matched = matched_children(old_doc.children_of(x), new_doc.children_of(y));
        let at = after.queue.len() - matched.len() + path.last();
        assert(after.queue.skip(after.queue.len() - matched.len())[path.last()] == after.queue[at]);
        if n == 0 {
            assert(start.patches(n + more) == walk.patches(more));
            assert(start.advance(n + more) == walk.advance(more));
        } else {
            start.lemma_patches_add(n, more);
            lemma_same_step(start.advance(n), walk, more);
        }
        (n + more, after, at)
    }
}

/// Matched nodes are always reused. Two nodes that stand at the same path in
/// the old and in the new document are reused for one another, whatever
/// they hold: the walk yields their `Reuse` after finitely many patches.
pub proof fn lemma_matched_nodes_are_reused(
    old_doc: DocumentView,
    new_doc: DocumentView,
    path: Seq<int>,
)
    requires
        node_at(old_doc, path) is Some,
        node_at(new_doc, path) is Some,
    ensures
        exists|n: nat|
            DiffView::start(old_doc, new_doc).patches(n).contains(
                Patch::Reuse(node_at(old_doc, path)->Some_0, node_at(new_doc, path)->Some_0),
            ),
{
    let start = DiffView::start(old_doc, new_doc);
    let (n, walk, j) = lemma_path_is_queued(old_doc, new_doc, path);
    let (more, after) = lemma_queued_pair_is_reused(walk, j);
    let reuse = Patch::Reuse(node_at(old_doc, path)->Some_0, node_at(new_doc, path)->Some_0);
    let i = choose|i: int| 0 <= i < walk.patches(more).len() && walk.patches(more)[i] == reuse;
    if n == 0 {
        assert(start.patches(more).contains(reuse));
    } else {
        start.lemma_patches_add(n, more);
        lemma_same_step(start.advance(n), walk, more);
        assert(start.patches(n + more)[n + i] == reuse);
        assert(start.patches(n + more).contains(reuse));
    }
}

/// Whether `x` and `y` stand at `path` in the old and in the new document.
pub open spec fn pair_at(
    old_doc: DocumentView,
    new_doc: DocumentView,
    path: Seq<int>,
    x: NodeId,
    y: NodeId,
) -> bool {
    node_at(old_doc, path) == Some(x) && node_at(new_doc, path) == Some(y)
}

/// Whether `x` stands at `path` in the old document, where the new document
/// has no node.
pub open spec fn only_old_at(
    old_doc: DocumentView,
    new_doc: DocumentView,
    path: Seq<int>,
    x: NodeId,
) -> bool {
    node_at(old_doc, path) == Some(x) && node_at(new_doc, path) is None
}

/// Whether `y` stands at `path` in the new document, where the old document
/// has no node.
pub open spec fn only_new_at(
    old_doc: DocumentView,
    new_doc: DocumentView,
    path: Seq<int>,
    y: NodeId,
) -> bool {
    node_at(new_doc, path) == Some(y) && node_at(old_doc, path) is None
}

/// What a patch says of the two documents: a `Reuse` names two nodes that
/// stand at the same path, a `Delete` an old node at a path where the new
/// document has none, a `Create` a new node at a path where the old
/// document has none.
pub open spec fn on_path(patch: Patch, old_doc: DocumentView, new_doc: DocumentView) -> bool {
    match patch {
        Patch::Reuse(x, y) => matched(old_doc, new_doc, x, y),
        Patch::Delete(x) => only_old(old_doc, new_doc, x),
        Patch::Create(y) => only_new(old_doc, new_doc, y),
        Patch::Append() => false,
    }
}

/// Whether `x` and `y` stand at one path in the old and in the new
/// document.
pub open spec fn matched(old_doc: DocumentView, new_doc: DocumentView, x: NodeId, y: NodeId) -> bool {
    exists|path: Seq<int>| #[trigger] pair_at(old_doc, new_doc, path, x, y)
}

/// Whether `x` stands in the old document at a path where the new document
/// has no node.
pub open spec fn only_old(old_doc: DocumentView, new_doc: DocumentView, x: NodeId) -> bool {
    exists|path: Seq<int>| #[trigger] only_old_at(old_doc, new_doc, path, x)
}

/// Whether `y` stands in the new document at a path where the old document
/// has no node.
pub open spec fn only_new(old_doc: DocumentView, new_doc: DocumentView, y: NodeId) -> bool {
    exists|path: Seq<int>| #[trigger] only_new_at(old_doc, new_doc, path, y)
}

/// Whether every pair of the walk stands at one path in both documents, and
/// the children of the pair at hand have been walked in step.
pub open spec fn pairs_on_paths(walk: DiffView) -> bool {
    &&& forall|j: int|
        0 <= j < walk.queue.len() ==> on_path(
            Patch::Reuse(#[trigger] walk.queue[j].0, walk.queue[j].1),
            walk.old_doc,
            walk.new_doc,
        )
    &&& walk.parent matches Some((x, y)) ==> {
        &&& on_path(Patch::Reuse(x, y), walk.old_doc, walk.new_doc)
        &&& {
            ||| walk.old_child_idx == walk.new_child_idx
            ||| walk.old_child_idx >= walk.old_children().len() && walk.new_child_idx
                >= walk.old_children().len()
            ||| walk.new_child_idx >= walk.new_children().len() && walk.old_child_idx
                >= walk.new_children().len()
        }
    }
}

/// The child at index `i` stands at the path of its parent and then `i`.
proof fn lemma_child_path(doc: DocumentView, path: Seq<int>, parent: NodeId, i: int)
    requires
        node_at(doc, path) == Some(parent),
        0 <= i,
    ensures
        node_at(doc, path.push(i)) == if i < doc.children_of(parent).len() {
            Some(doc.children_of(parent)[i])
        } else {
            None
        },
{
    assert(path.push(i).drop_last() =~= path);
}

/// One step of a walk whose pairs stand on paths yields a patch that says
/// what stands at one path of the two documents.
proof fn lemma_step_on_path(walk: DiffView)
    requires
        pairs_on_paths(walk),
    ensures
        pairs_on_paths(walk.step().0),
        walk.step().0.old_doc == walk.old_doc,
        walk.step().0.new_doc == walk.new_doc,
        walk.step().1 matches Some(patch) ==> on_path(patch, walk.old_doc, walk.new_doc),
    decreases walk.parent is Some as int, walk.children_left(),
{
    let old_doc = walk.old_doc;
    let new_doc = walk.new_doc;
    if walk.done {
    } else if walk.parent is Some {
        let (x, y) = walk.parent->Some_0;
        let path = choose|path: Seq<int>| pair_at(old_doc, new_doc, path, x, y);
        let has_old = walk.old_child_idx < walk.old_children().len();
        let has_new = walk.new_child_idx < walk.new_children().len();
        if has_old && has_new {
            let i = walk.old_child_idx as int;
            let pair = (walk.old_children()[i], walk.new_children()[i]);
            let next = DiffView {
                queue: walk.queue.push(pair),
                old_child_idx: walk.old_child_idx + 1,
                new_child_idx: walk.new_child_idx + 1,
                ..walk
            };
            lemma_child_path(old_doc, path, x, i);
            lemma_child_path(new_doc, path, y, i);
            assert(pair_at(old_doc, new_doc, path.push(i), pair.0, pair.1));
            assert(on_path(Patch::Reuse(pair.0, pair.1), old_doc, new_doc));
            assert forall|j: int| 0 <= j < next.queue.len() implies on_path(
                Patch::Reuse(#[trigger] next.queue[j].0, next.queue[j].1),
                old_doc,
                new_doc,
            ) by {
                if j < walk.queue.len() {
                    assert(next.queue[j] == walk.queue[j]);
                } else {
                    assert(next.queue[j] == pair);
                }
            }
            lemma_step_on_path(next);
        } else if has_new {
            let j = walk.new_child_idx as int;
            lemma_child_path(old_doc, path, x, j);
            lemma_child_path(new_doc, path, y, j);
            assert(only_new_at(old_doc, new_doc, path.push(j), walk.new_children()[j]));
            assert(on_path(Patch::Create(walk.new_children()[j]), old_doc, new_doc));
        } else if has_old {
            let i = walk.old_child_idx as int;
            lemma_child_path(old_doc, path, x, i);
            lemma_child_path(new_doc, path, y, i);
            assert(only_old_at(old_doc, new_doc, path.push(i), walk.old_children()[i]));
            assert(on_path(Patch::Delete(walk.old_children()[i]), old_doc, new_doc));
        } else {
            lemma_step_on_path(DiffView { parent: None, ..walk });
        }
    } else if walk.queue.len() > 0 {
        let next = walk.step().0;
        assert(on_path(Patch::Reuse(walk.queue[0].0, walk.queue[0].1), old_doc, new_doc));
        assert forall|j: int| 0 <= j < next.queue.len() implies on_path(
            Patch::Reuse(#[trigger] next.queue[j].0, next.queue[j].1),
            old_doc,
            new_doc,
        ) by {
            assert(next.queue[j] == walk.queue[j + 1]);
        }
    }
}

/// Every patch of a walk whose pairs stand on paths says what stands at one
/// path of the two documents.
proof fn lemma_walk_on_paths(walk: DiffView, n: nat)
    requires
        pairs_on_paths(walk),
    ensures
        forall|i: int|
            0 <= i < walk.patches(n).len() ==> on_path(
                #[trigger] walk.patches(n)[i],
                walk.old_doc,
                walk.new_doc,
            ),
    decreases n,
{
    lemma_step_on_path(walk);
    if n > 0 && walk.step().1 is Some {
        let rest = walk.step().0.patches((n - 1) as nat);
        lemma_walk_on_paths(walk.step().0, (n - 1) as nat);
        assert forall|i: int| 0 <= i < walk.patches(n).len() implies on_path(
            #[trigger] walk.patches(n)[i],
            walk.old_doc,
            walk.new_doc,
        ) by {
            if i > 0 {
                assert(walk.patches(n)[i] == rest[i - 1]);
            }
        }
    }
}

/// What the patches mean. Every patch of the comparison of two documents
/// speaks of one path from the roots: a `Reuse` names the two nodes that
/// stand there, a `Delete` the old node where the new document has none, a
/// `Create` the new node where the old document has none. So a node is
/// deleted or created only beyond the shorter child sequence.
pub proof fn lemma_patches_on_paths(old_doc: DocumentView, new_doc: DocumentView, n: nat)
    ensures
        forall|i: int|
            0 <= i < DiffView::start(old_doc, new_doc).patches(n).len() ==> on_path(
                #[trigger] DiffView::start(old_doc, new_doc).patches(n)[i],
                old_doc,
                new_doc,
            ),
{
    let start = DiffView::start(old_doc, new_doc);
    assert(pair_at(old_doc, new_doc, Seq::<int>::empty(), root_id(), root_id()));
    assert(on_path(Patch::Reuse(root_id(), root_id()), old_doc, new_doc));
    assert forall|j: int| 0 <= j < start.queue.len() implies on_path(
        Patch::Reuse(#[trigger] start.queue[j].0, start.queue[j].1),
        old_doc,
        new_doc,
    ) by {
        assert(start.queue[j] == (root_id(), root_id()));
    }
    lemma_walk_on_paths(start, n);
}

/// In a well-formed document in which no node is a child in two places, a
/// node stands at one path only.
pub proof fn lemma_one_path(doc: DocumentView, first: Seq<int>, second: Seq<int>)
    requires
        doc.wf(),
        doc.single_parent(),
        node_at(doc, first) is Some,
        node_at(doc, first) == node_at(doc, second),
    ensures
        first == second,
    decreases first.len(),
{
    if first.len() == 0 || second.len() == 0 {
        let longer = if first.len() == 0 {
            second
        } else {
            first
        };
        if longer.len() > 0 {
            let parent = node_at(doc, longer.drop_last())->Some_0;
            assert(doc.children.contains_key(parent));
            assert(doc.children[parent][longer.last()] != root_id());
            assert(false);
        }
        assert(first =~= second);
    } else {
        let first_parent = node_at(doc, first.drop_last())->Some_0;
        let second_parent = node_at(doc, second.drop_last())->Some_0;
        assert(doc.children_of(first_parent)[first.last()] == doc.children_of(
            second_parent,
        )[second.last()]);
        lemma_one_path(doc, first.drop_last(), second.drop_last());
        assert(first =~= first.drop_last().push(first.last()));
        assert(second =~= second.drop_last().push(second.last()));
    }
}

/// A matched node is not deleted. Where no node of the old document is a
/// child in two places, no node is both reused and deleted by the comparison.
pub proof fn lemma_reused_is_not_deleted(
    old_doc: DocumentView,
    new_doc: DocumentView,
    n: nat,
    i: int,
    j: int,
)
    requires
        old_doc.wf(),
        old_doc.single_parent(),
        0 <= i < DiffView::start(old_doc, new_doc).patches(n).len(),
        0 <= j < DiffView::start(old_doc, new_doc).patches(n).len(),
        DiffView::start(old_doc, new_doc).patches(n)[i] is Reuse,
        DiffView::start(old_doc, new_doc).patches(n)[j] is Delete,
    ensures
        DiffView::start(old_doc, new_doc).patches(n)[i]->Reuse_0 != DiffView::start(
            old_doc,
            new_doc,
        ).patches(n)[j]->Delete_0,
{
    let patches = DiffView::start(old_doc, new_doc).patches(n);
    lemma_patches_on_paths(old_doc, new_doc, n);
    let x = patches[i]->Reuse_0;
    let y = patches[i]->Reuse_1;
    let z = patches[j]->Delete_0;
    assert(on_path(patches[i], old_doc, new_doc));
    assert(on_path(patches[j], old_doc, new_doc));
    if x == z {
        let reused = choose|path: Seq<int>| pair_at(old_doc, new_doc, path, x, y);
        let deleted = choose|path: Seq<int>| only_old_at(old_doc, new_doc, path, z);
        lemma_one_path(old_doc, reused, deleted);
    }
}

/// A matched node is not created. Where no node of the new document is a
/// child in two places, no node is both reused and created by the comparison.
pub proof fn lemma_reused_is_not_created(
    old_doc: DocumentView,
    new_doc: DocumentView,
    n: nat,
    i: int,
    j: int,
)
    requires
        new_doc.wf(),
        new_doc.single_parent(),
        0 <= i < DiffView::start(old_doc, new_doc).patches(n).len(),
        0 <= j < DiffView::start(old_doc, new_doc).patches(n).len(),
        DiffView::start(old_doc, new_doc).patches(n)[i] is Reuse,
        DiffView::start(old_doc, new_doc).patches(n)[j] is Create,
    ensures
        DiffView::start(old_doc, new_doc).patches(n)[i]->Reuse_1 != DiffView::start(
            old_doc,
            new_doc,
        ).patches(n)[j]->Create_0,
{
    let patches = DiffView::start(old_doc, new_doc).patches(n);
    lemma_patches_on_paths(old_doc, new_doc, n);
    let x = patches[i]->Reuse_0;
    let y = patches[i]->Reuse_1;
    let z = patches[j]->Create_0;
    assert(on_path(patches[i], old_doc, new_doc));
    assert(on_path(patches[j], old_doc, new_doc));
    if y == z {
        let reused = choose|path: Seq<int>| pair_at(old_doc, new_doc, path, x, y);
        let created = choose|path: Seq<int>| only_new_at(old_doc, new_doc, path, z);
        lemma_one_path(new_doc, reused, created);
    }
}

/// No step of a walk yields an `Append`.
pub proof fn lemma_step_never_appends(walk: DiffView)
    ensures
        walk.step().1 != Some(Patch::Append()),
    decreases walk.parent is Some as int, walk.children_left(),
{
    if !walk.done && walk.parent is Some {
        let has_old = walk.old_child_idx < walk.old_children().len();
        let has_new = walk.new_child_idx < walk.new_children().len();
        if has_old && has_new {
            lemma_step_never_appends(
                DiffView {
                    queue: walk.queue.push(
                        (
                            walk.old_children()[walk.old_child_idx as int],
                            walk.new_children()[walk.new_child_idx as int],
                        ),
                    ),
                    old_child_idx: walk.old_child_idx + 1,
                    new_child_idx: walk.new_child_idx + 1,
                    ..walk
                },
            );
        } else if !has_old && !has_new {
            lemma_step_never_appends(DiffView { parent: None, ..walk });
        }
    }
}

/// The reconciler never yields an `Append`: every patch of a walk is a
/// `Reuse`, a `Create` or a `Delete`.
pub proof fn lemma_never_appends(walk: DiffView, n: nat)
    ensures
        forall|i: int| 0 <= i < walk.patches(n).len() ==> #[trigger] walk.patches(n)[i] != Patch::Append(),
    decreases n,
{
    lemma_step_never_appends(walk);
    if n > 0 && walk.step().1 is Some {
        let rest = walk.step().0.patches((n - 1) as nat);
        lemma_never_appends(walk.step().0, (n - 1) as nat);
        assert forall|i: int| 0 <= i < walk.patches(n).len() implies #[trigger] walk.patches(n)[i]
            != Patch::Append() by {
            if i > 0 {
                assert(walk.patches(n)[i] == rest[i - 1]);
            }
        }
    }
}

/// Whether the nodes that `patch` names are of the documents they are
/// taken from, the old ones of `old_doc` and the new ones of `new_doc`, and
/// none of them is a root.
pub open spec fn in_scope(patch: Patch, old_doc: DocumentView, new_doc: DocumentView) -> bool {
    match patch {
        Patch::Reuse(x, y) => old_doc.contains(x) && new_doc.contains(y) && x != root_id() && y
            != root_id(),
        Patch::Create(y) => new_doc.contains(y) && y != root_id(),
        Patch::Delete(x) => old_doc.contains(x) && x != root_id(),
        Patch::Append() => false,
    }
}

/// Whether every pair of the walk pairs a node of the old document with a
/// node of the new one, and no pair that waits holds a root.
pub open spec fn pairs_in_scope(walk: DiffView) -> bool {
    &&& forall|j: int|
        0 <= j < walk.queue.len() ==> in_scope(
            Patch::Reuse(#[trigger] walk.queue[j].0, walk.queue[j].1),
            walk.old_doc,
            walk.new_doc,
        )
    &&& walk.parent matches Some((x, y)) ==> walk.old_doc.contains(x) && walk.new_doc.contains(y)
}

/// One step of a walk over two well-formed documents, none of whose waiting
/// pairs holds a root, names only nodes of these documents and no root.
pub proof fn lemma_step_in_scope(walk: DiffView)
    requires
        walk.old_doc.wf(),
        walk.new_doc.wf(),
        pairs_in_scope(walk),
    ensures
        pairs_in_scope(walk.step().0),
        walk.step().0.old_doc == walk.old_doc,
        walk.step().0.new_doc == walk.new_doc,
        walk.step().1 matches Some(patch) ==> in_scope(patch, walk.old_doc, walk.new_doc),
    decreases walk.parent is Some as int, walk.children_left(),
{
    if walk.done {
    } else if walk.parent is Some {
        let (x, y) = walk.parent->Some_0;
        let has_old = walk.old_child_idx < walk.old_children().len();
        let has_new = walk.new_child_idx < walk.new_children().len();
        if has_old {
            assert(walk.old_doc.children.contains_key(x));
            assert(walk.old_doc.contains(walk.old_doc.children[x][walk.old_child_idx as int]));
        }
        if has_new {
            assert(walk.new_doc.children.contains_key(y));
            assert(walk.new_doc.contains(walk.new_doc.children[y][walk.new_child_idx as int]));
        }
        if has_old && has_new {
            let next = DiffView {
                queue: walk.queue.push(
                    (
                        walk.old_children()[walk.old_child_idx as int],
                        walk.new_children()[walk.new_child_idx as int],
                    ),
                ),
                old_child_idx: walk.old_child_idx + 1,
                new_child_idx: walk.new_child_idx + 1,
                ..walk
            };
            assert forall|j: int| 0 <= j < next.queue.len() implies in_scope(
                Patch::Reuse(#[trigger] next.queue[j].0, next.queue[j].1),
                next.old_doc,
                next.new_doc,
            ) by {
                if j < walk.queue.len() {
                    assert(next.queue[j] == walk.queue[j]);
                }
            }
            lemma_step_in_scope(next);
        } else if !has_old && !has_new {
            lemma_step_in_scope(DiffView { parent: None, ..walk });
        }
    } else if walk.queue.len() > 0 {
        let next = walk.step().0;
        assert(in_scope(Patch::Reuse(walk.queue[0].0, walk.queue[0].1), walk.old_doc, walk.new_doc));
        assert forall|j: int| 0 <= j < next.queue.len() implies in_scope(
            Patch::Reuse(#[trigger] next.queue[j].0, next.queue[j].1),
            next.old_doc,
            next.new_doc,
        ) by {
            assert(next.queue[j] == walk.queue[j + 1]);
        }
    }
}

/// Every patch of a walk over two well-formed documents, none of whose
/// waiting pairs holds a root, names only nodes of these documents and no
/// root.
proof fn lemma_walk_in_scope(walk: DiffView, n: nat)
    requires
        walk.old_doc.wf(),
        walk.new_doc.wf(),
        pairs_in_scope(walk),
    ensures
        forall|i: int|
            0 <= i < walk.patches(n).len() ==> in_scope(
                #[trigger] walk.patches(n)[i],
                walk.old_doc,
                walk.new_doc,
            ),
    decreases n,
{
    lemma_step_in_scope(walk);
    if n > 0 && walk.step().1 is Some {
        let rest = walk.step().0.patches((n - 1) as nat);
        lemma_walk_in_scope(walk.step().0, (n - 1) as nat);
        assert forall|i: int| 0 <= i < walk.patches(n).len() implies in_scope(
            #[trigger] walk.patches(n)[i],
            walk.old_doc,
            walk.new_doc,
        ) by {
            if i > 0 {
                assert(walk.patches(n)[i] == rest[i - 1]);
            }
        }
    }
}

/// The patches speak of the two documents and of nothing else. Comparing
/// two well-formed documents yields first the `Reuse` of the one root for
/// the other; every later patch names only old nodes of the old document
/// and new nodes of the new one, and never a root: a root is not created,
/// deleted or matched again.
pub proof fn lemma_patches_in_scope(old_doc: DocumentView, new_doc: DocumentView, n: nat)
    requires
        old_doc.wf(),
        new_doc.wf(),
    ensures
        n > 0 ==> DiffView::start(old_doc, new_doc).patches(n).len() > 0 && DiffView::start(
            old_doc,
            new_doc,
        ).patches(n)[0] == Patch::Reuse(root_id(), root_id()),
        forall|i: int|
            1 <= i < DiffView::start(old_doc, new_doc).patches(n).len() ==> in_scope(
                #[trigger] DiffView::start(old_doc, new_doc).patches(n)[i],
                old_doc,
                new_doc,
            ),
{
    let start = DiffView::start(old_doc, new_doc);
    if n > 0 {
        let at_root = start.step().0;
        let rest = at_root.patches((n - 1) as nat);
        assert(start.step().1 == Some(Patch::Reuse(root_id(), root_id())));
        assert(at_root.queue.len() == 0);
        lemma_walk_in_scope(at_root, (n - 1) as nat);
        assert forall|i: int| 1 <= i < start.patches(n).len() implies in_scope(
            #[trigger] start.patches(n)[i],
            old_doc,
            new_doc,
        ) by {
            assert(start.patches(n)[i] == rest[i - 1]);
        }
    }
}

} // verus!
