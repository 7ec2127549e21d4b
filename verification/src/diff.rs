//! The reconciler: a breadth-first, paired walk over two documents that
//! yields, in order, the patches that turn the old one into the new one.
//!
//! Children are matched by their position in the child sequence, never by
//! key and never by what a node holds.

pub mod measure;

use vstd::prelude::*;
use std::collections::VecDeque;
use crate::document::model::{DocumentView, root_id};
use crate::document::vdocument::{NodeId, VDocument};
use crate::diff::measure::{descends, lemma_ends_descends, lemma_step_counts, patches_left};

verus! {

/// One structural change between an old document and a new one.
#[derive(Clone, Copy, Debug, PartialEq, Eq, Structural)]
pub enum Patch {
    /// The old node and the new node stand at the same place.
    Reuse(NodeId, NodeId),
    /// The new node has no counterpart in the old document.
    Create(NodeId),
    /// The old node has no counterpart in the new document.
    Delete(NodeId),
    /// Kept for moves; the reconciler never yields it.
    Append(),
}

/// The patches for the children that have no counterpart at their index:
/// a `Create` for each child of `new` beyond the length of `old`, or a
/// `Delete` for each child of `old` beyond the length of `new`.
pub open spec fn children_patches(old: Seq<NodeId>, new: Seq<NodeId>) -> Seq<Patch> {
    if old.len() <= new.len() {
        Seq::new((new.len() - old.len()) as nat, |i: int| Patch::Create(new[old.len() + i]))
    } else {
        Seq::new((old.len() - new.len()) as nat, |i: int| Patch::Delete(old[new.len() + i]))
    }
}

/// The pairs of children that stand at the same index in both sequences.
pub open spec fn matched_children(old: Seq<NodeId>, new: Seq<NodeId>) -> Seq<(NodeId, NodeId)> {
    Seq::new(
        if old.len() <= new.len() {
            old.len()
        } else {
            new.len()
        },
        |i: int| (old[i], new[i]),
    )
}

/// Walks the two child sequences of a matched pair of parents in lockstep
/// and returns the patches for the children without a counterpart.
pub fn diff_children(old: &Vec<NodeId>, new: &Vec<NodeId>) -> (patches: Vec<Patch>)
    ensures
        patches@ == children_patches(old@, new@),
{
    let mut patches: Vec<Patch> = Vec::new();
    if old.len() <= new.len() {
        let mut i: usize = old.len();
        while i < new.len()
            invariant
                old.len() <= i <= new.len(),
                patches@ == Seq::new((i - old.len()) as nat, |j: int| Patch::Create(new@[old.len() + j])),
            decreases new.len() - i,
        {
            patches.push(Patch::Create(new[i]));
            i += 1;
        }
    } else {
        let mut i: usize = new.len();
        while i < old.len()
            invariant
                new.len() <= i <= old.len(),
                patches@ == Seq::new((i - new.len()) as nat, |j: int| Patch::Delete(old@[new.len() + j])),
            decreases old.len() - i,
        {
            patches.push(Patch::Delete(old[i]));
            i += 1;
        }
    }
    patches
}

/// The state of a walk over two documents.
#[verifier::ext_equal]
pub struct DiffView {
    /// The document that was there before.
    pub old_doc: DocumentView,
    /// The document that is there now.
    pub new_doc: DocumentView,
    /// The matched pairs (old, new) whose children are still to be walked.
    pub queue: Seq<(NodeId, NodeId)>,
    /// The matched pair whose children are being walked.
    pub parent: Option<(NodeId, NodeId)>,
    /// How many children of the old parent have been walked.
    pub old_child_idx: nat,
    /// How many children of the new parent have been walked.
    pub new_child_idx: nat,
    /// Whether the walk has ended.
    pub done: bool,
}

impl DiffView {
    /// The state before the first patch: the two roots are matched.
    pub open spec fn start(old_doc: DocumentView, new_doc: DocumentView) -> DiffView {
        DiffView {
            old_doc,
            new_doc,
            queue: seq![(root_id(), root_id())],
            parent: None,
            old_child_idx: 0,
            new_child_idx: 0,
            done: false,
        }
    }

    /// The children of the old parent; none when no pair is being walked.
    pub open spec fn old_children(self) -> Seq<NodeId> {
        match self.parent {
            Some((old_parent, _)) => self.old_doc.children_of(old_parent),
            None => Seq::empty(),
        }
    }

    /// The children of the new parent; none when no pair is being walked.
    pub open spec fn new_children(self) -> Seq<NodeId> {
        match self.parent {
            Some((_, new_parent)) => self.new_doc.children_of(new_parent),
            None => Seq::empty(),
        }
    }

    /// How many children of the two parents are still to be walked.
    pub open spec fn children_left(self) -> nat {
        let old_left = if self.old_child_idx < self.old_children().len() {
            self.old_children().len() - self.old_child_idx
        } else {
            0
        };
        let new_left = if self.new_child_idx < self.new_children().len() {
            self.new_children().len() - self.new_child_idx
        } else {
            0
        };
        (old_left + new_left) as nat
    }

    /// The state after the next patch, and that patch; `None` when the walk
    /// has ended.
    ///
    /// While a pair of parents is being walked: two children at the same
    /// index are matched and queued, and the walk goes on; a new child
    /// without an old one gives `Create`; an old child without a new one
    /// gives `Delete`; when both sequences are exhausted the pair is left.
    /// With no pair at hand the next one is taken from the queue and gives
    /// `Reuse`; an empty queue ends the walk.
    pub open spec fn step(self) -> (DiffView, Option<Patch>)
        decreases self.parent is Some as int, self.children_left(),
    {
        if self.done {
            (self, None)
        } else if self.parent is Some {
            let old_children = self.old_children();
            let new_children = self.new_children();
            let has_old = self.old_child_idx < old_children.len();
            let has_new = self.new_child_idx < new_children.len();
            if has_old && has_new {
                DiffView {
                    queue: self.queue.push(
                        (
                            old_children[self.old_child_idx as int],
                            new_children[self.new_child_idx as int],
                        ),
                    ),
                    old_child_idx: self.old_child_idx + 1,
                    new_child_idx: self.new_child_idx + 1,
                    ..self
                }.step()
            } else if has_new {
                (
                    DiffView { new_child_idx: self.new_child_idx + 1, ..self },
                    Some(Patch::Create(new_children[self.new_child_idx as int])),
                )
            } else if has_old {
                (
                    DiffView { old_child_idx: self.old_child_idx + 1, ..self },
                    Some(Patch::Delete(old_children[self.old_child_idx as int])),
                )
            } else {
                DiffView { parent: None, ..self }.step()
            }
        } else if self.queue.len() > 0 {
            (
                DiffView {
                    queue: self.queue.skip(1),
                    parent: Some(self.queue[0]),
                    old_child_idx: 0,
                    new_child_idx: 0,
                    ..self
                },
                Some(Patch::Reuse(self.queue[0].0, self.queue[0].1)),
            )
        } else {
            (DiffView { done: true, ..self }, None)
        }
    }

    /// The state after `n` patches have been asked for: the walk stops
    /// early when it has ended.
    pub open spec fn advance(self, n: nat) -> DiffView
        decreases n,
    {
        if n == 0 {
            self
        } else if self.step().1 is None {
            self.step().0
        } else {
            self.step().0.advance((n - 1) as nat)
        }
    }

    /// The first `n` patches of the walk, or all of them if there are fewer.
    pub open spec fn patches(self, n: nat) -> Seq<Patch>
        decreases n,
    {
        if n == 0 || self.step().1 is None {
            Seq::empty()
        } else {
            seq![self.step().1->Some_0] + self.step().0.patches((n - 1) as nat)
        }
    }

    /// Whether the walk has ended once `n` patches have been asked for.
    pub open spec fn ended_after(self, n: nat) -> bool {
        self.advance(n).step().1 is None
    }

    /// Whether `patches` are all the patches of the walk, in order: the walk
    /// yields them one after the other and then ends.
    pub open spec fn yields(self, patches: Seq<Patch>) -> bool {
        patches == self.patches(patches.len()) && self.ended_after(patches.len())
    }

    /// Whether the walk comes to an end because one of the two documents
    /// has no cycle.
    pub open spec fn ends(self) -> bool {
        self.old_doc.acyclic() || self.new_doc.acyclic()
    }

    /// While the walk has not ended, one patch more is the patch of the
    /// next step.
    pub proof fn lemma_patches_push(self, n: nat)
        requires
            self.patches(n).len() == n,
            self.advance(n).step().1 is Some,
        ensures
            self.patches(n + 1) == self.patches(n).push(self.advance(n).step().1->Some_0),
            self.advance(n + 1) == self.advance(n).step().0,
        decreases n,
    {
        let next = self.step().0;
        if n == 0 {
            assert(next.patches(0) =~= Seq::empty());
            assert(next.advance(0) == next);
            assert(self.patches(1) =~= Seq::<Patch>::empty().push(self.step().1->Some_0));
        } else {
            assert(self.step().1 is Some);
            assert(self.advance(n) == next.advance((n - 1) as nat));
            assert(self.advance(n + 1) == next.advance(n));
            next.lemma_patches_push((n - 1) as nat);
            assert(self.patches(n + 1) =~= self.patches(n).push(
                self.advance(n).step().1->Some_0,
            ));
        }
    }

    /// Once the walk has ended, asking for more patches gives no more.
    pub proof fn lemma_patches_complete(self, n: nat, m: nat)
        requires
            self.ended_after(n),
            n <= m,
        ensures
            self.patches(m) == self.patches(n),
        decreases n,
    {
        if n == 0 || self.step().1 is None {
        } else {
            self.step().0.lemma_patches_complete((n - 1) as nat, (m - 1) as nat);
        }
    }

    /// A walk has one sequence of patches: two sequences that are each all
    /// its patches are the same.
    pub proof fn lemma_yields_once(self, first: Seq<Patch>, second: Seq<Patch>)
        requires
            self.yields(first),
            self.yields(second),
        ensures
            first == second,
    {
        if first.len() <= second.len() {
            self.lemma_patches_complete(first.len(), second.len());
        } else {
            self.lemma_patches_complete(second.len(), first.len());
        }
    }

    /// Asking for `a` patches and then for `b` more gives what asking for
    /// `a + b` gives, as long as the walk has not ended before.
    pub proof fn lemma_patches_add(self, a: nat, b: nat)
        requires
            self.patches(a).len() == a,
        ensures
            self.patches(a + b) == self.patches(a) + self.advance(a).patches(b),
            self.advance(a + b) == self.advance(a).advance(b),
        decreases a,
    {
        if a == 0 {
            assert(self.patches(0) + self.patches(b) =~= self.patches(b));
        } else {
            let next = self.step().0;
            next.lemma_patches_add((a - 1) as nat, b);
            assert(self.patches(a + b) =~= self.patches(a) + self.advance(a).patches(b));
        }
    }
}

/// A walk over two documents that yields its patches one at a time.
pub struct DiffIterator<'a> {
    queue: VecDeque<(NodeId, NodeId)>,
    old_doc: &'a VDocument,
    new_doc: &'a VDocument,
    parent: Option<(NodeId, NodeId)>,
    new_child_idx: usize,
    old_child_idx: usize,
    done: bool,
}

impl<'a> View for DiffIterator<'a> {
    type V = DiffView;

    closed spec fn view(&self) -> DiffView {
        DiffView {
            old_doc: self.old_doc@,
            new_doc: self.new_doc@,
            queue: self.queue@,
            parent: self.parent,
            old_child_idx: self.old_child_idx as nat,
            new_child_idx: self.new_child_idx as nat,
            done: self.done,
        }
    }
}

impl VDocument {
    /// Starts the walk that compares this document, the old one, with
    /// `new_doc`. Neither document is changed.
    pub fn diff<'a>(&'a self, new_doc: &'a VDocument) -> (walk: DiffIterator<'a>)
        ensures
            walk@ == DiffView::start(self@, new_doc@),
    {
        let mut queue: VecDeque<(NodeId, NodeId)> = VecDeque::new();
        queue.push_back((self.root(), new_doc.root()));
        let walk = DiffIterator {
            queue,
            old_doc: self,
            new_doc,
            parent: None,
            new_child_idx: 0,
            old_child_idx: 0,
            done: false,
        };
        assert(walk@.queue =~= seq![(root_id(), root_id())]);
        walk
    }
}

impl<'a> DiffIterator<'a> {
    /// The next patch of the walk, or `None` when it has ended.
    pub fn next(&mut self) -> (patch: Option<Patch>)
        ensures
            final(self)@ == old(self)@.step().0,
            patch == old(self)@.step().1,
    {
        if self.done {
            return None;
        }
        loop
            invariant
                !self.done,
                self@.step() == old(self)@.step(),
            decreases self.parent is Some as int, self@.children_left(),
        {
            match self.parent {
                Some((old_parent, new_parent)) => {
                    let old_child = self.old_doc.child(old_parent, self.old_child_idx);
                    let new_child = self.new_doc.child(new_parent, self.new_child_idx);
                    match (old_child, new_child) {
                        (None, Some(id)) => {
                            self.new_child_idx += 1;
                            return Some(Patch::Create(id));
                        },
                        (Some(id), None) => {
                            self.old_child_idx += 1;
                            return Some(Patch::Delete(id));
                        },
                        (Some(old_id), Some(new_id)) => {
                            self.queue.push_back((old_id, new_id));
                            self.old_child_idx += 1;
                            self.new_child_idx += 1;
                        },
                        (None, None) => {
                            self.parent = None;
                        },
                    }
                },
                None => {
                    match self.queue.pop_front() {
                        Some((old_id, new_id)) => {
                            self.parent = Some((old_id, new_id));
                            self.old_child_idx = 0;
                            self.new_child_idx = 0;
                            assert(self@.queue =~= old(self)@.step().0.queue);
                            return Some(Patch::Reuse(old_id, new_id));
                        },
                        None => {
                            self.done = true;
                            return None;
                        },
                    }
                },
            }
        }
    }

    /// The next patches of the walk, at most `limit` of them: fewer only
    /// when the walk ends first.
    pub fn take(&mut self, limit: usize) -> (patches: Vec<Patch>)
        ensures
            patches@ == old(self)@.patches(limit as nat),
            final(self)@ == old(self)@.advance(limit as nat),
    {
        let mut patches: Vec<Patch> = Vec::new();
        let mut left: usize = limit;
        while left > 0
            invariant
                patches@ + self@.patches(left as nat) == old(self)@.patches(limit as nat),
                self@.advance(left as nat) == old(self)@.advance(limit as nat),
            decreases left,
        {
            let ghost before = self@;
            let ghost so_far = patches@;
            match self.next() {
                Some(patch) => {
                    patches.push(patch);
                    left -= 1;
                    assert(patches@ + self@.patches(left as nat) =~= so_far + before.patches(
                        (left + 1) as nat,
                    ));
                },
                None => {
                    assert(so_far + before.patches(left as nat) =~= so_far);
                    return patches;
                },
            }
        }
        assert(patches@ + self@.patches(0) =~= patches@);
        patches
    }

    /// All the patches that the walk has still to yield, in order. One of
    /// the two documents must be free of cycles, as every document is that
    /// components have built: the walk over two documents with a cycle each
    /// may never end.
    pub fn collect(self) -> (patches: Vec<Patch>)
        requires
            self@.ends(),
        ensures
            self@.yields(patches@),
    {
        let mut walk = self;
        let mut patches: Vec<Patch> = Vec::new();
        let ghost mut rank: spec_fn(NodeId, NodeId) -> nat;
        proof {
            rank = lemma_ends_descends(self@);
        }
        loop
            invariant_except_break
                descends(walk@.old_doc, walk@.new_doc, rank),
                patches@ == self@.patches(patches.len() as nat),
                walk@ == self@.advance(patches.len() as nat),
            ensures
                patches@ == self@.patches(patches.len() as nat),
                self@.ended_after(patches.len() as nat),
            decreases patches_left(walk@, rank),
        {
            proof {
                lemma_step_counts(walk@, rank);
            }
            match walk.next() {
                Some(patch) => {
                    proof {
                        self@.lemma_patches_push(patches.len() as nat);
                    }
                    patches.push(patch);
                },
                None => {
                    break ;
                },
            }
        }
        patches
    }
}

} // verus!
