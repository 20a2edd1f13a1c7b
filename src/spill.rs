//! Spill: take the changes of the topmost patch out of its commit, leaving
//! them in the working state.

use vstd::prelude::*;

use crate::error::StackError;
use crate::graph::{CommitGraph, CommitNode, Signature};
use crate::registry::{names_of, patches_view, PatchView, Stack};
use crate::transaction::{rebind, StackUpdate, Transaction};

verus! {

/// What the working directory looks like before a spill.
pub struct WorkdirStatus {
    /// A rebase, merge or similar operation is in progress.
    pub mid_operation: bool,
    /// The index has unmerged entries.
    pub conflicts: bool,
    /// The index differs from the branch head.
    pub staged_changes: bool,
}

/// The patch a spill works on: its name, its commit and that commit's parent.
pub struct SpillTarget {
    pub name: Vec<u8>,
    pub commit: usize,
    pub parent: usize,
}

/// The error a spill meets before it changes anything, if any.
pub open spec fn spill_refusal(g: CommitGraph, s: Stack, w: WorkdirStatus) -> Option<StackError> {
    if w.mid_operation || w.conflicts || w.staged_changes {
        Some(StackError::DirtyWorkingTree)
    } else if !s.initialized {
        Some(StackError::NoAppliedPatches)
    } else if s.branch_head != s.state.head {
        Some(StackError::HeadTopMismatch)
    } else if s.state.applied@.len() == 0 {
        Some(StackError::NoAppliedPatches)
    } else if !g.has(s.state.applied@.last().commit) || g.parents_of(s.state.applied@.last().commit).len() == 0 {
        Some(StackError::RepositoryError)
    } else {
        None
    }
}

/// Checks what a spill needs and names the topmost patch, its commit and
/// that commit's first parent.
pub fn spill_target(g: &CommitGraph, s: &Stack, w: &WorkdirStatus) -> (r: Result<SpillTarget, StackError>)
    ensures
        spill_refusal(*g, *s, *w) is Some ==> r == Err::<SpillTarget, StackError>(
            spill_refusal(*g, *s, *w)->Some_0,
        ),
        spill_refusal(*g, *s, *w) is None ==> r is Ok,
        r is Ok ==> {
            let t = r->Ok_0;
            &&& t.name@ == s.state.applied@.last().name@
            &&& t.commit == s.state.applied@.last().commit
            &&& g.has(t.commit)
            &&& g.parents_of(t.commit).len() > 0
            &&& t.parent == g.parents_of(t.commit)[0]
        },
{
    if w.mid_operation || w.conflicts || w.staged_changes {
        return Err(StackError::DirtyWorkingTree);
    }
    if !s.initialized {
        return Err(StackError::NoAppliedPatches);
    }
    if s.branch_head != s.state.head {
        return Err(StackError::HeadTopMismatch);
    }
    if s.state.applied.len() == 0 {
        return Err(StackError::NoAppliedPatches);
    }
    let top = &s.state.applied[s.state.applied.len() - 1];
    if top.commit >= g.commits.len() || g.commits[top.commit].parents.len() == 0 {
        return Err(StackError::RepositoryError);
    }
    let name = top.name.clone();
    proof {
        assert(name@ =~= top.name@);
    }
    Ok(SpillTarget { name, commit: top.commit, parent: g.commits[top.commit].parents[0] })
}

/// A copy of a signature.
pub fn copy_signature(s: &Signature) -> (r: Signature)
    ensures
        r.name@ == s.name@,
        r.email@ == s.email@,
        r.time == s.time,
{
    let name = s.name.clone();
    let email = s.email.clone();
    proof {
        assert(name@ =~= s.name@);
        assert(email@ =~= s.email@);
    }
    Signature { name, email, time: s.time }
}

/// The reflog message of a spill: `spill <name>`, then a blank line and the
/// annotation when there is one.
pub open spec fn spill_reflog(name: Seq<u8>, annotation: Option<Seq<u8>>) -> Seq<u8> {
    let head = seq![115u8, 112, 105, 108, 108, 32] + name;
    match annotation {
        Some(a) => head + seq![10u8, 10] + a,
        None => head,
    }
}

fn make_spill_reflog(name: &Vec<u8>, annotation: &Option<Vec<u8>>) -> (r: Vec<u8>)
    ensures
        r@ == spill_reflog(
            name@,
            match annotation {
                Some(a) => Some(a@),
                None => None,
            },
        ),
{
    let mut r: Vec<u8> = vec![115u8, 112, 105, 108, 108, 32];
    let mut n = name.clone();
    proof {
        assert(n@ =~= name@);
    }
    r.append(&mut n);
    match annotation {
        Some(a) => {
            r.push(10u8);
            r.push(10u8);
            let mut a2 = a.clone();
            proof {
                assert(a2@ =~= a@);
            }
            r.append(&mut a2);
        },
        None => {},
    }
    proof {
        let head = seq![115u8, 112, 105, 108, 108, 32] + name@;
        match annotation {
            Some(a) => {
                assert(r@ =~= head + seq![10u8, 10] + a@);
            },
            None => {
                assert(r@ =~= head);
            },
        }
    }
    r
}

/// What a spill did: the update to record, the new commit, and the tree
/// that it carries (what the index is reset to on request).
pub struct SpillOutcome {
    pub update: StackUpdate,
    pub commit: usize,
    pub tree: Vec<u8>,
}

/// Spills the topmost patch: writes a commit with the old commit's parents,
/// author and message, the given committer and the tree `filtered_tree`
/// (or, with no paths given, the parent's tree), binds the patch to it and
/// executes the transaction. The new commit gets the next index of `g`; its
/// short id is left empty until the repository has written it.
pub fn run_spill(
    g: &mut CommitGraph,
    s: &Stack,
    w: &WorkdirStatus,
    filtered_tree: &Option<Vec<u8>>,
    committer: &Signature,
    committer_date_is_author_date: bool,
    annotation: &Option<Vec<u8>>,
) -> (r: Result<SpillOutcome, StackError>)
    requires
        old(g).wf(),
        s.state.wf(),
    ensures
        spill_refusal(*old(g), *s, *w) is Some ==> r == Err::<SpillOutcome, StackError>(
            spill_refusal(*old(g), *s, *w)->Some_0,
        ) && *final(g) == *old(g),
        spill_refusal(*old(g), *s, *w) is None && s.protected ==> r == Err::<SpillOutcome, StackError>(
            StackError::ProtectedStack,
        ) && *final(g) == *old(g),
        spill_refusal(*old(g), *s, *w) is None && !s.protected ==> r is Ok,
        final(g).wf(),
        r is Ok ==> {
            let o = r->Ok_0;
            let top = s.state.applied@.last();
            let old_node = old(g).commits@[top.commit as int];
            let node = final(g).commits@[o.commit as int];
            &&& o.commit == old(g).commits@.len()
            &&& final(g).commits@ == old(g).commits@.push(node)
            &&& node.parents@ == old_node.parents@
            &&& o.tree@ == match filtered_tree {
                Some(t) => t@,
                None => old(g).commits@[old_node.parents@[0] as int].tree@,
            }
            &&& node.tree@ == o.tree@
            &&& node.message@ == old_node.message@
            &&& node.author.name@ == old_node.author.name@
            &&& node.author.email@ == old_node.author.email@
            &&& node.author.time == old_node.author.time
            &&& node.committer.name@ == committer.name@
            &&& node.committer.email@ == committer.email@
            &&& node.committer.time == if committer_date_is_author_date {
                old_node.author.time
            } else {
                committer.time
            }
            &&& node.short_id@.len() == 0
            &&& o.update.state.applied_view() == rebind(s.state.applied_view(), top.name@, o.commit)
            &&& o.update.state.unapplied_view() == rebind(s.state.unapplied_view(), top.name@, o.commit)
            &&& o.update.state.hidden_view() == rebind(s.state.hidden_view(), top.name@, o.commit)
            &&& o.update.state.head == o.commit
            &&& o.update.state.base == s.state.base
            &&& o.update.branch_head == o.commit
            &&& o.update.reflog@ == spill_reflog(
                top.name@,
                match annotation {
                    Some(a) => Some(a@),
                    None => None,
                },
            )
        },
{
    let target = match spill_target(g, s, w) {
        Ok(t) => t,
        Err(e) => {
            return Err(e);
        },
    };
    if s.protected {
        return Err(StackError::ProtectedStack);
    }
    let tree = match filtered_tree {
        Some(t) => t.clone(),
        None => g.commits[target.parent].tree.clone(),
    };
    proof {
        match filtered_tree {
            Some(t) => {
                assert(tree@ =~= t@);
            },
            None => {
                assert(tree@ =~= g.commits@[target.parent as int].tree@);
            },
        }
    }
    let tree_copy = tree.clone();
    proof {
        assert(tree_copy@ =~= tree@);
    }
    let old_node = &g.commits[target.commit];
    let author = copy_signature(&old_node.author);
    let mut new_committer = copy_signature(committer);
    if committer_date_is_author_date {
        new_committer.time = old_node.author.time;
    }
    let parents = old_node.parents.clone();
    let message = old_node.message.clone();
    proof {
        assert(parents@ =~= old_node.parents@);
        assert(message@ =~= old_node.message@);
    }
    let node = CommitNode {
        parents,
        tree: tree_copy,
        author,
        committer: new_committer,
        message,
        short_id: Vec::new(),
    };
    let new_id = g.commits.len();
    let ghost g0 = *g;
    g.commits.push(node);
    proof {
        assert forall|i: int, j: int|
            0 <= i < g.commits@.len() && 0 <= j < g.commits@[i].parents@.len() implies #[trigger] g.commits@[i].parents@[j] < i by {
            if i < g0.commits@.len() {
                assert(g.commits@[i] == g0.commits@[i]);
            } else {
                assert(g.commits@[i].parents@[j] == g0.commits@[target.commit as int].parents@[j]);
                assert(g0.commits@[target.commit as int].parents@[j] < target.commit);
            }
        }
    }
    let mut trans = Transaction::setup(s);
    trans.set_use_index_and_worktree(false);
    proof {
        let av = s.state.applied_view();
        assert(av.last() == s.state.applied@.last()@);
        assert(names_of(trans.all_view())[av.len() - 1] == target.name@);
    }
    match trans.update_patch(&target.name, new_id) {
        Ok(()) => {},
        Err(e) => {
            return Err(e);
        },
    }
    let reflog = make_spill_reflog(&target.name, annotation);
    proof {
        let n = target.name@;
        let t0 = s.state.all_view();
        assert(names_of(trans.all_view()) =~= names_of(t0)) by {
            assert(trans.all_view() =~= rebind(t0, n, new_id));
        }
        assert forall|j: int| 0 <= j < trans.snapshot@.len() implies names_of(trans.all_view()).contains(
            #[trigger] names_of(patches_view(trans.snapshot@))[j],
        ) by {
            assert(names_of(trans.all_view())[j] == names_of(patches_view(trans.snapshot@))[j]);
        }
        assert(patches_view(trans.applied@).last().1 == new_id);
    }
    match trans.execute(&reflog) {
        Ok(update) => Ok(SpillOutcome { update, commit: new_id, tree }),
        Err(e) => Err(e),
    }
}

} // verus!
