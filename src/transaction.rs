//! Stack transactions: proposed changes to the three patch lists, checked
//! against the stack's invariants and applied all at once or not at all.

use vstd::prelude::*;

use crate::error::StackError;
use crate::registry::{
    commit_at, copy_patches, find_commit, names_of, patches_view, same_name, Patch, PatchView,
    Stack, StackState,
};
use crate::repair::bytes_view;

verus! {

/// The three lists one after the other.
pub fn concat_lists(a: &Vec<Patch>, b: &Vec<Patch>, c: &Vec<Patch>) -> (r: Vec<Patch>)
    ensures
        patches_view(r@) == patches_view(a@) + patches_view(b@) + patches_view(c@),
{
    let mut r = copy_patches(a);
    let mut u = copy_patches(b);
    let mut h = copy_patches(c);
    r.append(&mut u);
    r.append(&mut h);
    proof {
        assert(patches_view(r@) =~= patches_view(a@) + patches_view(b@) + patches_view(c@));
    }
    r
}

/// The names of a list of patches.
pub fn names(ps: &Vec<Patch>) -> (r: Vec<Vec<u8>>)
    ensures
        bytes_view(r@) == names_of(patches_view(ps@)),
{
    let mut r: Vec<Vec<u8>> = Vec::new();
    let mut i: usize = 0;
    while i < ps.len()
        invariant
            i <= ps@.len(),
            r@.len() == i,
            forall|j: int| 0 <= j < i ==> #[trigger] r@[j]@ == ps@[j].name@,
        decreases ps@.len() - i,
    {
        let n = ps[i].name.clone();
        proof {
            assert(n@ =~= ps@[i as int].name@);
        }
        r.push(n);
        i = i + 1;
    }
    proof {
        assert(bytes_view(r@) =~= names_of(patches_view(ps@)));
    }
    r
}

/// Whether some patch of `ps` is named `n`.
pub fn has_name(ps: &Vec<Patch>, n: &Vec<u8>) -> (r: bool)
    ensures
        r == names_of(patches_view(ps@)).contains(n@),
{
    let mut i: usize = 0;
    while i < ps.len()
        invariant
            i <= ps@.len(),
            forall|j: int| 0 <= j < i ==> ps@[j].name@ != n@,
        decreases ps@.len() - i,
    {
        if same_name(&ps[i].name, n) {
            proof {
                assert(names_of(patches_view(ps@))[i as int] == n@);
            }
            return true;
        }
        i = i + 1;
    }
    proof {
        assert(!names_of(patches_view(ps@)).contains(n@)) by {
            if names_of(patches_view(ps@)).contains(n@) {
                let j = choose|j: int|
                    0 <= j < names_of(patches_view(ps@)).len() && names_of(patches_view(ps@))[j]
                        == n@;
                assert(ps@[j].name@ == n@);
            }
        }
    }
    false
}

/// Whether the names of `ps` are pairwise different.
pub fn names_distinct(ps: &Vec<Patch>) -> (r: bool)
    ensures
        r == names_of(patches_view(ps@)).no_duplicates(),
{
    let ghost s = names_of(patches_view(ps@));
    let mut i: usize = 0;
    while i < ps.len()
        invariant
            i <= ps@.len(),
            s == names_of(patches_view(ps@)),
            forall|a: int, b: int| 0 <= a < b < i ==> s[a] != s[b],
        decreases ps@.len() - i,
    {
        let mut j: usize = 0;
        while j < i
            invariant
                i < ps@.len(),
                j <= i,
                s == names_of(patches_view(ps@)),
                forall|a: int, b: int| 0 <= a < b < i ==> s[a] != s[b],
                forall|a: int| 0 <= a < j ==> s[a] != s[i as int],
            decreases i - j,
        {
            if same_name(&ps[j].name, &ps[i].name) {
                proof {
                    assert(s[j as int] == s[i as int]);
                }
                return false;
            }
            j = j + 1;
        }
        i = i + 1;
    }
    true
}

/// The patches of `ps`, with the one named `n` bound to commit `c` instead.
pub open spec fn rebind(ps: Seq<PatchView>, n: Seq<u8>, c: usize) -> Seq<PatchView> {
    ps.map_values(|p: PatchView| if p.0 == n { (n, c) } else { p })
}

/// The patches named `ns`, each bound to its commit in `all`.
pub open spec fn bind_names(all: Seq<PatchView>, ns: Seq<Seq<u8>>) -> Seq<PatchView> {
    ns.map_values(|n: Seq<u8>| (n, commit_at(all, n).unwrap()))
}

/// Every name of `ns` is the name of a patch in `all`.
pub open spec fn all_known(all: Seq<PatchView>, ns: Seq<Seq<u8>>) -> bool {
    forall|i: int| 0 <= i < ns.len() ==> #[trigger] commit_at(all, ns[i]) is Some
}

/// What a committed transaction hands to the repository: the new recorded
/// state, where the branch now points, and the reflog message.
#[derive(Debug)]
pub struct StackUpdate {
    pub state: StackState,
    pub branch_head: usize,
    pub reflog: Vec<u8>,
}

/// A transaction on a stack: the lists as they are proposed, the stack base,
/// the branch head it works from, and what it was given to start with.
#[derive(Debug)]
pub struct Transaction {
    pub applied: Vec<Patch>,
    pub unapplied: Vec<Patch>,
    pub hidden: Vec<Patch>,
    pub base: usize,
    pub branch_head: usize,
    pub protected: bool,
    /// Every patch of the stack when the transaction started.
    pub snapshot: Vec<Patch>,
    /// Whether execution also brings the index and worktree in line.
    pub use_index_and_worktree: bool,
}

impl Transaction {
    /// The proposed patches: applied, then unapplied, then hidden.
    pub open spec fn all_view(&self) -> Seq<PatchView> {
        patches_view(self.applied@) + patches_view(self.unapplied@) + patches_view(self.hidden@)
    }

    /// Opens a transaction on `stack`, proposing no change yet.
    pub fn setup(stack: &Stack) -> (r: Transaction)
        ensures
            patches_view(r.applied@) == stack.state.applied_view(),
            patches_view(r.unapplied@) == stack.state.unapplied_view(),
            patches_view(r.hidden@) == stack.state.hidden_view(),
            patches_view(r.snapshot@) == stack.state.all_view(),
            r.base == stack.state.base,
            r.branch_head == stack.branch_head,
            r.protected == stack.protected,
            r.use_index_and_worktree,
    {
        Transaction {
            applied: copy_patches(&stack.state.applied),
            unapplied: copy_patches(&stack.state.unapplied),
            hidden: copy_patches(&stack.state.hidden),
            base: stack.state.base,
            branch_head: stack.branch_head,
            protected: stack.protected,
            snapshot: stack.all_patches(),
            use_index_and_worktree: true,
        }
    }

    /// Sets whether execution also touches the index and worktree.
    pub fn set_use_index_and_worktree(&mut self, on: bool)
        ensures
            final(self).use_index_and_worktree == on,
            final(self).applied == old(self).applied,
            final(self).unapplied == old(self).unapplied,
            final(self).hidden == old(self).hidden,
            final(self).snapshot == old(self).snapshot,
            final(self).base == old(self).base,
            final(self).branch_head == old(self).branch_head,
            final(self).protected == old(self).protected,
    {
        self.use_index_and_worktree = on;
    }

    /// The names of every proposed patch, including those added so far.
    pub fn all_patches(&self) -> (r: Vec<Vec<u8>>)
        ensures
            bytes_view(r@) == names_of(self.all_view()),
    {
        let all = concat_lists(&self.applied, &self.unapplied, &self.hidden);
        names(&all)
    }

    /// Adds a new patch on top of the applied list. Fails when the name is
    /// empty or already taken.
    pub fn new_applied(&mut self, name: &Vec<u8>, commit: usize) -> (r: Result<(), StackError>)
        ensures
            r is Ok <==> name@.len() > 0 && !names_of(old(self).all_view()).contains(name@),
            r is Err ==> r == Err::<(), StackError>(StackError::InvalidPatchName) && *final(self)
                == *old(self),
            r is Ok ==> patches_view(final(self).applied@) == patches_view(old(self).applied@).push(
                (name@, commit),
            ),
            final(self).unapplied == old(self).unapplied,
            final(self).hidden == old(self).hidden,
            final(self).snapshot == old(self).snapshot,
            final(self).base == old(self).base,
            final(self).branch_head == old(self).branch_head,
            final(self).protected == old(self).protected,
            final(self).use_index_and_worktree == old(self).use_index_and_worktree,
    {
        let all = concat_lists(&self.applied, &self.unapplied, &self.hidden);
        if name.len() == 0 || has_name(&all, name) {
            return Err(StackError::InvalidPatchName);
        }
        let n = name.clone();
        proof {
            assert(n@ =~= name@);
        }
        let ghost a0 = patches_view(self.applied@);
        self.applied.push(Patch { name: n, commit });
        proof {
            assert(patches_view(self.applied@) =~= a0.push((name@, commit)));
        }
        Ok(())
    }

    /// Binds the patch named `name` to `commit`, keeping its list and its
    /// place. Fails when no patch has that name.
    pub fn update_patch(&mut self, name: &Vec<u8>, commit: usize) -> (r: Result<(), StackError>)
        requires
            names_of(old(self).all_view()).no_duplicates(),
        ensures
            r is Ok <==> names_of(old(self).all_view()).contains(name@),
            r is Err ==> r == Err::<(), StackError>(StackError::InvalidPatchName) && *final(self)
                == *old(self),
            r is Ok ==> {
                &&& patches_view(final(self).applied@) == rebind(patches_view(old(self).applied@), name@, commit)
                &&& patches_view(final(self).unapplied@) == rebind(patches_view(old(self).unapplied@), name@, commit)
                &&& patches_view(final(self).hidden@) == rebind(patches_view(old(self).hidden@), name@, commit)
            },
            final(self).snapshot == old(self).snapshot,
            final(self).base == old(self).base,
            final(self).branch_head == old(self).branch_head,
            final(self).protected == old(self).protected,
            final(self).use_index_and_worktree == old(self).use_index_and_worktree,
    {
        let all = concat_lists(&self.applied, &self.unapplied, &self.hidden);
        if !has_name(&all, name) {
            return Err(StackError::InvalidPatchName);
        }
        rebind_list(&mut self.applied, name, commit);
        rebind_list(&mut self.unapplied, name, commit);
        rebind_list(&mut self.hidden, name, commit);
        Ok(())
    }

    /// Replaces the three lists wholesale with the patches of the given
    /// names, each keeping its commit. Fails, changing nothing, when a name is
    /// not one of the transaction's patches.
    pub fn repair_appliedness(
        &mut self,
        applied: Vec<Vec<u8>>,
        unapplied: Vec<Vec<u8>>,
        hidden: Vec<Vec<u8>>,
    ) -> (r: Result<(), StackError>)
        ensures
            r is Ok <==> all_known(old(self).all_view(), bytes_view(applied@)) && all_known(
                old(self).all_view(),
                bytes_view(unapplied@),
            ) && all_known(old(self).all_view(), bytes_view(hidden@)),
            r is Err ==> r == Err::<(), StackError>(StackError::InvariantViolation) && *final(self)
                == *old(self),
            r is Ok ==> {
                &&& patches_view(final(self).applied@) == bind_names(old(self).all_view(), bytes_view(applied@))
                &&& patches_view(final(self).unapplied@) == bind_names(old(self).all_view(), bytes_view(unapplied@))
                &&& patches_view(final(self).hidden@) == bind_names(old(self).all_view(), bytes_view(hidden@))
            },
            final(self).snapshot == old(self).snapshot,
            final(self).base == old(self).base,
            final(self).branch_head == old(self).branch_head,
            final(self).protected == old(self).protected,
            final(self).use_index_and_worktree == old(self).use_index_and_worktree,
    {
        let all = concat_lists(&self.applied, &self.unapplied, &self.hidden);
        let a = bind_list(&all, &applied);
        let u = bind_list(&all, &unapplied);
        let h = bind_list(&all, &hidden);
        match (a, u, h) {
            (Some(a), Some(u), Some(h)) => {
                self.applied = a;
                self.unapplied = u;
                self.hidden = h;
                Ok(())
            },
            _ => Err(StackError::InvariantViolation),
        }
    }

    /// Replaces the whole proposed state, and the branch head it stands on.
    pub fn reset_to_state(&mut self, state: StackState, branch_head: usize)
        ensures
            final(self).applied == state.applied,
            final(self).unapplied == state.unapplied,
            final(self).hidden == state.hidden,
            final(self).base == state.base,
            final(self).branch_head == branch_head,
            final(self).snapshot == old(self).snapshot,
            final(self).protected == old(self).protected,
            final(self).use_index_and_worktree == old(self).use_index_and_worktree,
    {
        self.applied = state.applied;
        self.unapplied = state.unapplied;
        self.hidden = state.hidden;
        self.base = state.base;
        self.branch_head = branch_head;
    }

    /// Checks the proposed state and turns it into the update to record:
    /// each name once over the three lists, and no patch of the stack lost.
    /// The new head is the topmost applied patch's commit; with nothing
    /// applied it is the branch head, which then is the base too. How the
    /// applied commits chain is not checked: a repair may keep a patch found
    /// above plain commits that it drops because a merge lies below them.
    pub fn execute(&self, reflog: &Vec<u8>) -> (r: Result<StackUpdate, StackError>)
        ensures
            self.protected ==> r == Err::<StackUpdate, StackError>(StackError::ProtectedStack),
            !self.protected && !execution_valid(*self) ==> r == Err::<StackUpdate, StackError>(
                StackError::InvariantViolation,
            ),
            !self.protected && execution_valid(*self) ==> r is Ok,
            r is Ok ==> executed(*self, r->Ok_0) && r->Ok_0.reflog@ == reflog@,
    {
        if self.protected {
            return Err(StackError::ProtectedStack);
        }
        let all = concat_lists(&self.applied, &self.unapplied, &self.hidden);
        if !names_distinct(&all) {
            return Err(StackError::InvariantViolation);
        }
        let mut i: usize = 0;
        while i < self.snapshot.len()
            invariant
                !self.protected,
                names_of(self.all_view()).no_duplicates(),
                i <= self.snapshot@.len(),
                patches_view(all@) == self.all_view(),
                forall|j: int|
                    0 <= j < i ==> names_of(self.all_view()).contains(
                        #[trigger] names_of(patches_view(self.snapshot@))[j],
                    ),
            decreases self.snapshot@.len() - i,
        {
            if !has_name(&all, &self.snapshot[i].name) {
                proof {
                    assert(names_of(patches_view(self.snapshot@))[i as int] == self.snapshot@[i as int].name@);
                }
                return Err(StackError::InvariantViolation);
            }
            i = i + 1;
        }
        let (base, head) = if self.applied.len() == 0 {
            (self.branch_head, self.branch_head)
        } else {
            (self.base, self.applied[self.applied.len() - 1].commit)
        };
        let state = StackState {
            applied: copy_patches(&self.applied),
            unapplied: copy_patches(&self.unapplied),
            hidden: copy_patches(&self.hidden),
            base,
            head,
        };
        let rl = reflog.clone();
        proof {
            assert(rl@ =~= reflog@);
        }
        Ok(StackUpdate { state, branch_head: head, reflog: rl })
    }
}

/// The proposed state keeps each name once and loses no patch of the stack.
pub open spec fn execution_valid(t: Transaction) -> bool {
    &&& names_of(t.all_view()).no_duplicates()
    &&& forall|j: int|
        0 <= j < t.snapshot@.len() ==> names_of(t.all_view()).contains(
            #[trigger] names_of(patches_view(t.snapshot@))[j],
        )
}

/// `u` is what executing `t` records: its lists, and the head, base and
/// branch head that follow from them.
pub open spec fn executed(t: Transaction, u: StackUpdate) -> bool {
    &&& u.state.applied_view() == patches_view(t.applied@)
    &&& u.state.unapplied_view() == patches_view(t.unapplied@)
    &&& u.state.hidden_view() == patches_view(t.hidden@)
    &&& u.state.head == if t.applied@.len() == 0 {
        t.branch_head
    } else {
        t.applied@.last().commit
    }
    &&& u.state.base == if t.applied@.len() == 0 {
        t.branch_head
    } else {
        t.base
    }
    &&& u.branch_head == u.state.head
}

/// Binds the patch named `name` in `ps` to `commit`.
fn rebind_list(ps: &mut Vec<Patch>, name: &Vec<u8>, commit: usize)
    ensures
        patches_view(final(ps)@) == rebind(patches_view(old(ps)@), name@, commit),
{
    let ghost v0 = patches_view(ps@);
    let mut i: usize = 0;
    while i < ps.len()
        invariant
            i <= ps@.len(),
            ps@.len() == v0.len(),
            forall|j: int| 0 <= j < i ==> #[trigger] ps@[j]@ == rebind(v0, name@, commit)[j],
            forall|j: int| i <= j < ps@.len() ==> #[trigger] ps@[j]@ == v0[j],
        decreases ps@.len() - i,
    {
        let ghost before = ps@;
        proof {
            assert(before[i as int]@ == v0[i as int]);
            assert(rebind(v0, name@, commit)[i as int] == if v0[i as int].0 == name@ {
                (name@, commit)
            } else {
                v0[i as int]
            });
        }
        if same_name(&ps[i].name, name) {
            ps[i].commit = commit;
            proof {
                assert(ps@[i as int].name == before[i as int].name);
            }
        }
        proof {
            assert(ps@[i as int]@ == rebind(v0, name@, commit)[i as int]);
            assert forall|j: int| 0 <= j < ps@.len() && j != i implies ps@[j] == before[j] by {}
        }
        i = i + 1;
    }
    proof {
        assert(patches_view(ps@) =~= rebind(v0, name@, commit));
    }
}

/// The patches named `ns`, each with its commit in `all`; `None` when some
/// name is not in `all`.
fn bind_list(all: &Vec<Patch>, ns: &Vec<Vec<u8>>) -> (r: Option<Vec<Patch>>)
    ensures
        r is Some <==> all_known(patches_view(all@), bytes_view(ns@)),
        r is Some ==> patches_view(r->Some_0@) == bind_names(patches_view(all@), bytes_view(ns@)),
{
    let ghost av = patches_view(all@);
    let mut r: Vec<Patch> = Vec::new();
    let mut i: usize = 0;
    while i < ns.len()
        invariant
            i <= ns@.len(),
            av == patches_view(all@),
            r@.len() == i,
            forall|j: int| 0 <= j < i ==> #[trigger] commit_at(av, ns@[j]@) is Some,
            forall|j: int| 0 <= j < i ==> #[trigger] r@[j]@ == (ns@[j]@, commit_at(av, ns@[j]@).unwrap()),
        decreases ns@.len() - i,
    {
        match find_commit(all, &ns[i]) {
            Some(c) => {
                let n = ns[i].clone();
                proof {
                    assert(n@ =~= ns@[i as int]@);
                }
                r.push(Patch { name: n, commit: c });
            },
            None => {
                proof {
                    assert(commit_at(av, bytes_view(ns@)[i as int]) is None);
                }
                return None;
            },
        }
        i = i + 1;
    }
    proof {
        assert(patches_view(r@) =~= bind_names(av, bytes_view(ns@)));
        assert forall|j: int| 0 <= j < ns@.len() implies #[trigger] commit_at(av, bytes_view(ns@)[j]) is Some by {
            assert(bytes_view(ns@)[j] == ns@[j]@);
        }
    }
    Some(r)
}

} // verus!
