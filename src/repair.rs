//! Repair: reconcile the recorded stack with a branch that was changed by
//! plain repository commands.

use vstd::prelude::*;
use vstd::set_lib::*;
use vstd::utf8::encode_utf8;

use crate::error::StackError;
use crate::graph::CommitGraph;
use crate::names::{made_name, make_name, suffixed, taken, uniquified, uniquify};
use crate::transaction::{bind_names, executed, names, StackUpdate, Transaction};
use crate::outside::{lossy_text, text_lossy, commit_set_contains, commit_set_is_empty, commit_set_insert, commit_set_items, commit_set_new, commit_set_pop};
use crate::registry::{find_name, name_at, names_of, patches_view, Patch, PatchView, Stack, StackState};

verus! {

/// The views of a list of byte strings.
pub open spec fn bytes_view(v: Seq<Vec<u8>>) -> Seq<Seq<u8>> {
    v.map_values(|b: Vec<u8>| b@)
}

/// The first-parent walk from commit `c`, given what was gathered so far:
/// `found` holds the names of known patches met (topmost first),
/// `definite` the plain commits below a known patch, `maybe` the plain
/// commits met since the last known patch. It stops at a commit that does
/// not have exactly one parent, or right after stepping onto `base`. The
/// result is the names found, the commits to turn into patches (topmost
/// first) and the commit where the walk stopped.
pub open spec fn walk_from(
    g: CommitGraph,
    all: Seq<PatchView>,
    base: usize,
    c: usize,
    found: Seq<Seq<u8>>,
    definite: Seq<usize>,
    maybe: Seq<usize>,
) -> (Seq<Seq<u8>>, Seq<usize>, usize)
    decreases c,
{
    if g.has(c) && g.parents_of(c).len() == 1 && g.parents_of(c)[0] < c {
        let p = g.parents_of(c)[0];
        let f2 = match name_at(all, c) {
            Some(n) => found.push(n),
            None => found,
        };
        let d2 = match name_at(all, c) {
            Some(n) => definite + maybe,
            None => definite,
        };
        let m2 = match name_at(all, c) {
            Some(n) => Seq::<usize>::empty(),
            None => maybe.push(c),
        };
        if p == base {
            (f2, d2 + m2, p)
        } else {
            walk_from(g, all, base, p, f2, d2, m2)
        }
    } else {
        (found, definite, c)
    }
}

/// The walk from the branch head of `s` over the patches of `s`.
pub open spec fn walk(g: CommitGraph, s: Stack) -> (Seq<Seq<u8>>, Seq<usize>, usize) {
    walk_from(
        g,
        s.state.all_view(),
        s.state.base,
        s.branch_head,
        Seq::empty(),
        Seq::empty(),
        Seq::empty(),
    )
}

/// The commits that the walk visits from `c` on, topmost first: each of
/// them has exactly one parent.
pub open spec fn trail_from(g: CommitGraph, base: usize, c: usize) -> Seq<usize>
    decreases c,
{
    if g.has(c) && g.parents_of(c).len() == 1 && g.parents_of(c)[0] < c {
        let p = g.parents_of(c)[0];
        if p == base {
            seq![c]
        } else {
            seq![c] + trail_from(g, base, p)
        }
    } else {
        Seq::empty()
    }
}

/// The result of a first-parent walk, in the order the stack wants it.
pub struct Walk {
    /// Known patches on the trail, bottommost first.
    pub found: Vec<Vec<u8>>,
    /// Plain commits to become patches, oldest first.
    pub patchify: Vec<usize>,
    /// The commit where the walk stopped.
    pub stop: usize,
}

/// A reversed copy of a list of names.
fn reversed_names(v: Vec<Vec<u8>>) -> (r: Vec<Vec<u8>>)
    ensures
        r@ == v@.reverse(),
{
    let mut r: Vec<Vec<u8>> = Vec::new();
    let mut v = v;
    let ghost v0 = v@;
    while v.len() > 0
        invariant
            v0 == v@ + r@.reverse(),
        decreases v@.len(),
    {
        let x = v.pop().unwrap();
        r.push(x);
        proof {
            assert(v0 =~= v@ + r@.reverse());
        }
    }
    proof {
        assert(v0.reverse() =~= r@);
    }
    r
}

/// A reversed copy of a list of commits.
fn reversed_commits(v: Vec<usize>) -> (r: Vec<usize>)
    ensures
        r@ == v@.reverse(),
{
    let mut r: Vec<usize> = Vec::new();
    let mut v = v;
    let ghost v0 = v@;
    while v.len() > 0
        invariant
            v0 == v@ + r@.reverse(),
        decreases v@.len(),
    {
        let x = v.pop().unwrap();
        r.push(x);
        proof {
            assert(v0 =~= v@ + r@.reverse());
        }
    }
    proof {
        assert(v0.reverse() =~= r@);
    }
    r
}

/// Moves every item of `from` to the end of `to`.
fn move_all(to: &mut Vec<usize>, from: &mut Vec<usize>)
    ensures
        final(to)@ == old(to)@ + old(from)@,
        final(from)@ == Seq::<usize>::empty(),
{
    to.append(from);
}

/// Walks from the branch head along first parents, sorting commits into
/// known patches and plain commits, as [`walk_from`] states.
pub fn walk_branch(g: &CommitGraph, s: &Stack) -> (r: Walk)
    requires
        g.wf(),
        g.has(s.branch_head),
    ensures
        bytes_view(r.found@) == walk(*g, *s).0.reverse(),
        r.patchify@ == walk(*g, *s).1.reverse(),
        r.stop == walk(*g, *s).2,
        g.has(r.stop),
{
    let all = s.all_patches();
    let ghost av = s.state.all_view();
    let base = s.state.base;
    let mut found: Vec<Vec<u8>> = Vec::new();
    let mut patchify: Vec<usize> = Vec::new();
    let mut maybe: Vec<usize> = Vec::new();
    let mut commit = s.branch_head;
    let mut done = false;
    proof {
        assert(bytes_view(found@) =~= Seq::<Seq<u8>>::empty());
    }
    while !done && g.parent_count(commit) == 1
        invariant
            g.wf(),
            g.has(commit),
            patches_view(all@) == av,
            av == s.state.all_view(),
            base == s.state.base,
            !done ==> walk(*g, *s) == walk_from(
                *g,
                av,
                base,
                commit,
                bytes_view(found@),
                patchify@,
                maybe@,
            ),
            done ==> walk(*g, *s) == (bytes_view(found@), patchify@, commit),
        decreases commit + if done { 0int } else { 1int },
    {
        let parent = g.first_parent(commit);
        proof {
            assert(g.parents_of(commit)[0] < commit);
        }
        let ghost f0 = bytes_view(found@);
        let ghost d0 = patchify@;
        let ghost m0 = maybe@;
        match find_name(&all, commit) {
            Some(n) => {
                found.push(n);
                move_all(&mut patchify, &mut maybe);
            },
            None => {
                maybe.push(commit);
            },
        }
        proof {
            assert(bytes_view(found@) =~= match name_at(av, commit) {
                Some(n) => f0.push(n),
                None => f0,
            });
            assert(maybe@ =~= match name_at(av, commit) {
                Some(n) => Seq::<usize>::empty(),
                None => m0.push(commit),
            });
        }
        commit = parent;
        if commit == base {
            move_all(&mut patchify, &mut maybe);
            done = true;
        }
    }
    Walk { found: reversed_names(found), patchify: reversed_commits(patchify), stop: commit }
}

/// Commit `x` is `a` or an ancestor of `a`.
pub open spec fn reaches(g: CommitGraph, a: usize, x: usize) -> bool
    decreases a, g.parents_of(a).len() + 1,
{
    a == x || (g.has(a) && parent_reaches(g, a, x, 0))
}

/// Some parent of `a` from the `j`-th on is, or leads to, commit `x`.
pub open spec fn parent_reaches(g: CommitGraph, a: usize, x: usize, j: int) -> bool
    decreases a, g.parents_of(a).len() - j,
    when 0 <= j
{
    if j < g.parents_of(a).len() {
        (g.parents_of(a)[j] < a && reaches(g, g.parents_of(a)[j], x)) || parent_reaches(g, a, x, j + 1)
    } else {
        false
    }
}

/// Spells out [`parent_reaches`] as the parent that leads to `x`.
proof fn lemma_parent_reaches(g: CommitGraph, a: usize, x: usize, j: int)
    requires
        0 <= j,
    ensures
        parent_reaches(g, a, x, j) <==> exists|k: int|
            j <= k < g.parents_of(a).len() && g.parents_of(a)[k] < a && #[trigger] reaches(
                g,
                g.parents_of(a)[k],
                x,
            ),
    decreases g.parents_of(a).len() - j,
{
    if j < g.parents_of(a).len() {
        lemma_parent_reaches(g, a, x, j + 1);
        if g.parents_of(a)[j] < a && reaches(g, g.parents_of(a)[j], x) {
            assert(j <= j < g.parents_of(a).len() && g.parents_of(a)[j] < a && reaches(
                g,
                g.parents_of(a)[j],
                x,
            ));
        }
        if exists|k: int|
            j <= k < g.parents_of(a).len() && g.parents_of(a)[k] < a && #[trigger] reaches(
                g,
                g.parents_of(a)[k],
                x,
            ) {
            let k = choose|k: int|
                j <= k < g.parents_of(a).len() && g.parents_of(a)[k] < a && #[trigger] reaches(
                    g,
                    g.parents_of(a)[k],
                    x,
                );
            if k != j {
                assert(j + 1 <= k);
            }
        }
    }
}

/// The number of patches of `all` whose commit is `m` or an ancestor of `m`.
pub open spec fn patches_below(g: CommitGraph, all: Seq<PatchView>, m: usize) -> nat {
    all.filter(|p: PatchView| reaches(g, m, p.1)).len()
}

/// The numbers up to `n`, `n` included.
pub open spec fn upto(n: usize) -> Set<usize> {
    Set::new(|y: usize| y <= n)
}

proof fn lemma_upto(n: usize)
    ensures
        upto(n).finite(),
        upto(n).len() == n + 1,
    decreases n,
{
    if n == 0 {
        assert(upto(n) =~= Set::<usize>::empty().insert(0));
    } else {
        lemma_upto((n - 1) as usize);
        assert(upto((n - 1) as usize).insert(n) =~= upto(n));
    }
}

proof fn lemma_reaches_trans(g: CommitGraph, a: usize, b: usize, c: usize)
    requires
        reaches(g, a, b),
        reaches(g, b, c),
    ensures
        reaches(g, a, c),
    decreases a,
{
    if a != b {
        lemma_parent_reaches(g, a, b, 0);
        lemma_parent_reaches(g, a, c, 0);
        let j = choose|j: int|
            0 <= j < g.parents_of(a).len() && g.parents_of(a)[j] < a && #[trigger] reaches(
                g,
                g.parents_of(a)[j],
                b,
            );
        lemma_reaches_trans(g, g.parents_of(a)[j], b, c);
    }
}

proof fn lemma_seq_push_keeps(s: Seq<usize>, t: Seq<usize>, p: usize)
    requires
        t == s || t == s.push(p),
    ensures
        forall|z: usize| #[trigger] t.contains(z) ==> s.contains(z) || z == p,
        forall|z: usize| s.contains(z) ==> #[trigger] t.contains(z),
        t.contains(p) || t == s,
{
    assert forall|z: usize| s.contains(z) implies #[trigger] t.contains(z) by {
        let i = choose|i: int| 0 <= i < s.len() && s[i] == z;
        assert(t[i] == z);
    }
    assert forall|z: usize| #[trigger] t.contains(z) implies s.contains(z) || z == p by {
        let i = choose|i: int| 0 <= i < t.len() && t[i] == z;
        if i < s.len() {
            assert(s[i] == z);
        }
    }
    if t != s {
        assert(t[s.len() as int] == p);
    }
}

/// A set of commits that holds the parents of each of its members holds
/// every ancestor of each of its members.
proof fn lemma_closed_holds_ancestors(g: CommitGraph, s: Set<usize>, a: usize, x: usize)
    requires
        g.wf(),
        s.contains(a),
        forall|y: usize, j: int|
            s.contains(y) && g.has(y) && 0 <= j < g.parents_of(y).len() ==> s.contains(
                #[trigger] g.parents_of(y)[j],
            ),
        reaches(g, a, x),
    ensures
        s.contains(x),
    decreases a,
{
    if a != x {
        lemma_parent_reaches(g, a, x, 0);
        let j = choose|j: int|
            0 <= j < g.parents_of(a).len() && g.parents_of(a)[j] < a && #[trigger] reaches(
                g,
                g.parents_of(a)[j],
                x,
            );
        lemma_closed_holds_ancestors(g, s, g.parents_of(a)[j], x);
    }
}

/// Counts the patches of `all` whose commit is `m` or an ancestor of `m`,
/// after a worklist scan over the ancestry of `m`.
pub fn count_patches_below(g: &CommitGraph, all: &Vec<Patch>, m: usize) -> (r: usize)
    requires
        g.wf(),
        g.has(m),
    ensures
        r == patches_below(*g, patches_view(all@), m),
{
    let ghost av = patches_view(all@);
    let total = g.commits.len();
    let mut todo = commit_set_new();
    commit_set_insert(&mut todo, m);
    let mut seen = commit_set_new();
    let ghost mut sset: Set<usize> = Set::empty();
    proof {
        lemma_upto(m);
        assert(commit_set_items(todo) =~= seq![m]);
        assert(commit_set_items(todo)[0] == m);
    }
    while !commit_set_is_empty(&todo)
        invariant
            g.wf(),
            g.has(m),
            m < usize::MAX,
            av == patches_view(all@),
            commit_set_items(todo).no_duplicates(),
            forall|x: usize| #[trigger]
                commit_set_items(todo).contains(x) ==> x <= m && reaches(*g, m, x)
                    && !sset.contains(x),
            forall|x: usize| #[trigger]
                commit_set_items(seen).contains(x) <==> sset.contains(x),
            forall|x: usize| #[trigger] sset.contains(x) ==> x <= m && reaches(*g, m, x),
            forall|y: usize, j: int|
                sset.contains(y) && g.has(y) && 0 <= j < g.parents_of(y).len() ==> (sset.contains(
                    #[trigger] g.parents_of(y)[j],
                ) || commit_set_items(todo).contains(g.parents_of(y)[j])),
            sset.contains(m) || commit_set_items(todo).contains(m),
            sset.finite(),
            sset.subset_of(upto(m)),
            upto(m).finite(),
            upto(m).len() == m + 1,
        decreases m + 1 - sset.len(),
    {
        let ghost t_old = commit_set_items(todo);
        let x = commit_set_pop(&mut todo).unwrap();
        proof {
            assert(t_old[t_old.len() - 1] == x);
            assert(t_old.contains(x));
            assert(commit_set_items(todo).no_duplicates());
            assert(!commit_set_items(todo).contains(x)) by {
                let t0 = commit_set_items(todo).push(x);
                if commit_set_items(todo).contains(x) {
                    let i = choose|i: int| 0 <= i < commit_set_items(todo).len() && commit_set_items(todo)[i] == x;
                    assert(t0[i] == t0[t0.len() - 1]);
                }
            }
            lemma_len_subset(sset, upto(m));
        }
        let ghost s_old = commit_set_items(seen);
        commit_set_insert(&mut seen, x);
        proof {
            lemma_seq_push_keeps(s_old, commit_set_items(seen), x);
            assert forall|z: usize| #[trigger] commit_set_items(todo).contains(z) implies t_old.contains(z) && z != x by {
                let i = choose|i: int| 0 <= i < commit_set_items(todo).len() && commit_set_items(todo)[i] == z;
                assert(t_old[i] == z);
            }
            assert forall|z: usize| t_old.contains(z) && z != x implies #[trigger] commit_set_items(todo).contains(z) by {
                let i = choose|i: int| 0 <= i < t_old.len() && t_old[i] == z;
                assert(commit_set_items(todo)[i] == z);
            }
            sset = sset.insert(x);
            lemma_len_subset(sset, upto(m));
        }
        let n = g.commits[x].parents.len();
        let mut k: usize = 0;
        while k < n
            invariant
                g.wf(),
                g.has(m),
                x <= m,
                sset.contains(x),
                n == g.parents_of(x).len(),
                k <= n,
                commit_set_items(todo).no_duplicates(),
                forall|z: usize| #[trigger]
                    commit_set_items(todo).contains(z) ==> z <= m && reaches(*g, m, z)
                        && !sset.contains(z),
                forall|z: usize| #[trigger]
                    commit_set_items(seen).contains(z) <==> sset.contains(z),
                forall|z: usize| #[trigger] sset.contains(z) ==> z <= m && reaches(*g, m, z),
                forall|y: usize, j: int|
                    sset.contains(y) && y != x && g.has(y) && 0 <= j < g.parents_of(y).len() ==> (
                    sset.contains(#[trigger] g.parents_of(y)[j]) || commit_set_items(todo).contains(
                        g.parents_of(y)[j],
                    )),
                forall|j: int|
                    0 <= j < k ==> (sset.contains(#[trigger] g.parents_of(x)[j])
                        || commit_set_items(todo).contains(g.parents_of(x)[j])),
                sset.contains(m) || commit_set_items(todo).contains(m),
            decreases n - k,
        {
            let p = g.commits[x].parents[k];
            if !commit_set_contains(&seen, p) {
                let ghost t0 = commit_set_items(todo);
                commit_set_insert(&mut todo, p);
                proof {
                    assert(g.parents_of(x)[k as int] < x);
                    assert(reaches(*g, p, p));
                    assert(reaches(*g, g.parents_of(x)[k as int], p));
                    assert(g.has(x));
                    lemma_parent_reaches(*g, x, p, 0);
                    assert(reaches(*g, x, p));
                    lemma_reaches_trans(*g, m, x, p);
                    lemma_seq_push_keeps(t0, commit_set_items(todo), p);
                    if !t0.contains(p) {
                        assert(commit_set_items(todo) == t0.push(p));
                        assert(commit_set_items(todo).no_duplicates());
                    }
                }
            }
            k = k + 1;
        }
    }
    proof {
        assert forall|x: usize| #[trigger] commit_set_items(seen).contains(x) <==> reaches(*g, m, x) by {
            if reaches(*g, m, x) {
                lemma_closed_holds_ancestors(*g, sset, m, x);
            }
        }
    }
    let ghost pred = |p: PatchView| reaches(*g, m, p.1);
    let mut count: usize = 0;
    let mut i: usize = 0;
    while i < all.len()
        invariant
            i <= all@.len(),
            av == patches_view(all@),
            pred == (|p: PatchView| reaches(*g, m, p.1)),
            forall|x: usize| #[trigger] commit_set_items(seen).contains(x) <==> reaches(*g, m, x),
            count == av.take(i as int).filter(pred).len(),
            count <= i,
        decreases all@.len() - i,
    {
        proof {
            assert(av.take(i + 1) =~= av.take(i as int).push(av[i as int]));
            av.take(i as int).lemma_filter_push(av[i as int], pred);
        }
        if commit_set_contains(&seen, all[i].commit) {
            count = count + 1;
        }
        i = i + 1;
    }
    proof {
        assert(av.take(all@.len() as int) =~= av);
    }
    count
}

/// The names of `ns` that are not in `excl`, in order.
pub open spec fn without(ns: Seq<Seq<u8>>, excl: Seq<Seq<u8>>) -> Seq<Seq<u8>> {
    ns.filter(|n: Seq<u8>| !excl.contains(n))
}

/// The names of `ns` that are not in `excl`, in order.
pub fn names_without(ns: &Vec<Vec<u8>>, excl: &Vec<Vec<u8>>) -> (r: Vec<Vec<u8>>)
    ensures
        bytes_view(r@) == without(bytes_view(ns@), bytes_view(excl@)),
{
    let ghost ev = bytes_view(excl@);
    let ghost f = |n: Seq<u8>| !ev.contains(n);
    let mut r: Vec<Vec<u8>> = Vec::new();
    let mut i: usize = 0;
    while i < ns.len()
        invariant
            i <= ns@.len(),
            ev == bytes_view(excl@),
            f == (|n: Seq<u8>| !ev.contains(n)),
            bytes_view(r@) == bytes_view(ns@).take(i as int).filter(f),
        decreases ns@.len() - i,
    {
        let ghost before = bytes_view(ns@).take(i as int);
        proof {
            assert(bytes_view(ns@).take(i + 1) =~= before.push(ns@[i as int]@));
            before.lemma_filter_push(ns@[i as int]@, f);
        }
        if !crate::names::contains_name(excl, &ns[i]) {
            let n = ns[i].clone();
            proof {
                assert(n@ =~= ns@[i as int]@);
            }
            let ghost r0 = bytes_view(r@);
            r.push(n);
            proof {
                assert(bytes_view(r@) =~= r0.push(ns@[i as int]@));
            }
        }
        i = i + 1;
    }
    proof {
        assert(bytes_view(ns@).take(ns@.len() as int) =~= bytes_view(ns@));
    }
    r
}

/// How the three lists are reordered by a repair: the patches found on the
/// branch are applied (bottommost first); the other applied and the
/// unapplied patches become unapplied, in their order; hidden patches stay
/// hidden unless found.
pub struct RepairPlan {
    pub applied: Vec<Vec<u8>>,
    pub unapplied: Vec<Vec<u8>>,
    pub hidden: Vec<Vec<u8>>,
    /// Plain commits to turn into new patches, oldest first.
    pub patchify: Vec<usize>,
    /// Where the walk stopped, when that is not the stack base, with the
    /// number of patches bound to it or to one of its ancestors.
    pub merge: Option<(usize, usize)>,
}

/// The patches found by the walk, bottommost first.
pub open spec fn found_names(g: CommitGraph, s: Stack) -> Seq<Seq<u8>> {
    walk(g, s).0.reverse()
}

/// The unapplied list after a repair.
pub open spec fn repaired_unapplied(g: CommitGraph, s: Stack) -> Seq<Seq<u8>> {
    without(names_of(s.state.applied_view()), found_names(g, s)) + without(
        names_of(s.state.unapplied_view()),
        found_names(g, s),
    )
}

/// The hidden list after a repair.
pub open spec fn repaired_hidden(g: CommitGraph, s: Stack) -> Seq<Seq<u8>> {
    without(names_of(s.state.hidden_view()), found_names(g, s))
}

/// Computes the reordering and the commits to promote, as the walk and the
/// scan behind a merge state.
pub fn plan_repair(g: &CommitGraph, s: &Stack) -> (r: RepairPlan)
    requires
        g.wf(),
        g.has(s.branch_head),
    ensures
        bytes_view(r.applied@) == found_names(*g, *s),
        bytes_view(r.unapplied@) == repaired_unapplied(*g, *s),
        bytes_view(r.hidden@) == repaired_hidden(*g, *s),
        r.patchify@ == walk(*g, *s).1.reverse(),
        walk(*g, *s).2 == s.state.base ==> r.merge is None,
        walk(*g, *s).2 != s.state.base ==> r.merge == Some(
            (
                walk(*g, *s).2,
                patches_below(*g, s.state.all_view(), walk(*g, *s).2) as usize,
            ),
        ),
{
    let w = walk_branch(g, s);
    let merge = if w.stop != s.state.base {
        let all = s.all_patches();
        let n = count_patches_below(g, &all, w.stop);
        Some((w.stop, n))
    } else {
        None
    };
    let old_applied = names(&s.state.applied);
    let old_unapplied = names(&s.state.unapplied);
    let old_hidden = names(&s.state.hidden);
    let mut unapplied = names_without(&old_applied, &w.found);
    let mut rest = names_without(&old_unapplied, &w.found);
    let ghost u0 = bytes_view(unapplied@);
    let ghost r0 = bytes_view(rest@);
    unapplied.append(&mut rest);
    proof {
        assert(bytes_view(unapplied@) =~= u0 + r0);
    }
    let hidden = names_without(&old_hidden, &w.found);
    RepairPlan { applied: w.found, unapplied, hidden, patchify: w.patchify, merge }
}

/// What a repair did: the update to record, and what to tell the user.
pub struct RepairOutcome {
    pub update: StackUpdate,
    /// Patches that were not applied before and are now.
    pub now_applied: Vec<Vec<u8>>,
    /// Patches that were not unapplied before and are now.
    pub now_unapplied: Vec<Vec<u8>>,
    /// Where the walk stopped behind the patches, and how many patches are
    /// bound to that commit or to one of its ancestors.
    pub merge: Option<(usize, usize)>,
    /// The patches made from plain commits, in order.
    pub created: Vec<Vec<u8>>,
}

/// The new patches `np` were made, in order, from the commits `cs`, each
/// named from its message (read as text) and made unique against the names before it.
pub open spec fn promoted(
    g: CommitGraph,
    limit: nat,
    cs: Seq<usize>,
    np: Seq<PatchView>,
    lower: Seq<Seq<u8>>,
    upper: Seq<Seq<u8>>,
) -> bool {
    &&& np.len() == cs.len()
    &&& forall|i: int|
        0 <= i < np.len() ==> #[trigger] np[i].1 == cs[i] && uniquified(
            np[i].0,
            made_name(encode_utf8(lossy_text(g.commits@[cs[i] as int].message@)), limit, g.commits@[cs[i] as int].short_id@),
            Seq::empty(),
            lower + names_of(np.take(i)) + upper,
        )
}

proof fn lemma_promoted_step(
    g: CommitGraph,
    limit: nat,
    cs: Seq<usize>,
    np: Seq<PatchView>,
    name: Seq<u8>,
    c: usize,
    lower: Seq<Seq<u8>>,
    upper: Seq<Seq<u8>>,
)
    requires
        promoted(g, limit, cs, np, lower, upper),
        uniquified(
            name,
            made_name(encode_utf8(lossy_text(g.commits@[c as int].message@)), limit, g.commits@[c as int].short_id@),
            Seq::empty(),
            lower + names_of(np) + upper,
        ),
    ensures
        promoted(g, limit, cs.push(c), np.push((name, c)), lower, upper),
{
    let np2 = np.push((name, c));
    let cs2 = cs.push(c);
    assert forall|k: int| 0 <= k < np2.len() implies #[trigger] np2[k].1 == cs2[k] && uniquified(
        np2[k].0,
        made_name(encode_utf8(lossy_text(g.commits@[cs2[k] as int].message@)), limit, g.commits@[cs2[k] as int].short_id@),
        Seq::empty(),
        lower + names_of(np2.take(k)) + upper,
    ) by {
        if k < np.len() {
            assert(np2[k] == np[k]);
            assert(np2.take(k) =~= np.take(k));
            assert(cs2[k] == cs[k]);
            assert(np[k].1 == cs[k]);
        } else {
            assert(np2.take(k) =~= np);
        }
    }
}

/// Every commit that the walk hands on is in the graph.
proof fn lemma_walk_in_graph(
    g: CommitGraph,
    all: Seq<PatchView>,
    base: usize,
    c: usize,
    found: Seq<Seq<u8>>,
    definite: Seq<usize>,
    maybe: Seq<usize>,
)
    requires
        forall|k: int| 0 <= k < definite.len() ==> #[trigger] g.has(definite[k]),
        forall|k: int| 0 <= k < maybe.len() ==> #[trigger] g.has(maybe[k]),
    ensures
        forall|k: int|
            0 <= k < walk_from(g, all, base, c, found, definite, maybe).1.len() ==> #[trigger] g.has(
                walk_from(g, all, base, c, found, definite, maybe).1[k],
            ),
    decreases c,
{
    if g.has(c) && g.parents_of(c).len() == 1 && g.parents_of(c)[0] < c {
        let p = g.parents_of(c)[0];
        let d2 = match name_at(all, c) {
            Some(n) => definite + maybe,
            None => definite,
        };
        let m2 = match name_at(all, c) {
            Some(n) => Seq::<usize>::empty(),
            None => maybe.push(c),
        };
        let f2 = match name_at(all, c) {
            Some(n) => found.push(n),
            None => found,
        };
        assert forall|k: int| 0 <= k < d2.len() implies #[trigger] g.has(d2[k]) by {
            if k >= definite.len() {
                assert(d2[k] == maybe[k - definite.len()]);
            }
        }
        assert forall|k: int| 0 <= k < m2.len() implies #[trigger] g.has(m2[k]) by {
            if k < maybe.len() {
                assert(m2[k] == maybe[k]);
            }
        }
        if p == base {
            assert(walk_from(g, all, base, c, found, definite, maybe) == (f2, d2 + m2, p));
            assert forall|k: int| 0 <= k < (d2 + m2).len() implies #[trigger] g.has((d2 + m2)[k]) by {
                if k >= d2.len() {
                    assert((d2 + m2)[k] == m2[k - d2.len()]);
                } else {
                    assert((d2 + m2)[k] == d2[k]);
                }
            }
        } else {
            assert(walk_from(g, all, base, c, found, definite, maybe) == walk_from(g, all, base, p, f2, d2, m2));
            lemma_walk_in_graph(g, all, base, p, f2, d2, m2);
        }
    }
}

/// Repairs the stack after the branch was changed by plain commands: the
/// lists are reordered as [`plan_repair`] computes, each plain commit found
/// above a patch becomes a new applied patch, and the result is executed
/// as one transaction labelled `repair`.
pub fn run_repair_auto(g: &CommitGraph, s: &Stack, limit: usize) -> (r: Result<RepairOutcome, StackError>)
    requires
        g.wf(),
    ensures
        !s.initialized ==> r == Err::<RepairOutcome, StackError>(StackError::NotInitialized),
        s.initialized && s.protected ==> r == Err::<RepairOutcome, StackError>(StackError::ProtectedStack),
        s.initialized && !s.protected && !g.has(s.branch_head) ==> r == Err::<RepairOutcome, StackError>(
            StackError::RepositoryError,
        ),
        s.initialized && !s.protected && g.has(s.branch_head) && s.state.wf()
            && s.state.all_view().len() + 2 * g.commits@.len() < usize::MAX ==> r is Ok,
        s.initialized && !s.protected && g.has(s.branch_head) && s.state.wf() && r is Err ==> r
            == Err::<RepairOutcome, StackError>(StackError::InvalidPatchName),
        r is Ok ==> {
            let u = r->Ok_0.update;
            let base_list = bind_names(s.state.all_view(), found_names(*g, *s));
            let trail = trail_from(*g, s.state.base, s.branch_head);
            &&& s.initialized && !s.protected && g.has(s.branch_head)
            &&& u.state.applied_view().len() == base_list.len() + walk(*g, *s).1.len()
            &&& u.state.applied_view().take(base_list.len() as int) == base_list
            &&& forall|n: Seq<u8>|
                #[trigger] names_of(base_list).contains(n) <==> exists|k: int|
                    0 <= k < trail.len() && name_at(s.state.all_view(), #[trigger] trail[k]) == Some(n)
            &&& u.reflog@ == seq![114u8, 101, 112, 97, 105, 114]
            &&& promoted(
                *g,
                limit as nat,
                walk(*g, *s).1.reverse(),
                u.state.applied_view().skip(base_list.len() as int),
                found_names(*g, *s),
                repaired_unapplied(*g, *s) + repaired_hidden(*g, *s),
            )
            &&& u.state.unapplied_view() == bind_names(s.state.all_view(), repaired_unapplied(*g, *s))
            &&& u.state.hidden_view() == bind_names(s.state.all_view(), repaired_hidden(*g, *s))
            &&& u.state.head == if u.state.applied_view().len() == 0 { s.branch_head } else { u.state.applied_view().last().1 }
            &&& u.branch_head == u.state.head
            &&& bytes_view(r->Ok_0.created@) == names_of(u.state.applied_view().skip(base_list.len() as int))
            &&& bytes_view(r->Ok_0.now_applied@) == without(found_names(*g, *s), names_of(s.state.applied_view()))
            &&& bytes_view(r->Ok_0.now_unapplied@) == without(repaired_unapplied(*g, *s), names_of(s.state.unapplied_view()))
            &&& (walk(*g, *s).2 == s.state.base ==> r->Ok_0.merge is None)
            &&& (walk(*g, *s).2 != s.state.base ==> r->Ok_0.merge == Some(
                (
                    walk(*g, *s).2,
                    patches_below(*g, s.state.all_view(), walk(*g, *s).2) as usize,
                ),
            ))
        },
{
    if !s.initialized {
        return Err(StackError::NotInitialized);
    }
    if s.protected {
        return Err(StackError::ProtectedStack);
    }
    if s.branch_head >= g.commits.len() {
        return Err(StackError::RepositoryError);
    }
    let plan = plan_repair(g, s);
    let old_applied = names(&s.state.applied);
    let old_unapplied = names(&s.state.unapplied);
    let now_applied = names_without(&plan.applied, &old_applied);
    let now_unapplied = names_without(&plan.unapplied, &old_unapplied);
    let mut trans = Transaction::setup(s);
    trans.set_use_index_and_worktree(false);
    let ghost all0 = trans.all_view();
    proof {
        if s.state.wf() {
            assert(crate::transaction::all_known(all0, bytes_view(plan.applied@))
                && crate::transaction::all_known(all0, bytes_view(plan.unapplied@))
                && crate::transaction::all_known(all0, bytes_view(plan.hidden@))) by {
            crate::laws::lemma_plan_known(*g, *s);
            assert(all0 == s.state.all_view());
            assert forall|k: int| 0 <= k < bytes_view(plan.applied@).len() implies #[trigger] crate::registry::commit_at(all0, bytes_view(plan.applied@)[k]) is Some by {
                assert(found_names(*g, *s).contains(found_names(*g, *s)[k]));
            }
            assert forall|k: int| 0 <= k < bytes_view(plan.unapplied@).len() implies #[trigger] crate::registry::commit_at(all0, bytes_view(plan.unapplied@)[k]) is Some by {
                assert(repaired_unapplied(*g, *s).contains(repaired_unapplied(*g, *s)[k]));
            }
            assert forall|k: int| 0 <= k < bytes_view(plan.hidden@).len() implies #[trigger] crate::registry::commit_at(all0, bytes_view(plan.hidden@)[k]) is Some by {
                assert(repaired_hidden(*g, *s).contains(repaired_hidden(*g, *s)[k]));
            }
            }
        }
    }
    match trans.repair_appliedness(plan.applied, plan.unapplied, plan.hidden) {
        Ok(()) => {},
        Err(e) => {
            return Err(e);
        },
    }
    let ghost t1 = trans;
    let ghost lower = names_of(patches_view(t1.applied@));
    let ghost upper = names_of(patches_view(t1.unapplied@)) + names_of(patches_view(t1.hidden@));
    proof {
        lemma_walk_in_graph(*g, s.state.all_view(), s.state.base, s.branch_head, Seq::empty(), Seq::empty(), Seq::empty());
        assert forall|k: int| 0 <= k < plan.patchify@.len() implies #[trigger] g.has(plan.patchify@[k]) by {
            assert(plan.patchify@[k] == walk(*g, *s).1[walk(*g, *s).1.len() - 1 - k]);
        }
        assert(lower =~= found_names(*g, *s));
        assert(names_of(patches_view(t1.unapplied@)) =~= repaired_unapplied(*g, *s));
        assert(names_of(patches_view(t1.hidden@)) =~= repaired_hidden(*g, *s));
    }
    let ghost base_len = trans.applied@.len();
    let ghost bounded = s.state.wf() && s.state.all_view().len() + 2 * g.commits@.len() < usize::MAX;
    proof {
        crate::laws::lemma_repair_sizes(*g, *s);
        assert(upper.len() == repaired_unapplied(*g, *s).len() + repaired_hidden(*g, *s).len());
    }
    let mut created: Vec<Vec<u8>> = Vec::new();
    let mut i: usize = 0;
    let no_names: Vec<Vec<u8>> = Vec::new();
    proof {
        assert(patches_view(trans.applied@).skip(base_len as int) =~= Seq::<PatchView>::empty());
        assert(patches_view(trans.applied@).take(base_len as int) =~= patches_view(t1.applied@));
    }
    while i < plan.patchify.len()
        invariant
            g.wf(),
            s.initialized && !s.protected && g.has(s.branch_head),
            patches_view(t1.applied@) == bind_names(s.state.all_view(), found_names(*g, *s)),
            patches_view(t1.unapplied@) == bind_names(s.state.all_view(), repaired_unapplied(*g, *s)),
            patches_view(t1.hidden@) == bind_names(s.state.all_view(), repaired_hidden(*g, *s)),
            plan.patchify@ == walk(*g, *s).1.reverse(),
            lower == found_names(*g, *s),
            upper == repaired_unapplied(*g, *s) + repaired_hidden(*g, *s),
            base_len == lower.len(),
            i <= plan.patchify@.len(),
            no_names@.len() == 0,
            trans.unapplied == t1.unapplied,
            trans.hidden == t1.hidden,
            trans.base == t1.base,
            trans.branch_head == t1.branch_head,
            trans.protected == t1.protected,
            trans.snapshot == t1.snapshot,
            forall|k: int| 0 <= k < plan.patchify@.len() ==> #[trigger] g.has(plan.patchify@[k]),
            trans.applied@.len() == base_len + i,
            patches_view(trans.applied@).take(base_len as int) == patches_view(t1.applied@),
            promoted(
                *g,
                limit as nat,
                plan.patchify@.take(i as int),
                patches_view(trans.applied@).skip(base_len as int),
                lower,
                upper,
            ),
            bytes_view(created@) == names_of(patches_view(trans.applied@).skip(base_len as int)),
            names_of(trans.all_view()).len() == base_len + i + upper.len(),
            bounded ==> base_len + plan.patchify@.len() + upper.len() < usize::MAX,
            bounded == (s.state.wf() && s.state.all_view().len() + 2 * g.commits@.len() < usize::MAX),
        decreases plan.patchify@.len() - i,
    {
        let c = plan.patchify[i];
        proof {
            assert(g.has(plan.patchify@[i as int]));
        }
        let text = text_lossy(&g.commits[c].message);
        let text_bytes = text.as_str().as_bytes_vec();
        let name = make_name(&text_bytes, limit, &g.commits[c].short_id);
        let disallow = trans.all_patches();
        proof {
            assert(disallow@.len() == bytes_view(disallow@).len());
            assert(disallow@.len() == base_len + i + upper.len());
            if bounded {
                assert(disallow@.len() < usize::MAX);
            }
        }
        if disallow.len() == usize::MAX {
            return Err(StackError::InvalidPatchName);
        }
        let unique = uniquify(&name, &no_names, &disallow);
        let ghost a_before = patches_view(trans.applied@);
        proof {
            assert(bytes_view(no_names@) =~= Seq::<Seq<u8>>::empty());
            assert(!bytes_view(no_names@).contains(unique@));
            assert(!names_of(trans.all_view()).contains(unique@));
            if !taken(name@, bytes_view(no_names@), bytes_view(disallow@)) {
                assert(unique@ == name@);
            } else {
                let k = choose|k: nat|
                    k >= 1 && unique@ == suffixed(name@, k) && !taken(unique@, bytes_view(no_names@), bytes_view(disallow@)) && forall|j: nat|
                        1 <= j < k ==> taken(#[trigger] suffixed(name@, j), bytes_view(no_names@), bytes_view(disallow@));
                assert(unique@.len() >= name@.len() + 1);
            }
        }
        match trans.new_applied(&unique, c) {
            Ok(()) => {},
            Err(e) => {
                return Err(e);
            },
        }
        let nc = unique.clone();
        proof {
            assert(nc@ =~= unique@);
        }
        let ghost cr0 = bytes_view(created@);
        created.push(nc);
        proof {
            let np = patches_view(trans.applied@).skip(base_len as int);
            let np0 = a_before.skip(base_len as int);
            assert(np =~= np0.push((unique@, c)));
            assert(np.take(i as int) =~= np0);
            assert(plan.patchify@.take(i + 1) =~= plan.patchify@.take(i as int).push(c));
            assert(patches_view(trans.applied@).take(base_len as int) =~= a_before.take(base_len as int));
            assert(bytes_view(no_names@) =~= Seq::<Seq<u8>>::empty());
            assert(a_before =~= patches_view(t1.applied@) + np0);
            assert(names_of(a_before + patches_view(t1.unapplied@) + patches_view(t1.hidden@)) =~= lower + names_of(np0) + upper);
            assert(bytes_view(created@) =~= cr0.push(unique@));
            assert(names_of(np) =~= names_of(np0).push(unique@));
            assert(bytes_view(created@) =~= names_of(np));
            assert(bytes_view(disallow@) =~= lower + names_of(np0) + upper);
            lemma_promoted_step(*g, limit as nat, plan.patchify@.take(i as int), np0, unique@, c, lower, upper);
            assert(names_of(trans.all_view()) =~= lower + names_of(np) + upper) by {
                assert(patches_view(trans.applied@) =~= patches_view(t1.applied@) + np);
            }
        }
        i = i + 1;
    }
    let reflog: Vec<u8> = vec![114u8, 101, 112, 97, 105, 114];
    proof {
        assert(reflog@ =~= seq![114u8, 101, 112, 97, 105, 114]);
        assert(plan.patchify@.take(plan.patchify@.len() as int) =~= plan.patchify@);
        crate::laws::law_repair_applies_trail_patches(*g, *s);
        assert(names_of(bind_names(s.state.all_view(), found_names(*g, *s))) =~= found_names(*g, *s));
        if s.state.wf() {
            assert(crate::transaction::execution_valid(trans)) by {
            let np = patches_view(trans.applied@).skip(base_len as int);
            crate::laws::law_repair_partitions(*g, *s, limit as nat, np);
            assert(patches_view(trans.applied@) =~= patches_view(t1.applied@) + np);
            assert(names_of(trans.all_view()) =~= found_names(*g, *s) + names_of(np) + repaired_unapplied(*g, *s) + repaired_hidden(*g, *s));
            assert(trans.snapshot == t1.snapshot);
            assert forall|j: int| 0 <= j < trans.snapshot@.len() implies names_of(trans.all_view()).contains(
                #[trigger] names_of(patches_view(trans.snapshot@))[j],
            ) by {
                assert(names_of(s.state.all_view()).contains(names_of(s.state.all_view())[j]));
            }
            }
        }
    }
    match trans.execute(&reflog) {
        Ok(update) => {
            proof {
                assert(plan.patchify@.take(plan.patchify@.len() as int) =~= plan.patchify@);
            }
            Ok(RepairOutcome { update, now_applied, now_unapplied, merge: plan.merge, created })
        },
        Err(e) => Err(e),
    }
}

/// Moves every patch to unapplied and records the live branch head as the
/// stack head, as one transaction labelled `repair-rewind`. Nothing is done
/// (`Ok(None)`) when the branch head already is the stack head.
pub fn run_repair_reset(s: &Stack) -> (r: Result<Option<StackUpdate>, StackError>)
    requires
        s.state.wf(),
    ensures
        !s.initialized ==> r == Err::<Option<StackUpdate>, StackError>(StackError::NotInitialized),
        s.initialized && s.protected ==> r == Err::<Option<StackUpdate>, StackError>(
            StackError::ProtectedStack,
        ),
        s.initialized && !s.protected ==> r is Ok,
        s.initialized && !s.protected && s.branch_head == s.state.head ==> r == Ok::<
            Option<StackUpdate>,
            StackError,
        >(None),
        s.initialized && !s.protected && s.branch_head != s.state.head ==> r is Ok && r->Ok_0 is Some,
        r is Ok && r->Ok_0 is Some ==> {
            let u = r->Ok_0->Some_0;
            &&& u.state.applied_view() == Seq::<PatchView>::empty()
            &&& u.state.unapplied_view() == s.state.applied_view() + s.state.unapplied_view()
            &&& u.state.hidden_view() == s.state.hidden_view()
            &&& u.state.head == s.branch_head
            &&& u.state.base == s.branch_head
            &&& u.branch_head == s.branch_head
            &&& u.reflog@ == seq![114u8, 101, 112, 97, 105, 114, 45, 114, 101, 119, 105, 110, 100]
        },
{
    if !s.initialized {
        return Err(StackError::NotInitialized);
    }
    if s.protected {
        return Err(StackError::ProtectedStack);
    }
    if s.branch_head == s.state.head {
        return Ok(None);
    }
    let mut trans = Transaction::setup(s);
    trans.set_use_index_and_worktree(false);
    let mut unapplied = crate::registry::copy_patches(&s.state.applied);
    let mut rest = crate::registry::copy_patches(&s.state.unapplied);
    let ghost u0 = unapplied@;
    let ghost r0 = rest@;
    unapplied.append(&mut rest);
    proof {
        assert(patches_view(unapplied@) =~= patches_view(u0) + patches_view(r0));
    }
    let state = StackState {
        applied: Vec::new(),
        unapplied,
        hidden: crate::registry::copy_patches(&s.state.hidden),
        base: s.branch_head,
        head: s.branch_head,
    };
    trans.reset_to_state(state, s.branch_head);
    proof {
        assert(patches_view(trans.applied@) =~= Seq::<PatchView>::empty());
        assert(trans.all_view() =~= s.state.all_view());
        assert forall|j: int| 0 <= j < trans.snapshot@.len() implies names_of(trans.all_view()).contains(
            #[trigger] names_of(patches_view(trans.snapshot@))[j],
        ) by {
            assert(names_of(trans.all_view())[j] == names_of(patches_view(trans.snapshot@))[j]);
        }
    }
    let reflog: Vec<u8> = vec![114u8, 101, 112, 97, 105, 114, 45, 114, 101, 119, 105, 110, 100];
    proof {
        assert(reflog@ =~= seq![114u8, 101, 112, 97, 105, 114, 45, 114, 101, 119, 105, 110, 100]);
    }
    match trans.execute(&reflog) {
        Ok(u) => Ok(Some(u)),
        Err(e) => Err(e),
    }
}

} // verus!
