use stack_repair::error::StackError;
use stack_repair::graph::{CommitGraph, CommitNode, Signature};
use stack_repair::registry::{Patch, Stack, StackState};
use stack_repair::repair::{run_repair_auto, run_repair_reset};
use stack_repair::spill::{run_spill, WorkdirStatus};

fn sig(name: &str, time: i64) -> Signature {
    Signature { name: name.as_bytes().to_vec(), email: b"dev@example.org".to_vec(), time }
}

fn tree_id(n: u64) -> Vec<u8> {
    n.to_be_bytes().to_vec()
}

fn node(parents: Vec<usize>, tree: u64, msg: &str) -> CommitNode {
    CommitNode {
        parents,
        tree: tree_id(tree),
        author: sig("author", 1000),
        committer: sig("committer", 2000),
        message: msg.as_bytes().to_vec(),
        short_id: format!("c{}", tree).into_bytes(),
    }
}

fn patch(name: &str, commit: usize) -> Patch {
    Patch { name: name.as_bytes().to_vec(), commit }
}

fn stack(applied: Vec<Patch>, unapplied: Vec<Patch>, base: usize, head: usize, branch_head: usize) -> Stack {
    Stack {
        state: StackState { applied, unapplied, hidden: Vec::new(), base, head },
        branch_head,
        protected: false,
        initialized: true,
    }
}

fn names(ps: &[Patch]) -> Vec<String> {
    ps.iter().map(|p| String::from_utf8(p.name.clone()).unwrap()).collect()
}

fn strs(v: &[Vec<u8>]) -> Vec<String> {
    v.iter().map(|n| String::from_utf8(n.clone()).unwrap()).collect()
}

fn clean() -> WorkdirStatus {
    WorkdirStatus { mid_operation: false, conflicts: false, staged_changes: false }
}

#[test]
fn plain_commits_on_top_become_patches() {
    let g = CommitGraph {
        commits: vec![
            node(vec![], 10, "base"),
            node(vec![0], 11, "p1"),
            node(vec![1], 12, "p2"),
            node(vec![2], 13, "feat x"),
            node(vec![3], 14, "feat y"),
        ],
    };
    let s = stack(vec![patch("p1", 1), patch("p2", 2)], vec![], 0, 2, 4);
    let out = run_repair_auto(&g, &s, 30).unwrap();
    assert_eq!(names(&out.update.state.applied), vec!["p1", "p2", "feat-x", "feat-y"]);
    assert_eq!(out.update.state.applied[2].commit, 3);
    assert_eq!(out.update.state.applied[3].commit, 4);
    assert!(out.update.state.unapplied.is_empty());
    assert!(out.now_applied.is_empty());
    assert!(out.now_unapplied.is_empty());
    assert_eq!(strs(&out.created), vec!["feat-x", "feat-y"]);
    assert!(out.merge.is_none());
    assert_eq!(out.update.state.head, 4);
    assert_eq!(out.update.branch_head, 4);
    assert_eq!(out.update.reflog, b"repair".to_vec());
}

#[test]
fn merge_above_patches_unapplies_them() {
    let g = CommitGraph {
        commits: vec![
            node(vec![], 10, "base"),
            node(vec![0], 11, "a"),
            node(vec![1], 12, "b"),
            node(vec![2], 13, "c"),
            node(vec![0], 14, "sibling"),
            node(vec![3, 4], 15, "merge"),
        ],
    };
    let s = stack(vec![patch("a", 1), patch("b", 2), patch("c", 3)], vec![], 0, 3, 5);
    let out = run_repair_auto(&g, &s, 30).unwrap();
    assert!(out.update.state.applied.is_empty());
    assert_eq!(names(&out.update.state.unapplied), vec!["a", "b", "c"]);
    assert_eq!(strs(&out.now_unapplied), vec!["a", "b", "c"]);
    assert_eq!(out.merge, Some((5, 3)));
    assert!(out.created.is_empty());
    assert_eq!(out.update.state.head, 5);
}

#[test]
fn reset_backwards_unapplies_upper_patches() {
    let g = CommitGraph {
        commits: vec![
            node(vec![], 10, "base"),
            node(vec![0], 11, "a"),
            node(vec![1], 12, "b"),
            node(vec![2], 13, "c"),
        ],
    };
    let s = stack(vec![patch("a", 1), patch("b", 2), patch("c", 3)], vec![], 0, 3, 1);
    let out = run_repair_auto(&g, &s, 30).unwrap();
    assert_eq!(names(&out.update.state.applied), vec!["a"]);
    assert_eq!(names(&out.update.state.unapplied), vec!["b", "c"]);
    assert_eq!(strs(&out.now_unapplied), vec!["b", "c"]);
    assert!(out.now_applied.is_empty());
    assert!(out.merge.is_none());
    assert_eq!(out.update.state.head, 1);
}

#[test]
fn amended_bottom_patch_is_promoted() {
    let g = CommitGraph {
        commits: vec![
            node(vec![], 10, "base"),
            node(vec![0], 11, "a"),
            node(vec![0], 12, "a amended"),
            node(vec![2], 13, "b"),
        ],
    };
    let s = stack(vec![patch("a", 1), patch("b", 3)], vec![], 0, 3, 3);
    let out = run_repair_auto(&g, &s, 30).unwrap();
    assert_eq!(names(&out.update.state.applied), vec!["b", "a-amended"]);
    assert_eq!(out.update.state.applied[1].commit, 2);
    assert_eq!(names(&out.update.state.unapplied), vec!["a"]);
    assert_eq!(strs(&out.now_unapplied), vec!["a"]);
    assert_eq!(strs(&out.created), vec!["a-amended"]);
    assert!(out.merge.is_none());
}

#[test]
fn repair_twice_changes_nothing_the_second_time() {
    let g = CommitGraph {
        commits: vec![
            node(vec![], 10, "base"),
            node(vec![0], 11, "p1"),
            node(vec![1], 12, "p2"),
            node(vec![2], 13, "feat x"),
        ],
    };
    let s = stack(vec![patch("p1", 1), patch("p2", 2)], vec![patch("q", 3)], 0, 2, 3);
    let first = run_repair_auto(&g, &s, 30).unwrap();
    assert_eq!(names(&first.update.state.applied), vec!["p1", "p2", "q"]);
    assert!(first.created.is_empty());
    let s2 = Stack { state: first.update.state, branch_head: first.update.branch_head, protected: false, initialized: true };
    let second = run_repair_auto(&g, &s2, 30).unwrap();
    assert_eq!(names(&second.update.state.applied), vec!["p1", "p2", "q"]);
    assert!(second.update.state.unapplied.is_empty());
    assert!(second.created.is_empty());
    assert!(second.now_applied.is_empty());
    assert!(second.now_unapplied.is_empty());
    assert_eq!(second.update.state.head, s2.state.head);
}

#[test]
fn new_patch_names_are_made_unique() {
    let g = CommitGraph {
        commits: vec![
            node(vec![], 10, "base"),
            node(vec![0], 11, "fix"),
            node(vec![1], 12, "Fix"),
            node(vec![2], 13, "FIX!"),
        ],
    };
    let s = stack(vec![patch("fix", 1)], vec![], 0, 1, 3);
    let out = run_repair_auto(&g, &s, 30).unwrap();
    assert_eq!(names(&out.update.state.applied), vec!["fix", "fix-1", "fix-2"]);
}

#[test]
fn protected_stack_rejects_repair_and_spill() {
    let mut g = CommitGraph { commits: vec![node(vec![], 10, "base"), node(vec![0], 11, "p")] };
    let mut s = stack(vec![patch("p", 1)], vec![], 0, 1, 1);
    s.protected = true;
    assert_eq!(run_repair_auto(&g, &s, 30).err(), Some(StackError::ProtectedStack));
    assert_eq!(run_repair_reset(&s).err(), Some(StackError::ProtectedStack));
    let committer = sig("me", 5000);
    let r = run_spill(&mut g, &s, &clean(), &None, &committer, false, &None);
    assert_eq!(r.err(), Some(StackError::ProtectedStack));
    assert_eq!(g.commits.len(), 2);
}

#[test]
fn uninitialized_stack_cannot_be_repaired() {
    let g = CommitGraph { commits: vec![node(vec![], 10, "base")] };
    let mut s = stack(vec![], vec![], 0, 0, 0);
    s.initialized = false;
    assert_eq!(run_repair_auto(&g, &s, 30).err(), Some(StackError::NotInitialized));
    assert_eq!(run_repair_reset(&s).err(), Some(StackError::NotInitialized));
}

#[test]
fn missing_branch_head_is_a_repository_error() {
    let g = CommitGraph { commits: vec![node(vec![], 10, "base")] };
    let s = stack(vec![], vec![], 0, 0, 7);
    assert_eq!(run_repair_auto(&g, &s, 30).err(), Some(StackError::RepositoryError));
}

#[test]
fn spill_top_patch_without_paths() {
    let mut g = CommitGraph { commits: vec![node(vec![], 100, "base"), node(vec![0], 200, "p\n\nbody")] };
    let s = stack(vec![patch("p", 1)], vec![], 0, 1, 1);
    let committer = sig("me", 5000);
    let out = run_spill(&mut g, &s, &clean(), &None, &committer, false, &None).unwrap();
    assert_eq!(out.commit, 2);
    assert_eq!(out.tree, tree_id(100));
    let c = &g.commits[2];
    assert_eq!(c.tree, tree_id(100));
    assert_eq!(c.parents, vec![0]);
    assert_eq!(c.message, b"p\n\nbody".to_vec());
    assert_eq!(c.author.name, b"author".to_vec());
    assert_eq!(c.committer.name, b"me".to_vec());
    assert_eq!(c.committer.time, 5000);
    assert_eq!(names(&out.update.state.applied), vec!["p"]);
    assert_eq!(out.update.state.applied[0].commit, 2);
    assert_eq!(out.update.state.head, 2);
    assert_eq!(out.update.branch_head, 2);
    assert_eq!(out.update.reflog, b"spill p".to_vec());
}

#[test]
fn spill_with_paths_annotation_and_author_date() {
    let mut g = CommitGraph { commits: vec![node(vec![], 100, "base"), node(vec![0], 200, "p")] };
    let s = stack(vec![patch("p", 1)], vec![patch("u", 1)], 0, 1, 1);
    let committer = sig("me", 5000);
    let out = run_spill(&mut g, &s, &clean(), &Some(tree_id(150)), &committer, true, &Some(b"note".to_vec())).unwrap();
    assert_eq!(g.commits[2].tree, tree_id(150));
    assert_eq!(g.commits[2].committer.time, 1000);
    assert_eq!(out.update.reflog, b"spill p\n\nnote".to_vec());
    assert_eq!(out.update.state.unapplied[0].commit, 1);
}

#[test]
fn spill_refusals() {
    let mut g = CommitGraph { commits: vec![node(vec![], 100, "base"), node(vec![0], 200, "p")] };
    let committer = sig("me", 5000);
    let empty = stack(vec![], vec![], 0, 0, 0);
    assert_eq!(run_spill(&mut g, &empty, &clean(), &None, &committer, false, &None).err(), Some(StackError::NoAppliedPatches));
    let s = stack(vec![patch("p", 1)], vec![], 0, 1, 1);
    let dirty = WorkdirStatus { mid_operation: false, conflicts: false, staged_changes: true };
    assert_eq!(run_spill(&mut g, &s, &dirty, &None, &committer, false, &None).err(), Some(StackError::DirtyWorkingTree));
    let mut uninit = stack(vec![patch("p", 1)], vec![], 0, 1, 1);
    uninit.initialized = false;
    assert_eq!(run_spill(&mut g, &uninit, &clean(), &None, &committer, false, &None).err(), Some(StackError::NoAppliedPatches));
    let moved = stack(vec![patch("p", 1)], vec![], 0, 1, 0);
    assert_eq!(run_spill(&mut g, &moved, &clean(), &None, &committer, false, &None).err(), Some(StackError::HeadTopMismatch));
    assert_eq!(g.commits.len(), 2);
}

#[test]
fn repair_reset_with_aligned_heads_does_nothing() {
    let s = stack(vec![patch("a", 1)], vec![], 0, 1, 1);
    assert!(run_repair_reset(&s).unwrap().is_none());
}

#[test]
fn repair_reset_unapplies_everything() {
    let s = stack(vec![patch("a", 1), patch("b", 2)], vec![patch("c", 3)], 0, 2, 5);
    let u = run_repair_reset(&s).unwrap().unwrap();
    assert!(u.state.applied.is_empty());
    assert_eq!(names(&u.state.unapplied), vec!["a", "b", "c"]);
    assert_eq!(u.state.head, 5);
    assert_eq!(u.state.base, 5);
    assert_eq!(u.branch_head, 5);
    assert_eq!(u.reflog, b"repair-rewind".to_vec());
}

#[test]
fn merge_warning_counts_patches_behind_it() {
    let g = CommitGraph {
        commits: vec![
            node(vec![], 10, "base"),
            node(vec![0], 11, "a"),
            node(vec![0], 12, "side"),
            node(vec![1, 2], 13, "merge"),
            node(vec![3], 14, "on top"),
        ],
    };
    let s = stack(vec![patch("a", 1)], vec![patch("a-again", 1), patch("s", 2), patch("far", 9)], 0, 1, 4);
    let out = run_repair_auto(&g, &s, 30).unwrap();
    assert_eq!(out.merge, Some((3, 3)));
    assert!(out.update.state.applied.is_empty());
    assert!(out.created.is_empty());
    assert_eq!(names(&out.update.state.unapplied), vec!["a", "a-again", "s", "far"]);
}
