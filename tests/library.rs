use stack_repair::error::StackError;
use stack_repair::gitdir::{GitDir, GitDirDataOps};
use stack_repair::graph::{CommitGraph, CommitNode, Signature};
use stack_repair::names::{make_name, uniquify};
use stack_repair::registry::{Patch, Stack, StackState};
use stack_repair::text::{
    bstring_prepend_lines, default_patch_prefix, generate_patch_id, make_interactive_template,
    parse_patch_prefix_from_patch_name, patch_id_from,
};
use stack_repair::transaction::Transaction;

fn patch(name: &str, commit: usize) -> Patch {
    Patch { name: name.as_bytes().to_vec(), commit }
}

fn stack_with(applied: Vec<Patch>) -> Stack {
    Stack {
        state: StackState { applied, unapplied: vec![patch("u", 9)], hidden: vec![patch("h", 8)], base: 0, head: 1 },
        branch_head: 1,
        protected: false,
        initialized: true,
    }
}

#[test]
fn names_from_titles() {
    assert_eq!(make_name(&b"Feat X\n\nlonger body".to_vec(), 30, &b"abc".to_vec()), b"feat-x".to_vec());
    assert_eq!(make_name(&b"  Fix: the (odd) bug!  ".to_vec(), 30, &b"abc".to_vec()), b"fix-the-odd-bug".to_vec());
    assert_eq!(make_name(&b"Hello World".to_vec(), 7, &b"abc".to_vec()), b"hello-w".to_vec());
    assert_eq!(make_name(&b"Hello World".to_vec(), 6, &b"abc".to_vec()), b"hello".to_vec());
    assert_eq!(make_name(&b"\nbody only".to_vec(), 30, &b"1a2b3c4".to_vec()), b"1a2b3c4".to_vec());
    assert_eq!(make_name(&b"!!!".to_vec(), 30, &b"".to_vec()), b"patch".to_vec());
}

#[test]
fn uniquify_picks_smallest_free_suffix() {
    let taken = vec![b"a".to_vec(), b"a-1".to_vec(), b"a-3".to_vec()];
    assert_eq!(uniquify(&b"a".to_vec(), &vec![], &taken), b"a-2".to_vec());
    assert_eq!(uniquify(&b"b".to_vec(), &vec![], &taken), b"b".to_vec());
    assert_eq!(uniquify(&b"a".to_vec(), &vec![b"a".to_vec()], &taken), b"a".to_vec());
    let many: Vec<Vec<u8>> = (0..12).map(|k| if k == 0 { b"x".to_vec() } else { format!("x-{}", k).into_bytes() }).collect();
    assert_eq!(uniquify(&b"x".to_vec(), &vec![], &many), b"x-12".to_vec());
}

#[test]
fn prefix_of_patch_names() {
    assert_eq!(parse_patch_prefix_from_patch_name("feature@x1y2z".to_string()), Some("feature".to_string()));
    assert_eq!(parse_patch_prefix_from_patch_name("a@b@c".to_string()), Some("a".to_string()));
    assert_eq!(parse_patch_prefix_from_patch_name("@x".to_string()), Some("".to_string()));
    assert_eq!(parse_patch_prefix_from_patch_name("plain".to_string()), None);
}

#[test]
fn default_prefix_comes_from_top_patch() {
    assert_eq!(default_patch_prefix(&stack_with(vec![patch("a", 1), patch("ui@3kd9x", 1)])), "ui");
    assert_eq!(default_patch_prefix(&stack_with(vec![patch("plain", 1)])), "misc");
    assert_eq!(default_patch_prefix(&stack_with(vec![])), "misc");
}

#[test]
fn generated_patch_ids() {
    let id = generate_patch_id(&"misc".to_string()).unwrap();
    assert_eq!(id.len(), 10);
    assert_eq!(&id[..5], b"misc@");
    assert!(id[5..].iter().all(|c| c.is_ascii_digit() || c.is_ascii_lowercase()));
    assert_eq!(generate_patch_id(&String::new()).err(), Some(StackError::InvalidPatchName));
    assert_eq!(patch_id_from(&"p".to_string(), &b"abcde".to_vec()).unwrap(), b"p@abcde".to_vec());
    assert_eq!(patch_id_from(&String::new(), &b"abcde".to_vec()).err(), Some(StackError::InvalidPatchName));
}

#[test]
fn interactive_template_lists_files() {
    let files = vec!["src/a.rs".to_string(), "README".to_string()];
    assert_eq!(make_interactive_template(&files), "spill src/a.rs\nspill README\n");
    assert_eq!(make_interactive_template(&vec![]), "");
}

#[test]
fn lines_get_prefixed() {
    assert_eq!(bstring_prepend_lines(&b"one\ntwo\r\nthree\n".to_vec(), &b"\t".to_vec()), b"\tone\n\ttwo\n\tthree".to_vec());
    assert_eq!(bstring_prepend_lines(&b"".to_vec(), &b"\t".to_vec()), b"".to_vec());
}

#[test]
fn data_files_placement() {
    let inside = GitDir { path: "/repo/.git".to_string(), edit_in_cwd: false };
    assert_eq!(inside.git_data_file("PATCH_EDIT"), "/repo/.git/PATCH_EDIT");
    let cwd = GitDir { path: "/repo/.git".to_string(), edit_in_cwd: true };
    assert_eq!(cwd.git_data_file("PATCH_EDIT"), "PATCH_EDIT");
}

#[test]
fn transaction_checks() {
    let s = stack_with(vec![patch("a", 1)]);
    let mut t = Transaction::setup(&s);
    assert_eq!(t.new_applied(&b"u".to_vec(), 4).err(), Some(StackError::InvalidPatchName));
    assert_eq!(t.new_applied(&b"".to_vec(), 4).err(), Some(StackError::InvalidPatchName));
    assert!(t.new_applied(&b"n".to_vec(), 4).is_ok());
    assert_eq!(t.update_patch(&b"zz".to_vec(), 5).err(), Some(StackError::InvalidPatchName));
    assert!(t.update_patch(&b"u".to_vec(), 5).is_ok());
    assert_eq!(t.unapplied[0].commit, 5);
    assert_eq!(
        t.repair_appliedness(vec![b"ghost".to_vec()], vec![], vec![]).err(),
        Some(StackError::InvariantViolation)
    );
    assert!(t.repair_appliedness(vec![b"a".to_vec()], vec![b"u".to_vec()], vec![b"h".to_vec()]).is_ok());
    assert!(t.execute(&b"x".to_vec()).is_ok());
    assert!(t.repair_appliedness(vec![b"a".to_vec(), b"n".to_vec()], vec![b"u".to_vec()], vec![b"h".to_vec()]).is_err());
    let mut t2 = Transaction::setup(&s);
    assert!(t2.repair_appliedness(vec![b"a".to_vec(), b"a".to_vec()], vec![b"u".to_vec()], vec![b"h".to_vec()]).is_ok());
    assert_eq!(t2.execute(&b"x".to_vec()).err(), Some(StackError::InvariantViolation));
    let t3 = Transaction::setup(&s);
    let u = t3.execute(&b"x".to_vec()).unwrap();
    assert_eq!(u.state.head, 1);
    assert_eq!(u.reflog, b"x".to_vec());
}

#[test]
fn registry_lookups() {
    let s = stack_with(vec![patch("a", 1), patch("b", 2)]);
    assert_eq!(s.name_of(2), Some(b"b".to_vec()));
    assert_eq!(s.name_of(8), Some(b"h".to_vec()));
    assert_eq!(s.name_of(5), None);
    assert_eq!(s.commit_of(&b"u".to_vec()), Some(9));
    assert_eq!(s.commit_of(&b"zz".to_vec()), None);
    let all: Vec<Vec<u8>> = s.all_patches().into_iter().map(|p| p.name).collect();
    assert_eq!(all, vec![b"a".to_vec(), b"b".to_vec(), b"u".to_vec(), b"h".to_vec()]);
}

#[test]
fn well_formedness_checks() {
    let sig = || Signature { name: vec![], email: vec![], time: 0 };
    let node = |parents: Vec<usize>| CommitNode { parents, tree: vec![0; 20], author: sig(), committer: sig(), message: vec![], short_id: vec![] };
    assert!(CommitGraph { commits: vec![node(vec![]), node(vec![0]), node(vec![0, 1])] }.is_wf());
    assert!(!CommitGraph { commits: vec![node(vec![]), node(vec![1])] }.is_wf());
    assert!(stack_with(vec![patch("a", 1)]).is_wf());
    assert!(!stack_with(vec![patch("u", 1)]).is_wf());
}
