use vstd::prelude::*;

verus! {

/// Who made a commit, and when (seconds since the epoch).
#[derive(Debug)]
pub struct Signature {
    pub name: Vec<u8>,
    pub email: Vec<u8>,
    pub time: i64,
}

/// One commit object. A commit is identified by its index in the
/// [`CommitGraph`]; its parents are indices too.
#[derive(Debug)]
pub struct CommitNode {
    pub parents: Vec<usize>,
    /// The object id of the commit's tree.
    pub tree: Vec<u8>,
    pub author: Signature,
    pub committer: Signature,
    pub message: Vec<u8>,
    /// The abbreviated object name, used when a commit has no usable title.
    pub short_id: Vec<u8>,
}

/// The commit DAG. Commits are numbered so that every parent comes before
/// its children: this is how acyclicity is represented.
#[derive(Debug)]
pub struct CommitGraph {
    pub commits: Vec<CommitNode>,
}

impl CommitGraph {
    /// Every parent of a commit is a commit of the graph with a smaller index.
    pub open spec fn wf(&self) -> bool {
        forall|i: int, j: int|
            0 <= i < self.commits@.len() && 0 <= j < self.commits@[i].parents@.len()
                ==> #[trigger] self.commits@[i].parents@[j] < i
    }

    pub open spec fn has(&self, c: usize) -> bool {
        c < self.commits@.len()
    }

    pub open spec fn parents_of(&self, c: usize) -> Seq<usize> {
        self.commits@[c as int].parents@
    }

    /// Whether every parent of a commit comes before it.
    pub fn is_wf(&self) -> (r: bool)
        ensures
            r == self.wf(),
    {
        let mut i: usize = 0;
        while i < self.commits.len()
            invariant
                i <= self.commits@.len(),
                forall|a: int, j: int|
                    0 <= a < i && 0 <= j < self.commits@[a].parents@.len()
                        ==> #[trigger] self.commits@[a].parents@[j] < a,
            decreases self.commits@.len() - i,
        {
            let mut j: usize = 0;
            while j < self.commits[i].parents.len()
                invariant
                    i < self.commits@.len(),
                    j <= self.commits@[i as int].parents@.len(),
                    forall|a: int, k: int|
                        0 <= a < i && 0 <= k < self.commits@[a].parents@.len()
                            ==> #[trigger] self.commits@[a].parents@[k] < a,
                    forall|k: int| 0 <= k < j ==> #[trigger] self.commits@[i as int].parents@[k] < i,
                decreases self.commits@[i as int].parents@.len() - j,
            {
                if self.commits[i].parents[j] >= i {
                    return false;
                }
                j = j + 1;
            }
            i = i + 1;
        }
        true
    }

    /// Number of parents of commit `c`.
    pub fn parent_count(&self, c: usize) -> (r: usize)
        requires
            self.has(c),
        ensures
            r == self.parents_of(c).len(),
    {
        self.commits[c].parents.len()
    }

    /// The first parent of commit `c`.
    pub fn first_parent(&self, c: usize) -> (r: usize)
        requires
            self.has(c),
            self.parents_of(c).len() > 0,
        ensures
            r == self.parents_of(c)[0],
    {
        self.commits[c].parents[0]
    }
}

} // verus!
