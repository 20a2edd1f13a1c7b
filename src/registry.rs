use vstd::prelude::*;

verus! {

/// A patch: a name bound to a commit of the graph.
#[derive(Debug)]
pub struct Patch {
    pub name: Vec<u8>,
    pub commit: usize,
}

/// The mathematical view of a patch: its name and its commit.
pub type PatchView = (Seq<u8>, usize);

impl View for Patch {
    type V = PatchView;

    open spec fn view(&self) -> PatchView {
        (self.name@, self.commit)
    }
}

/// The views of a list of patches.
pub open spec fn patches_view(ps: Seq<Patch>) -> Seq<PatchView> {
    ps.map_values(|p: Patch| p@)
}

/// The names of a list of patch views, in order.
pub open spec fn names_of(ps: Seq<PatchView>) -> Seq<Seq<u8>> {
    ps.map_values(|p: PatchView| p.0)
}

/// The commits of a list of patch views, in order.
pub open spec fn commits_of(ps: Seq<PatchView>) -> Seq<usize> {
    ps.map_values(|p: PatchView| p.1)
}

/// The name of the first patch in `ps` bound to commit `c`.
pub open spec fn name_at(ps: Seq<PatchView>, c: usize) -> Option<Seq<u8>>
    decreases ps.len(),
{
    if ps.len() == 0 {
        None
    } else if ps[0].1 == c {
        Some(ps[0].0)
    } else {
        name_at(ps.drop_first(), c)
    }
}

/// The commit bound to the first patch of `ps` named `n`.
pub open spec fn commit_at(ps: Seq<PatchView>, n: Seq<u8>) -> Option<usize>
    decreases ps.len(),
{
    if ps.len() == 0 {
        None
    } else if ps[0].0 == n {
        Some(ps[0].1)
    } else {
        commit_at(ps.drop_first(), n)
    }
}

/// A copy of a patch.
pub fn copy_patch(p: &Patch) -> (r: Patch)
    ensures
        r@ == p@,
{
    let name = p.name.clone();
    proof {
        assert(name@ =~= p.name@);
    }
    Patch { name, commit: p.commit }
}

/// A copy of a list of patches.
pub fn copy_patches(ps: &Vec<Patch>) -> (r: Vec<Patch>)
    ensures
        patches_view(r@) == patches_view(ps@),
{
    let mut r: Vec<Patch> = Vec::new();
    let mut i: usize = 0;
    while i < ps.len()
        invariant
            i <= ps@.len(),
            r@.len() == i,
            forall|j: int| 0 <= j < i ==> #[trigger] r@[j]@ == ps@[j]@,
        decreases ps@.len() - i,
    {
        let p = copy_patch(&ps[i]);
        r.push(p);
        i = i + 1;
    }
    proof {
        assert(patches_view(r@) =~= patches_view(ps@));
    }
    r
}

/// Byte-wise equality of two names.
pub fn same_name(a: &Vec<u8>, b: &Vec<u8>) -> (r: bool)
    ensures
        r == (a@ == b@),
{
    if a.len() != b.len() {
        return false;
    }
    let mut i: usize = 0;
    while i < a.len()
        invariant
            a@.len() == b@.len(),
            i <= a@.len(),
            forall|j: int| 0 <= j < i ==> a@[j] == b@[j],
        decreases a@.len() - i,
    {
        if a[i] != b[i] {
            return false;
        }
        i = i + 1;
    }
    proof {
        assert(a@ =~= b@);
    }
    true
}

/// The recorded state of a stack: three ordered lists of patches, the
/// stack base and the stack head.
#[derive(Debug)]
pub struct StackState {
    pub applied: Vec<Patch>,
    pub unapplied: Vec<Patch>,
    pub hidden: Vec<Patch>,
    pub base: usize,
    pub head: usize,
}

impl StackState {
    pub open spec fn applied_view(&self) -> Seq<PatchView> {
        patches_view(self.applied@)
    }

    pub open spec fn unapplied_view(&self) -> Seq<PatchView> {
        patches_view(self.unapplied@)
    }

    pub open spec fn hidden_view(&self) -> Seq<PatchView> {
        patches_view(self.hidden@)
    }

    /// Every patch: applied, then unapplied, then hidden.
    pub open spec fn all_view(&self) -> Seq<PatchView> {
        self.applied_view() + self.unapplied_view() + self.hidden_view()
    }

    /// Each patch name occurs once over the three lists.
    pub open spec fn wf(&self) -> bool {
        names_of(self.all_view()).no_duplicates()
    }
}

/// A stack as an operation sees it when it starts: the recorded state, the
/// live tip of the branch, and the configuration read once.
#[derive(Debug)]
pub struct Stack {
    pub state: StackState,
    pub branch_head: usize,
    pub protected: bool,
    pub initialized: bool,
}

impl Stack {
    /// Every patch of the stack, applied first, then unapplied, then hidden.
    pub fn all_patches(&self) -> (r: Vec<Patch>)
        ensures
            patches_view(r@) == self.state.all_view(),
    {
        let mut r = copy_patches(&self.state.applied);
        let mut u = copy_patches(&self.state.unapplied);
        let mut h = copy_patches(&self.state.hidden);
        r.append(&mut u);
        r.append(&mut h);
        proof {
            assert(patches_view(r@) =~= self.state.all_view());
        }
        r
    }

    /// Whether each patch name occurs once over the three lists.
    pub fn is_wf(&self) -> (r: bool)
        ensures
            r == self.state.wf(),
    {
        let all = self.all_patches();
        crate::transaction::names_distinct(&all)
    }

    /// The commit of the patch named `name`, if there is one.
    pub fn commit_of(&self, name: &Vec<u8>) -> (r: Option<usize>)
        ensures
            r == commit_at(self.state.all_view(), name@),
    {
        let all = self.all_patches();
        find_commit(&all, name)
    }

    /// The name of the first patch bound to commit `c`, if any.
    pub fn name_of(&self, c: usize) -> (r: Option<Vec<u8>>)
        ensures
            match r {
                Some(n) => name_at(self.state.all_view(), c) == Some(n@),
                None => name_at(self.state.all_view(), c) is None,
            },
    {
        let all = self.all_patches();
        find_name(&all, c)
    }
}

/// The name of the first patch of `ps` bound to commit `c`.
pub fn find_name(ps: &Vec<Patch>, c: usize) -> (r: Option<Vec<u8>>)
    ensures
        match r {
            Some(n) => name_at(patches_view(ps@), c) == Some(n@),
            None => name_at(patches_view(ps@), c) is None,
        },
{
    let ghost v = patches_view(ps@);
    let mut i: usize = 0;
    proof {
        assert(v.subrange(0, v.len() as int) =~= v);
    }
    while i < ps.len()
        invariant
            i <= ps@.len(),
            v == patches_view(ps@),
            name_at(v, c) == name_at(v.subrange(i as int, v.len() as int), c),
        decreases ps@.len() - i,
    {
        proof {
            assert(v.subrange(i as int, v.len() as int).drop_first()
                =~= v.subrange(i + 1, v.len() as int));
        }
        if ps[i].commit == c {
            let n = ps[i].name.clone();
            proof {
                assert(n@ =~= ps@[i as int].name@);
            }
            return Some(n);
        }
        i = i + 1;
    }
    None
}

/// The commit of the first patch of `ps` named `n`.
pub fn find_commit(ps: &Vec<Patch>, n: &Vec<u8>) -> (r: Option<usize>)
    ensures
        r == commit_at(patches_view(ps@), n@),
{
    let ghost v = patches_view(ps@);
    let mut i: usize = 0;
    proof {
        assert(v.subrange(0, v.len() as int) =~= v);
    }
    while i < ps.len()
        invariant
            i <= ps@.len(),
            v == patches_view(ps@),
            commit_at(v, n@) == commit_at(v.subrange(i as int, v.len() as int), n@),
        decreases ps@.len() - i,
    {
        proof {
            assert(v.subrange(i as int, v.len() as int).drop_first() =~= v.subrange(
                i + 1,
                v.len() as int,
            ));
        }
        if same_name(&ps[i].name, n) {
            return Some(ps[i].commit);
        }
        i = i + 1;
    }
    None
}

} // verus!
