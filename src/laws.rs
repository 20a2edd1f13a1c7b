//! What holds of every repair: the applied patches are those on the branch,
//! no patch is lost or doubled, and a consistent stack is left as it is.

use vstd::prelude::*;
use vstd::seq_lib::lemma_no_dup_in_concat;

use crate::graph::CommitGraph;
use crate::names::taken;
use crate::registry::{commit_at, commits_of, name_at, names_of, PatchView, Stack};
use crate::repair::{
    found_names, promoted, repaired_hidden, repaired_unapplied, trail_from, walk, walk_from,
    without,
};
use crate::transaction::{bind_names, rebind};

verus! {

/// The names of the patches bound to the commits `cs`, in the order of `cs`
/// (the first patch for each commit).
pub open spec fn known_on(all: Seq<PatchView>, cs: Seq<usize>) -> Seq<Seq<u8>>
    decreases cs.len(),
{
    if cs.len() == 0 {
        Seq::empty()
    } else {
        match name_at(all, cs[0]) {
            Some(n) => seq![n] + known_on(all, cs.drop_first()),
            None => known_on(all, cs.drop_first()),
        }
    }
}

proof fn lemma_walk_known(
    g: CommitGraph,
    all: Seq<PatchView>,
    base: usize,
    c: usize,
    found: Seq<Seq<u8>>,
    definite: Seq<usize>,
    maybe: Seq<usize>,
)
    ensures
        walk_from(g, all, base, c, found, definite, maybe).0 == found + known_on(
            all,
            trail_from(g, base, c),
        ),
    decreases c,
{
    if g.has(c) && g.parents_of(c).len() == 1 && g.parents_of(c)[0] < c {
        let p = g.parents_of(c)[0];
        let f2 = match name_at(all, c) {
            Some(n) => found.push(n),
            None => found,
        };
        let d2 = match name_at(all, c) {
            Some(n) => definite + maybe,
            None => definite,
        };
        let m2 = match name_at(all, c) {
            Some(n) => Seq::<usize>::empty(),
            None => maybe.push(c),
        };
        if p == base {
            assert(seq![c].drop_first() =~= Seq::<usize>::empty());
            assert(known_on(all, Seq::<usize>::empty()) == Seq::<Seq<u8>>::empty());
            assert(walk_from(g, all, base, c, found, definite, maybe).0 == f2);
            assert(seq![c][0] == c);
            match name_at(all, c) {
                Some(n) => {
                    assert(known_on(all, seq![c]) =~= seq![n]);
                },
                None => {
                    assert(known_on(all, seq![c]) =~= Seq::<Seq<u8>>::empty());
                },
            }
            assert(f2 =~= found + known_on(all, seq![c]));
        } else {
            lemma_walk_known(g, all, base, p, f2, d2, m2);
            let t = trail_from(g, base, p);
            assert((seq![c] + t).drop_first() =~= t);
            assert(walk_from(g, all, base, c, found, definite, maybe) == walk_from(g, all, base, p, f2, d2, m2));
            assert(f2 + known_on(all, t) =~= found + known_on(all, seq![c] + t));
        }
    } else {
        assert(found + Seq::<Seq<u8>>::empty() =~= found);
    }
}

proof fn lemma_walk_promotes_plain(
    g: CommitGraph,
    all: Seq<PatchView>,
    base: usize,
    c: usize,
    found: Seq<Seq<u8>>,
    definite: Seq<usize>,
    maybe: Seq<usize>,
    x: usize,
)
    requires
        walk_from(g, all, base, c, found, definite, maybe).1.contains(x),
    ensures
        definite.contains(x) || maybe.contains(x) || (trail_from(g, base, c).contains(x) && name_at(
            all,
            x,
        ) is None),
    decreases c,
{
    if g.has(c) && g.parents_of(c).len() == 1 && g.parents_of(c)[0] < c {
        let p = g.parents_of(c)[0];
        let f2 = match name_at(all, c) {
            Some(n) => found.push(n),
            None => found,
        };
        let d2 = match name_at(all, c) {
            Some(n) => definite + maybe,
            None => definite,
        };
        let m2 = match name_at(all, c) {
            Some(n) => Seq::<usize>::empty(),
            None => maybe.push(c),
        };
        let tc = trail_from(g, base, c);
        assert(tc[0] == c);
        let in_dm = |y: usize| definite.contains(y) || maybe.contains(y) || (y == c && name_at(all, c) is None);
        assert forall|y: usize| d2.contains(y) || m2.contains(y) implies in_dm(y) by {
            if d2.contains(y) {
                let i = choose|i: int| 0 <= i < d2.len() && d2[i] == y;
                if i >= definite.len() {
                    assert(maybe[i - definite.len()] == y);
                } else {
                    assert(definite[i] == y);
                }
            }
            if m2.contains(y) {
                let i = choose|i: int| 0 <= i < m2.len() && m2[i] == y;
                if i < maybe.len() {
                    assert(maybe[i] == y);
                }
            }
        }
        if p == base {
            assert(walk_from(g, all, base, c, found, definite, maybe).1 == d2 + m2);
            let i = choose|i: int| 0 <= i < (d2 + m2).len() && (d2 + m2)[i] == x;
            if i < d2.len() {
                assert(d2[i] == x);
            } else {
                assert(m2[i - d2.len()] == x);
            }
            assert(in_dm(x));
        } else {
            assert(walk_from(g, all, base, c, found, definite, maybe) == walk_from(g, all, base, p, f2, d2, m2));
            lemma_walk_promotes_plain(g, all, base, p, f2, d2, m2, x);
            if trail_from(g, base, p).contains(x) && name_at(all, x) is None {
                let j = choose|j: int| 0 <= j < trail_from(g, base, p).len() && trail_from(g, base, p)[j] == x;
                assert(tc[j + 1] == x);
            } else {
                assert(in_dm(x));
            }
        }
    }
}

proof fn lemma_known_on_contains(all: Seq<PatchView>, cs: Seq<usize>, n: Seq<u8>)
    ensures
        known_on(all, cs).contains(n) <==> exists|i: int|
            0 <= i < cs.len() && #[trigger] name_at(all, cs[i]) == Some(n),
    decreases cs.len(),
{
    if cs.len() > 0 {
        let rest = cs.drop_first();
        lemma_known_on_contains(all, rest, n);
        let k = known_on(all, cs);
        let kr = known_on(all, rest);
        if k.contains(n) {
            match name_at(all, cs[0]) {
                Some(m) => {
                    let j = choose|j: int| 0 <= j < k.len() && k[j] == n;
                    if j == 0 {
                        assert(name_at(all, cs[0]) == Some(n));
                    } else {
                        assert(kr[j - 1] == n);
                        let i = choose|i: int| 0 <= i < rest.len() && #[trigger] name_at(all, rest[i]) == Some(n);
                        assert(cs[i + 1] == rest[i]);
                    }
                },
                None => {
                    let i = choose|i: int| 0 <= i < rest.len() && #[trigger] name_at(all, rest[i]) == Some(n);
                    assert(cs[i + 1] == rest[i]);
                },
            }
        }
        if exists|i: int| 0 <= i < cs.len() && #[trigger] name_at(all, cs[i]) == Some(n) {
            let i = choose|i: int| 0 <= i < cs.len() && #[trigger] name_at(all, cs[i]) == Some(n);
            if i == 0 {
                assert(k[0] == n);
            } else {
                assert(name_at(all, rest[i - 1]) == Some(n));
                let j = choose|j: int| 0 <= j < kr.len() && kr[j] == n;
                match name_at(all, cs[0]) {
                    Some(m) => {
                        assert(k[j + 1] == n);
                    },
                    None => {
                        assert(k[j] == n);
                    },
                }
            }
        }
    }
}

proof fn lemma_reverse_contains<A>(s: Seq<A>, x: A)
    ensures
        s.reverse().contains(x) <==> s.contains(x),
{
    if s.contains(x) {
        let i = choose|i: int| 0 <= i < s.len() && s[i] == x;
        assert(s.reverse()[s.len() - 1 - i] == x);
    }
    if s.reverse().contains(x) {
        let i = choose|i: int| 0 <= i < s.reverse().len() && s.reverse()[i] == x;
        assert(s[s.len() - 1 - i] == x);
    }
}

/// A repair keeps applied exactly the patches bound to the commits of the
/// first-parent trail from the branch head (down to the first commit
/// without exactly one parent, or to the stack base), bottommost first; the
/// commits it turns into new patches are trail commits that no patch is
/// bound to.
pub proof fn law_repair_applies_trail_patches(g: CommitGraph, s: Stack)
    ensures
        found_names(g, s) == known_on(
            s.state.all_view(),
            trail_from(g, s.state.base, s.branch_head),
        ).reverse(),
        forall|n: Seq<u8>|
            #[trigger] found_names(g, s).contains(n) <==> exists|i: int|
                0 <= i < trail_from(g, s.state.base, s.branch_head).len() && name_at(
                    s.state.all_view(),
                    #[trigger] trail_from(g, s.state.base, s.branch_head)[i],
                ) == Some(n),
        forall|k: int|
            0 <= k < walk(g, s).1.len() ==> trail_from(g, s.state.base, s.branch_head).contains(
                #[trigger] walk(g, s).1[k],
            ) && name_at(s.state.all_view(), walk(g, s).1[k]) is None,
{
    let all = s.state.all_view();
    let t = trail_from(g, s.state.base, s.branch_head);
    assert forall|k: int| 0 <= k < walk(g, s).1.len() implies t.contains(#[trigger] walk(g, s).1[k])
        && name_at(all, walk(g, s).1[k]) is None by {
        assert(walk(g, s).1.contains(walk(g, s).1[k]));
        lemma_walk_promotes_plain(g, all, s.state.base, s.branch_head, Seq::empty(), Seq::empty(), Seq::empty(), walk(g, s).1[k]);
    }
    lemma_walk_known(g, all, s.state.base, s.branch_head, Seq::empty(), Seq::empty(), Seq::empty());
    assert(Seq::<Seq<u8>>::empty() + known_on(all, t) =~= known_on(all, t));
    assert forall|n: Seq<u8>| #[trigger] found_names(g, s).contains(n) <==> exists|i: int|
        0 <= i < t.len() && name_at(all, #[trigger] t[i]) == Some(n) by {
        lemma_reverse_contains(known_on(all, t), n);
        lemma_known_on_contains(all, t, n);
    }
}

proof fn lemma_name_at_unique(all: Seq<PatchView>, c: usize, n: Seq<u8>)
    requires
        names_of(all).no_duplicates(),
        name_at(all, c) == Some(n),
    ensures
        commit_at(all, n) == Some(c),
        names_of(all).contains(n),
    decreases all.len(),
{
    if all[0].1 == c {
        assert(names_of(all)[0] == n);
    } else {
        let rest = all.drop_first();
        assert(names_of(rest) =~= names_of(all).drop_first());
        lemma_name_at_unique(rest, c, n);
        let j = choose|j: int| 0 <= j < names_of(rest).len() && names_of(rest)[j] == n;
        assert(names_of(all)[j + 1] == n);
        assert(names_of(all)[0] == all[0].0);
    }
}

proof fn lemma_trail_decreasing(g: CommitGraph, base: usize, c: usize)
    ensures
        forall|i: int, j: int|
            0 <= i < j < trail_from(g, base, c).len() ==> trail_from(g, base, c)[i] > trail_from(
                g,
                base,
                c,
            )[j],
        forall|i: int| 0 <= i < trail_from(g, base, c).len() ==> trail_from(g, base, c)[i] <= c,
    decreases c,
{
    if g.has(c) && g.parents_of(c).len() == 1 && g.parents_of(c)[0] < c {
        let p = g.parents_of(c)[0];
        if p != base {
            lemma_trail_decreasing(g, base, p);
            let t = trail_from(g, base, p);
            let tc = trail_from(g, base, c);
            assert(tc == seq![c] + t);
            assert forall|i: int| 0 <= i < tc.len() implies tc[i] <= c by {
                if i > 0 {
                    assert(tc[i] == t[i - 1]);
                }
            }
            assert forall|i: int, j: int| 0 <= i < j < tc.len() implies tc[i] > tc[j] by {
                assert(tc[j] == t[j - 1]);
                if i > 0 {
                    assert(tc[i] == t[i - 1]);
                }
            }
        }
    }
}

proof fn lemma_known_on_distinct(all: Seq<PatchView>, cs: Seq<usize>)
    requires
        names_of(all).no_duplicates(),
        forall|i: int, j: int| 0 <= i < j < cs.len() ==> cs[i] > cs[j],
    ensures
        known_on(all, cs).no_duplicates(),
        forall|n: Seq<u8>| known_on(all, cs).contains(n) ==> names_of(all).contains(n),
    decreases cs.len(),
{
    if cs.len() > 0 {
        let rest = cs.drop_first();
        lemma_known_on_distinct(all, rest);
        assert forall|n: Seq<u8>| known_on(all, cs).contains(n) implies names_of(all).contains(n) by {
            lemma_known_on_contains(all, cs, n);
            let i = choose|i: int| 0 <= i < cs.len() && #[trigger] name_at(all, cs[i]) == Some(n);
            lemma_name_at_unique(all, cs[i], n);
        }
        match name_at(all, cs[0]) {
            Some(m) => {
                let kr = known_on(all, rest);
                if kr.contains(m) {
                    lemma_known_on_contains(all, rest, m);
                    let i = choose|i: int| 0 <= i < rest.len() && #[trigger] name_at(all, rest[i]) == Some(m);
                    lemma_name_at_unique(all, rest[i], m);
                    lemma_name_at_unique(all, cs[0], m);
                    assert(cs[i + 1] == rest[i]);
                }
                assert forall|a: int, b: int| 0 <= a < b < (seq![m] + kr).len() implies (seq![m] + kr)[a] != (seq![m] + kr)[b] by {
                    if a == 0 {
                        assert((seq![m] + kr)[b] == kr[b - 1]);
                    } else {
                        assert((seq![m] + kr)[a] == kr[a - 1]);
                        assert((seq![m] + kr)[b] == kr[b - 1]);
                    }
                }
            },
            None => {},
        }
    }
}

proof fn lemma_reverse_distinct<A>(s: Seq<A>)
    requires
        s.no_duplicates(),
    ensures
        s.reverse().no_duplicates(),
{
    assert forall|a: int, b: int| 0 <= a < b < s.len() implies s.reverse()[a] != s.reverse()[b] by {
        assert(s.reverse()[a] == s[s.len() - 1 - a]);
        assert(s.reverse()[b] == s[s.len() - 1 - b]);
    }
}

proof fn lemma_filter_facts<A>(s: Seq<A>, p: spec_fn(A) -> bool)
    ensures
        forall|x: A| #[trigger] s.filter(p).contains(x) <==> s.contains(x) && p(x),
        s.no_duplicates() ==> s.filter(p).no_duplicates(),
    decreases s.len(),
{
    reveal(Seq::filter);
    if s.len() > 0 {
        let d = s.drop_last();
        lemma_filter_facts(d, p);
        assert forall|x: A| #[trigger] s.filter(p).contains(x) <==> s.contains(x) && p(x) by {
            if s.contains(x) && x != s.last() {
                let i = choose|i: int| 0 <= i < s.len() && s[i] == x;
                assert(d[i] == x);
            }
            if d.contains(x) {
                let i = choose|i: int| 0 <= i < d.len() && d[i] == x;
                assert(s[i] == x);
            }
            if d.filter(p).contains(x) {
                let i = choose|i: int| 0 <= i < d.filter(p).len() && d.filter(p)[i] == x;
                if p(s.last()) {
                    assert(s.filter(p)[i] == x);
                }
            }
            if p(s.last()) {
                assert(s.filter(p)[d.filter(p).len() as int] == s.last());
                if s.filter(p).contains(x) && x != s.last() {
                    let i = choose|i: int| 0 <= i < s.filter(p).len() && s.filter(p)[i] == x;
                    assert(d.filter(p)[i] == x);
                }
            }
            assert(s[s.len() - 1] == s.last());
        }
        if s.no_duplicates() {
            assert(d.no_duplicates());
            if p(s.last()) {
                assert(!d.contains(s.last())) by {
                    if d.contains(s.last()) {
                        let i = choose|i: int| 0 <= i < d.len() && d[i] == s.last();
                        assert(s[i] == s[s.len() - 1]);
                    }
                }
                let f = d.filter(p);
                assert forall|a: int, b: int| 0 <= a < b < f.push(s.last()).len() implies f.push(s.last())[a] != f.push(s.last())[b] by {
                    if b == f.len() {
                        assert(f.contains(f[a]));
                    }
                }
            }
        }
    }
}

proof fn lemma_concat_distinct<A>(a: Seq<A>, b: Seq<A>)
    requires
        a.no_duplicates(),
        b.no_duplicates(),
        forall|x: A| a.contains(x) ==> !b.contains(x),
    ensures
        (a + b).no_duplicates(),
        forall|x: A| #[trigger] (a + b).contains(x) <==> a.contains(x) || b.contains(x),
{
    assert forall|i: int, j: int| 0 <= i < a.len() && 0 <= j < b.len() implies a[i] != b[j] by {
        assert(a.contains(a[i]));
        assert(b.contains(b[j]));
    }
    lemma_no_dup_in_concat(a, b);
    assert forall|x: A| #[trigger] (a + b).contains(x) <==> a.contains(x) || b.contains(x) by {
        if (a + b).contains(x) {
            let i = choose|i: int| 0 <= i < (a + b).len() && (a + b)[i] == x;
            if i < a.len() {
                assert(a[i] == x);
            } else {
                assert(b[i - a.len()] == x);
            }
        }
        if a.contains(x) {
            let i = choose|i: int| 0 <= i < a.len() && a[i] == x;
            assert((a + b)[i] == x);
        }
        if b.contains(x) {
            let i = choose|i: int| 0 <= i < b.len() && b[i] == x;
            assert((a + b)[a.len() + i] == x);
        }
    }
}

proof fn lemma_split_distinct<A>(a: Seq<A>, b: Seq<A>)
    requires
        (a + b).no_duplicates(),
    ensures
        a.no_duplicates(),
        b.no_duplicates(),
        forall|x: A| a.contains(x) ==> !b.contains(x),
        forall|x: A| #[trigger] (a + b).contains(x) <==> a.contains(x) || b.contains(x),
{
    assert forall|i: int, j: int| 0 <= i < j < a.len() implies a[i] != a[j] by {
        assert((a + b)[i] == a[i] && (a + b)[j] == a[j]);
    }
    assert forall|i: int, j: int| 0 <= i < j < b.len() implies b[i] != b[j] by {
        assert((a + b)[a.len() + i] == b[i] && (a + b)[a.len() + j] == b[j]);
    }
    assert forall|x: A| a.contains(x) implies !b.contains(x) by {
        let i = choose|i: int| 0 <= i < a.len() && a[i] == x;
        if b.contains(x) {
            let j = choose|j: int| 0 <= j < b.len() && b[j] == x;
            assert((a + b)[i] == (a + b)[a.len() + j]);
        }
    }
    assert forall|x: A| #[trigger] (a + b).contains(x) <==> a.contains(x) || b.contains(x) by {
        if (a + b).contains(x) {
            let i = choose|i: int| 0 <= i < (a + b).len() && (a + b)[i] == x;
            if i < a.len() {
                assert(a[i] == x);
            } else {
                assert(b[i - a.len()] == x);
            }
        }
        if a.contains(x) {
            let i = choose|i: int| 0 <= i < a.len() && a[i] == x;
            assert((a + b)[i] == x);
        }
        if b.contains(x) {
            let i = choose|i: int| 0 <= i < b.len() && b[i] == x;
            assert((a + b)[a.len() + i] == x);
        }
    }
}

pub(crate) proof fn lemma_found_facts(g: CommitGraph, s: Stack)
    requires
        s.state.wf(),
    ensures
        found_names(g, s).no_duplicates(),
        forall|n: Seq<u8>| found_names(g, s).contains(n) ==> names_of(s.state.all_view()).contains(n),
{
    let all = s.state.all_view();
    let t = trail_from(g, s.state.base, s.branch_head);
    law_repair_applies_trail_patches(g, s);
    lemma_trail_decreasing(g, s.state.base, s.branch_head);
    lemma_known_on_distinct(all, t);
    lemma_reverse_distinct(known_on(all, t));
    assert forall|n: Seq<u8>| found_names(g, s).contains(n) implies names_of(all).contains(n) by {
        lemma_reverse_contains(known_on(all, t), n);
    }
}

/// A repair neither loses nor doubles a patch: the new applied list (the
/// patches found, then the new ones), the new unapplied list and the new
/// hidden list hold each old patch and each new patch exactly once.
pub proof fn law_repair_partitions(g: CommitGraph, s: Stack, limit: nat, np: Seq<PatchView>)
    requires
        s.state.wf(),
        promoted(
            g,
            limit,
            walk(g, s).1.reverse(),
            np,
            found_names(g, s),
            repaired_unapplied(g, s) + repaired_hidden(g, s),
        ),
    ensures
        ({
            let after = found_names(g, s) + names_of(np) + repaired_unapplied(g, s) + repaired_hidden(g, s);
            &&& after.no_duplicates()
            &&& forall|n: Seq<u8>| #[trigger] after.contains(n) <==> names_of(s.state.all_view()).contains(n) || names_of(np).contains(n)
        }),
{
    let f = found_names(g, s);
    let a = names_of(s.state.applied_view());
    let u = names_of(s.state.unapplied_view());
    let h = names_of(s.state.hidden_view());
    let all = names_of(s.state.all_view());
    let p = |n: Seq<u8>| !f.contains(n);
    let fa = without(a, f);
    let fu = without(u, f);
    let fh = without(h, f);
    let rest = fa + fu + fh;
    let nn = names_of(np);
    assert(all =~= a + u + h);
    lemma_found_facts(g, s);
    lemma_split_distinct(a + u, h);
    lemma_split_distinct(a, u);
    lemma_filter_facts(a, p);
    lemma_filter_facts(u, p);
    lemma_filter_facts(h, p);
    lemma_concat_distinct(fa, fu);
    lemma_concat_distinct(fa + fu, fh);
    lemma_concat_distinct(f, rest);
    assert(repaired_unapplied(g, s) + repaired_hidden(g, s) =~= rest);
    // each new name is fresh against everything before it
    assert forall|i: int| 0 <= i < nn.len() implies !(f + nn.take(i) + rest).contains(#[trigger] nn[i]) by {
        assert(np[i].0 == nn[i]);
        assert(names_of(np.take(i)) =~= nn.take(i));
        let made = crate::names::made_name(
            vstd::utf8::encode_utf8(crate::outside::lossy_text(g.commits@[walk(g, s).1.reverse()[i] as int].message@)),
            limit,
            g.commits@[walk(g, s).1.reverse()[i] as int].short_id@,
        );
        let d = f + names_of(np.take(i)) + (repaired_unapplied(g, s) + repaired_hidden(g, s));
        assert(np[i].1 == walk(g, s).1.reverse()[i]);
        assert(crate::names::uniquified(np[i].0, made, Seq::empty(), d));
        if !taken(made, Seq::empty(), d) {
        } else {
            let k = choose|k: nat| k >= 1 && np[i].0 == crate::names::suffixed(made, k) && !taken(np[i].0, Seq::<Seq<u8>>::empty(), d) && forall|j: nat|
                1 <= j < k ==> taken(#[trigger] crate::names::suffixed(made, j), Seq::<Seq<u8>>::empty(), d);
        }
        assert(!taken(np[i].0, Seq::empty(), d));
        assert(d =~= f + nn.take(i) + rest);
    }
    let after = f + nn + rest;
    assert forall|x: int, y: int| 0 <= x < y < after.len() implies after[x] != after[y] by {
        let fl = f.len() as int;
        let nl = nn.len() as int;
        if y < fl {
            assert((f + rest)[x] == after[x] && (f + rest)[y] == after[y]);
        } else if y < fl + nl {
            let j = y - fl;
            assert(after[y] == nn[j]);
            if x < fl {
                assert((f + nn.take(j) + rest)[x] == after[x]);
            } else {
                assert(nn.take(j)[x - fl] == after[x]);
                assert((f + nn.take(j) + rest)[x] == after[x]);
            }
        } else {
            if x < fl {
                assert((f + rest)[x] == after[x] && (f + rest)[y - nl] == after[y]);
            } else if x < fl + nl {
                let j = x - fl;
                assert(after[x] == nn[j]);
                assert((f + nn.take(j) + rest)[fl + j + (y - fl - nl)] == after[y]);
            } else {
                assert((f + rest)[x - nl] == after[x] && (f + rest)[y - nl] == after[y]);
            }
        }
    }
    assert forall|n: Seq<u8>| #[trigger] rest.contains(n) <==> all.contains(n) && !f.contains(n) by {
        assert((a + u + h).contains(n) <==> (a + u).contains(n) || h.contains(n));
        assert((a + u).contains(n) <==> a.contains(n) || u.contains(n));
        assert(fa.contains(n) <==> a.contains(n) && p(n));
        assert(fu.contains(n) <==> u.contains(n) && p(n));
        assert(fh.contains(n) <==> h.contains(n) && p(n));
        assert((fa + fu).contains(n) <==> fa.contains(n) || fu.contains(n));
        assert(rest.contains(n) <==> (fa + fu).contains(n) || fh.contains(n));
    }
    assert forall|n: Seq<u8>| #[trigger] after.contains(n) <==> all.contains(n) || nn.contains(n) by {
        let fl = f.len() as int;
        let nl = nn.len() as int;
        if after.contains(n) {
            let i = choose|i: int| 0 <= i < after.len() && after[i] == n;
            if i < fl {
                assert(after[i] == f[i]);
                assert(f.contains(n));
            } else if i < fl + nl {
                assert(after[i] == nn[i - fl]);
                assert(nn.contains(n));
            } else {
                assert(after[i] == rest[i - fl - nl]);
                assert(rest.contains(n));
            }
        }
        if nn.contains(n) {
            let i = choose|i: int| 0 <= i < nl && nn[i] == n;
            assert(after[fl + i] == nn[i]);
        }
        if all.contains(n) {
            if f.contains(n) {
                let i = choose|i: int| 0 <= i < fl && f[i] == n;
                assert(after[i] == f[i]);
            } else {
                assert(rest.contains(n));
                let i = choose|i: int| 0 <= i < rest.len() && rest[i] == n;
                assert(after[fl + nl + i] == rest[i]);
            }
        }
    }
    assert(after =~= found_names(g, s) + names_of(np) + repaired_unapplied(g, s) + repaired_hidden(g, s));
}

/// The stack agrees with the branch: its applied patches form the
/// first-parent chain from the stack base up to the branch head, each
/// commit with exactly one parent.
pub open spec fn consistent(g: CommitGraph, s: Stack) -> bool {
    let a = s.state.applied_view();
    &&& a.len() > 0
    &&& s.branch_head == a.last().1
    &&& forall|i: int|
        0 <= i < a.len() ==> {
            &&& g.has(#[trigger] a[i].1)
            &&& g.parents_of(a[i].1).len() == 1
            &&& g.parents_of(a[i].1)[0] == if i == 0 {
                s.state.base
            } else {
                a[i - 1].1
            }
        }
}

#[verifier::rlimit(40)]
proof fn lemma_chain_increasing(g: CommitGraph, s: Stack, i: int)
    requires
        g.wf(),
        consistent(g, s),
        0 <= i < s.state.applied_view().len(),
    ensures
        s.state.base < s.state.applied_view()[i].1,
        forall|j: int| 0 <= j < i ==> s.state.applied_view()[j].1 < s.state.applied_view()[i].1,
    decreases i,
{
    let a = s.state.applied_view();
    assert(g.has(a[i].1));
    assert(g.parents_of(a[i].1)[0] < a[i].1);
    if i > 0 {
        lemma_chain_increasing(g, s, i - 1);
    }
}

proof fn lemma_name_at_index(ps: Seq<PatchView>, i: int)
    requires
        0 <= i < ps.len(),
        forall|j: int| 0 <= j < i ==> ps[j].1 != ps[i].1,
    ensures
        name_at(ps, ps[i].1) == Some(ps[i].0),
    decreases i,
{
    if i > 0 {
        let rest = ps.drop_first();
        assert(rest[i - 1] == ps[i]);
        lemma_name_at_index(rest, i - 1);
    }
}

#[verifier::rlimit(40)]
proof fn lemma_walk_chain(g: CommitGraph, s: Stack, k: int, front: Seq<Seq<u8>>)
    requires
        g.wf(),
        consistent(g, s),
        1 <= k <= s.state.applied_view().len(),
    ensures
        walk_from(
            g,
            s.state.all_view(),
            s.state.base,
            s.state.applied_view()[k - 1].1,
            front,
            Seq::empty(),
            Seq::empty(),
        ) == (front + names_of(s.state.applied_view().take(k)).reverse(), Seq::<usize>::empty(), s.state.base),
    decreases k,
{
    let a = s.state.applied_view();
    let all = s.state.all_view();
    let c = a[k - 1].1;
    lemma_chain_increasing(g, s, k - 1);
    assert(g.has(a[k - 1].1));
    assert forall|j: int| 0 <= j < k - 1 implies #[trigger] all[j].1 != all[k - 1].1 by {
        assert(all[j] == a[j]);
    }
    assert(all[k - 1] == a[k - 1]);
    lemma_name_at_index(all, k - 1);
    let n = a[k - 1].0;
    let e = Seq::<usize>::empty();
    assert(e + e =~= e);
    let names_k = names_of(a.take(k));
    assert(names_of(a.take(k - 1)).push(n) =~= names_k);
    if k == 1 {
        assert(walk_from(g, all, s.state.base, c, front, e, e) == (front.push(n), e + e, s.state.base));
        assert(front.push(n) =~= front + names_k.reverse());
    } else {
        let p = a[k - 2].1;
        lemma_chain_increasing(g, s, k - 2);
        assert(p != s.state.base);
        lemma_walk_chain(g, s, k - 1, front.push(n));
        assert(walk_from(g, all, s.state.base, c, front, e, e) == walk_from(g, all, s.state.base, p, front.push(n), e + e, e));
        assert(front.push(n) + names_of(a.take(k - 1)).reverse() =~= front + names_k.reverse());
    }
}

proof fn lemma_filter_keeps_all<A>(s: Seq<A>, p: spec_fn(A) -> bool)
    requires
        forall|i: int| 0 <= i < s.len() ==> p(#[trigger] s[i]),
    ensures
        s.filter(p) == s,
    decreases s.len(),
{
    reveal(Seq::filter);
    if s.len() > 0 {
        lemma_filter_keeps_all(s.drop_last(), p);
        assert(s.drop_last().push(s.last()) =~= s);
    }
}

proof fn lemma_filter_drops_all<A>(s: Seq<A>, p: spec_fn(A) -> bool)
    requires
        forall|i: int| 0 <= i < s.len() ==> !p(#[trigger] s[i]),
    ensures
        s.filter(p) == Seq::<A>::empty(),
    decreases s.len(),
{
    reveal(Seq::filter);
    if s.len() > 0 {
        lemma_filter_drops_all(s.drop_last(), p);
    }
}

proof fn lemma_bind_own_names(all: Seq<PatchView>, ps: Seq<PatchView>)
    requires
        names_of(all).no_duplicates(),
        forall|i: int| 0 <= i < ps.len() ==> all.contains(#[trigger] ps[i]),
    ensures
        bind_names(all, names_of(ps)) == ps,
{
    assert forall|i: int| 0 <= i < ps.len() implies #[trigger] bind_names(all, names_of(ps))[i] == ps[i] by {
        let j = choose|j: int| 0 <= j < all.len() && all[j] == ps[i];
        lemma_commit_at_index(all, j);
    }
    assert(bind_names(all, names_of(ps)) =~= ps);
}

proof fn lemma_commit_at_index(ps: Seq<PatchView>, i: int)
    requires
        0 <= i < ps.len(),
        names_of(ps).no_duplicates(),
    ensures
        commit_at(ps, ps[i].0) == Some(ps[i].1),
    decreases i,
{
    if i > 0 {
        let rest = ps.drop_first();
        assert(names_of(rest) =~= names_of(ps).drop_first());
        assert(names_of(ps)[0] != names_of(ps)[i]);
        assert(rest[i - 1] == ps[i]);
        lemma_commit_at_index(rest, i - 1);
    }
}

/// Repair leaves a consistent stack as it is: the same applied, unapplied
/// and hidden lists, each patch on its commit, no new patch, and no commit
/// left behind a merge. So a second repair right after one that left the
/// stack consistent changes nothing.
#[verifier::rlimit(40)]
pub proof fn law_repair_fixpoint(g: CommitGraph, s: Stack)
    requires
        g.wf(),
        s.state.wf(),
        consistent(g, s),
    ensures
        found_names(g, s) == names_of(s.state.applied_view()),
        walk(g, s).1 == Seq::<usize>::empty(),
        walk(g, s).2 == s.state.base,
        repaired_unapplied(g, s) == names_of(s.state.unapplied_view()),
        repaired_hidden(g, s) == names_of(s.state.hidden_view()),
        bind_names(s.state.all_view(), found_names(g, s)) == s.state.applied_view(),
        bind_names(s.state.all_view(), repaired_unapplied(g, s)) == s.state.unapplied_view(),
        bind_names(s.state.all_view(), repaired_hidden(g, s)) == s.state.hidden_view(),
{
    let a = s.state.applied_view();
    let u = s.state.unapplied_view();
    let h = s.state.hidden_view();
    let all = s.state.all_view();
    let k = a.len() as int;
    lemma_walk_chain(g, s, k, Seq::empty());
    assert(a.take(k) =~= a);
    assert(Seq::<Seq<u8>>::empty() + names_of(a).reverse() =~= names_of(a).reverse());
    assert(names_of(a).reverse().reverse() =~= names_of(a));
    let f = names_of(a);
    let p = |n: Seq<u8>| !f.contains(n);
    assert(names_of(all) =~= names_of(a) + names_of(u) + names_of(h));
    lemma_split_distinct(names_of(a) + names_of(u), names_of(h));
    lemma_split_distinct(names_of(a), names_of(u));
    assert forall|i: int| 0 <= i < f.len() implies !p(#[trigger] f[i]) by {
        assert(f.contains(f[i]));
    }
    lemma_filter_drops_all(f, p);
    assert forall|i: int| 0 <= i < names_of(u).len() implies p(#[trigger] names_of(u)[i]) by {
        assert(names_of(u).contains(names_of(u)[i]));
    }
    lemma_filter_keeps_all(names_of(u), p);
    assert forall|i: int| 0 <= i < names_of(h).len() implies p(#[trigger] names_of(h)[i]) by {
        assert(names_of(h).contains(names_of(h)[i]));
        assert((names_of(a) + names_of(u)).contains(names_of(h)[i]) ==> false);
        if f.contains(names_of(h)[i]) {
            assert((names_of(a) + names_of(u)).contains(names_of(h)[i]));
        }
    }
    lemma_filter_keeps_all(names_of(h), p);
    assert(Seq::<Seq<u8>>::empty() + names_of(u) =~= names_of(u));
    assert forall|i: int| 0 <= i < a.len() implies all.contains(#[trigger] a[i]) by {
        assert(all[i] == a[i]);
    }
    assert forall|i: int| 0 <= i < u.len() implies all.contains(#[trigger] u[i]) by {
        assert(all[a.len() + i] == u[i]);
    }
    assert forall|i: int| 0 <= i < h.len() implies all.contains(#[trigger] h[i]) by {
        assert(all[a.len() + u.len() + i] == h[i]);
    }
    lemma_bind_own_names(all, a);
    lemma_bind_own_names(all, u);
    lemma_bind_own_names(all, h);
}

/// A name of `all` has a commit in `all`.
pub(crate) proof fn lemma_named_has_commit(all: Seq<PatchView>, n: Seq<u8>)
    requires
        names_of(all).contains(n),
    ensures
        commit_at(all, n) is Some,
    decreases all.len(),
{
    if all[0].0 != n {
        let rest = all.drop_first();
        let j = choose|j: int| 0 <= j < names_of(all).len() && names_of(all)[j] == n;
        assert(j != 0);
        assert(names_of(rest)[j - 1] == n);
        lemma_named_has_commit(rest, n);
    }
}

/// Every name that a repair lists is a name of the stack.
pub(crate) proof fn lemma_plan_known(g: CommitGraph, s: Stack)
    requires
        s.state.wf(),
    ensures
        forall|n: Seq<u8>| #[trigger] found_names(g, s).contains(n) ==> commit_at(s.state.all_view(), n) is Some,
        forall|n: Seq<u8>| #[trigger] repaired_unapplied(g, s).contains(n) ==> commit_at(s.state.all_view(), n) is Some,
        forall|n: Seq<u8>| #[trigger] repaired_hidden(g, s).contains(n) ==> commit_at(s.state.all_view(), n) is Some,
{
    let f = found_names(g, s);
    let a = names_of(s.state.applied_view());
    let u = names_of(s.state.unapplied_view());
    let h = names_of(s.state.hidden_view());
    let all = names_of(s.state.all_view());
    let p = |n: Seq<u8>| !f.contains(n);
    assert(all =~= a + u + h);
    lemma_found_facts(g, s);
    lemma_split_distinct(a + u, h);
    lemma_split_distinct(a, u);
    lemma_filter_facts(a, p);
    lemma_filter_facts(u, p);
    lemma_filter_facts(h, p);
    assert forall|n: Seq<u8>| #[trigger] f.contains(n) implies commit_at(s.state.all_view(), n) is Some by {
        lemma_named_has_commit(s.state.all_view(), n);
    }
    assert forall|n: Seq<u8>| #[trigger] repaired_unapplied(g, s).contains(n) implies commit_at(s.state.all_view(), n) is Some by {
        let fa = without(a, f);
        let fu = without(u, f);
        assert(fa.contains(n) <==> a.contains(n) && p(n));
        assert(fu.contains(n) <==> u.contains(n) && p(n));
        if fa.contains(n) {
            assert(a.contains(n));
            assert((a + u).contains(n));
        } else {
            let i = choose|i: int| 0 <= i < (fa + fu).len() && (fa + fu)[i] == n;
            assert(fu[i - fa.len()] == n);
            assert(fu.contains(n));
            assert(u.contains(n));
            assert((a + u).contains(n));
        }
        assert(all.contains(n));
        lemma_named_has_commit(s.state.all_view(), n);
    }
    assert forall|n: Seq<u8>| #[trigger] repaired_hidden(g, s).contains(n) implies commit_at(s.state.all_view(), n) is Some by {
        assert(all.contains(n));
        lemma_named_has_commit(s.state.all_view(), n);
    }
}

/// A spill changes one patch only: over a list with unique names, rebinding
/// the spilled patch gives it the new commit, leaves every other patch as it
/// was, and the spilled name stands at one place at most.
pub proof fn law_spill_rebinds_one_patch(ps: Seq<PatchView>, n: Seq<u8>, c: usize)
    requires
        names_of(ps).no_duplicates(),
    ensures
        rebind(ps, n, c).len() == ps.len(),
        forall|i: int|
            0 <= i < ps.len() ==> (ps[i].0 == n ==> #[trigger] rebind(ps, n, c)[i] == (n, c)) && (
            ps[i].0 != n ==> rebind(ps, n, c)[i] == ps[i]),
        forall|i: int, j: int| 0 <= i < j < ps.len() && #[trigger] ps[i].0 == n ==> #[trigger] ps[j].0 != n,
{
    assert forall|i: int, j: int| 0 <= i < j < ps.len() && #[trigger] ps[i].0 == n implies #[trigger] ps[j].0 != n by {
        assert(names_of(ps)[i] == ps[i].0 && names_of(ps)[j] == ps[j].0);
    }
}

proof fn lemma_trail_links(g: CommitGraph, base: usize, c: usize, found: Seq<Seq<u8>>, definite: Seq<usize>, maybe: Seq<usize>, all: Seq<PatchView>)
    ensures
        ({
            let t = trail_from(g, base, c);
            &&& forall|j: int| 0 <= j < t.len() ==> g.has(#[trigger] t[j]) && g.parents_of(t[j]).len() == 1
            &&& forall|j: int| 0 <= j < t.len() - 1 ==> g.parents_of(#[trigger] t[j])[0] == t[j + 1]
            &&& t.len() > 0 ==> g.parents_of(t.last())[0] == walk_from(g, all, base, c, found, definite, maybe).2
            &&& t.len() > 0 ==> t[0] == c
        }),
    decreases c,
{
    if g.has(c) && g.parents_of(c).len() == 1 && g.parents_of(c)[0] < c {
        let p = g.parents_of(c)[0];
        let f2 = match name_at(all, c) {
            Some(n) => found.push(n),
            None => found,
        };
        let d2 = match name_at(all, c) {
            Some(n) => definite + maybe,
            None => definite,
        };
        let m2 = match name_at(all, c) {
            Some(n) => Seq::<usize>::empty(),
            None => maybe.push(c),
        };
        if p != base {
            lemma_trail_links(g, base, p, f2, d2, m2, all);
            let tp = trail_from(g, base, p);
            let t = trail_from(g, base, c);
            assert(t == seq![c] + tp);
            assert(walk_from(g, all, base, c, found, definite, maybe) == walk_from(g, all, base, p, f2, d2, m2));
            assert forall|j: int| 0 <= j < t.len() implies g.has(#[trigger] t[j]) && g.parents_of(t[j]).len() == 1 by {
                if j > 0 {
                    assert(t[j] == tp[j - 1]);
                }
            }
            assert forall|j: int| 0 <= j < t.len() - 1 implies g.parents_of(#[trigger] t[j])[0] == t[j + 1] by {
                if j > 0 {
                    assert(t[j] == tp[j - 1]);
                    assert(t[j + 1] == tp[j]);
                } else if tp.len() > 0 {
                    assert(t[1] == tp[0]);
                }
            }
            if tp.len() == 0 {
                assert(!(g.has(p) && g.parents_of(p).len() == 1 && g.parents_of(p)[0] < p)) by {
                    if g.has(p) && g.parents_of(p).len() == 1 && g.parents_of(p)[0] < p {
                        let q = g.parents_of(p)[0];
                        if q == base {
                            assert(tp == seq![p]);
                        } else {
                            assert(tp == seq![p] + trail_from(g, base, q));
                        }
                    }
                }
                assert(walk_from(g, all, base, p, f2, d2, m2).2 == p);
            } else {
                assert(t.last() == tp.last());
            }
        }
    }
}

/// Repair twice in a row: when a first repair reached the stack base and
/// left its applied patches in trail order (the patches it found below the
/// commits it promoted), the stack it records is consistent, so a second
/// repair keeps the same three lists and promotes nothing.
pub proof fn law_repair_idempotent(g: CommitGraph, s: Stack, limit: nat, np: Seq<PatchView>, s2: Stack)
    requires
        g.wf(),
        s.state.wf(),
        promoted(
            g,
            limit,
            walk(g, s).1.reverse(),
            np,
            found_names(g, s),
            repaired_unapplied(g, s) + repaired_hidden(g, s),
        ),
        s2.state.applied_view() == bind_names(s.state.all_view(), found_names(g, s)) + np,
        s2.state.unapplied_view() == bind_names(s.state.all_view(), repaired_unapplied(g, s)),
        s2.state.hidden_view() == bind_names(s.state.all_view(), repaired_hidden(g, s)),
        s2.state.base == s.state.base,
        s2.state.applied_view().len() > 0,
        s2.branch_head == s2.state.applied_view().last().1,
        walk(g, s).2 == s.state.base,
        commits_of(s2.state.applied_view()) == trail_from(g, s.state.base, s.branch_head).reverse(),
    ensures
        found_names(g, s2) == names_of(s2.state.applied_view()),
        walk(g, s2).1 == Seq::<usize>::empty(),
        repaired_unapplied(g, s2) == names_of(s2.state.unapplied_view()),
        repaired_hidden(g, s2) == names_of(s2.state.hidden_view()),
{
    let all = s.state.all_view();
    let f = found_names(g, s);
    let ru = repaired_unapplied(g, s);
    let rh = repaired_hidden(g, s);
    let a = s2.state.applied_view();
    let t = trail_from(g, s.state.base, s.branch_head);
    let n = t.len() as int;
    law_repair_partitions(g, s, limit, np);
    assert(names_of(bind_names(all, f)) =~= f);
    assert(names_of(bind_names(all, ru)) =~= ru);
    assert(names_of(bind_names(all, rh)) =~= rh);
    assert(names_of(s2.state.all_view()) =~= f + names_of(np) + ru + rh);
    lemma_trail_links(g, s.state.base, s.branch_head, Seq::empty(), Seq::empty(), Seq::empty(), all);
    assert(commits_of(a).len() == n);
    assert forall|i: int| 0 <= i < a.len() implies {
        &&& g.has(#[trigger] a[i].1)
        &&& g.parents_of(a[i].1).len() == 1
        &&& g.parents_of(a[i].1)[0] == if i == 0 {
            s2.state.base
        } else {
            a[i - 1].1
        }
    } by {
        assert(a[i].1 == commits_of(a)[i]);
        assert(commits_of(a)[i] == t[n - 1 - i]);
        assert(g.has(t[n - 1 - i]));
        if i > 0 {
            assert(a[i - 1].1 == commits_of(a)[i - 1]);
            assert(commits_of(a)[i - 1] == t[n - i]);
            assert(g.parents_of(t[n - 1 - i])[0] == t[n - 1 - i + 1]);
        } else {
            assert(t.last() == t[n - 1]);
        }
    }
    law_repair_fixpoint(g, s2);
}

proof fn lemma_trail_len(g: CommitGraph, base: usize, c: usize)
    ensures
        trail_from(g, base, c).len() <= c + 1,
    decreases c,
{
    if g.has(c) && g.parents_of(c).len() == 1 && g.parents_of(c)[0] < c {
        let p = g.parents_of(c)[0];
        if p != base {
            lemma_trail_len(g, base, p);
        }
    }
}

proof fn lemma_known_on_len(all: Seq<PatchView>, cs: Seq<usize>)
    ensures
        known_on(all, cs).len() <= cs.len(),
    decreases cs.len(),
{
    if cs.len() > 0 {
        lemma_known_on_len(all, cs.drop_first());
    }
}

proof fn lemma_walk_len(
    g: CommitGraph,
    all: Seq<PatchView>,
    base: usize,
    c: usize,
    found: Seq<Seq<u8>>,
    definite: Seq<usize>,
    maybe: Seq<usize>,
)
    ensures
        walk_from(g, all, base, c, found, definite, maybe).1.len() <= definite.len() + maybe.len()
            + trail_from(g, base, c).len(),
    decreases c,
{
    if g.has(c) && g.parents_of(c).len() == 1 && g.parents_of(c)[0] < c {
        let p = g.parents_of(c)[0];
        let f2 = match name_at(all, c) {
            Some(n) => found.push(n),
            None => found,
        };
        let d2 = match name_at(all, c) {
            Some(n) => definite + maybe,
            None => definite,
        };
        let m2 = match name_at(all, c) {
            Some(n) => Seq::<usize>::empty(),
            None => maybe.push(c),
        };
        if p != base {
            lemma_walk_len(g, all, base, p, f2, d2, m2);
            assert(walk_from(g, all, base, c, found, definite, maybe) == walk_from(g, all, base, p, f2, d2, m2));
            assert(trail_from(g, base, c).len() == 1 + trail_from(g, base, p).len());
        }
    }
}

/// Size bounds of a repair's plan: found patches and promoted commits are
/// at most one each per commit of the graph, and the reordered lists are no
/// longer than the stack.
pub(crate) proof fn lemma_repair_sizes(g: CommitGraph, s: Stack)
    requires
        g.has(s.branch_head),
    ensures
        found_names(g, s).len() <= g.commits@.len(),
        walk(g, s).1.len() <= g.commits@.len(),
        repaired_unapplied(g, s).len() + repaired_hidden(g, s).len() <= s.state.all_view().len(),
{
    let t = trail_from(g, s.state.base, s.branch_head);
    lemma_trail_len(g, s.state.base, s.branch_head);
    law_repair_applies_trail_patches(g, s);
    lemma_known_on_len(s.state.all_view(), t);
    lemma_walk_len(g, s.state.all_view(), s.state.base, s.branch_head, Seq::empty(), Seq::empty(), Seq::empty());
    let f = found_names(g, s);
    let p = |n: Seq<u8>| !f.contains(n);
    let a = names_of(s.state.applied_view());
    let u = names_of(s.state.unapplied_view());
    let h = names_of(s.state.hidden_view());
    a.lemma_filter_len(p);
    u.lemma_filter_len(p);
    h.lemma_filter_len(p);
}

} // verus!
