//! Patch names: made from a commit message title, and made unique against
//! the names already taken.

use vstd::prelude::*;
use vstd::seq_lib::*;
use vstd::relations::injective_on;
use vstd::set_lib::*;

use crate::registry::same_name;
use crate::repair::bytes_view;

verus! {

pub const HYPHEN: u8 = 45;

/// What a byte of a title becomes in a name: ASCII letters are lowercased,
/// digits kept, anything else separates words.
pub open spec fn name_byte(b: u8) -> Option<u8> {
    if 97 <= b <= 122 || 48 <= b <= 57 {
        Some(b)
    } else if 65 <= b <= 90 {
        Some((b + 32) as u8)
    } else {
        None
    }
}

/// The words of `t` joined by single hyphens, appended to `acc`; `sep`
/// says a separator was seen since the last word byte.
pub open spec fn slug_onto(t: Seq<u8>, acc: Seq<u8>, sep: bool) -> Seq<u8>
    decreases t.len(),
{
    if t.len() == 0 {
        acc
    } else {
        match name_byte(t[0]) {
            Some(c) => slug_onto(
                t.drop_first(),
                if sep && acc.len() > 0 {
                    acc.push(HYPHEN).push(c)
                } else {
                    acc.push(c)
                },
                false,
            ),
            None => slug_onto(t.drop_first(), acc, true),
        }
    }
}

/// The first line of a message.
pub open spec fn title_of(msg: Seq<u8>) -> Seq<u8> {
    if exists|i: int| 0 <= i < msg.len() && msg[i] == 10 {
        msg.take(choose_first_newline(msg))
    } else {
        msg
    }
}

/// The index of the first newline of `msg` (when there is one).
pub open spec fn choose_first_newline(msg: Seq<u8>) -> int {
    choose|i: int| 0 <= i < msg.len() && msg[i] == 10 && forall|j: int| 0 <= j < i ==> msg[j] != 10
}

/// At most `limit` bytes of `s`, without a hyphen at the end.
pub open spec fn cut(s: Seq<u8>, limit: nat) -> Seq<u8> {
    let p = if s.len() <= limit {
        s
    } else {
        s.take(limit as int)
    };
    if p.len() > 0 && p.last() == HYPHEN {
        p.drop_last()
    } else {
        p
    }
}

/// The name made from a commit message: the words of its title, lowercased
/// and joined by hyphens, cut to `limit` bytes; the commit's short id where
/// that leaves nothing, and `patch` where the short id is empty too.
pub open spec fn made_name(msg: Seq<u8>, limit: nat, short_id: Seq<u8>) -> Seq<u8> {
    let n = cut(slug_onto(title_of(msg), Seq::empty(), false), limit);
    if n.len() > 0 {
        n
    } else if short_id.len() > 0 {
        short_id
    } else {
        seq![112u8, 97, 116, 99, 104]
    }
}

/// The first line of `msg`, as its length.
fn title_len(msg: &Vec<u8>) -> (r: usize)
    ensures
        r <= msg@.len(),
        msg@.take(r as int) == title_of(msg@),
{
    let mut i: usize = 0;
    while i < msg.len()
        invariant
            i <= msg@.len(),
            forall|j: int| 0 <= j < i ==> msg@[j] != 10,
        decreases msg@.len() - i,
    {
        if msg[i] == 10 {
            proof {
                let k = choose_first_newline(msg@);
                assert(0 <= i < msg@.len() && msg@[i as int] == 10 && forall|j: int|
                    0 <= j < i ==> msg@[j] != 10);
                assert(k == i) by {
                    if k < i {
                        assert(msg@[k] != 10);
                    } else if k > i {
                    }
                }
            }
            return i;
        }
        i = i + 1;
    }
    proof {
        assert(msg@.take(i as int) =~= msg@);
    }
    i
}

/// Makes a patch name from a commit message, as [`made_name`] states.
pub fn make_name(msg: &Vec<u8>, limit: usize, short_id: &Vec<u8>) -> (r: Vec<u8>)
    ensures
        r@ == made_name(msg@, limit as nat, short_id@),
        r@.len() > 0,
{
    let tl = title_len(msg);
    let ghost t = msg@.take(tl as int);
    let mut acc: Vec<u8> = Vec::new();
    let mut sep = false;
    let mut i: usize = 0;
    proof {
        assert(t.subrange(0, t.len() as int) =~= t);
    }
    while i < tl
        invariant
            tl <= msg@.len(),
            t == msg@.take(tl as int),
            i <= tl,
            slug_onto(t, Seq::empty(), false) == slug_onto(t.subrange(i as int, t.len() as int), acc@, sep),
        decreases tl - i,
    {
        proof {
            assert(t.subrange(i as int, t.len() as int).drop_first() =~= t.subrange(i + 1, t.len() as int));
            assert(t.subrange(i as int, t.len() as int)[0] == msg@[i as int]);
        }
        let b = msg[i];
        if (97 <= b && b <= 122) || (48 <= b && b <= 57) || (65 <= b && b <= 90) {
            let c = if 65 <= b && b <= 90 { b + 32 } else { b };
            if sep && acc.len() > 0 {
                acc.push(HYPHEN);
            }
            acc.push(c);
            sep = false;
        } else {
            sep = true;
        }
        i = i + 1;
    }
    proof {
        assert(t.subrange(tl as int, t.len() as int) =~= Seq::<u8>::empty());
    }
    if acc.len() > limit {
        acc.truncate(limit);
    }
    if acc.len() > 0 && acc[acc.len() - 1] == HYPHEN {
        acc.pop();
    }
    if acc.len() == 0 {
        if short_id.len() == 0 {
            let r: Vec<u8> = vec![112u8, 97, 116, 99, 104];
            proof {
                assert(r@ =~= seq![112u8, 97, 116, 99, 104]);
            }
            return r;
        }
        let r = short_id.clone();
        proof {
            assert(r@ =~= short_id@);
        }
        return r;
    }
    acc
}

/// The decimal digits of `n`, in ASCII.
pub open spec fn decimal(n: nat) -> Seq<u8>
    decreases n,
{
    if n < 10 {
        seq![(48 + n) as u8]
    } else {
        decimal(n / 10).push((48 + n % 10) as u8)
    }
}

/// `name` with the numeric suffix `k`.
pub open spec fn suffixed(name: Seq<u8>, k: nat) -> Seq<u8> {
    name.push(HYPHEN) + decimal(k)
}

/// A name is taken when it is disallowed and not allowed.
pub open spec fn taken(n: Seq<u8>, allow: Seq<Seq<u8>>, disallow: Seq<Seq<u8>>) -> bool {
    disallow.contains(n) && !allow.contains(n)
}

/// `r` is `name` if that is free, else `name` with the smallest suffix that
/// makes it free.
pub open spec fn uniquified(
    r: Seq<u8>,
    name: Seq<u8>,
    allow: Seq<Seq<u8>>,
    disallow: Seq<Seq<u8>>,
) -> bool {
    if !taken(name, allow, disallow) {
        r == name
    } else {
        exists|k: nat|
            k >= 1 && r == suffixed(name, k) && !taken(r, allow, disallow) && forall|j: nat|
                1 <= j < k ==> taken(#[trigger] suffixed(name, j), allow, disallow)
    }
}

proof fn lemma_decimal_len(n: nat)
    ensures
        decimal(n).len() >= 1,
    decreases n,
{
    if n >= 10 {
        lemma_decimal_len(n / 10);
    }
}

proof fn lemma_decimal_injective(a: nat, b: nat)
    requires
        decimal(a) == decimal(b),
    ensures
        a == b,
    decreases a,
{
    if a >= 10 {
        lemma_decimal_len(a / 10);
    }
    if b >= 10 {
        lemma_decimal_len(b / 10);
    }
    if a < 10 && b < 10 {
        assert(decimal(a)[0] == decimal(b)[0]);
        assert(decimal(a)[0] == (48 + a) as u8);
        assert(decimal(b)[0] == (48 + b) as u8);
    } else if a >= 10 && b >= 10 {
        assert(decimal(a / 10) =~= decimal(a).drop_last());
        assert(decimal(b / 10) =~= decimal(b).drop_last());
        lemma_decimal_injective(a / 10, b / 10);
        assert(decimal(a).last() == decimal(b).last());
        assert(decimal(a).last() == (48 + a % 10) as u8);
        assert(decimal(b).last() == (48 + b % 10) as u8);
        assert(0 <= a % 10 < 10 && 0 <= b % 10 < 10);
        assert(a % 10 == b % 10);
        assert(a == 10 * (a / 10) + a % 10);
        assert(b == 10 * (b / 10) + b % 10);
    } else if a < 10 {
        assert(decimal(a).len() == 1);
        assert(decimal(b).len() == decimal(b / 10).len() + 1);
    } else {
        assert(decimal(b).len() == 1);
        assert(decimal(a).len() == decimal(a / 10).len() + 1);
    }
}

proof fn lemma_suffixed_injective(name: Seq<u8>, a: nat, b: nat)
    requires
        suffixed(name, a) == suffixed(name, b),
    ensures
        a == b,
{
    let l = name.len() as int + 1;
    assert(suffixed(name, a).subrange(l, suffixed(name, a).len() as int) =~= decimal(a));
    assert(suffixed(name, b).subrange(l, suffixed(name, b).len() as int) =~= decimal(b));
    lemma_decimal_injective(a, b);
}

/// Among the suffixes 1 to `disallow.len() + 1` one is free.
proof fn lemma_some_suffix_free(name: Seq<u8>, allow: Seq<Seq<u8>>, disallow: Seq<Seq<u8>>)
    ensures
        exists|k: nat| 1 <= k <= disallow.len() + 1 && !taken(#[trigger] suffixed(name, k), allow, disallow),
{
    if forall|k: nat| 1 <= k <= disallow.len() + 1 ==> taken(#[trigger] suffixed(name, k), allow, disallow) {
        let ks = Set::new(|k: nat| 1 <= k <= disallow.len() + 1);
        let f = |k: nat| suffixed(name, k);
        let img = ks.map(f);
        let ints = set_int_range(1, disallow.len() as int + 2);
        assert forall|k: nat| ks.contains(k) implies ints.map(|i: int| i as nat).contains(k) by {
            assert(ints.contains(k as int));
        }
        assert(ks =~= ints.map(|i: int| i as nat));
        lemma_int_range(1, disallow.len() as int + 2);
        assert(injective_on(|i: int| i as nat, ints));
        lemma_map_size(ints, ks, |i: int| i as nat);
        assert(injective_on(f, ks)) by {
            assert forall|a: nat, b: nat| ks.contains(a) && ks.contains(b) && f(a) == f(b) implies a == b by {
                lemma_suffixed_injective(name, a, b);
            }
        }
        lemma_map_size(ks, img, f);
        assert(img.subset_of(disallow.to_set())) by {
            assert forall|s: Seq<u8>| img.contains(s) implies disallow.to_set().contains(s) by {
                let k = choose|k: nat| ks.contains(k) && f(k) == s;
                assert(taken(suffixed(name, k), allow, disallow));
            }
        }
        disallow.lemma_cardinality_of_set();
        lemma_len_subset(img, disallow.to_set());
    }
}

/// Whether `n` is disallowed and not allowed.
fn is_taken(n: &Vec<u8>, allow: &Vec<Vec<u8>>, disallow: &Vec<Vec<u8>>) -> (r: bool)
    ensures
        r == taken(n@, bytes_view(allow@), bytes_view(disallow@)),
{
    contains_name(disallow, n) && !contains_name(allow, n)
}

/// Whether `n` is one of `ns`.
pub fn contains_name(ns: &Vec<Vec<u8>>, n: &Vec<u8>) -> (r: bool)
    ensures
        r == bytes_view(ns@).contains(n@),
{
    let mut i: usize = 0;
    while i < ns.len()
        invariant
            i <= ns@.len(),
            forall|j: int| 0 <= j < i ==> ns@[j]@ != n@,
        decreases ns@.len() - i,
    {
        if same_name(&ns[i], n) {
            proof {
                assert(bytes_view(ns@)[i as int] == n@);
            }
            return true;
        }
        i = i + 1;
    }
    proof {
        if bytes_view(ns@).contains(n@) {
            let j = choose|j: int| 0 <= j < bytes_view(ns@).len() && bytes_view(ns@)[j] == n@;
            assert(ns@[j]@ == n@);
        }
    }
    false
}

/// The decimal digits of `n`.
fn decimal_bytes(n: usize) -> (r: Vec<u8>)
    ensures
        r@ == decimal(n as nat),
    decreases n,
{
    if n < 10 {
        let d = (48 + n) as u8;
        let r = vec![d];
        proof {
            assert(r@ =~= seq![d]);
        }
        r
    } else {
        let mut r = decimal_bytes(n / 10);
        r.push((48 + n % 10) as u8);
        r
    }
}

/// `name` with the suffix `k`.
fn suffixed_bytes(name: &Vec<u8>, k: usize) -> (r: Vec<u8>)
    ensures
        r@ == suffixed(name@, k as nat),
{
    let mut r = name.clone();
    proof {
        assert(r@ =~= name@);
    }
    r.push(HYPHEN);
    let mut d = decimal_bytes(k);
    r.append(&mut d);
    r
}

/// Makes `name` unique: `name` itself when it is not taken, else `name`
/// with the smallest numeric suffix that is not taken.
pub fn uniquify(name: &Vec<u8>, allow: &Vec<Vec<u8>>, disallow: &Vec<Vec<u8>>) -> (r: Vec<u8>)
    requires
        disallow@.len() < usize::MAX,
    ensures
        uniquified(r@, name@, bytes_view(allow@), bytes_view(disallow@)),
        !taken(r@, bytes_view(allow@), bytes_view(disallow@)),
{
    let ghost av = bytes_view(allow@);
    let ghost dv = bytes_view(disallow@);
    if !is_taken(name, allow, disallow) {
        let r = name.clone();
        proof {
            assert(r@ =~= name@);
        }
        return r;
    }
    proof {
        lemma_some_suffix_free(name@, av, dv);
    }
    let mut k: usize = 1;
    loop
        invariant
            1 <= k <= disallow@.len() + 1,
            disallow@.len() < usize::MAX,
            av == bytes_view(allow@),
            dv == bytes_view(disallow@),
            taken(name@, av, dv),
            dv.len() == disallow@.len(),
            exists|m: nat| k <= m <= dv.len() + 1 && !taken(#[trigger] suffixed(name@, m), av, dv),
            forall|j: nat| 1 <= j < k ==> taken(#[trigger] suffixed(name@, j), av, dv),
        decreases disallow@.len() + 1 - k,
    {
        let cand = suffixed_bytes(name, k);
        if !is_taken(&cand, allow, disallow) {
            proof {
                assert(cand@ == suffixed(name@, k as nat));
            }
            return cand;
        }
        proof {
            let m = choose|m: nat| k <= m <= dv.len() + 1 && !taken(#[trigger] suffixed(name@, m), av, dv);
            assert(m != k);
        }
        k = k + 1;
    }
}

} // verus!
