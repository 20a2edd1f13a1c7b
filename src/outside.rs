//! The calls into outside crates that the library relies on, each with the
//! contract that the crate's documentation and source give it.

use vstd::prelude::*;

verus! {

#[verifier::external_type_specification]
#[verifier::external_body]
#[verifier::reject_recursive_types(T)]
#[verifier::reject_recursive_types(S)]
pub struct ExIndexSet<T, S>(indexmap::IndexSet<T, S>);

/// The items of an insertion-ordered set of commits, oldest insertion first.
pub uninterp spec fn commit_set_items(s: indexmap::IndexSet<usize>) -> Seq<usize>;

/// Relies on indexmap::IndexSet::new: a new set is empty.
#[verifier::external_body]
pub(crate) fn commit_set_new() -> (r: indexmap::IndexSet<usize>)
    ensures
        commit_set_items(r) == Seq::<usize>::empty(),
{
    indexmap::IndexSet::new()
}

/// Relies on indexmap::IndexSet::insert: an item already present keeps its
/// place; a new one goes last.
#[verifier::external_body]
pub(crate) fn commit_set_insert(s: &mut indexmap::IndexSet<usize>, x: usize)
    ensures
        commit_set_items(*final(s)) == if commit_set_items(*old(s)).contains(x) {
            commit_set_items(*old(s))
        } else {
            commit_set_items(*old(s)).push(x)
        },
{
    s.insert(x);
}

/// Relies on indexmap::IndexSet::contains.
#[verifier::external_body]
pub(crate) fn commit_set_contains(s: &indexmap::IndexSet<usize>, x: usize) -> (r: bool)
    ensures
        r == commit_set_items(*s).contains(x),
{
    s.contains(&x)
}

/// Relies on indexmap::IndexSet::is_empty.
#[verifier::external_body]
pub(crate) fn commit_set_is_empty(s: &indexmap::IndexSet<usize>) -> (r: bool)
    ensures
        r == (commit_set_items(*s).len() == 0),
{
    s.is_empty()
}

/// Relies on indexmap::IndexSet::pop: removes and returns the last item.
#[verifier::external_body]
pub(crate) fn commit_set_pop(s: &mut indexmap::IndexSet<usize>) -> (r: Option<usize>)
    ensures
        match r {
            Some(x) => {
                &&& commit_set_items(*old(s)).len() > 0
                &&& x == commit_set_items(*old(s)).last()
                &&& commit_set_items(*final(s)) == commit_set_items(*old(s)).drop_last()
            },
            None => {
                &&& commit_set_items(*old(s)).len() == 0
                &&& commit_set_items(*final(s)) == commit_set_items(*old(s))
            },
        },
{
    s.pop()
}

/// `l` without one `\r` at its end.
pub open spec fn trim_cr(l: Seq<u8>) -> Seq<u8> {
    if l.len() > 0 && l.last() == 13 {
        l.drop_last()
    } else {
        l
    }
}

/// The lines of `b`, after the partial line `cur`: each `\n` ends a line,
/// which loses one `\r` before it; a last line without `\n` is kept as it
/// is, and an empty one is no line.
pub open spec fn lines_after(b: Seq<u8>, cur: Seq<u8>) -> Seq<Seq<u8>>
    decreases b.len(),
{
    if b.len() == 0 {
        if cur.len() == 0 {
            Seq::empty()
        } else {
            seq![cur]
        }
    } else if b[0] == 10 {
        seq![trim_cr(cur)] + lines_after(b.drop_first(), Seq::empty())
    } else {
        lines_after(b.drop_first(), cur.push(b[0]))
    }
}

/// The lines of a byte string, without their `\n` or `\r\n` terminators.
pub open spec fn lines_of(b: Seq<u8>) -> Seq<Seq<u8>> {
    lines_after(b, Seq::empty())
}

/// Relies on bstr's ByteSlice::lines: pieces that end at each `\n` (the
/// last without one, when not empty), each with its `\n` and then a `\r`
/// before it trimmed.
#[verifier::external_body]
pub(crate) fn byte_lines(b: &Vec<u8>) -> (r: Vec<Vec<u8>>)
    ensures
        r@.map_values(|l: Vec<u8>| l@) == lines_of(b@),
{
    bstr::ByteSlice::lines(b.as_slice()).map(|l| l.to_vec()).collect()
}

/// A byte string read as text, each invalid UTF-8 sequence replaced by
/// U+FFFD.
pub uninterp spec fn lossy_text(b: Seq<u8>) -> Seq<char>;

/// Relies on bstr's ByteSlice::to_str_lossy.
#[verifier::external_body]
pub(crate) fn text_lossy(b: &Vec<u8>) -> (r: String)
    ensures
        r@ == lossy_text(b@),
{
    bstr::ByteSlice::to_str_lossy(b.as_slice()).into_owned()
}

/// Relies on rand's slice::Choose distribution, sampled from the thread's
/// generator: one item of a non-empty slice, picked at random.
#[verifier::external_body]
pub(crate) fn random_pick(items: &Vec<u8>) -> (r: u8)
    requires
        items@.len() > 0,
    ensures
        items@.contains(r),
{
    let dist = rand::distr::slice::Choose::new(items.as_slice()).unwrap();
    *rand::Rng::sample(&mut rand::rng(), dist)
}

/// The path `path` taken relative to the directory `dir`.
pub uninterp spec fn joined_path(dir: Seq<char>, path: Seq<char>) -> Seq<char>;

/// Relies on std's Path::join (an absolute `path` replaces `dir`), and on
/// the joined path of two strings being valid UTF-8 again.
#[verifier::external_body]
pub(crate) fn join_path(dir: &str, path: &str) -> (r: String)
    ensures
        r@ == joined_path(dir@, path@),
{
    std::path::Path::new(dir).join(path).to_str().unwrap().to_string()
}

} // verus!
