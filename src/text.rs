//! Text helpers around patch names and the interactive spill template.

use vstd::prelude::*;

use vstd::utf8::encode_utf8;

use crate::error::StackError;
use crate::outside::{byte_lines, lines_of, lossy_text, random_pick, text_lossy};
use crate::registry::Stack;
use crate::repair::bytes_view;

verus! {

/// The index of the first `c` in `s`.
pub open spec fn first_index(s: Seq<char>, c: char) -> Option<int>
    decreases s.len(),
{
    if s.len() == 0 {
        None
    } else if s[0] == c {
        Some(0)
    } else {
        match first_index(s.drop_first(), c) {
            Some(i) => Some(i + 1),
            None => None,
        }
    }
}

/// The part of a patch name before its first `@`, if it has one.
pub open spec fn prefix_of(name: Seq<char>) -> Option<Seq<char>> {
    match first_index(name, '@') {
        Some(i) => Some(name.take(i)),
        None => None,
    }
}

proof fn lemma_first_index_skip(s: Seq<char>, c: char, i: int)
    requires
        0 <= i < s.len(),
        s[i] != c,
    ensures
        first_index(s.subrange(i, s.len() as int), c) == match first_index(s.subrange(i + 1, s.len() as int), c) {
            Some(k) => Some(k + 1),
            None => None::<int>,
        },
{
    assert(s.subrange(i, s.len() as int).drop_first() =~= s.subrange(i + 1, s.len() as int));
}

/// The prefix of a patch name: what stands before its first `@`.
pub fn parse_patch_prefix_from_patch_name(patch_name: String) -> (r: Option<String>)
    ensures
        match r {
            Some(p) => prefix_of(patch_name@) == Some(p@),
            None => prefix_of(patch_name@) is None,
        },
{
    let s = patch_name.as_str();
    let n = s.unicode_len();
    let mut i: usize = 0;
    proof {
        assert(s@.subrange(0, s@.len() as int) =~= s@);
    }
    while i < n
        invariant
            s@ == patch_name@,
            n == s@.len(),
            i <= n,
            first_index(s@, '@') == match first_index(s@.subrange(i as int, n as int), '@') {
                Some(k) => Some(k + i),
                None => None::<int>,
            },
        decreases n - i,
    {
        let c = s.get_char(i);
        if c == '@' {
            assert(s@.subrange(i as int, n as int)[0] == '@');
            let p = s.substring_char(0, i);
            return Some(p.to_owned());
        }
        proof {
            lemma_first_index_skip(s@, '@', i as int);
        }
        i = i + 1;
    }
    proof {
        assert(s@.subrange(n as int, n as int) =~= Seq::<char>::empty());
    }
    None
}

/// `spill <file>` and a newline, for each file in turn.
pub open spec fn template_of(files: Seq<Seq<char>>) -> Seq<char>
    decreases files.len(),
{
    if files.len() == 0 {
        Seq::empty()
    } else {
        template_of(files.drop_last()) + seq!['s', 'p', 'i', 'l', 'l', ' '] + files.last() + seq!['\n']
    }
}

/// The text of the interactive spill template: one `spill <file>` line for
/// each file that the patch changes.
pub fn make_interactive_template(patch_files: &Vec<String>) -> (r: String)
    ensures
        r@ == template_of(patch_files@.map_values(|f: String| f@)),
{
    let ghost fv = patch_files@.map_values(|f: String| f@);
    let mut template = String::new();
    let mut i: usize = 0;
    proof {
        reveal_strlit("spill ");
        reveal_strlit("\n");
        assert(fv.take(0) =~= Seq::<Seq<char>>::empty());
    }
    while i < patch_files.len()
        invariant
            i <= patch_files@.len(),
            fv == patch_files@.map_values(|f: String| f@),
            template@ == template_of(fv.take(i as int)),
        decreases patch_files@.len() - i,
    {
        proof {
            reveal_strlit("spill ");
            reveal_strlit("\n");
            assert(fv.take(i + 1).drop_last() =~= fv.take(i as int));
        }
        template.append("spill ");
        template.append(patch_files[i].as_str());
        template.append("\n");
        proof {
            assert("spill "@ =~= seq!['s', 'p', 'i', 'l', 'l', ' ']);
            assert("\n"@ =~= seq!['\n']);
        }
        i = i + 1;
    }
    proof {
        assert(fv.take(patch_files@.len() as int) =~= fv);
    }
    template
}

/// The lines, each after `prefix`, joined by newlines.
pub open spec fn prefixed_lines(lines: Seq<Seq<u8>>, prefix: Seq<u8>) -> Seq<u8>
    decreases lines.len(),
{
    if lines.len() == 0 {
        Seq::empty()
    } else if lines.len() == 1 {
        prefix + lines[0]
    } else {
        prefixed_lines(lines.drop_last(), prefix) + seq![10u8] + prefix + lines.last()
    }
}

/// Puts `prefix` before every line of `text`.
pub fn bstring_prepend_lines(text: &Vec<u8>, prefix: &Vec<u8>) -> (r: Vec<u8>)
    ensures
        r@ == prefixed_lines(lines_of(text@), prefix@),
{
    let lines = byte_lines(text);
    let ghost lv = lines@.map_values(|l: Vec<u8>| l@);
    let mut r: Vec<u8> = Vec::new();
    let mut i: usize = 0;
    proof {
        assert(lv.take(0) =~= Seq::<Seq<u8>>::empty());
    }
    while i < lines.len()
        invariant
            i <= lines@.len(),
            lv == lines@.map_values(|l: Vec<u8>| l@),
            r@ == prefixed_lines(lv.take(i as int), prefix@),
        decreases lines@.len() - i,
    {
        proof {
            assert(lv.take(i + 1).drop_last() =~= lv.take(i as int));
        }
        if i > 0 {
            r.push(10u8);
        }
        let mut p = prefix.clone();
        let mut l = lines[i].clone();
        proof {
            assert(p@ =~= prefix@);
            assert(l@ =~= lines@[i as int]@);
        }
        let ghost r0 = r@;
        r.append(&mut p);
        r.append(&mut l);
        proof {
            if i == 0 {
                assert(r@ =~= prefix@ + lv.take(1)[0]);
            } else {
                assert(r@ =~= r0 + prefix@ + lv.take(i + 1).last());
            }
        }
        i = i + 1;
    }
    proof {
        assert(lv.take(lines@.len() as int) =~= lv);
    }
    r
}

/// The prefix offered for a generated patch id: that of the topmost
/// applied patch when its name has one, else `misc`.
pub open spec fn default_prefix(s: Stack) -> Seq<char> {
    if s.state.applied@.len() > 0 && prefix_of(lossy_text(s.state.applied@.last().name@)) is Some {
        prefix_of(lossy_text(s.state.applied@.last().name@))->Some_0
    } else {
        seq!['m', 'i', 's', 'c']
    }
}

/// The prefix to offer for a generated patch id, as [`default_prefix`] states.
pub fn default_patch_prefix(s: &Stack) -> (r: String)
    ensures
        r@ == default_prefix(*s),
{
    proof {
        reveal_strlit("misc");
    }
    if s.state.applied.len() > 0 {
        let last = &s.state.applied[s.state.applied.len() - 1];
        match parse_patch_prefix_from_patch_name(text_lossy(&last.name)) {
            Some(p) => {
                return p;
            },
            None => {},
        }
    }
    let r = String::from_str("misc");
    proof {
        assert("misc"@ =~= seq!['m', 'i', 's', 'c']);
    }
    r
}

/// The characters a generated patch id draws from.
pub open spec fn id_charset() -> Seq<u8> {
    seq![48u8, 49, 50, 51, 52, 53, 54, 55, 56, 57, 97, 98, 99, 100, 101, 102, 103, 104, 105, 106,
        107, 108, 109, 110, 111, 112, 113, 114, 115, 116, 117, 118, 119, 120, 121, 122]
}

/// The patch id `<prefix>@<suffix>`; an empty prefix is refused.
pub fn patch_id_from(prefix: &String, suffix: &Vec<u8>) -> (r: Result<Vec<u8>, StackError>)
    ensures
        prefix@.len() == 0 <==> r == Err::<Vec<u8>, StackError>(StackError::InvalidPatchName),
        r is Ok <==> prefix@.len() > 0,
        r is Ok ==> r->Ok_0@ == encode_utf8(prefix@) + seq![64u8] + suffix@,
{
    let s = prefix.as_str();
    if s.unicode_len() == 0 {
        return Err(StackError::InvalidPatchName);
    }
    let mut r = s.as_bytes_vec();
    r.push(64u8);
    let mut t = suffix.clone();
    proof {
        assert(t@ =~= suffix@);
    }
    r.append(&mut t);
    Ok(r)
}

/// A new patch id: the chosen prefix, `@`, and five characters drawn at
/// random from the digits and lowercase letters.
pub fn generate_patch_id(prefix: &String) -> (r: Result<Vec<u8>, StackError>)
    ensures
        prefix@.len() == 0 <==> r == Err::<Vec<u8>, StackError>(StackError::InvalidPatchName),
        r is Ok <==> prefix@.len() > 0,
        r is Ok ==> {
            let id = r->Ok_0@;
            let n = encode_utf8(prefix@).len();
            &&& id.len() == n + 6
            &&& id.take(n as int) == encode_utf8(prefix@)
            &&& id[n as int] == 64u8
            &&& forall|k: int| n + 1 <= k < n + 6 ==> id_charset().contains(#[trigger] id[k])
        },
{
    let charset: Vec<u8> = vec![48u8, 49, 50, 51, 52, 53, 54, 55, 56, 57, 97, 98, 99, 100, 101,
        102, 103, 104, 105, 106, 107, 108, 109, 110, 111, 112, 113, 114, 115, 116, 117, 118, 119,
        120, 121, 122];
    proof {
        assert(charset@ =~= id_charset());
    }
    let mut suffix: Vec<u8> = Vec::new();
    let mut i: usize = 0;
    while i < 5
        invariant
            i <= 5,
            charset@ == id_charset(),
            suffix@.len() == i,
            forall|k: int| 0 <= k < i ==> id_charset().contains(#[trigger] suffix@[k]),
        decreases 5 - i,
    {
        let c = random_pick(&charset);
        suffix.push(c);
        i = i + 1;
    }
    let r = patch_id_from(prefix, &suffix);
    proof {
        if r is Ok {
            let id = r->Ok_0@;
            let b = encode_utf8(prefix@);
            assert(id.take(b.len() as int) =~= b);
            assert forall|k: int| b.len() + 1 <= k < b.len() + 6 implies id_charset().contains(#[trigger] id[k]) by {
                assert(id[k] == suffix@[k - b.len() - 1]);
            }
        }
    }
    r
}

} // verus!
