//! Small verified helpers over strings: equality of character sequences and
//! the document-extension test used by the skeleton builder.

use vstd::prelude::*;

verus! {

/// Character-by-character equality of two string slices.
pub fn str_eq(a: &str, b: &str) -> (r: bool)
    ensures
        r == (a@ == b@),
{
    let a_len = a.unicode_len();
    let b_len = b.unicode_len();
    if a_len != b_len {
        proof {
            assert(a@ != b@);
        }
        return false;
    }
    let mut i: usize = 0;
    while i < a_len
        invariant
            a_len == a@.len(),
            b_len == b@.len(),
            a_len == b_len,
            i <= a_len,
            forall|j: int| 0 <= j < i ==> a@[j] == b@[j],
        decreases a_len - i,
    {
        if a.get_char(i) != b.get_char(i) {
            return false;
        }
        i = i + 1;
    }
    proof {
        assert(a@ =~= b@);
    }
    true
}

/// True when `s` ends with the suffix `.md`, the one indexed document
/// extension.
pub open spec fn spec_has_md_extension(s: Seq<char>) -> bool {
    s.len() >= 3 && s.subrange(s.len() - 3, s.len() as int) == seq!['.', 'm', 'd']
}

/// Whether a file path names an indexed document: it must end in `.md`.
pub fn has_md_extension(path: &str) -> (r: bool)
    ensures
        r == spec_has_md_extension(path@),
{
    let len = path.unicode_len();
    if len < 3 {
        return false;
    }
    let dot = path.get_char(len - 3);
    let m = path.get_char(len - 2);
    let d = path.get_char(len - 1);
    let r = dot == '.' && m == 'm' && d == 'd';
    proof {
        if r {
            assert(path@.subrange(path@.len() - 3, path@.len() as int) =~= seq!['.', 'm', 'd']);
        } else {
            assert(path@.subrange(path@.len() - 3, path@.len() as int)[0] == path@[path@.len()
                - 3]);
            assert(path@.subrange(path@.len() - 3, path@.len() as int)[1] == path@[path@.len()
                - 2]);
            assert(path@.subrange(path@.len() - 3, path@.len() as int)[2] == path@[path@.len()
                - 1]);
            assert(seq!['.', 'm', 'd'][0] == '.');
            assert(seq!['.', 'm', 'd'][1] == 'm');
            assert(seq!['.', 'm', 'd'][2] == 'd');
        }
    }
    r
}

} // verus!
