//! The string methods of the language: `join` and `isalnum`.

use crate::text::{chars_of, string_from_chars};
use vstd::prelude::*;

verus! {

/// Whether `c` is alphabetic or numeric in the sense of std's
/// `char::is_alphanumeric` (the Unicode Alphabetic and Numeric properties).
pub uninterp spec fn char_is_alphanumeric(c: char) -> bool;

/// std's `char::is_alphanumeric`.
#[verifier::external_body]
fn is_alphanumeric(c: char) -> (r: bool)
    ensures
        r == char_is_alphanumeric(c),
{
    c.is_alphanumeric()
}

/// The parts joined into one sequence with `sep` between neighbours.
pub open spec fn seq_join(parts: Seq<Seq<char>>, sep: Seq<char>) -> Seq<char>
    decreases parts.len(),
{
    if parts.len() == 0 {
        Seq::empty()
    } else if parts.len() == 1 {
        parts[0]
    } else {
        seq_join(parts.drop_last(), sep) + sep + parts.last()
    }
}

/// Joins the strings with the separator between neighbours.
pub fn join_strings(parts: &Vec<String>, sep: &String) -> (joined: String)
    ensures
        joined@ == seq_join(parts@.map_values(|s: String| s@), sep@),
{
    let ghost views = parts@.map_values(|s: String| s@);
    let sep_chars = chars_of(sep.as_str());
    let mut out: Vec<char> = Vec::new();
    let mut i: usize = 0;
    while i < parts.len()
        invariant
            i <= parts@.len(),
            views == parts@.map_values(|s: String| s@),
            sep_chars@ == sep@,
            out@ == seq_join(views.take(i as int), sep@),
        decreases parts@.len() - i,
    {
        let piece = chars_of(parts[i].as_str());
        let ghost before = out@;
        if i > 0 {
            let mut k: usize = 0;
            while k < sep_chars.len()
                invariant
                    k <= sep_chars@.len(),
                    out@ == before + sep_chars@.subrange(0, k as int),
                decreases sep_chars@.len() - k,
            {
                out.push(sep_chars[k]);
                k += 1;
            }
        }
        let ghost middle = out@;
        let mut k: usize = 0;
        while k < piece.len()
            invariant
                k <= piece@.len(),
                out@ == middle + piece@.subrange(0, k as int),
            decreases piece@.len() - k,
        {
            out.push(piece[k]);
            k += 1;
        }
        proof {
            let taken = views.take((i + 1) as int);
            assert(taken.drop_last() =~= views.take(i as int));
            assert(taken.last() == piece@);
            if i > 0 {
                assert(out@ =~= before + sep@ + piece@);
            } else {
                assert(taken =~= seq![piece@]);
                assert(out@ =~= piece@);
            }
        }
        i += 1;
    }
    assert(views.take(parts@.len() as int) =~= views);
    string_from_chars(&out)
}

/// Joins the characters of `text` with the separator between neighbours.
pub fn join_chars(text: &String, sep: &String) -> (joined: String)
    ensures
        joined@ == seq_join(text@.map_values(|c: char| seq![c]), sep@),
{
    let chars = chars_of(text.as_str());
    let mut parts: Vec<String> = Vec::new();
    let mut i: usize = 0;
    while i < chars.len()
        invariant
            i <= chars@.len(),
            chars@ == text@,
            parts@.len() == i,
            forall|k: int| 0 <= k < i ==> (#[trigger] parts@[k])@ == seq![chars@[k]],
        decreases chars@.len() - i,
    {
        let one = vec![chars[i]];
        let piece = string_from_chars(&one);
        proof {
            assert(one@ =~= seq![chars@[i as int]]);
        }
        parts.push(piece);
        i += 1;
    }
    assert(parts@.map_values(|s: String| s@) =~= text@.map_values(|c: char| seq![c]));
    join_strings(&parts, sep)
}

/// Whether the text is non-empty and every character is alphanumeric.
pub fn is_alnum(text: &String) -> (alnum: bool)
    ensures
        alnum == (text@.len() > 0 && forall|k: int|
            0 <= k < text@.len() ==> char_is_alphanumeric(#[trigger] text@[k])),
{
    let chars = chars_of(text.as_str());
    if chars.len() == 0 {
        return false;
    }
    let mut i: usize = 0;
    while i < chars.len()
        invariant
            i <= chars@.len(),
            chars@ == text@,
            forall|k: int| 0 <= k < i ==> char_is_alphanumeric(#[trigger] chars@[k]),
        decreases chars@.len() - i,
    {
        if !is_alphanumeric(chars[i]) {
            return false;
        }
        i += 1;
    }
    true
}

} // verus!
