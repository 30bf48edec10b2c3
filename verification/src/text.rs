//! Helpers on source text: indentation, identifiers, whitespace trimming and
//! the templates of f-strings.

use vstd::prelude::*;
use vstd::string::StringSliceAdditionalSpecFns;

verus! {

broadcast use vstd::string::axiom_spec_iter;

/// The characters of `s`, in order.
pub(crate) fn chars_of(s: &str) -> (chars: Vec<char>)
    ensures
        chars@ == s@,
{
    let mut out: Vec<char> = Vec::new();
    for c in it: s.chars()
        invariant
            it.seq() == s@,
            out@ == it.seq().take(it.index() as int),
    {
        out.push(c);
    }
    assert(out@ =~= s@);
    out
}

/// The string made of `chars` (std's `String: FromIterator<char>`).
#[verifier::external_body]
pub(crate) fn string_from_chars(chars: &Vec<char>) -> (s: String)
    ensures
        s@ == chars@,
{
    chars.iter().collect()
}

/// Whether `c` has the Unicode White_Space property, which is what std's
/// `char::is_whitespace` tests and `str::trim` removes.
pub open spec fn spec_is_whitespace(c: char) -> bool {
    ||| ('\u{9}' <= c && c <= '\u{d}')
    ||| c == ' '
    ||| c == '\u{85}'
    ||| c == '\u{a0}'
    ||| c == '\u{1680}'
    ||| ('\u{2000}' <= c && c <= '\u{200a}')
    ||| c == '\u{2028}'
    ||| c == '\u{2029}'
    ||| c == '\u{202f}'
    ||| c == '\u{205f}'
    ||| c == '\u{3000}'
}

/// Whether `c` is whitespace (the Unicode White_Space property).
pub fn is_whitespace(c: char) -> (ws: bool)
    ensures
        ws == spec_is_whitespace(c),
{
    ('\u{9}' <= c && c <= '\u{d}') || c == ' ' || c == '\u{85}' || c == '\u{a0}' || c == '\u{1680}'
        || ('\u{2000}' <= c && c <= '\u{200a}') || c == '\u{2028}' || c == '\u{2029}' || c
        == '\u{202f}' || c == '\u{205f}' || c == '\u{3000}'
}

/// The first position at or after `i` that does not hold whitespace.
pub open spec fn skip_ws_forward(s: Seq<char>, i: int) -> int
    decreases s.len() - i,
{
    if 0 <= i < s.len() && spec_is_whitespace(s[i]) {
        skip_ws_forward(s, i + 1)
    } else {
        i
    }
}

/// The end of `s[lo..j]` once trailing whitespace is dropped.
pub open spec fn skip_ws_backward(s: Seq<char>, lo: int, j: int) -> int
    decreases j - lo,
{
    if lo < j && j <= s.len() && spec_is_whitespace(s[j - 1]) {
        skip_ws_backward(s, lo, j - 1)
    } else {
        j
    }
}

/// `s` without leading and trailing whitespace.
pub open spec fn spec_trim(s: Seq<char>) -> Seq<char> {
    let a = skip_ws_forward(s, 0);
    s.subrange(a, skip_ws_backward(s, a, s.len() as int))
}

proof fn lemma_skip_forward_bounds(s: Seq<char>, i: int)
    requires
        0 <= i <= s.len(),
    ensures
        i <= skip_ws_forward(s, i) <= s.len(),
    decreases s.len() - i,
{
    if i < s.len() && spec_is_whitespace(s[i]) {
        lemma_skip_forward_bounds(s, i + 1);
    }
}

proof fn lemma_skip_backward_bounds(s: Seq<char>, lo: int, j: int)
    requires
        0 <= lo <= j <= s.len(),
    ensures
        lo <= skip_ws_backward(s, lo, j) <= j,
    decreases j - lo,
{
    if lo < j && spec_is_whitespace(s[j - 1]) {
        lemma_skip_backward_bounds(s, lo, j - 1);
    }
}

proof fn lemma_skip_forward_all_ws(s: Seq<char>, i: int)
    requires
        0 <= i <= s.len(),
    ensures
        forall|k: int| i <= k < skip_ws_forward(s, i) ==> spec_is_whitespace(#[trigger] s[k]),
        skip_ws_forward(s, i) < s.len() ==> !spec_is_whitespace(s[skip_ws_forward(s, i)]),
        i <= skip_ws_forward(s, i) <= s.len(),
    decreases s.len() - i,
{
    if i < s.len() && spec_is_whitespace(s[i]) {
        lemma_skip_forward_all_ws(s, i + 1);
    }
}

proof fn lemma_skip_backward_all_ws(s: Seq<char>, lo: int, j: int)
    requires
        0 <= lo <= j <= s.len(),
    ensures
        forall|k: int| skip_ws_backward(s, lo, j) <= k < j ==> spec_is_whitespace(#[trigger] s[k]),
        skip_ws_backward(s, lo, j) > lo ==> !spec_is_whitespace(s[skip_ws_backward(s, lo, j) - 1]),
        lo <= skip_ws_backward(s, lo, j) <= j,
    decreases j - lo,
{
    if lo < j && spec_is_whitespace(s[j - 1]) {
        lemma_skip_backward_all_ws(s, lo, j - 1);
    }
}

/// A text trims to nothing exactly when all of it is whitespace.
pub proof fn lemma_trim_empty_iff_blank(s: Seq<char>)
    ensures
        (spec_trim(s).len() == 0) == forall|k: int| 0 <= k < s.len() ==> spec_is_whitespace(#[trigger] s[k]),
{
    lemma_skip_forward_all_ws(s, 0);
    let a = skip_ws_forward(s, 0);
    lemma_skip_backward_all_ws(s, a, s.len() as int);
    let b = skip_ws_backward(s, a, s.len() as int);
    if spec_trim(s).len() == 0 {
        assert forall|k: int| 0 <= k < s.len() implies spec_is_whitespace(#[trigger] s[k]) by {
            if k >= a {
                assert(b == a);
            }
        }
    } else {
        assert(a < s.len());
        assert(!spec_is_whitespace(s[a]));
    }
}

/// Trimming a trimmed text leaves it as it is.
pub proof fn lemma_trim_idempotent(s: Seq<char>)
    ensures
        spec_trim(spec_trim(s)) == spec_trim(s),
{
    let a = skip_ws_forward(s, 0);
    lemma_skip_forward_all_ws(s, 0);
    lemma_skip_backward_all_ws(s, a, s.len() as int);
    let b = skip_ws_backward(s, a, s.len() as int);
    let t = spec_trim(s);
    if t.len() == 0 {
        assert(skip_ws_forward(t, 0) == 0);
        assert(spec_trim(t) =~= t);
    } else {
        assert(t[0] == s[a]);
        assert(t[t.len() - 1] == s[b - 1]);
        assert(skip_ws_forward(t, 0) == 0);
        assert(skip_ws_backward(t, 0, t.len() as int) == t.len());
        assert(spec_trim(t) =~= t);
    }
}

/// The characters of `s[lo..hi]` without leading and trailing whitespace.
pub(crate) fn trim_range(s: &Vec<char>, lo: usize, hi: usize) -> (trimmed: Vec<char>)
    requires
        lo <= hi <= s@.len(),
    ensures
        trimmed@ == spec_trim(s@.subrange(lo as int, hi as int)),
{
    let ghost t = s@.subrange(lo as int, hi as int);
    let mut a = lo;
    while a < hi && is_whitespace(s[a])
        invariant
            lo <= a <= hi,
            hi <= s@.len(),
            t == s@.subrange(lo as int, hi as int),
            skip_ws_forward(t, (a - lo) as int) == skip_ws_forward(t, 0),
        decreases hi - a,
    {
        a += 1;
    }
    let mut b = hi;
    while b > a && is_whitespace(s[b - 1])
        invariant
            lo <= a <= b <= hi,
            hi <= s@.len(),
            t == s@.subrange(lo as int, hi as int),
            skip_ws_forward(t, 0) == (a - lo) as int,
            skip_ws_backward(t, (a - lo) as int, (b - lo) as int) == skip_ws_backward(
                t,
                (a - lo) as int,
                t.len() as int,
            ),
        decreases b - a,
    {
        b -= 1;
    }
    let mut out: Vec<char> = Vec::new();
    let mut k = a;
    while k < b
        invariant
            a <= k <= b <= hi,
            hi <= s@.len(),
            out@ == s@.subrange(a as int, k as int),
        decreases b - k,
    {
        out.push(s[k]);
        k += 1;
    }
    assert(out@ =~= t.subrange((a - lo) as int, (b - lo) as int));
    out
}

/// Whether `c` is an ASCII letter.
pub open spec fn spec_is_ascii_alpha(c: char) -> bool {
    ('a' <= c && c <= 'z') || ('A' <= c && c <= 'Z')
}

/// Whether `c` is an ASCII digit.
pub open spec fn spec_is_ascii_digit(c: char) -> bool {
    '0' <= c && c <= '9'
}

/// A Python identifier: a letter or underscore, then letters, digits or
/// underscores (ASCII only).
pub open spec fn spec_is_identifier(name: Seq<char>) -> bool {
    &&& name.len() > 0
    &&& (name[0] == '_' || spec_is_ascii_alpha(name[0]))
    &&& forall|i: int|
        1 <= i < name.len() ==> (#[trigger] name[i] == '_' || spec_is_ascii_alpha(name[i])
            || spec_is_ascii_digit(name[i]))
}

/// Whether the characters form a valid identifier.
fn chars_are_identifier(name: &Vec<char>) -> (valid: bool)
    ensures
        valid == spec_is_identifier(name@),
{
    if name.len() == 0 {
        return false;
    }
    let first = name[0];
    if !(first == '_' || ('a' <= first && first <= 'z') || ('A' <= first && first <= 'Z')) {
        return false;
    }
    let mut i: usize = 1;
    while i < name.len()
        invariant
            1 <= i <= name@.len(),
            forall|k: int|
                1 <= k < i ==> (#[trigger] name@[k] == '_' || spec_is_ascii_alpha(name@[k])
                    || spec_is_ascii_digit(name@[k])),
        decreases name@.len() - i,
    {
        let ch = name[i];
        if !(ch == '_' || ('a' <= ch && ch <= 'z') || ('A' <= ch && ch <= 'Z') || ('0' <= ch && ch
            <= '9')) {
            return false;
        }
        i += 1;
    }
    true
}

/// Checks if a string is a valid Python identifier.
/// Must start with a letter or underscore, followed by letters, digits, or underscores.
pub fn is_valid_identifier(name: &str) -> (valid: bool)
    ensures
        valid == spec_is_identifier(name@),
{
    let chars = chars_of(name);
    chars_are_identifier(&chars)
}

/// The position of the `}` that closes a placeholder scanned from `j`, or
/// nothing when a `{` or the end of the template comes first.
pub open spec fn closing_brace(t: Seq<char>, j: int) -> Option<int>
    decreases t.len() - j,
{
    if j < 0 || j >= t.len() {
        None
    } else if t[j] == '}' {
        Some(j)
    } else if t[j] == '{' {
        None
    } else {
        closing_brace(t, j + 1)
    }
}

/// A piece of an f-string: literal text, or an identifier to interpolate.
#[derive(Debug, Clone, PartialEq, Eq)]
pub enum FStringSegment {
    /// A literal string segment
    Literal(String),
    /// An identifier to be interpolated
    Identifier(String),
}

/// A segment as whether it interpolates and its characters.
pub open spec fn segment_view(seg: FStringSegment) -> (bool, Seq<char>) {
    match seg {
        FStringSegment::Literal(s) => (false, s@),
        FStringSegment::Identifier(s) => (true, s@),
    }
}

/// The literal collected so far as a segment, unless it is empty.
pub open spec fn pending_literal(lit: Seq<char>) -> Seq<(bool, Seq<char>)> {
    if lit.len() > 0 {
        seq![(false, lit)]
    } else {
        Seq::empty()
    }
}

/// `prefix` followed by the segments of `rest`, if there are any.
pub open spec fn prepend_segments(
    prefix: Seq<(bool, Seq<char>)>,
    rest: Option<Seq<(bool, Seq<char>)>>,
) -> Option<Seq<(bool, Seq<char>)>> {
    match rest {
        Some(r) => Some(prefix + r),
        None => None,
    }
}

/// The segments of the f-string template `t` from position `i`, with `lit`
/// the literal text collected before `i`: `{{` and `}}` stand for braces,
/// `{name}` interpolates an identifier (whitespace around it ignored), and a
/// lone `}`, a nested or unclosed `{`, or a placeholder that is not an
/// identifier makes the template invalid.
pub open spec fn spec_fstring_from(t: Seq<char>, i: int, lit: Seq<char>) -> Option<
    Seq<(bool, Seq<char>)>,
>
    decreases t.len() - i,
{
    if i < 0 || i >= t.len() {
        Some(pending_literal(lit))
    } else if t[i] == '{' {
        if i + 1 < t.len() && t[i + 1] == '{' {
            spec_fstring_from(t, i + 2, lit.push('{'))
        } else {
            match closing_brace(t, i + 1) {
                None => None,
                Some(j) => {
                    let name = spec_trim(t.subrange(i + 1, j));
                    if j <= i || j >= t.len() || !spec_is_identifier(name) {
                        None
                    } else {
                        prepend_segments(
                            pending_literal(lit) + seq![(true, name)],
                            spec_fstring_from(t, j + 1, Seq::empty()),
                        )
                    }
                },
            }
        }
    } else if t[i] == '}' {
        if i + 1 < t.len() && t[i + 1] == '}' {
            spec_fstring_from(t, i + 2, lit.push('}'))
        } else {
            None
        }
    } else {
        spec_fstring_from(t, i + 1, lit.push(t[i]))
    }
}

proof fn lemma_closing_brace_after(t: Seq<char>, j: int)
    ensures
        closing_brace(t, j) matches Some(k) ==> j <= k < t.len() && t[k] == '}' && forall|m: int|
            j <= m < k ==> t[m] != '}' && t[m] != '{',
    decreases t.len() - j,
{
    if 0 <= j < t.len() && t[j] != '}' && t[j] != '{' {
        lemma_closing_brace_after(t, j + 1);
    }
}

/// Parses an f-string template into segments of literals and identifiers.
/// Handles escape sequences like {{ and }}.
pub fn f_string_segments(template: &str) -> (segments: Result<Vec<FStringSegment>, ()>)
    ensures
        match segments {
            Ok(segs) => spec_fstring_from(template@, 0, Seq::empty()) == Some(
                segs@.map_values(|s: FStringSegment| segment_view(s)),
            ),
            Err(_) => spec_fstring_from(template@, 0, Seq::empty()) is None,
        },
{
    let t = chars_of(template);
    let n = t.len();
    let mut segments: Vec<FStringSegment> = Vec::new();
    let mut literal: Vec<char> = Vec::new();
    let mut i: usize = 0;
    while i < n
        invariant
            n == t@.len(),
            t@ == template@,
            i <= n,
            spec_fstring_from(t@, 0, Seq::empty()) == prepend_segments(
                segments@.map_values(|s: FStringSegment| segment_view(s)),
                spec_fstring_from(t@, i as int, literal@),
            ),
        decreases n - i,
    {
        let ghost segs_before = segments@.map_values(|s: FStringSegment| segment_view(s));
        let ch = t[i];
        if ch == '{' {
            if i + 1 < n && t[i + 1] == '{' {
                literal.push('{');
                i += 2;
                continue;
            }
            let ghost lit_before = literal@;
            let mut j = i + 1;
            while j < n && t[j] != '}' && t[j] != '{'
                invariant
                    i < j <= n,
                    n == t@.len(),
                    closing_brace(t@, j as int) == closing_brace(t@, (i + 1) as int),
                decreases n - j,
            {
                j += 1;
            }
            if j >= n || t[j] == '{' {
                return Err(());
            }
            proof {
                lemma_closing_brace_after(t@, (i + 1) as int);
            }
            let name = trim_range(&t, i + 1, j);
            if !chars_are_identifier(&name) {
                return Err(());
            }
            if literal.len() > 0 {
                let text = string_from_chars(&literal);
                segments.push(FStringSegment::Literal(text));
            }
            let ident = string_from_chars(&name);
            segments.push(FStringSegment::Identifier(ident));
            literal = Vec::new();
            proof {
                assert(segments@.map_values(|s: FStringSegment| segment_view(s)) =~= segs_before
                    + pending_literal(lit_before) + seq![(true, name@)]);
            }
            i = j + 1;
        } else if ch == '}' {
            if i + 1 < n && t[i + 1] == '}' {
                literal.push('}');
                i += 2;
            } else {
                return Err(());
            }
        } else {
            literal.push(ch);
            i += 1;
        }
    }
    let ghost segs_before = segments@.map_values(|s: FStringSegment| segment_view(s));
    if literal.len() > 0 {
        let text = string_from_chars(&literal);
        segments.push(FStringSegment::Literal(text));
    }
    proof {
        assert(segments@.map_values(|s: FStringSegment| segment_view(s)) =~= segs_before
            + pending_literal(literal@));
    }
    Ok(segments)
}

/// The first position at or after `from` in `bytes[..end]` that ends a line
/// (just after a newline), scanning backward from `end`.
pub open spec fn line_start(bytes: Seq<u8>, pos: int) -> int
    decreases pos,
{
    if pos <= 0 || pos > bytes.len() {
        0
    } else if bytes[pos - 1] == 10 {
        pos
    } else {
        line_start(bytes, pos - 1)
    }
}

/// The indentation width of the leading blanks in `bytes[i..end]`: a space
/// counts one, a tab four; the first other byte ends the count.
pub open spec fn indent_width(bytes: Seq<u8>, i: int, end: int) -> nat
    decreases end - i,
{
    if i < 0 || i >= end || end > bytes.len() {
        0
    } else if bytes[i] == 32 {
        1 + indent_width(bytes, i + 1, end)
    } else if bytes[i] == 9 {
        4 + indent_width(bytes, i + 1, end)
    } else {
        0
    }
}

proof fn lemma_indent_width_bound(bytes: Seq<u8>, i: int, end: int)
    requires
        0 <= i <= end <= bytes.len(),
    ensures
        indent_width(bytes, i, end) <= 4 * (end - i),
    decreases end - i,
{
    if i < end {
        lemma_indent_width_bound(bytes, i + 1, end);
    }
}

/// Calculates the indentation level at a byte position of the source: the
/// blanks at the start of that position's line, before the position.
pub fn indent_at(source: &str, position: usize) -> (indent: usize)
    requires
        position <= source.spec_bytes().len(),
        4 * position <= usize::MAX,
    ensures
        indent == indent_width(
            source.spec_bytes(),
            line_start(source.spec_bytes(), position as int),
            position as int,
        ),
{
    let bytes = source.as_bytes();
    let ghost b = bytes@;
    let mut start = position;
    while start > 0 && bytes[start - 1] != 10
        invariant
            start <= position <= b.len(),
            b == bytes@,
            line_start(b, start as int) == line_start(b, position as int),
        decreases start,
    {
        start -= 1;
    }
    proof {
        lemma_indent_width_bound(b, start as int, position as int);
    }
    let mut indent: usize = 0;
    let mut k = start;
    while k < position && (bytes[k] == 32 || bytes[k] == 9)
        invariant
            start <= k <= position <= b.len(),
            b == bytes@,
            4 * position <= usize::MAX,
            indent + indent_width(b, k as int, position as int) == indent_width(
                b,
                start as int,
                position as int,
            ),
            indent_width(b, start as int, position as int) <= 4 * (position - start),
        decreases position - k,
    {
        proof {
            lemma_indent_width_bound(b, (k + 1) as int, position as int);
        }
        if bytes[k] == 32 {
            indent += 1;
        } else {
            indent += 4;
        }
        k += 1;
    }
    indent
}

/// Whether a newline lies in `source[start..end]` (byte positions).
pub fn has_newline_between(source: &str, start: usize, end: usize) -> (found: bool)
    requires
        start <= end <= source.spec_bytes().len(),
    ensures
        found == exists|k: int| start <= k < end && source.spec_bytes()[k] == 10,
{
    let bytes = source.as_bytes();
    let mut k = start;
    while k < end
        invariant
            start <= k <= end <= bytes@.len(),
            bytes@ == source.spec_bytes(),
            forall|m: int| start <= m < k ==> bytes@[m] != 10,
        decreases end - k,
    {
        if bytes[k] == 10 {
            return true;
        }
        k += 1;
    }
    false
}

} // verus!
