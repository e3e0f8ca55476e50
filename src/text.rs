//! Character-level helpers on strings: whitespace trimming and the first entry
//! of a comma-separated list.

use vstd::prelude::*;
use vstd::string::StrSliceExecFns;

verus! {

/// Whether `c` has the Unicode `White_Space` property.
pub open spec fn is_white_space(c: char) -> bool {
    ('\u{9}' <= c && c <= '\u{d}') || c == ' ' || c == '\u{85}' || c == '\u{a0}' || c
        == '\u{1680}' || ('\u{2000}' <= c && c <= '\u{200a}') || c == '\u{2028}' || c == '\u{2029}'
        || c == '\u{202f}' || c == '\u{205f}' || c == '\u{3000}'
}

/// Relies on `char::is_whitespace`, which tests the Unicode `White_Space`
/// property.
#[verifier::external_body]
pub(crate) fn white_space(c: char) -> (r: bool)
    ensures
        r == is_white_space(c),
{
    c.is_whitespace()
}

/// Relies on `String::push`: the character is appended at the end.
#[verifier::external_body]
pub(crate) fn push_char(s: &mut String, c: char)
    ensures
        final(s)@ == old(s)@.push(c),
{
    s.push(c)
}

/// Every character of `s` is whitespace, so trimming leaves nothing.
pub open spec fn is_blank(s: Seq<char>) -> bool {
    forall|i: int| 0 <= i < s.len() ==> is_white_space(#[trigger] s[i])
}

/// Number of whitespace characters at the start of `s`.
pub open spec fn leading_ws(s: Seq<char>) -> nat
    decreases s.len(),
{
    if s.len() > 0 && is_white_space(s[0]) {
        1 + leading_ws(s.drop_first())
    } else {
        0
    }
}

/// Number of whitespace characters at the end of `s`.
pub open spec fn trailing_ws(s: Seq<char>) -> nat
    decreases s.len(),
{
    if s.len() > 0 && is_white_space(s.last()) {
        1 + trailing_ws(s.drop_last())
    } else {
        0
    }
}

/// `s` without its leading whitespace.
pub open spec fn trim_start(s: Seq<char>) -> Seq<char> {
    s.subrange(leading_ws(s) as int, s.len() as int)
}

/// `s` without its leading and trailing whitespace.
pub open spec fn trim(s: Seq<char>) -> Seq<char> {
    let t = trim_start(s);
    t.subrange(0, t.len() - trailing_ws(t))
}

/// Number of characters before the first comma of `s`, or its length when it
/// holds none.
pub open spec fn entry_len(s: Seq<char>) -> nat
    decreases s.len(),
{
    if s.len() > 0 && s[0] != ',' {
        1 + entry_len(s.drop_first())
    } else {
        0
    }
}

/// The part of `s` before its first comma.
pub open spec fn first_entry(s: Seq<char>) -> Seq<char> {
    s.take(entry_len(s) as int)
}

/// Copies the characters of `s` from `from` up to `to` into a new string.
fn copy_range(s: &str, from: usize, to: usize) -> (r: String)
    requires
        from <= to <= s@.len(),
    ensures
        r@ == s@.subrange(from as int, to as int),
{
    let mut r = String::new();
    let mut i = from;
    while i < to
        invariant
            from <= i <= to <= s@.len(),
            r@ == s@.subrange(from as int, i as int),
        decreases to - i,
    {
        let c = s.get_char(i);
        push_char(&mut r, c);
        assert(r@ =~= s@.subrange(from as int, i + 1));
        i = i + 1;
    }
    r
}

/// Whether trimming `s` leaves nothing.
pub fn blank(s: &str) -> (r: bool)
    ensures
        r == is_blank(s@),
{
    let n = s.unicode_len();
    let mut i: usize = 0;
    while i < n
        invariant
            n == s@.len(),
            i <= n,
            forall|j: int| 0 <= j < i ==> is_white_space(#[trigger] s@[j]),
        decreases n - i,
    {
        if !white_space(s.get_char(i)) {
            return false;
        }
        i = i + 1;
    }
    true
}

/// Position where the leading whitespace of `s[from..to]` ends.
fn skip_leading(s: &str, from: usize, to: usize) -> (r: usize)
    requires
        from <= to <= s@.len(),
    ensures
        from <= r <= to,
        r - from == leading_ws(s@.subrange(from as int, to as int)),
{
    let mut i = from;
    while i < to
        invariant
            from <= i <= to <= s@.len(),
            leading_ws(s@.subrange(from as int, to as int)) == (i - from) + leading_ws(
                s@.subrange(i as int, to as int),
            ),
        decreases to - i,
    {
        if !white_space(s.get_char(i)) {
            return i;
        }
        assert(s@.subrange(i as int, to as int).drop_first() =~= s@.subrange(i + 1, to as int));
        i = i + 1;
    }
    i
}

/// Position where the trailing whitespace of `s[from..to]` starts.
fn skip_trailing(s: &str, from: usize, to: usize) -> (r: usize)
    requires
        from <= to <= s@.len(),
    ensures
        from <= r <= to,
        to - r == trailing_ws(s@.subrange(from as int, to as int)),
{
    let mut i = to;
    while i > from
        invariant
            from <= i <= to <= s@.len(),
            trailing_ws(s@.subrange(from as int, to as int)) == (to - i) + trailing_ws(
                s@.subrange(from as int, i as int),
            ),
        decreases i - from,
    {
        if !white_space(s.get_char(i - 1)) {
            return i;
        }
        assert(s@.subrange(from as int, i as int).drop_last() =~= s@.subrange(
            from as int,
            i - 1,
        ));
        i = i - 1;
    }
    i
}

/// The part of `s` before its first comma, with surrounding whitespace removed.
pub fn trimmed_first_entry(s: &str) -> (r: String)
    ensures
        r@ == trim(first_entry(s@)),
{
    let n = s.unicode_len();
    let mut end: usize = 0;
    assert(s@.subrange(0, n as int) =~= s@);
    while end < n
        invariant
            n == s@.len(),
            end <= n,
            entry_len(s@) == end + entry_len(s@.subrange(end as int, n as int)),
        ensures
            end <= n,
            entry_len(s@) == end + entry_len(s@.subrange(end as int, n as int)),
            end < n ==> s@[end as int] == ',',
        decreases n - end,
    {
        if s.get_char(end) == ',' {
            break;
        }
        assert(s@.subrange(end as int, n as int).drop_first() =~= s@.subrange(end + 1, n as int));
        end = end + 1;
    }
    assert(entry_len(s@) == end);
    let a = skip_leading(s, 0, end);
    let b = skip_trailing(s, a, end);
    proof {
        let e = first_entry(s@);
        assert(e =~= s@.subrange(0, end as int));
        let t = trim_start(e);
        assert(t =~= s@.subrange(a as int, end as int));
    }
    let r = copy_range(s, a, b);
    proof {
        let t = trim_start(first_entry(s@));
        assert(trim(first_entry(s@)) =~= s@.subrange(a as int, b as int));
    }
    r
}

} // verus!
