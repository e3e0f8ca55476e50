//! Which toggle requests are accepted, and which emoji a configured universe
//! holds.

use vstd::prelude::*;
use vstd::string::StrSliceExecFns;

use crate::text::{blank, is_blank, push_char};

verus! {

/// Whether a character has the Unicode `Emoji` property.
pub uninterp spec fn is_emoji_char(c: char) -> bool;

/// Relies on `unic_emoji_char::is_emoji`: a lookup of the character in the
/// crate's table of the `Emoji` property, which depends on the character alone.
#[verifier::external_body]
fn emoji(c: char) -> (r: bool)
    ensures
        r == is_emoji_char(c),
{
    unic_emoji_char::is_emoji(c)
}

/// A request the caller has to correct; answered as a client error.
#[derive(Debug, Clone, Copy, PartialEq, Eq, Structural)]
pub enum ClientError {
    /// The read path was called without a slug.
    MissingSlug,
    /// The slug is empty or all whitespace.
    SlugBlank,
    /// The target is empty.
    TargetBlank,
    /// The first character of the target is not an emoji.
    TargetNotEmoji,
    /// No address can be attributed to the caller.
    UnknownCaller,
}

/// Outcome of checking a toggle request, given whether the target's first
/// character is an emoji. The checks run in order: slug, empty target, emoji.
pub open spec fn toggle_check(slug: Seq<char>, target: Seq<char>, lead_is_emoji: bool) -> Result<
    (),
    ClientError,
> {
    if is_blank(slug) {
        Err(ClientError::SlugBlank)
    } else if target.len() == 0 {
        Err(ClientError::TargetBlank)
    } else if !lead_is_emoji {
        Err(ClientError::TargetNotEmoji)
    } else {
        Ok(())
    }
}

/// Outcome of checking a toggle request for `slug` and `target`.
pub open spec fn toggle_validation(slug: Seq<char>, target: Seq<char>) -> Result<(), ClientError> {
    toggle_check(slug, target, target.len() > 0 && is_emoji_char(target[0]))
}

/// Checks a toggle request, given whether the first character of the target
/// is an emoji.
pub fn check_toggle_request(slug: &str, target: &str, lead_is_emoji: bool) -> (r: Result<
    (),
    ClientError,
>)
    ensures
        r == toggle_check(slug@, target@, lead_is_emoji),
{
    if blank(slug) {
        Err(ClientError::SlugBlank)
    } else if target.unicode_len() == 0 {
        Err(ClientError::TargetBlank)
    } else if !lead_is_emoji {
        Err(ClientError::TargetNotEmoji)
    } else {
        Ok(())
    }
}

/// Checks a toggle request: the slug must not be blank, the target must not
/// be empty, and its first character must be an emoji.
pub fn validate_toggle(slug: &str, target: &str) -> (r: Result<(), ClientError>)
    ensures
        r == toggle_validation(slug@, target@),
{
    let lead = target.unicode_len() > 0 && emoji(target.get_char(0));
    check_toggle_request(slug, target, lead)
}

/// A code point that extends the emoji sequence before it: a variation
/// selector, the combining keycap, a skin-tone modifier, a tag character, or
/// the zero-width joiner.
pub open spec fn is_extender(c: char) -> bool {
    c == '\u{fe0e}' || c == '\u{fe0f}' || c == '\u{20e3}' || c == '\u{200d}' || ('\u{1f3fb}' <= c
        && c <= '\u{1f3ff}') || ('\u{e0020}' <= c && c <= '\u{e007f}')
}

/// Whether the code point at `j` belongs to the sequence begun before it: it
/// is an extender, or follows a zero-width joiner.
pub open spec fn continues(s: Seq<char>, j: int) -> bool {
    0 < j < s.len() && (is_extender(s[j]) || s[j - 1] == '\u{200d}')
}

/// End of the sequence that starts at `i`: the first later position that
/// does not continue it.
pub open spec fn sequence_end(s: Seq<char>, i: int) -> int
    decreases s.len() - i,
{
    if i + 1 >= s.len() || !continues(s, i + 1) {
        i + 1
    } else {
        sequence_end(s, i + 1)
    }
}

/// The universe read from `config` from position `i` on, added to `acc`:
/// each sequence whose first code point is an emoji becomes a target, unless
/// it is already there.
pub open spec fn universe_from(config: Seq<char>, i: int, acc: Seq<Seq<char>>) -> Seq<Seq<char>>
    decreases config.len() - i,
{
    let e = sequence_end(config, i);
    if i < 0 || i >= config.len() || e <= i || e > config.len() {
        acc
    } else {
        let t = config.subrange(i, e);
        let next = if is_emoji_char(config[i]) && !acc.contains(t) {
            acc.push(t)
        } else {
            acc
        };
        universe_from(config, e, next)
    }
}

/// The universe configured by `config`: each emoji with the code points that
/// extend it (variation selector, keycap, skin tone, tags, joined emoji), as
/// one target, in order of first occurrence.
pub open spec fn universe_of(config: Seq<char>) -> Seq<Seq<char>> {
    universe_from(config, 0, Seq::empty())
}

proof fn lemma_sequence_end_bounds(s: Seq<char>, i: int)
    requires
        0 <= i < s.len(),
    ensures
        i < sequence_end(s, i) <= s.len(),
    decreases s.len() - i,
{
    if !(i + 1 >= s.len() || !continues(s, i + 1)) {
        lemma_sequence_end_bounds(s, i + 1);
    }
}

fn extender(c: char) -> (r: bool)
    ensures
        r == is_extender(c),
{
    c == '\u{fe0e}' || c == '\u{fe0f}' || c == '\u{20e3}' || c == '\u{200d}' || ('\u{1f3fb}' <= c
        && c <= '\u{1f3ff}') || ('\u{e0020}' <= c && c <= '\u{e007f}')
}

/// Whether `v` holds a string equal to `s`.
pub fn contains_string(v: &Vec<String>, s: &String) -> (r: bool)
    ensures
        r == v.deep_view().contains(s@),
{
    let mut i: usize = 0;
    while i < v.len()
        invariant
            i <= v@.len(),
            forall|j: int| 0 <= j < i ==> v.deep_view()[j] != s@,
        decreases v@.len() - i,
    {
        if v[i] == *s {
            assert(v.deep_view()[i as int] == s@);
            return true;
        }
        i = i + 1;
    }
    false
}

/// Parses a configured universe: each emoji of `config`, together with the
/// code points that extend it, becomes one target; duplicates are dropped and
/// the order of first occurrence is kept.
pub fn parse_universe(config: &str) -> (r: Vec<String>)
    ensures
        r.deep_view() == universe_of(config@),
{
    let n = config.unicode_len();
    let mut r: Vec<String> = Vec::new();
    let mut i: usize = 0;
    assert(r.deep_view() =~= Seq::<Seq<char>>::empty());
    while i < n
        invariant
            n == config@.len(),
            i <= n,
            universe_of(config@) == universe_from(config@, i as int, r.deep_view()),
        decreases n - i,
    {
        let first = config.get_char(i);
        let mut t = String::new();
        push_char(&mut t, first);
        let mut j: usize = i + 1;
        while j < n && (extender(config.get_char(j)) || config.get_char(j - 1) == '\u{200d}')
            invariant
                n == config@.len(),
                i < j <= n,
                sequence_end(config@, i as int) == sequence_end(config@, j - 1),
                t@ == config@.subrange(i as int, j as int),
            decreases n - j,
        {
            let c = config.get_char(j);
            push_char(&mut t, c);
            assert(t@ =~= config@.subrange(i as int, j + 1));
            j = j + 1;
        }
        assert(sequence_end(config@, i as int) == j);
        proof {
            lemma_sequence_end_bounds(config@, i as int);
        }
        let ghost prev = r.deep_view();
        let ghost tv = t@;
        if emoji(first) && !contains_string(&r, &t) {
            r.push(t);
            assert(r.deep_view() =~= prev.push(tv));
        }
        i = j;
    }
    r
}

} // verus!
