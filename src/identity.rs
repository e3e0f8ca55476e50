//! Caller identity: which address a request is attributed to, and the
//! one-way anonymous identity derived from it.

use sha2::Digest;
use vstd::prelude::*;

use crate::text::{first_entry, push_char, trim, trimmed_first_entry};

verus! {

/// The SHA-256 digest of the UTF-8 encoding of `s`.
pub uninterp spec fn sha256_of(s: Seq<char>) -> Seq<u8>;

/// Relies on `sha2::Sha256::digest`: the digest of the string's UTF-8 bytes,
/// which depends on them alone and is 32 bytes long.
#[verifier::external_body]
fn sha256_digest(s: &str) -> (r: Vec<u8>)
    ensures
        r@ == sha256_of(s@),
        r@.len() == 32,
{
    sha2::Sha256::digest(s.as_bytes()).to_vec()
}

/// The lowercase hexadecimal digit for `n` (0 to 15).
pub open spec fn hex_digit(n: int) -> char {
    if n == 0 {
        '0'
    } else if n == 1 {
        '1'
    } else if n == 2 {
        '2'
    } else if n == 3 {
        '3'
    } else if n == 4 {
        '4'
    } else if n == 5 {
        '5'
    } else if n == 6 {
        '6'
    } else if n == 7 {
        '7'
    } else if n == 8 {
        '8'
    } else if n == 9 {
        '9'
    } else if n == 10 {
        'a'
    } else if n == 11 {
        'b'
    } else if n == 12 {
        'c'
    } else if n == 13 {
        'd'
    } else if n == 14 {
        'e'
    } else {
        'f'
    }
}

pub open spec fn is_lower_hex(c: char) -> bool {
    ('0' <= c && c <= '9') || ('a' <= c && c <= 'f')
}

/// Each byte as two lowercase hexadecimal digits, high nibble first.
pub open spec fn hex_lower(b: Seq<u8>) -> Seq<char> {
    Seq::new(
        2 * b.len(),
        |i: int|
            if i % 2 == 0 {
                hex_digit(b[i / 2] as int / 16)
            } else {
                hex_digit(b[i / 2] as int % 16)
            },
    )
}

/// The anonymous identity of an address: its SHA-256 digest in lowercase hex.
pub open spec fn uid_of(addr: Seq<char>) -> Seq<char> {
    hex_lower(sha256_of(addr))
}

/// The address a request is attributed to: the first entry of the forwarded
/// header, trimmed, when that is not empty; else the peer address, when known
/// and not empty; else none.
pub open spec fn resolved_address(forwarded: Option<Seq<char>>, peer: Option<Seq<char>>) -> Option<
    Seq<char>,
> {
    if forwarded is Some && trim(first_entry(forwarded->0)).len() > 0 {
        Some(trim(first_entry(forwarded->0)))
    } else if peer is Some && peer->0.len() > 0 {
        Some(peer->0)
    } else {
        None
    }
}

pub open spec fn str_view(o: Option<&str>) -> Option<Seq<char>> {
    match o {
        Some(s) => Some(s@),
        None => None,
    }
}

pub open spec fn string_view(o: Option<String>) -> Option<Seq<char>> {
    match o {
        Some(s) => Some(s@),
        None => None,
    }
}

fn hex_char(n: u8) -> (c: char)
    requires
        n < 16,
    ensures
        c == hex_digit(n as int),
        is_lower_hex(c),
{
    if n == 0 {
        '0'
    } else if n == 1 {
        '1'
    } else if n == 2 {
        '2'
    } else if n == 3 {
        '3'
    } else if n == 4 {
        '4'
    } else if n == 5 {
        '5'
    } else if n == 6 {
        '6'
    } else if n == 7 {
        '7'
    } else if n == 8 {
        '8'
    } else if n == 9 {
        '9'
    } else if n == 10 {
        'a'
    } else if n == 11 {
        'b'
    } else if n == 12 {
        'c'
    } else if n == 13 {
        'd'
    } else if n == 14 {
        'e'
    } else {
        'f'
    }
}

/// Lowercase hexadecimal text of `bytes`.
pub fn to_hex(bytes: &Vec<u8>) -> (r: String)
    requires
        bytes@.len() <= usize::MAX / 2,
    ensures
        r@ == hex_lower(bytes@),
        forall|i: int| 0 <= i < r@.len() ==> is_lower_hex(#[trigger] r@[i]),
{
    let mut r = String::new();
    let mut i: usize = 0;
    while i < bytes.len()
        invariant
            i <= bytes@.len() <= usize::MAX / 2,
            r@ =~= hex_lower(bytes@.take(i as int)),
            forall|j: int| 0 <= j < r@.len() ==> is_lower_hex(#[trigger] r@[j]),
        decreases bytes@.len() - i,
    {
        let b = bytes[i];
        let hi = hex_char(b / 16);
        let lo = hex_char(b % 16);
        push_char(&mut r, hi);
        push_char(&mut r, lo);
        i = i + 1;
        assert(r@ =~= hex_lower(bytes@.take(i as int)));
    }
    assert(bytes@.take(i as int) =~= bytes@);
    r
}

/// The anonymous identity of a raw address: 64 lowercase hexadecimal
/// characters that depend on the address alone. The identity never equals
/// the address unless the address itself is 64 lowercase hex characters.
pub fn anonymize(addr: &str) -> (uid: String)
    ensures
        uid@ == uid_of(addr@),
        uid@.len() == 64,
        forall|i: int| 0 <= i < uid@.len() ==> is_lower_hex(#[trigger] uid@[i]),
        !looks_like_uid(addr@) ==> uid@ != addr@,
{
    let digest = sha256_digest(addr);
    let uid = to_hex(&digest);
    proof {
        if !looks_like_uid(addr@) && uid@ == addr@ {
            assert forall|i: int| 0 <= i < addr@.len() implies is_lower_hex(#[trigger] addr@[i]) by {
                assert(uid@[i] == addr@[i]);
            }
        }
    }
    uid
}

/// `s` has the shape of an anonymous identity: 64 lowercase hex characters.
pub open spec fn looks_like_uid(s: Seq<char>) -> bool {
    s.len() == 64 && forall|i: int| 0 <= i < s.len() ==> is_lower_hex(#[trigger] s[i])
}

/// The address a request is attributed to: the first comma-separated entry of
/// the forwarded header, trimmed, when not empty; otherwise the peer address;
/// `None` when neither is available, which callers reject.
pub fn resolve_address(forwarded: Option<&str>, peer: Option<&str>) -> (r: Option<String>)
    ensures
        string_view(r) == resolved_address(str_view(forwarded), str_view(peer)),
{
    if let Some(h) = forwarded {
        let entry = trimmed_first_entry(h);
        if !entry.as_str().is_empty() {
            return Some(entry);
        }
    }
    match peer {
        Some(p) => {
            if p.is_empty() {
                None
            } else {
                Some(p.to_owned())
            }
        },
        None => None,
    }
}

/// The anonymous identity of the caller, or `None` when no address can be
/// attributed to the request.
pub fn caller_uid(forwarded: Option<&str>, peer: Option<&str>) -> (r: Option<String>)
    ensures
        match resolved_address(str_view(forwarded), str_view(peer)) {
            Some(a) => r is Some && r->0@ == uid_of(a),
            None => r is None,
        },
{
    match resolve_address(forwarded, peer) {
        Some(a) => Some(anonymize(a.as_str())),
        None => None,
    }
}

/// Anonymizing is deterministic: equal addresses give equal identities.
pub proof fn lemma_anonymize_deterministic(a: Seq<char>, b: Seq<char>)
    requires
        a == b,
    ensures
        uid_of(a) == uid_of(b),
{
}

} // verus!
