use vstd::prelude::*;

use crate::error::LinkError;
use crate::text::{has_prefix, push_char, starts_with, text_eq};
use vstd::utf8::encode_utf8;

verus! {

pub open spec fn is_hex_digit(c: char) -> bool {
    ('0' <= c && c <= '9') || ('a' <= c && c <= 'f') || ('A' <= c && c <= 'F')
}

pub open spec fn is_group_separator(c: char) -> bool {
    c == ':' || c == '-'
}

/// What the character at position `i` of a hardware address must be: a
/// separator after every two hexadecimal digits.
pub open spec fn hwaddr_char_ok(s: Seq<char>, i: int) -> bool {
    if i % 3 == 2 {
        is_group_separator(s[i])
    } else {
        is_hex_digit(s[i])
    }
}

/// Six groups of two hexadecimal digits, separated by `:` or `-`.
pub open spec fn hwaddr_well_formed(s: Seq<char>) -> bool {
    &&& s.len() == 17
    &&& forall|i: int| 0 <= i < 17 ==> #[trigger] hwaddr_char_ok(s, i)
}

/// A character of an address in canonical form: colon separators, upper case.
pub open spec fn canonical_char(c: char) -> char {
    if c == '-' {
        ':'
    } else if c == 'a' {
        'A'
    } else if c == 'b' {
        'B'
    } else if c == 'c' {
        'C'
    } else if c == 'd' {
        'D'
    } else if c == 'e' {
        'E'
    } else if c == 'f' {
        'F'
    } else {
        c
    }
}

/// The canonical form of a hardware address.
pub open spec fn canonical_hwaddr(s: Seq<char>) -> Seq<char> {
    Seq::new(s.len(), |i: int| canonical_char(s[i]))
}

fn hex_digit(c: char) -> (r: bool)
    ensures
        r == is_hex_digit(c),
{
    ('0' <= c && c <= '9') || ('a' <= c && c <= 'f') || ('A' <= c && c <= 'F')
}

fn to_canonical_char(c: char) -> (r: char)
    ensures
        r == canonical_char(c),
{
    match c {
        '-' => ':',
        'a' => 'A',
        'b' => 'B',
        'c' => 'C',
        'd' => 'D',
        'e' => 'E',
        'f' => 'F',
        _ => c,
    }
}

/// Whether `hwaddr` is a hardware address: six groups of two hexadecimal
/// digits, each separated from the next by `:` or `-`.
pub fn hwaddr_valid(hwaddr: &str) -> (r: bool)
    ensures
        r == hwaddr_well_formed(hwaddr@),
{
    let n = hwaddr.unicode_len();
    if n != 17 {
        return false;
    }
    let mut i: usize = 0;
    while i < 17
        invariant
            n == hwaddr@.len(),
            n == 17,
            0 <= i <= 17,
            forall|j: int| 0 <= j < i ==> #[trigger] hwaddr_char_ok(hwaddr@, j),
        decreases 17 - i,
    {
        let c = hwaddr.get_char(i);
        let ok = if i % 3 == 2 {
            c == ':' || c == '-'
        } else {
            hex_digit(c)
        };
        if !ok {
            assert(!hwaddr_char_ok(hwaddr@, i as int));
            return false;
        }
        i += 1;
    }
    true
}

/// The canonical form of a hardware address: upper case, colon-separated.
pub fn hwaddr_normalize(hwaddr: &str) -> (r: Result<String, LinkError>)
    ensures
        hwaddr_well_formed(hwaddr@) ==> r == Ok::<String, LinkError>(r->Ok_0) && r->Ok_0@
            == canonical_hwaddr(hwaddr@),
        !hwaddr_well_formed(hwaddr@) ==> r == Err::<String, LinkError>(
            LinkError::InvalidHardwareAddress,
        ),
{
    if !hwaddr_valid(hwaddr) {
        return Err(LinkError::InvalidHardwareAddress);
    }
    let mut out = String::new();
    let mut i: usize = 0;
    while i < 17
        invariant
            hwaddr@.len() == 17,
            0 <= i <= 17,
            out@ =~= canonical_hwaddr(hwaddr@).subrange(0, i as int),
        decreases 17 - i,
    {
        let c = hwaddr.get_char(i);
        push_char(&mut out, to_canonical_char(c));
        i += 1;
    }
    assert(out@ =~= canonical_hwaddr(hwaddr@));
    Ok(out)
}

} // verus!

verus! {

/// Prefixes that the kernel and other naming tools use.
pub open spec fn forbidden_prefix(p: Seq<char>) -> bool {
    p == "eth"@ || p == "eno"@ || p == "ens"@ || p == "enb"@ || p == "enc"@ || p == "enx"@ || p
        == "enP"@ || p == "enp"@ || p == "env"@ || p == "ena"@ || p == "em"@
}

/// Whether `prefix` may be used for naming: it is none of the prefixes of
/// other naming tools, and shorter than sixteen bytes.
pub fn prefix_ok(prefix: &str) -> (r: bool)
    ensures
        r == (!forbidden_prefix(prefix@) && encode_utf8(prefix@).len() < 16),
{
    let forbidden = text_eq(prefix, "eth") || text_eq(prefix, "eno") || text_eq(prefix, "ens")
        || text_eq(prefix, "enb") || text_eq(prefix, "enc") || text_eq(prefix, "enx") || text_eq(
        prefix,
        "enP",
    ) || text_eq(prefix, "enp") || text_eq(prefix, "env") || text_eq(prefix, "ena") || text_eq(
        prefix,
        "em",
    );
    !forbidden && prefix.as_bytes().len() < 16
}

/// Whether a device path names a virtual device.
pub fn devpath_virtual(devpath: &str) -> (r: bool)
    ensures
        r == starts_with(devpath@, "/devices/virtual"@),
{
    has_prefix(devpath, "/devices/virtual")
}

} // verus!

verus! {

/// Normalizing a normalized address changes nothing.
pub proof fn lemma_normalize_idempotent(s: Seq<char>)
    requires
        hwaddr_well_formed(s),
    ensures
        hwaddr_well_formed(canonical_hwaddr(s)),
        canonical_hwaddr(canonical_hwaddr(s)) == canonical_hwaddr(s),
{
    let c = canonical_hwaddr(s);
    assert forall|i: int| 0 <= i < 17 implies #[trigger] hwaddr_char_ok(c, i) by {
        assert(hwaddr_char_ok(s, i));
    }
    assert(canonical_hwaddr(c) =~= c);
}

/// Two addresses with the same digits normalize alike, whichever
/// separators they use.
pub proof fn lemma_normalize_separators(s: Seq<char>, t: Seq<char>)
    requires
        hwaddr_well_formed(s),
        hwaddr_well_formed(t),
        forall|i: int| 0 <= i < 17 && i % 3 != 2 ==> #[trigger] s[i] == t[i],
    ensures
        canonical_hwaddr(s) == canonical_hwaddr(t),
{
    assert forall|i: int| 0 <= i < 17 implies canonical_char(s[i]) == canonical_char(t[i]) by {
        assert(hwaddr_char_ok(s, i));
        assert(hwaddr_char_ok(t, i));
    }
    assert(canonical_hwaddr(s) =~= canonical_hwaddr(t));
}

} // verus!
