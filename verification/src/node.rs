//! Node identities: a node is known by a 128-bit UUID, written in the
//! usual hyphenated lowercase form.
use vstd::prelude::*;
use vstd::arithmetic::power::pow;
use crate::runtime::value::digit_char;
use crate::text::{lemma_not_blank, trimmed};

verus! {

/// A node's identity, the 128 bits of its UUID.
pub type NodeId = u128;

/// The lowercase hexadecimal digit of `d`.
pub open spec fn hex_char(d: int) -> char {
    if d < 10 {
        digit_char(d)
    } else if d == 10 {
        'a'
    } else if d == 11 {
        'b'
    } else if d == 12 {
        'c'
    } else if d == 13 {
        'd'
    } else if d == 14 {
        'e'
    } else {
        'f'
    }
}

/// The `k`-th of the 32 hexadecimal digits of `v`, most significant first.
pub open spec fn nibble(v: u128, k: int) -> int {
    (v as int / pow(16, (31 - k) as nat)) % 16
}

/// Which hexadecimal digit the `i`-th character of a hyphenated UUID shows.
pub open spec fn uuid_digit_index(i: int) -> int {
    if i < 8 {
        i
    } else if i < 13 {
        i - 1
    } else if i < 18 {
        i - 2
    } else if i < 23 {
        i - 3
    } else {
        i - 4
    }
}

/// The hyphenated lowercase text of the UUID with the bits `v`: 32
/// hexadecimal digits, most significant first, in groups of 8, 4, 4, 4
/// and 12 joined by hyphens.
pub open spec fn uuid_text(v: u128) -> Seq<char> {
    Seq::new(
        36,
        |i: int|
            if i == 8 || i == 13 || i == 18 || i == 23 {
                '-'
            } else {
                hex_char(nibble(v, uuid_digit_index(i)))
            },
    )
}

/// The text of a node id. Calls `uuid::Uuid::from_u128` and formats the
/// UUID with `Display`, which the uuid crate writes in the hyphenated
/// lowercase form of the big-endian bytes.
#[verifier::external_body]
pub fn node_id_text(id: NodeId) -> (r: String)
    ensures
        r@ == uuid_text(id),
{
    uuid::Uuid::from_u128(id).to_string()
}

/// The text of some version-4 UUID: version digit 4, variant digit 8, 9,
/// a or b.
pub open spec fn is_v4_uuid_text(t: Seq<char>) -> bool {
    exists|v: u128| #![trigger uuid_text(v)] t == uuid_text(v) && nibble(v, 12) == 4 && 8 <= nibble(v, 16) <= 11
}

/// A fresh random token: the text of `uuid::Uuid::new_v4()`. Whatever the
/// random bits, it is the hyphenated text of a UUID whose version digit is
/// 4 and whose variant digit is 8, 9, a or b; which UUID is not stated.
#[verifier::external_body]
pub fn generate_token() -> (r: String)
    ensures
        is_v4_uuid_text(r@),
{
    uuid::Uuid::new_v4().to_string()
}

/// A UUID text is never blank: it holds a `-`.
pub proof fn lemma_uuid_text_not_blank(t: Seq<char>)
    requires
        is_v4_uuid_text(t),
    ensures
        trimmed(t).len() > 0,
{
    let v = choose|v: u128| #![trigger uuid_text(v)] t == uuid_text(v) && nibble(v, 12) == 4 && 8 <= nibble(v, 16) <= 11;
    assert(t[8] == '-');
    lemma_not_blank(t, 8);
}

} // verus!
