//! Character-level building blocks shared by the parsing and
//! canonicalization modules: ASCII classification and uppercasing, both as
//! spec-level functions over `Seq<char>` and as executable helpers.

use vstd::prelude::*;

verus! {

/// ASCII decimal digit.
pub open spec fn is_digit_char(c: char) -> bool {
    48 <= c as u32 && c as u32 <= 57
}

/// ASCII hexadecimal digit, either case.
pub open spec fn is_hex_char(c: char) -> bool {
    is_digit_char(c) || (97 <= c as u32 && c as u32 <= 102) || (65 <= c as u32 && c as u32
        <= 70)
}

/// ASCII uppercasing of one character: lowercase letters are shifted,
/// everything else is left untouched.
pub open spec fn upper_char(c: char) -> char {
    if 97 <= c as u32 && c as u32 <= 122 {
        (((c as u32) - 32) as u8) as char
    } else {
        c
    }
}

/// ASCII uppercasing of a whole character sequence.
pub open spec fn upper_seq(s: Seq<char>) -> Seq<char> {
    s.map(|_i: int, c: char| upper_char(c))
}

/// The characters that a sequence of ASCII bytes spells.
pub open spec fn bytes_as_chars(b: Seq<u8>) -> Seq<char> {
    b.map(|_i: int, x: u8| x as char)
}

/// Uppercasing twice is the same as uppercasing once.
pub proof fn lemma_upper_char_idempotent(c: char)
    ensures
        upper_char(upper_char(c)) == upper_char(c),
{
    if 97 <= c as u32 && c as u32 <= 122 {
        assert(upper_char(c) as u32 == c as u32 - 32);
    }
}

/// Uppercasing neither creates nor destroys hexadecimal digits.
pub proof fn lemma_upper_char_hex(c: char)
    ensures
        is_hex_char(upper_char(c)) == is_hex_char(c),
        is_hex_char(c) && !(97 <= c as u32 && c as u32 <= 122) ==> upper_char(c) == c,
{
}

pub fn char_is_hex(c: char) -> (r: bool)
    ensures
        r == is_hex_char(c),
{
    let u = c as u32;
    (48 <= u && u <= 57) || (97 <= u && u <= 102) || (65 <= u && u <= 70)
}

pub fn char_is_digit(c: char) -> (r: bool)
    ensures
        r == is_digit_char(c),
{
    let u = c as u32;
    48 <= u && u <= 57
}

/// The uppercased form of a hex digit, as an ASCII byte.
pub fn hex_upper_byte(c: char) -> (r: u8)
    requires
        is_hex_char(c),
    ensures
        r as char == upper_char(c),
        r < 128,
        is_hex_char(r as char),
{
    let u = c as u32;
    if 97 <= u && u <= 102 {
        (u - 32) as u8
    } else {
        u as u8
    }
}

/// Character-wise string equality.
pub fn str_eq(a: &str, b: &str) -> (r: bool)
    ensures
        r == (a@ == b@),
{
    let na = a.unicode_len();
    let nb = b.unicode_len();
    if na != nb {
        return false;
    }
    let mut i: usize = 0;
    while i < na
        invariant
            i <= na,
            na == a@.len(),
            na == b@.len(),
            forall|k: int| 0 <= k < i as int ==> a@[k] == b@[k],
        decreases na - i,
    {
        if a.get_char(i) != b.get_char(i) {
            return false;
        }
        i = i + 1;
    }
    proof {
        assert(a@ =~= b@);
    }
    true
}

/// Relies on `String::from_utf8` of std: bytes below 0x80 are single-byte
/// UTF-8 code points, so the result spells exactly the given bytes.
#[verifier::external_body]
pub(crate) fn string_from_ascii(v: Vec<u8>) -> (r: String)
    requires
        forall|i: int| 0 <= i < v@.len() ==> v@[i] < 128,
    ensures
        r@ == bytes_as_chars(v@),
{
    match String::from_utf8(v) {
        Ok(s) => s,
        Err(_) => String::new(),
    }
}

/// Relies on `str::to_ascii_uppercase` of std: each character is mapped to
/// its ASCII uppercase equivalent and non-ASCII characters are unchanged.
#[verifier::external_body]
pub(crate) fn to_upper(s: &str) -> (r: String)
    ensures
        r@ == upper_seq(s@),
{
    s.to_ascii_uppercase()
}

} // verus!
