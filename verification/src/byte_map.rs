//! GPT-2's byte to character bijection: printable bytes map to themselves,
//! the rest to the code points from 256 on, so that merges operate on valid
//! text without losing byte identity.

use vstd::prelude::*;
use vstd::utf8::*;

verus! {

/// `char::from_u32` gives the character of a Unicode scalar value, and `None`
/// for any other number.
pub assume_specification[ char::from_u32 ](i: u32) -> (r: Option<char>)
    ensures
        r == (if is_scalar(i) {
            Some(i as char)
        } else {
            None
        }),
;

/// The bytes that stand for themselves.
pub open spec fn is_printable(b: int) -> bool {
    33 <= b <= 126 || 161 <= b <= 172 || 174 <= b
}

/// How many bytes below `b` do not stand for themselves.
pub open spec fn unprintable_below(b: int) -> int
    decreases b,
{
    if b <= 0 {
        0
    } else {
        unprintable_below(b - 1) + if is_printable(b - 1) {
            0int
        } else {
            1
        }
    }
}

/// The character that stands for a byte.
pub open spec fn byte_char(b: u8) -> char {
    if is_printable(b as int) {
        b as char
    } else {
        (256 + unprintable_below(b as int)) as char
    }
}

/// The byte that a character stands for.
pub open spec fn char_byte(c: char) -> Option<u8> {
    if exists|b: u8| byte_char(b) == c {
        Some(choose|b: u8| byte_char(b) == c)
    } else {
        None
    }
}

proof fn lemma_unprintable_below(b: int)
    ensures
        0 <= unprintable_below(b),
        0 <= b ==> unprintable_below(b) <= b,
        forall|a: int|
            0 <= a < b && !is_printable(a) ==> unprintable_below(a) < #[trigger] unprintable_below(b),
    decreases b,
{
    if b > 0 {
        lemma_unprintable_below(b - 1);
        assert forall|a: int| 0 <= a < b && !is_printable(a) implies unprintable_below(a)
            < #[trigger] unprintable_below(b) by {
            if a < b - 1 {
                assert(unprintable_below(a) < unprintable_below(b - 1));
            }
        }
    }
}

/// Two bytes never share a character.
pub proof fn byte_char_injective(a: u8, b: u8)
    requires
        byte_char(a) == byte_char(b),
    ensures
        a == b,
{
    lemma_unprintable_below(a as int);
    lemma_unprintable_below(b as int);
    if !is_printable(a as int) && !is_printable(b as int) && a != b {
        if a < b {
            assert(unprintable_below(a as int) < unprintable_below(b as int));
        } else {
            assert(unprintable_below(b as int) < unprintable_below(a as int));
        }
    }
}

/// A byte is read back from the character that stands for it.
pub proof fn char_byte_inverts(b: u8)
    ensures
        char_byte(byte_char(b)) == Some(b),
{
    let c = byte_char(b);
    byte_char_injective(b, choose|x: u8| byte_char(x) == c);
}

fn printable(x: u8) -> (r: bool)
    ensures
        r == is_printable(x as int),
{
    (33 <= x && x <= 126) || (161 <= x && x <= 172) || x >= 174
}

/// The character that stands for a byte.
pub fn gpt2_byte_to_char(b: u8) -> (c: char)
    ensures
        c == byte_char(b),
{
    if printable(b) {
        return b as char;
    }
    let mut n: u32 = 0;
    let mut x: u8 = 0;
    while x < b
        invariant
            x <= b,
            n == unprintable_below(x as int),
            n <= x,
        decreases b - x,
    {
        if !printable(x) {
            n += 1;
        }
        x += 1;
    }
    char::from_u32(256 + n).unwrap()
}

/// The table as it is known: a printable byte is its own character; the
/// control bytes and the space follow from code point 256 on, then the bytes
/// from 127 to 160, then the soft hyphen.
pub proof fn byte_chars_are_the_known_table(b: u8)
    ensures
        byte_char(b) as u32 == if b <= 32 {
            256 + b
        } else if b <= 126 {
            b as int
        } else if b <= 160 {
            289 + (b - 127)
        } else if b == 173 {
            323
        } else {
            b as int
        },
{
    lemma_unprintable_runs(b as int);
    char_u32_cast(b as char, b as u32);
    let n = 256 + unprintable_below(b as int);
    if !is_printable(b as int) {
        assert(256 <= n <= 323);
        char_u32_cast(n as char, n as u32);
    }
}

proof fn lemma_unprintable_runs(b: int)
    requires
        0 <= b < 256,
    ensures
        unprintable_below(b) == if b <= 33 {
            b
        } else if b <= 127 {
            33
        } else if b <= 161 {
            33 + (b - 127)
        } else if b <= 173 {
            67
        } else {
            68
        },
    decreases b,
{
    if b > 0 {
        lemma_unprintable_runs(b - 1);
    }
}

/// A character stands for the byte whose character it is, and for none where
/// it is no byte's.
pub proof fn char_byte_is_the_inverse(c: char)
    ensures
        match char_byte(c) {
            Some(b) => byte_char(b) == c,
            None => forall|b: u8| byte_char(b) != c,
        },
{
}

} // verus!
