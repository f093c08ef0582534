//! Byte-level text utilities: ASCII case folding and UTF-8 character lengths.
//!
//! All matching works on the UTF-8 bytes of a string. A matched position is a
//! byte offset that must sit on a character boundary; the length of the
//! character starting there is read off its leading byte.

use vstd::prelude::*;
use vstd::utf8::is_continuation_byte;

verus! {

/// Case-fold one byte: ASCII uppercase letters become lowercase, every other
/// byte (including all bytes of multi-byte characters) is unchanged.
pub open spec fn fold_byte(b: u8) -> u8 {
    if 0x41 <= b && b <= 0x5a {
        (b + 0x20) as u8
    } else {
        b
    }
}

/// Case-fold a byte sequence, byte by byte.
pub open spec fn fold_bytes(s: Seq<u8>) -> Seq<u8> {
    s.map_values(|b: u8| fold_byte(b))
}

/// True for an ASCII uppercase letter.
pub open spec fn is_upper(b: u8) -> bool {
    0x41 <= b && b <= 0x5a
}

/// Number of bytes in the UTF-8 character whose leading byte is `b`.
/// A continuation or invalid byte is given length 1 so that a byte walk
/// always makes progress.
pub open spec fn leading_len(b: u8) -> int {
    if b < 0xc0 {
        1
    } else if b < 0xe0 {
        2
    } else if b < 0xf0 {
        3
    } else {
        4
    }
}

/// Length of the character starting at `i`, clamped to the end of the
/// sequence. Always at least 1 while `i` is in bounds.
pub open spec fn step_len(s: Seq<u8>, i: int) -> int
    recommends
        0 <= i < s.len(),
{
    let l = leading_len(s[i]);
    if i + l <= s.len() {
        l
    } else {
        s.len() - i
    }
}

/// Byte length of the character at offset `i`, or `None` when `i` is out of
/// bounds, not on a character boundary, or the character would run past the
/// end of the sequence.
pub open spec fn char_len_at(s: Seq<u8>, i: int) -> Option<int> {
    if 0 <= i < s.len() && !is_continuation_byte(s[i]) && i + leading_len(s[i]) <= s.len() {
        Some(leading_len(s[i]))
    } else {
        None
    }
}

/// Case-fold one byte.
pub fn fold_byte_exec(b: u8) -> (r: u8)
    ensures
        r == fold_byte(b),
{
    if 0x41 <= b && b <= 0x5a {
        b + 0x20
    } else {
        b
    }
}

/// Case-fold every byte of `s` into a fresh vector.
pub fn fold_bytes_exec(s: &[u8]) -> (r: Vec<u8>)
    ensures
        r@ == fold_bytes(s@),
{
    let mut out: Vec<u8> = Vec::with_capacity(s.len());
    let mut i: usize = 0;
    while i < s.len()
        invariant
            i <= s@.len(),
            out@.len() == i,
            forall|k: int| 0 <= k < i ==> out@[k] == fold_byte(s@[k]),
        decreases s@.len() - i,
    {
        out.push(fold_byte_exec(s[i]));
        i = i + 1;
    }
    proof {
        assert(out@ =~= fold_bytes(s@));
    }
    out
}

/// Length of the character starting at `i`, clamped to the end of `s`.
pub fn step_len_exec(s: &[u8], i: usize) -> (l: usize)
    requires
        i < s@.len(),
    ensures
        l as int == step_len(s@, i as int),
        1 <= l,
        i + l <= s@.len(),
{
    let b = s[i];
    let l: usize = if b < 0xc0 {
        1
    } else if b < 0xe0 {
        2
    } else if b < 0xf0 {
        3
    } else {
        4
    };
    if l <= s.len() - i {
        l
    } else {
        s.len() - i
    }
}

/// Byte length of the character at offset `i`, or `None` on a broken offset.
pub fn char_len_at_exec(s: &[u8], i: usize) -> (r: Option<usize>)
    ensures
        match r {
            Some(l) => char_len_at(s@, i as int) == Some(l as int),
            None => char_len_at(s@, i as int) is None,
        },
{
    if i >= s.len() {
        return None;
    }
    let b = s[i];
    if 0x80 <= b && b <= 0xbf {
        return None;
    }
    let l: usize = if b < 0xc0 {
        1
    } else if b < 0xe0 {
        2
    } else if b < 0xf0 {
        3
    } else {
        4
    };
    if l <= s.len() - i {
        Some(l)
    } else {
        None
    }
}

} // verus!
