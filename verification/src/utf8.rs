//! Well-formedness of UTF-8 byte sequences.
//!
//! Header tokens must be interpretable as text; this module defines what
//! that means and decides it.

use vstd::prelude::*;

verus! {

/// A continuation byte of a multi-byte encoding.
pub open spec fn is_cont(b: u8) -> bool {
    0x80 <= b && b <= 0xBF
}

/// Length of the well-formed encoding standing at the start of `s`, or 0
/// when no well-formed encoding stands there.
pub open spec fn utf8_step(s: Seq<u8>) -> int {
    if s.len() >= 1 && s[0] <= 0x7F {
        1
    } else if s.len() >= 2 && 0xC2 <= s[0] && s[0] <= 0xDF && is_cont(s[1]) {
        2
    } else if s.len() >= 3 && s[0] == 0xE0 && 0xA0 <= s[1] && s[1] <= 0xBF && is_cont(s[2]) {
        3
    } else if s.len() >= 3 && 0xE1 <= s[0] && s[0] <= 0xEC && is_cont(s[1]) && is_cont(s[2]) {
        3
    } else if s.len() >= 3 && s[0] == 0xED && 0x80 <= s[1] && s[1] <= 0x9F && is_cont(s[2]) {
        3
    } else if s.len() >= 3 && 0xEE <= s[0] && s[0] <= 0xEF && is_cont(s[1]) && is_cont(s[2]) {
        3
    } else if s.len() >= 4 && s[0] == 0xF0 && 0x90 <= s[1] && s[1] <= 0xBF && is_cont(s[2])
        && is_cont(s[3]) {
        4
    } else if s.len() >= 4 && 0xF1 <= s[0] && s[0] <= 0xF3 && is_cont(s[1]) && is_cont(s[2])
        && is_cont(s[3]) {
        4
    } else if s.len() >= 4 && s[0] == 0xF4 && 0x80 <= s[1] && s[1] <= 0x8F && is_cont(s[2])
        && is_cont(s[3]) {
        4
    } else {
        0
    }
}

/// `s` is a well-formed UTF-8 byte sequence.
pub open spec fn is_utf8(s: Seq<u8>) -> bool
    decreases s.len(),
{
    if s.len() == 0 {
        true
    } else {
        let n = utf8_step(s);
        if 1 <= n && n <= s.len() {
            is_utf8(s.skip(n))
        } else {
            false
        }
    }
}

fn cont_byte(b: u8) -> (r: bool)
    ensures
        r == is_cont(b),
{
    0x80 <= b && b <= 0xBF
}

/// Length of the well-formed encoding at position `i` of `s[..end]`, or 0.
fn utf8_step_at(s: &[u8], i: usize, end: usize) -> (n: usize)
    requires
        i < end,
        end <= s@.len(),
    ensures
        n == utf8_step(s@.subrange(i as int, end as int)),
        i + n <= end,
{
    let ghost sub = s@.subrange(i as int, end as int);
    proof {
        assert forall|k: int| 0 <= k < sub.len() implies sub[k] == s@[i + k] by {}
    }
    let b0 = s[i];
    if b0 <= 0x7F {
        1
    } else if b0 < 0xC2 {
        0
    } else if b0 <= 0xDF {
        if end - i >= 2 && cont_byte(s[i + 1]) {
            2
        } else {
            0
        }
    } else if b0 == 0xE0 {
        if end - i >= 3 && 0xA0 <= s[i + 1] && s[i + 1] <= 0xBF && cont_byte(s[i + 2]) {
            3
        } else {
            0
        }
    } else if b0 <= 0xEC {
        if end - i >= 3 && cont_byte(s[i + 1]) && cont_byte(s[i + 2]) {
            3
        } else {
            0
        }
    } else if b0 == 0xED {
        if end - i >= 3 && 0x80 <= s[i + 1] && s[i + 1] <= 0x9F && cont_byte(s[i + 2]) {
            3
        } else {
            0
        }
    } else if b0 <= 0xEF {
        if end - i >= 3 && cont_byte(s[i + 1]) && cont_byte(s[i + 2]) {
            3
        } else {
            0
        }
    } else if b0 == 0xF0 {
        if end - i >= 4 && 0x90 <= s[i + 1] && s[i + 1] <= 0xBF && cont_byte(s[i + 2]) && cont_byte(
            s[i + 3],
        ) {
            4
        } else {
            0
        }
    } else if b0 <= 0xF3 {
        if end - i >= 4 && cont_byte(s[i + 1]) && cont_byte(s[i + 2]) && cont_byte(s[i + 3]) {
            4
        } else {
            0
        }
    } else if b0 == 0xF4 {
        if end - i >= 4 && 0x80 <= s[i + 1] && s[i + 1] <= 0x8F && cont_byte(s[i + 2]) && cont_byte(
            s[i + 3],
        ) {
            4
        } else {
            0
        }
    } else {
        0
    }
}

/// Whether `s[start..end]` is a well-formed UTF-8 byte sequence.
pub fn valid_utf8_range(s: &[u8], start: usize, end: usize) -> (r: bool)
    requires
        start <= end,
        end <= s@.len(),
    ensures
        r == is_utf8(s@.subrange(start as int, end as int)),
{
    let ghost whole = s@.subrange(start as int, end as int);
    let mut i = start;
    while i < end
        invariant
            start <= i <= end <= s@.len(),
            whole == s@.subrange(start as int, end as int),
            is_utf8(whole) == is_utf8(s@.subrange(i as int, end as int)),
        decreases end - i,
    {
        let ghost cur = s@.subrange(i as int, end as int);
        let n = utf8_step_at(s, i, end);
        if n == 0 {
            proof {
                assert(cur.len() > 0);
                assert(!is_utf8(cur));
            }
            return false;
        }
        proof {
            assert(is_utf8(cur) == is_utf8(cur.skip(n as int)));
            assert(cur.skip(n as int) =~= s@.subrange(i + n, end as int));
        }
        i = i + n;
    }
    proof {
        assert(s@.subrange(i as int, end as int).len() == 0);
    }
    true
}

} // verus!
