//! Recognizing the longest prefix of a byte sequence that is a run of
//! complete, valid UTF-8 characters.  The decoder consumes exactly that
//! prefix of each call and leaves the split trailing character (or any
//! invalid bytes) to the caller to resubmit.

use vstd::prelude::*;

verus! {

/// A UTF-8 continuation byte.
pub open spec fn cont(b: u8) -> bool {
    0x80 <= b <= 0xBF
}

/// The length of the complete, valid UTF-8 character starting at `i`,
/// or `0` if no such character starts there (invalid leading byte, bad
/// continuation byte, overlong form, surrogate, out of range, or the
/// character is cut off by the end of the sequence).
pub open spec fn char_len_at(t: Seq<u8>, i: int) -> int {
    if 0 <= i < t.len() {
        let b0 = t[i];
        if b0 <= 0x7F {
            1
        } else if 0xC2 <= b0 <= 0xDF {
            if i + 1 < t.len() && cont(t[i + 1]) {
                2
            } else {
                0
            }
        } else if b0 == 0xE0 {
            if i + 2 < t.len() && 0xA0 <= t[i + 1] <= 0xBF && cont(t[i + 2]) {
                3
            } else {
                0
            }
        } else if 0xE1 <= b0 <= 0xEC {
            if i + 2 < t.len() && cont(t[i + 1]) && cont(t[i + 2]) {
                3
            } else {
                0
            }
        } else if b0 == 0xED {
            if i + 2 < t.len() && 0x80 <= t[i + 1] <= 0x9F && cont(t[i + 2]) {
                3
            } else {
                0
            }
        } else if 0xEE <= b0 <= 0xEF {
            if i + 2 < t.len() && cont(t[i + 1]) && cont(t[i + 2]) {
                3
            } else {
                0
            }
        } else if b0 == 0xF0 {
            if i + 3 < t.len() && 0x90 <= t[i + 1] <= 0xBF && cont(t[i + 2]) && cont(t[i + 3]) {
                4
            } else {
                0
            }
        } else if 0xF1 <= b0 <= 0xF3 {
            if i + 3 < t.len() && cont(t[i + 1]) && cont(t[i + 2]) && cont(t[i + 3]) {
                4
            } else {
                0
            }
        } else if b0 == 0xF4 {
            if i + 3 < t.len() && 0x80 <= t[i + 1] <= 0x8F && cont(t[i + 2]) && cont(t[i + 3]) {
                4
            } else {
                0
            }
        } else {
            0
        }
    } else {
        0
    }
}

/// Where the run of complete valid characters that starts at `i` ends.
pub open spec fn valid_to(t: Seq<u8>, i: int) -> int
    decreases t.len() - i,
    when 0 <= i <= t.len()
{
    if i >= t.len() {
        i
    } else {
        let l = char_len_at(t, i);
        if l == 0 {
            i
        } else {
            valid_to(t, i + l)
        }
    }
}

/// The length of the longest prefix of `t` made of complete valid
/// UTF-8 characters.
pub open spec fn utf8_prefix(t: Seq<u8>) -> int {
    valid_to(t, 0)
}

pub proof fn lemma_valid_to_bounds(t: Seq<u8>, i: int)
    requires
        0 <= i <= t.len(),
    ensures
        i <= valid_to(t, i) <= t.len(),
    decreases t.len() - i,
{
    if i < t.len() {
        let l = char_len_at(t, i);
        if l != 0 {
            lemma_valid_to_bounds(t, i + l);
        }
    }
}

/// Walking the tail of a concatenation is walking the second part: the
/// characters found at or past `u.len()` in `u + v` are those of `v`.
proof fn lemma_valid_to_shift(u: Seq<u8>, v: Seq<u8>, k: int)
    requires
        0 <= k <= v.len(),
    ensures
        valid_to(u + v, u.len() + k) == u.len() + valid_to(v, k),
    decreases v.len() - k,
{
    let t = u + v;
    assert(char_len_at(t, u.len() + k) == char_len_at(v, k));
    if k < v.len() {
        let l = char_len_at(v, k);
        if l != 0 {
            lemma_valid_to_shift(u, v, k + l);
        }
    }
}

/// If `u` is entirely complete valid characters, the valid prefix of
/// `u + v` is `u` followed by the valid prefix of `v`.
pub proof fn lemma_utf8_prefix_concat(u: Seq<u8>, v: Seq<u8>)
    requires
        utf8_prefix(u) == u.len(),
    ensures
        utf8_prefix(u + v) == u.len() + utf8_prefix(v),
{
    lemma_valid_to_concat_at(u, v, 0);
}

proof fn lemma_valid_to_concat_at(u: Seq<u8>, v: Seq<u8>, i: int)
    requires
        0 <= i <= u.len(),
        valid_to(u, i) == u.len(),
    ensures
        valid_to(u + v, i) == u.len() + valid_to(v, 0),
    decreases u.len() - i,
{
    let t = u + v;
    if i == u.len() {
        lemma_valid_to_shift(u, v, 0);
    } else {
        let l = char_len_at(u, i);
        assert(l != 0);
        assert(char_len_at(t, i) == l);
        lemma_valid_to_concat_at(u, v, i + l);
    }
}

/// Computes the length of the longest valid whole-character prefix.
pub fn utf8_prefix_len(buf: &[u8]) -> (p: usize)
    ensures
        p as int == utf8_prefix(buf@),
        p <= buf@.len(),
{
    let n = buf.len();
    let mut i: usize = 0;
    let mut done = false;
    while !done
        invariant
            i <= n,
            n == buf@.len(),
            valid_to(buf@, 0) == valid_to(buf@, i as int),
            done ==> valid_to(buf@, i as int) == i as int,
        decreases n - i + (if done { 0int } else { 1 }),
    {
        if i >= n {
            done = true;
        } else {
            let b0 = buf[i];
            let l: usize = if b0 <= 0x7F {
                1
            } else if 0xC2 <= b0 && b0 <= 0xDF {
                if n - i > 1 && cont_byte(buf[i + 1]) {
                    2
                } else {
                    0
                }
            } else if b0 == 0xE0 {
                if n - i > 2 && 0xA0 <= buf[i + 1] && buf[i + 1] <= 0xBF && cont_byte(buf[i + 2]) {
                    3
                } else {
                    0
                }
            } else if 0xE1 <= b0 && b0 <= 0xEC {
                if n - i > 2 && cont_byte(buf[i + 1]) && cont_byte(buf[i + 2]) {
                    3
                } else {
                    0
                }
            } else if b0 == 0xED {
                if n - i > 2 && 0x80 <= buf[i + 1] && buf[i + 1] <= 0x9F && cont_byte(buf[i + 2]) {
                    3
                } else {
                    0
                }
            } else if 0xEE <= b0 && b0 <= 0xEF {
                if n - i > 2 && cont_byte(buf[i + 1]) && cont_byte(buf[i + 2]) {
                    3
                } else {
                    0
                }
            } else if b0 == 0xF0 {
                if n - i > 3 && 0x90 <= buf[i + 1] && buf[i + 1] <= 0xBF && cont_byte(buf[i + 2])
                    && cont_byte(buf[i + 3]) {
                    4
                } else {
                    0
                }
            } else if 0xF1 <= b0 && b0 <= 0xF3 {
                if n - i > 3 && cont_byte(buf[i + 1]) && cont_byte(buf[i + 2]) && cont_byte(
                    buf[i + 3],
                ) {
                    4
                } else {
                    0
                }
            } else if b0 == 0xF4 {
                if n - i > 3 && 0x80 <= buf[i + 1] && buf[i + 1] <= 0x8F && cont_byte(buf[i + 2])
                    && cont_byte(buf[i + 3]) {
                    4
                } else {
                    0
                }
            } else {
                0
            };
            assert(l as int == char_len_at(buf@, i as int));
            if l == 0 {
                done = true;
            } else {
                i += l;
            }
        }
    }
    i
}

/// Whether `b` is a UTF-8 continuation byte.
fn cont_byte(b: u8) -> (r: bool)
    ensures
        r == cont(b),
{
    0x80 <= b && b <= 0xBF
}

} // verus!
