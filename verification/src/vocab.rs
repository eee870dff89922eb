//! The fixed vocabulary: sixteen glyphs, one per nibble value, and three
//! separator tokens.  Everything is described at the byte level (the UTF-8
//! encoding of the glyph text), which is what the encoder emits and the
//! decoder consumes.

use vstd::prelude::*;

verus! {

/// The UTF-8 encoding of one of the CJK characters the glyphs are built
/// from: a leading `0xE5` followed by two continuation bytes.
pub open spec fn ch(b1: u8, b2: u8) -> Seq<u8> {
    seq![0xE5u8, b1, b2]
}

/// The byte form of the glyph that stands for nibble `n`.
pub open spec fn glyph_bytes(n: int) -> Seq<u8> {
    if n == 0 {
        ch(0x97, 0xAF)
    } else if n == 1 {
        ch(0x95, 0x8A)
    } else if n == 2 {
        ch(0x91, 0x9C)
    } else if n == 3 {
        ch(0x94, 0x94)
    } else if n == 4 {
        ch(0x92, 0xBF)
    } else if n == 5 {
        ch(0x91, 0xBC)
    } else if n == 6 {
        ch(0x93, 0x88) + ch(0x95, 0x8A)
    } else if n == 7 {
        ch(0x97, 0xAF) + ch(0x95, 0x8A)
    } else if n == 8 {
        ch(0x91, 0x9C) + ch(0x95, 0x8A)
    } else if n == 9 {
        ch(0x92, 0xBF) + ch(0x95, 0x8A)
    } else if n == 10 {
        ch(0x91, 0xBC) + ch(0x95, 0x8A)
    } else if n == 11 {
        ch(0x91, 0x9C) + ch(0x97, 0xAF)
    } else if n == 12 {
        ch(0x91, 0x9C) + ch(0x91, 0x9C)
    } else if n == 13 {
        ch(0x95, 0x8A) + ch(0x97, 0xAF)
    } else if n == 14 {
        ch(0x95, 0x8A) + ch(0x95, 0x8A)
    } else if n == 15 {
        ch(0x92, 0xBF) + ch(0x91, 0x9C)
    } else {
        Seq::empty()
    }
}

/// The byte form of separator `i` of the three-token cycle:
/// `"!"`, `".."`, `"~"` in that order.
pub open spec fn sep_bytes(i: int) -> Seq<u8> {
    if i == 0 {
        seq![0x21u8]
    } else if i == 1 {
        seq![0x2Eu8, 0x2Eu8]
    } else if i == 2 {
        seq![0x7Eu8]
    } else {
        Seq::empty()
    }
}

/// The nibble a segment of text stands for, if it is a glyph at all.
pub open spec fn seg_nibble(s: Seq<u8>) -> Option<u8> {
    if s == glyph_bytes(0) {
        Some(0u8)
    } else if s == glyph_bytes(1) {
        Some(1u8)
    } else if s == glyph_bytes(2) {
        Some(2u8)
    } else if s == glyph_bytes(3) {
        Some(3u8)
    } else if s == glyph_bytes(4) {
        Some(4u8)
    } else if s == glyph_bytes(5) {
        Some(5u8)
    } else if s == glyph_bytes(6) {
        Some(6u8)
    } else if s == glyph_bytes(7) {
        Some(7u8)
    } else if s == glyph_bytes(8) {
        Some(8u8)
    } else if s == glyph_bytes(9) {
        Some(9u8)
    } else if s == glyph_bytes(10) {
        Some(10u8)
    } else if s == glyph_bytes(11) {
        Some(11u8)
    } else if s == glyph_bytes(12) {
        Some(12u8)
    } else if s == glyph_bytes(13) {
        Some(13u8)
    } else if s == glyph_bytes(14) {
        Some(14u8)
    } else if s == glyph_bytes(15) {
        Some(15u8)
    } else {
        None
    }
}

/// Every glyph is non-empty and made of bytes at or above `0x80`, so no
/// glyph byte can ever be confused with a separator byte (all separators
/// are ASCII).
pub proof fn lemma_glyph_bytes_high(n: int)
    requires
        0 <= n < 16,
    ensures
        glyph_bytes(n).len() > 0,
        forall|k: int| 0 <= k < glyph_bytes(n).len() ==> glyph_bytes(n)[k] >= 0x80,
{
    assert forall|k: int| 0 <= k < glyph_bytes(n).len() implies glyph_bytes(n)[k] >= 0x80 by {
        if glyph_bytes(n).len() == 3 {
            assert(k == 0 || k == 1 || k == 2);
        } else {
            assert(glyph_bytes(n).len() == 6);
            assert(k == 0 || k == 1 || k == 2 || k == 3 || k == 4 || k == 5);
        }
    }
}

/// Looking a glyph up by its byte form recovers exactly its nibble.
pub proof fn lemma_seg_nibble_glyph(n: int)
    requires
        0 <= n < 16,
    ensures
        seg_nibble(glyph_bytes(n)) == Some(n as u8),
{
    lemma_glyph_profiles();
}

/// The byte profile of every glyph: its length and the bytes that tell the
/// sixteen glyphs apart.  Spelling these out lets the solver refute every
/// cross-glyph equality the lookup table branches on.
proof fn lemma_glyph_profiles()
    ensures
        glyph_bytes(0).len() == 3 && glyph_bytes(0)[1] == 0x97 && glyph_bytes(0)[2] == 0xAF,
        glyph_bytes(1).len() == 3 && glyph_bytes(1)[1] == 0x95 && glyph_bytes(1)[2] == 0x8A,
        glyph_bytes(2).len() == 3 && glyph_bytes(2)[1] == 0x91 && glyph_bytes(2)[2] == 0x9C,
        glyph_bytes(3).len() == 3 && glyph_bytes(3)[1] == 0x94 && glyph_bytes(3)[2] == 0x94,
        glyph_bytes(4).len() == 3 && glyph_bytes(4)[1] == 0x92 && glyph_bytes(4)[2] == 0xBF,
        glyph_bytes(5).len() == 3 && glyph_bytes(5)[1] == 0x91 && glyph_bytes(5)[2] == 0xBC,
        glyph_bytes(6).len() == 6 && glyph_bytes(6)[1] == 0x93 && glyph_bytes(6)[2] == 0x88
            && glyph_bytes(6)[4] == 0x95 && glyph_bytes(6)[5] == 0x8A,
        glyph_bytes(7).len() == 6 && glyph_bytes(7)[1] == 0x97 && glyph_bytes(7)[2] == 0xAF
            && glyph_bytes(7)[4] == 0x95 && glyph_bytes(7)[5] == 0x8A,
        glyph_bytes(8).len() == 6 && glyph_bytes(8)[1] == 0x91 && glyph_bytes(8)[2] == 0x9C
            && glyph_bytes(8)[4] == 0x95 && glyph_bytes(8)[5] == 0x8A,
        glyph_bytes(9).len() == 6 && glyph_bytes(9)[1] == 0x92 && glyph_bytes(9)[2] == 0xBF
            && glyph_bytes(9)[4] == 0x95 && glyph_bytes(9)[5] == 0x8A,
        glyph_bytes(10).len() == 6 && glyph_bytes(10)[1] == 0x91 && glyph_bytes(10)[2] == 0xBC
            && glyph_bytes(10)[4] == 0x95 && glyph_bytes(10)[5] == 0x8A,
        glyph_bytes(11).len() == 6 && glyph_bytes(11)[1] == 0x91 && glyph_bytes(11)[2] == 0x9C
            && glyph_bytes(11)[4] == 0x97 && glyph_bytes(11)[5] == 0xAF,
        glyph_bytes(12).len() == 6 && glyph_bytes(12)[1] == 0x91 && glyph_bytes(12)[2] == 0x9C
            && glyph_bytes(12)[4] == 0x91 && glyph_bytes(12)[5] == 0x9C,
        glyph_bytes(13).len() == 6 && glyph_bytes(13)[1] == 0x95 && glyph_bytes(13)[2] == 0x8A
            && glyph_bytes(13)[4] == 0x97 && glyph_bytes(13)[5] == 0xAF,
        glyph_bytes(14).len() == 6 && glyph_bytes(14)[1] == 0x95 && glyph_bytes(14)[2] == 0x8A
            && glyph_bytes(14)[4] == 0x95 && glyph_bytes(14)[5] == 0x8A,
        glyph_bytes(15).len() == 6 && glyph_bytes(15)[1] == 0x92 && glyph_bytes(15)[2] == 0xBF
            && glyph_bytes(15)[4] == 0x91 && glyph_bytes(15)[5] == 0x9C,
{
}

/// Appends the glyph for nibble `n` to `out`.
pub(crate) fn push_glyph(out: &mut Vec<u8>, n: u8)
    requires
        n < 16,
    ensures
        final(out)@ == old(out)@ + glyph_bytes(n as int),
{
    let ghost start = out@;
    if n == 0 {
        push_ch(out, 0x97, 0xAF);
    } else if n == 1 {
        push_ch(out, 0x95, 0x8A);
    } else if n == 2 {
        push_ch(out, 0x91, 0x9C);
    } else if n == 3 {
        push_ch(out, 0x94, 0x94);
    } else if n == 4 {
        push_ch(out, 0x92, 0xBF);
    } else if n == 5 {
        push_ch(out, 0x91, 0xBC);
    } else if n == 6 {
        push_ch(out, 0x93, 0x88);
        push_ch(out, 0x95, 0x8A);
    } else if n == 7 {
        push_ch(out, 0x97, 0xAF);
        push_ch(out, 0x95, 0x8A);
    } else if n == 8 {
        push_ch(out, 0x91, 0x9C);
        push_ch(out, 0x95, 0x8A);
    } else if n == 9 {
        push_ch(out, 0x92, 0xBF);
        push_ch(out, 0x95, 0x8A);
    } else if n == 10 {
        push_ch(out, 0x91, 0xBC);
        push_ch(out, 0x95, 0x8A);
    } else if n == 11 {
        push_ch(out, 0x91, 0x9C);
        push_ch(out, 0x97, 0xAF);
    } else if n == 12 {
        push_ch(out, 0x91, 0x9C);
        push_ch(out, 0x91, 0x9C);
    } else if n == 13 {
        push_ch(out, 0x95, 0x8A);
        push_ch(out, 0x97, 0xAF);
    } else if n == 14 {
        push_ch(out, 0x95, 0x8A);
        push_ch(out, 0x95, 0x8A);
    } else {
        push_ch(out, 0x92, 0xBF);
        push_ch(out, 0x91, 0x9C);
    }
    assert(out@ =~= start + glyph_bytes(n as int));
}

/// Appends one three-byte character of the glyph alphabet.
fn push_ch(out: &mut Vec<u8>, b1: u8, b2: u8)
    ensures
        final(out)@ == old(out)@ + ch(b1, b2),
{
    out.push(0xE5);
    out.push(b1);
    out.push(b2);
    assert(out@ =~= old(out)@ + ch(b1, b2));
}

/// Appends separator `i` of the cycle to `out`.
pub(crate) fn push_sep(out: &mut Vec<u8>, i: usize)
    requires
        i < 3,
    ensures
        final(out)@ == old(out)@ + sep_bytes(i as int),
{
    if i == 0 {
        out.push(0x21);
    } else if i == 1 {
        out.push(0x2E);
        out.push(0x2E);
    } else {
        out.push(0x7E);
    }
    assert(out@ =~= old(out)@ + sep_bytes(i as int));
}

/// Looks a decoded segment up in the glyph table.
pub(crate) fn lookup_glyph(seg: &Vec<u8>) -> (r: Option<u8>)
    ensures
        r == seg_nibble(seg@),
        r matches Some(n) ==> n < 16,
{
    if seg.len() == 3 {
        if seg[0] != 0xE5 {
            return None;
        }
        let b1 = seg[1];
        let b2 = seg[2];
        let r: Option<u8> = if b1 == 0x97 && b2 == 0xAF {
            Some(0)
        } else if b1 == 0x95 && b2 == 0x8A {
            Some(1)
        } else if b1 == 0x91 && b2 == 0x9C {
            Some(2)
        } else if b1 == 0x94 && b2 == 0x94 {
            Some(3)
        } else if b1 == 0x92 && b2 == 0xBF {
            Some(4)
        } else if b1 == 0x91 && b2 == 0xBC {
            Some(5)
        } else {
            None
        };
        proof {
            if r is Some {
                assert(seg@ =~= glyph_bytes(r->0 as int));
            }
        }
        r
    } else if seg.len() == 6 {
        if seg[0] != 0xE5 || seg[3] != 0xE5 {
            return None;
        }
        let b1 = seg[1];
        let b2 = seg[2];
        let c1 = seg[4];
        let c2 = seg[5];
        let r: Option<u8> = if b1 == 0x93 && b2 == 0x88 && c1 == 0x95 && c2 == 0x8A {
            Some(6)
        } else if b1 == 0x97 && b2 == 0xAF && c1 == 0x95 && c2 == 0x8A {
            Some(7)
        } else if b1 == 0x91 && b2 == 0x9C && c1 == 0x95 && c2 == 0x8A {
            Some(8)
        } else if b1 == 0x92 && b2 == 0xBF && c1 == 0x95 && c2 == 0x8A {
            Some(9)
        } else if b1 == 0x91 && b2 == 0xBC && c1 == 0x95 && c2 == 0x8A {
            Some(10)
        } else if b1 == 0x91 && b2 == 0x9C && c1 == 0x97 && c2 == 0xAF {
            Some(11)
        } else if b1 == 0x91 && b2 == 0x9C && c1 == 0x91 && c2 == 0x9C {
            Some(12)
        } else if b1 == 0x95 && b2 == 0x8A && c1 == 0x97 && c2 == 0xAF {
            Some(13)
        } else if b1 == 0x95 && b2 == 0x8A && c1 == 0x95 && c2 == 0x8A {
            Some(14)
        } else if b1 == 0x92 && b2 == 0xBF && c1 == 0x91 && c2 == 0x9C {
            Some(15)
        } else {
            None
        };
        proof {
            if r is Some {
                assert(seg@ =~= glyph_bytes(r->0 as int));
            }
        }
        r
    } else {
        None
    }
}

} // verus!
