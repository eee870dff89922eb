//! The mathematical model of the codec.
//!
//! The encoder side is `encode_text`: the token text a single call emits
//! for a byte sequence.  The decoder side is `segs` (the tokenizer: strip
//! separators, keep the segments between them), `seg_nibbles` (the nibble
//! each segment stands for), and `pair_bytes` / `pair_rest` (how queued
//! nibbles pair up into output bytes, and what stays queued).

use vstd::arithmetic::div_mod::lemma_add_mod_noop;
use vstd::arithmetic::div_mod::lemma_small_mod;
use vstd::prelude::*;

use crate::vocab::glyph_bytes;
use crate::vocab::lemma_glyph_bytes_high;
use crate::vocab::lemma_seg_nibble_glyph;
use crate::vocab::seg_nibble;
use crate::vocab::sep_bytes;

verus! {

/// A byte that, alone, ends the current segment: `!` or `~`.
pub open spec fn is_sep1(b: u8) -> bool {
    b == 0x21 || b == 0x7E
}

/// The ASCII dot, two of which in a row form the third separator.
pub open spec fn is_dot(b: u8) -> bool {
    b == 0x2E
}

/// The segment list contributed by an unfinished segment: nothing if it
/// is empty, else the segment itself.
pub open spec fn flush_seg(cur: Seq<u8>) -> Seq<Seq<u8>> {
    if cur.len() == 0 {
        seq![]
    } else {
        seq![cur]
    }
}

/// Tokenizes `t`, left to right, with `cur` the segment carried in so
/// far: `!` and `~` end a segment, as does a pair of adjacent dots; every
/// other byte (a lone dot included) extends the segment.  Empty segments
/// between adjacent separators are dropped.
pub open spec fn scan(t: Seq<u8>, cur: Seq<u8>) -> Seq<Seq<u8>>
    decreases t.len(),
{
    if t.len() == 0 {
        flush_seg(cur)
    } else if is_sep1(t[0]) {
        flush_seg(cur) + scan(t.skip(1), seq![])
    } else if is_dot(t[0]) && t.len() >= 2 && is_dot(t[1]) {
        flush_seg(cur) + scan(t.skip(2), seq![])
    } else {
        scan(t.skip(1), cur.push(t[0]))
    }
}

/// The segments of `t` once all separators are stripped.
pub open spec fn segs(t: Seq<u8>) -> Seq<Seq<u8>> {
    scan(t, seq![])
}

/// Every segment is a recognized glyph.
pub open spec fn seg_ok(sg: Seq<Seq<u8>>) -> bool {
    forall|j: int| 0 <= j < sg.len() ==> seg_nibble(sg[j]) is Some
}

/// The nibbles the segments stand for, unrecognized segments skipped.
/// Under `seg_ok` nothing is skipped.
pub open spec fn seg_nibbles(sg: Seq<Seq<u8>>) -> Seq<u8>
    decreases sg.len(),
{
    if sg.len() == 0 {
        seq![]
    } else {
        (match seg_nibble(sg[0]) {
            Some(n) => seq![n],
            None => seq![],
        }) + seg_nibbles(sg.skip(1))
    }
}

/// The byte a low/high nibble pair reassembles into.
pub open spec fn byte_of(lo: u8, hi: u8) -> u8 {
    lo | (hi << 4)
}

/// The bytes produced when queued nibbles are consumed two at a time,
/// in arrival order, first nibble low.
pub open spec fn pair_bytes(ns: Seq<u8>) -> Seq<u8>
    decreases ns.len(),
{
    if ns.len() < 2 {
        seq![]
    } else {
        seq![byte_of(ns[0], ns[1])] + pair_bytes(ns.skip(2))
    }
}

/// What stays queued after nibbles are consumed two at a time: the empty
/// sequence or a single trailing nibble.
pub open spec fn pair_rest(ns: Seq<u8>) -> Seq<u8>
    decreases ns.len(),
{
    if ns.len() < 2 {
        ns
    } else {
        pair_rest(ns.skip(2))
    }
}

/// The low and high nibble of each byte, in stream order.
pub open spec fn nibbles_of_bytes(bs: Seq<u8>) -> Seq<u8>
    decreases bs.len(),
{
    if bs.len() == 0 {
        seq![]
    } else {
        seq![bs[0] & 0xF, (bs[0] >> 4) & 0xF] + nibbles_of_bytes(bs.skip(1))
    }
}

/// The token text one byte contributes when the separator cycle stands
/// at `k`: low glyph, separator `k`, high glyph, separator `k + 1`.
pub open spec fn encode_byte(b: u8, k: int) -> Seq<u8> {
    glyph_bytes((b & 0xF) as int) + sep_bytes(k) + glyph_bytes(((b >> 4) & 0xF) as int) + sep_bytes(
        (k + 1) % 3,
    )
}

/// The token text for a byte sequence, starting the separator cycle at
/// `k`; the cycle advances by two per byte.
pub open spec fn encode_from(bs: Seq<u8>, k: int) -> Seq<u8>
    decreases bs.len(),
{
    if bs.len() == 0 {
        seq![]
    } else {
        encode_byte(bs[0], k) + encode_from(bs.skip(1), (k + 2) % 3)
    }
}

/// The token text a single encoder call emits for `bs`: the separator
/// cycle starts afresh at the first separator.
pub open spec fn encode_text(bs: Seq<u8>) -> Seq<u8> {
    encode_from(bs, 0)
}

/// Appending one more byte appends its own token text, with the
/// separator cycle advanced two steps per earlier byte.
pub proof fn lemma_encode_from_snoc(bs: Seq<u8>, b: u8, k: int)
    requires
        0 <= k < 3,
    ensures
        encode_from(bs.push(b), k) == encode_from(bs, k) + encode_byte(
            b,
            (k + 2 * bs.len()) % 3,
        ),
    decreases bs.len(),
{
    if bs.len() == 0 {
        lemma_small_mod(k as nat, 3);
        assert(k % 3 == k);
        reveal_with_fuel(encode_from, 2);
        assert(bs.push(b).skip(1) =~= Seq::<u8>::empty());
        assert(bs.push(b)[0] == b);
        assert(encode_from(bs.push(b), k) =~= encode_from(bs, k) + encode_byte(b, k % 3));
    } else {
        assert(bs.push(b).skip(1) =~= bs.skip(1).push(b));
        lemma_encode_from_snoc(bs.skip(1), b, (k + 2) % 3);
        lemma_mod3_shift(k + 2, 2 * (bs.len() - 1));
        assert(((k + 2) % 3 + 2 * (bs.len() - 1)) % 3 == (k + 2 * bs.len()) % 3);
        assert(encode_from(bs.push(b), k) =~= encode_from(bs, k) + encode_byte(
            b,
            (k + 2 * bs.len()) % 3,
        ));
    }
}

/// Reducing the left summand modulo three first does not change a sum
/// taken modulo three.
pub proof fn lemma_mod3_shift(a: int, b: int)
    ensures
        (a % 3 + b) % 3 == (a + b) % 3,
{
    lemma_add_mod_noop(a, b, 3);
    lemma_add_mod_noop(a % 3, b, 3);
    assert((a % 3) % 3 == a % 3) by {
        lemma_small_mod((a % 3) as nat, 3);
    }
}

/// Scanning past bytes that can be part of a glyph (all at or above
/// `0x80`, so never separator bytes) just extends the current segment.
proof fn lemma_scan_high_bytes(w: Seq<u8>, rest: Seq<u8>, cur: Seq<u8>)
    requires
        forall|k: int| 0 <= k < w.len() ==> w[k] >= 0x80,
    ensures
        scan(w + rest, cur) == scan(rest, cur + w),
    decreases w.len(),
{
    if w.len() == 0 {
        assert(w + rest =~= rest);
        assert(cur + w =~= cur);
    } else {
        let t = w + rest;
        assert(t[0] == w[0]);
        assert(t.skip(1) =~= w.skip(1) + rest);
        assert(cur.push(t[0]) + w.skip(1) =~= cur + w);
        lemma_scan_high_bytes(w.skip(1), rest, cur.push(t[0]));
    }
}

/// Scanning a separator flushes the current segment and starts afresh.
proof fn lemma_scan_sep(j: int, rest: Seq<u8>, cur: Seq<u8>)
    requires
        0 <= j < 3,
    ensures
        scan(sep_bytes(j) + rest, cur) == flush_seg(cur) + scan(rest, seq![]),
{
    let t = sep_bytes(j) + rest;
    if j == 1 {
        assert(t.skip(2) =~= rest);
    } else {
        assert(t.skip(1) =~= rest);
    }
}

/// Recognizing one more segment appends its nibble.
pub proof fn lemma_seg_nibbles_snoc(sg: Seq<Seq<u8>>, s: Seq<u8>)
    ensures
        seg_nibbles(sg.push(s)) == seg_nibbles(sg) + (match seg_nibble(s) {
            Some(n) => seq![n],
            None => Seq::<u8>::empty(),
        }),
    decreases sg.len(),
{
    if sg.len() == 0 {
        reveal_with_fuel(seg_nibbles, 2);
        assert(sg.push(s).skip(1) =~= Seq::<Seq<u8>>::empty());
        assert(sg.push(s)[0] == s);
        assert(seg_nibbles(sg.push(s)) =~= seg_nibbles(sg) + (match seg_nibble(s) {
            Some(n) => seq![n],
            None => Seq::<u8>::empty(),
        }));
    } else {
        assert(sg.push(s).skip(1) =~= sg.skip(1).push(s));
        lemma_seg_nibbles_snoc(sg.skip(1), s);
        assert(seg_nibbles(sg.push(s)) =~= seg_nibbles(sg) + (match seg_nibble(s) {
            Some(n) => seq![n],
            None => Seq::<u8>::empty(),
        }));
    }
}

/// A recognized segment keeps a segment list fully recognized.
pub proof fn lemma_seg_ok_snoc(sg: Seq<Seq<u8>>, s: Seq<u8>)
    requires
        seg_ok(sg),
        seg_nibble(s) is Some,
    ensures
        seg_ok(sg.push(s)),
{
    assert forall|j: int| 0 <= j < sg.push(s).len() implies seg_nibble(sg.push(s)[j]) is Some by {
        if j < sg.len() {
            assert(sg.push(s)[j] == sg[j]);
        } else {
            assert(sg.push(s)[j] == s);
        }
    }
}

/// Whether the tokenizer walks `u` as a whole number of tokens whose
/// last one is a separator: every byte is consumed and nothing begun in
/// `u` could continue past its end.
pub open spec fn ends_at_sep(u: Seq<u8>) -> bool
    decreases u.len(),
{
    if u.len() == 0 {
        false
    } else if is_sep1(u[0]) {
        u.len() == 1 || ends_at_sep(u.skip(1))
    } else if is_dot(u[0]) && u.len() >= 2 && is_dot(u[1]) {
        u.len() == 2 || ends_at_sep(u.skip(2))
    } else {
        u.len() > 1 && ends_at_sep(u.skip(1))
    }
}

/// Tokenizing splits cleanly at a boundary that the scan reaches just
/// after a separator: the segments of the whole are the segments of the
/// two parts.
pub proof fn lemma_segs_concat(u: Seq<u8>, v: Seq<u8>)
    requires
        ends_at_sep(u),
    ensures
        segs(u + v) == segs(u) + segs(v),
{
    lemma_scan_concat(u, v, seq![]);
}

proof fn lemma_scan_concat(u: Seq<u8>, v: Seq<u8>, cur: Seq<u8>)
    requires
        ends_at_sep(u),
    ensures
        scan(u + v, cur) == scan(u, cur) + scan(v, seq![]),
    decreases u.len(),
{
    let t = u + v;
    assert(t[0] == u[0]);
    if is_sep1(u[0]) && u.len() == 1 {
        assert(t.skip(1) =~= v);
        reveal_with_fuel(scan, 2);
        assert(u.skip(1) =~= Seq::<u8>::empty());
        assert(scan(u, cur) =~= flush_seg(cur));
        assert(flush_seg(cur) + scan(v, seq![]) =~= scan(t, cur));
    } else if is_sep1(u[0]) {
        assert(t.skip(1) =~= u.skip(1) + v);
        lemma_scan_concat(u.skip(1), v, seq![]);
        assert(flush_seg(cur) + (scan(u.skip(1), seq![]) + scan(v, seq![])) =~= (flush_seg(cur)
            + scan(u.skip(1), seq![])) + scan(v, seq![]));
    } else if is_dot(u[0]) && u.len() >= 2 && is_dot(u[1]) {
        assert(t[1] == u[1]);
        if u.len() == 2 {
            assert(t.skip(2) =~= v);
            reveal_with_fuel(scan, 2);
            assert(u.skip(2) =~= Seq::<u8>::empty());
            assert(scan(u, cur) =~= flush_seg(cur));
            assert(flush_seg(cur) + scan(v, seq![]) =~= scan(t, cur));
        } else {
            assert(t.skip(2) =~= u.skip(2) + v);
            lemma_scan_concat(u.skip(2), v, seq![]);
            assert(flush_seg(cur) + (scan(u.skip(2), seq![]) + scan(v, seq![])) =~= (flush_seg(
                cur,
            ) + scan(u.skip(2), seq![])) + scan(v, seq![]));
        }
    } else {
        assert(u.len() > 1);
        assert(t[1] == u[1]);
        assert(t.skip(1) =~= u.skip(1) + v);
        lemma_scan_concat(u.skip(1), v, cur.push(u[0]));
    }
}

/// Bytes that extend a segment neither make nor break a trailing
/// separator: only what follows them decides.
proof fn lemma_ends_at_sep_high_bytes(w: Seq<u8>, s: Seq<u8>)
    requires
        forall|k: int| 0 <= k < w.len() ==> w[k] >= 0x80,
        s.len() > 0,
    ensures
        ends_at_sep(w + s) == ends_at_sep(s),
    decreases w.len(),
{
    if w.len() == 0 {
        assert(w + s =~= s);
    } else {
        let t = w + s;
        assert(t[0] == w[0]);
        assert(t.skip(1) =~= w.skip(1) + s);
        lemma_ends_at_sep_high_bytes(w.skip(1), s);
    }
}

/// A separator followed by more token text ends at a separator exactly
/// when the rest does; alone, it does outright.
proof fn lemma_ends_at_sep_sep(j: int, s: Seq<u8>)
    requires
        0 <= j < 3,
    ensures
        ends_at_sep(sep_bytes(j) + s) == (s.len() == 0 || ends_at_sep(s)),
{
    let t = sep_bytes(j) + s;
    if j == 1 {
        assert(t[1] == 0x2E);
        assert(t.skip(2) =~= s);
    } else {
        assert(t.skip(1) =~= s);
    }
}

/// The text of an encoder call on at least one byte is a whole number
/// of tokens ending in a separator, so decoding may split right after
/// it.
pub proof fn lemma_encode_ends_at_sep(bs: Seq<u8>, k: int)
    requires
        0 <= k < 3,
        bs.len() > 0,
    ensures
        ends_at_sep(encode_from(bs, k)),
    decreases bs.len(),
{
    let b = bs[0];
    lemma_nibble_range(b);
    let lo = (b & 0xF) as int;
    let hi = ((b >> 4) & 0xF) as int;
    let g1 = glyph_bytes(lo);
    let s1 = sep_bytes(k);
    let g2 = glyph_bytes(hi);
    let s2 = sep_bytes((k + 1) % 3);
    let tail = encode_from(bs.skip(1), (k + 2) % 3);
    let t = encode_from(bs, k);
    assert(t =~= g1 + (s1 + (g2 + (s2 + tail))));
    if bs.len() > 1 {
        lemma_encode_ends_at_sep(bs.skip(1), (k + 2) % 3);
    }
    assert(tail.len() == 0 ==> bs.skip(1).len() == 0);
    lemma_ends_at_sep_sep((k + 1) % 3, tail);
    assert(ends_at_sep(s2 + tail));
    lemma_glyph_bytes_high(hi);
    lemma_ends_at_sep_high_bytes(g2, s2 + tail);
    lemma_ends_at_sep_sep(k, g2 + (s2 + tail));
    lemma_glyph_bytes_high(lo);
    lemma_ends_at_sep_high_bytes(g1, s1 + (g2 + (s2 + tail)));
}

/// Segments on both sides of a boundary are recognized exactly when all
/// are, and their nibbles concatenate.
pub proof fn lemma_seg_nibbles_concat(a: Seq<Seq<u8>>, b: Seq<Seq<u8>>)
    ensures
        seg_nibbles(a + b) == seg_nibbles(a) + seg_nibbles(b),
        seg_ok(a + b) <==> seg_ok(a) && seg_ok(b),
    decreases a.len(),
{
    if a.len() == 0 {
        assert(a + b =~= b);
        assert(seg_nibbles(a) + seg_nibbles(b) =~= seg_nibbles(b));
    } else {
        assert((a + b)[0] == a[0]);
        assert((a + b).skip(1) =~= a.skip(1) + b);
        lemma_seg_nibbles_concat(a.skip(1), b);
        assert(seg_nibbles(a + b) =~= seg_nibbles(a) + seg_nibbles(b));
        assert(seg_ok(a + b) <==> seg_ok(a) && seg_ok(b)) by {
            if seg_ok(a) && seg_ok(b) {
                assert forall|j: int| 0 <= j < (a + b).len() implies seg_nibble(
                    (a + b)[j],
                ) is Some by {
                    if j < a.len() {
                        assert((a + b)[j] == a[j]);
                    } else {
                        assert((a + b)[j] == b[j - a.len()]);
                    }
                }
            }
            if seg_ok(a + b) {
                assert forall|j: int| 0 <= j < a.len() implies seg_nibble(a[j]) is Some by {
                    assert((a + b)[j] == a[j]);
                }
                assert forall|j: int| 0 <= j < b.len() implies seg_nibble(b[j]) is Some by {
                    assert((a + b)[j + a.len()] == b[j]);
                }
            }
        }
    }
}

/// Feeding queued nibbles in two batches pairs them up exactly as one
/// batch would: the leftover of the first batch leads the second.
pub proof fn lemma_pairs_split(m: Seq<u8>, n: Seq<u8>)
    ensures
        pair_bytes(m + n) == pair_bytes(m) + pair_bytes(pair_rest(m) + n),
        pair_rest(m + n) == pair_rest(pair_rest(m) + n),
    decreases m.len(),
{
    if m.len() < 2 {
        assert(pair_rest(m) == m);
        assert(pair_rest(m) + n =~= m + n);
        assert(pair_bytes(m) + pair_bytes(m + n) =~= pair_bytes(m + n));
    } else {
        assert((m + n)[0] == m[0]);
        assert((m + n)[1] == m[1]);
        assert((m + n).skip(2) =~= m.skip(2) + n);
        lemma_pairs_split(m.skip(2), n);
        assert(pair_bytes(m + n) =~= pair_bytes(m) + pair_bytes(pair_rest(m) + n));
    }
}

/// The glyph pair a byte encodes into, as segments.
pub open spec fn glyph_segs(bs: Seq<u8>) -> Seq<Seq<u8>>
    decreases bs.len(),
{
    if bs.len() == 0 {
        seq![]
    } else {
        seq![glyph_bytes((bs[0] & 0xF) as int), glyph_bytes(((bs[0] >> 4) & 0xF) as int)]
            + glyph_segs(bs.skip(1))
    }
}

/// Low and high nibble of a byte are nibble values.
pub proof fn lemma_nibble_range(b: u8)
    ensures
        b & 0xF < 16,
        (b >> 4) & 0xF < 16,
{
    assert(b & 0xF < 16 && (b >> 4) & 0xF < 16) by (bit_vector);
}

/// Tokenizing the text the encoder emits recovers exactly the emitted
/// glyphs, two segments per input byte.
pub proof fn lemma_segs_encode_from(bs: Seq<u8>, k: int)
    requires
        0 <= k < 3,
    ensures
        segs(encode_from(bs, k)) == glyph_segs(bs),
    decreases bs.len(),
{
    if bs.len() == 0 {
    } else {
        let b = bs[0];
        let lo = (b & 0xF) as int;
        let hi = ((b >> 4) & 0xF) as int;
        lemma_nibble_range(b);
        let g1 = glyph_bytes(lo);
        let s1 = sep_bytes(k);
        let g2 = glyph_bytes(hi);
        let s2 = sep_bytes((k + 1) % 3);
        let tail = encode_from(bs.skip(1), (k + 2) % 3);
        let t = encode_from(bs, k);
        assert(t =~= g1 + (s1 + (g2 + (s2 + tail))));
        lemma_glyph_bytes_high(lo);
        lemma_scan_high_bytes(g1, s1 + (g2 + (s2 + tail)), seq![]);
        assert(Seq::<u8>::empty() + g1 =~= g1);
        lemma_scan_sep(k, g2 + (s2 + tail), g1);
        lemma_glyph_bytes_high(hi);
        lemma_scan_high_bytes(g2, s2 + tail, seq![]);
        assert(Seq::<u8>::empty() + g2 =~= g2);
        lemma_scan_sep((k + 1) % 3, tail, g2);
        lemma_segs_encode_from(bs.skip(1), (k + 2) % 3);
        assert(flush_seg(g1) =~= seq![g1]);
        assert(flush_seg(g2) =~= seq![g2]);
        assert(segs(t) =~= seq![g1] + (seq![g2] + glyph_segs(bs.skip(1))));
        assert(seq![g1] + (seq![g2] + glyph_segs(bs.skip(1))) =~= glyph_segs(bs));
    }
}

/// The glyph segments of a byte stream are all recognized, and stand
/// for exactly its nibbles.
pub proof fn lemma_glyph_segs_nibbles(bs: Seq<u8>)
    ensures
        seg_ok(glyph_segs(bs)),
        seg_nibbles(glyph_segs(bs)) == nibbles_of_bytes(bs),
    decreases bs.len(),
{
    if bs.len() == 0 {
    } else {
        let b = bs[0];
        lemma_nibble_range(b);
        lemma_seg_nibble_glyph((b & 0xF) as int);
        lemma_seg_nibble_glyph(((b >> 4) & 0xF) as int);
        lemma_glyph_segs_nibbles(bs.skip(1));
        let sg = glyph_segs(bs);
        assert(sg.skip(1).skip(1) =~= glyph_segs(bs.skip(1)));
        assert forall|j: int| 0 <= j < sg.len() implies seg_nibble(sg[j]) is Some by {
            if j >= 2 {
                assert(sg[j] == glyph_segs(bs.skip(1))[j - 2]);
            }
        }
        assert(sg[0] == glyph_bytes((b & 0xF) as int));
        assert(sg.skip(1)[0] == glyph_bytes(((b >> 4) & 0xF) as int));
        assert(seg_nibbles(sg.skip(1)) =~= seq![(b >> 4) & 0xF] + seg_nibbles(
            glyph_segs(bs.skip(1)),
        ));
        assert(seg_nibbles(sg) =~= nibbles_of_bytes(bs));
    }
}

/// Pairing the nibbles of a byte stream reassembles that stream, with
/// nothing left over.
pub proof fn lemma_pairs_of_nibbles(bs: Seq<u8>)
    ensures
        pair_bytes(nibbles_of_bytes(bs)) == bs,
        pair_rest(nibbles_of_bytes(bs)) == Seq::<u8>::empty(),
    decreases bs.len(),
{
    if bs.len() == 0 {
        assert(nibbles_of_bytes(bs) =~= Seq::<u8>::empty());
    } else {
        let b = bs[0];
        assert(byte_of(b & 0xF, (b >> 4) & 0xF) == b) by (bit_vector);
        lemma_pairs_of_nibbles(bs.skip(1));
        let ns = nibbles_of_bytes(bs);
        assert(ns.skip(2) =~= nibbles_of_bytes(bs.skip(1)));
        assert(pair_bytes(ns) =~= bs);
    }
}

/// The text the encoder emits is entirely complete valid UTF-8.
#[verifier::rlimit(60)]
#[verifier::spinoff_prover]
pub proof fn lemma_encode_from_utf8(bs: Seq<u8>, k: int)
    requires
        0 <= k < 3,
    ensures
        crate::utf8::utf8_prefix(encode_from(bs, k)) == encode_from(bs, k).len(),
    decreases bs.len(),
{
    if bs.len() == 0 {
    } else {
        let b = bs[0];
        lemma_nibble_range(b);
        let lo = (b & 0xF) as int;
        let hi = ((b >> 4) & 0xF) as int;
        let t = encode_from(bs, k);
        lemma_glyph_utf8(lo);
        lemma_sep_utf8(k);
        lemma_glyph_utf8(hi);
        lemma_sep_utf8((k + 1) % 3);
        lemma_encode_from_utf8(bs.skip(1), (k + 2) % 3);
        let tail = encode_from(bs.skip(1), (k + 2) % 3);
        crate::utf8::lemma_utf8_prefix_concat(sep_bytes((k + 1) % 3), tail);
        crate::utf8::lemma_utf8_prefix_concat(glyph_bytes(hi), sep_bytes((k + 1) % 3) + tail);
        crate::utf8::lemma_utf8_prefix_concat(
            sep_bytes(k),
            glyph_bytes(hi) + (sep_bytes((k + 1) % 3) + tail),
        );
        crate::utf8::lemma_utf8_prefix_concat(
            glyph_bytes(lo),
            sep_bytes(k) + (glyph_bytes(hi) + (sep_bytes((k + 1) % 3) + tail)),
        );
        assert(t =~= glyph_bytes(lo) + (sep_bytes(k) + (glyph_bytes(hi) + (sep_bytes(
            (k + 1) % 3,
        ) + tail))));
    }
}

/// Each glyph is one or two complete three-byte UTF-8 characters.
proof fn lemma_glyph_utf8(n: int)
    requires
        0 <= n < 16,
    ensures
        crate::utf8::utf8_prefix(glyph_bytes(n)) == glyph_bytes(n).len(),
{
    let g = glyph_bytes(n);
    reveal_with_fuel(crate::utf8::valid_to, 3);
    if g.len() == 3 {
        assert(crate::utf8::char_len_at(g, 0) == 3);
        assert(crate::utf8::valid_to(g, 0) == 3);
    } else {
        assert(g.len() == 6);
        assert(crate::utf8::char_len_at(g, 0) == 3);
        assert(crate::utf8::char_len_at(g, 3) == 3);
        assert(crate::utf8::valid_to(g, 0) == 6);
    }
}

/// Each separator is one or two complete ASCII characters.
proof fn lemma_sep_utf8(j: int)
    requires
        0 <= j < 3,
    ensures
        crate::utf8::utf8_prefix(sep_bytes(j)) == sep_bytes(j).len(),
{
    let s = sep_bytes(j);
    reveal_with_fuel(crate::utf8::valid_to, 3);
    if j == 1 {
        assert(crate::utf8::char_len_at(s, 0) == 1);
        assert(crate::utf8::char_len_at(s, 1) == 1);
        assert(crate::utf8::valid_to(s, 0) == 2);
    } else {
        assert(crate::utf8::char_len_at(s, 0) == 1);
        assert(crate::utf8::valid_to(s, 0) == 1);
    }
}

} // verus!
