//! The properties the codec promises, stated over the same model the
//! `Encoder` and `Decoder` contracts speak of, and proved once for all
//! inputs.

use vstd::prelude::*;

use crate::model;
use crate::utf8;
use crate::vocab;

verus! {

/// Round-trip: for every byte sequence, the text a single encoder call
/// emits is entirely consumable by a single decoder call (it is all
/// valid UTF-8), every segment is a recognized glyph, the decoded
/// nibbles pair back into exactly the original bytes, and no unpaired
/// nibble is left behind — so a following flush succeeds.
pub proof fn lemma_round_trip(bs: Seq<u8>)
    ensures
        ({
            let text = model::encode_text(bs);
            let sg = model::segs(text);
            &&& utf8::utf8_prefix(text) == text.len()
            &&& model::seg_ok(sg)
            &&& model::pair_bytes(model::seg_nibbles(sg)) == bs
            &&& model::pair_rest(model::seg_nibbles(sg)) == Seq::<u8>::empty()
        }),
{
    model::lemma_encode_from_utf8(bs, 0);
    model::lemma_segs_encode_from(bs, 0);
    model::lemma_glyph_segs_nibbles(bs);
    model::lemma_pairs_of_nibbles(bs);
}

/// Single-byte determinism: one byte encodes to exactly the glyph of
/// its low nibble, the first separator of the cycle, the glyph of its
/// high nibble, and the second separator — the cycle restarts at every
/// call.
pub proof fn lemma_single_byte(b: u8)
    ensures
        model::encode_text(seq![b]) == vocab::glyph_bytes((b & 0xF) as int) + vocab::sep_bytes(0)
            + vocab::glyph_bytes(((b >> 4) & 0xF) as int) + vocab::sep_bytes(1),
{
    let bs = seq![b];
    reveal_with_fuel(model::encode_from, 2);
    assert(bs.skip(1) =~= Seq::<u8>::empty());
    assert(bs[0] == b);
    assert(model::encode_text(bs) =~= model::encode_byte(b, 0));
    assert(model::encode_byte(b, 0) =~= vocab::glyph_bytes((b & 0xF) as int) + vocab::sep_bytes(0)
        + vocab::glyph_bytes(((b >> 4) & 0xF) as int) + vocab::sep_bytes(1));
}

/// Empty input: encoding nothing emits nothing, and empty text holds no
/// segments and decodes to nothing, leaving nothing pending.
pub proof fn lemma_empty_input()
    ensures
        model::encode_text(Seq::<u8>::empty()) == Seq::<u8>::empty(),
        utf8::utf8_prefix(Seq::<u8>::empty()) == 0,
        model::segs(Seq::<u8>::empty()) == Seq::<Seq<u8>>::empty(),
        model::seg_ok(model::segs(Seq::<u8>::empty())),
        model::seg_nibbles(model::segs(Seq::<u8>::empty())) == Seq::<u8>::empty(),
        model::pair_bytes(Seq::<u8>::empty()) == Seq::<u8>::empty(),
        model::pair_rest(Seq::<u8>::empty()) == Seq::<u8>::empty(),
{
    assert(model::encode_text(Seq::<u8>::empty()) =~= Seq::<u8>::empty());
    assert(model::segs(Seq::<u8>::empty()) =~= Seq::<Seq<u8>>::empty());
}

/// Reassembly-buffer lifecycle: queued nibbles are consumed two at a
/// time into one output byte each, so after any decoder call the buffer
/// holds the queue's length modulo two — zero nibbles or a single
/// unpaired one, never more.
pub proof fn lemma_pending_at_most_one(ns: Seq<u8>)
    ensures
        model::pair_bytes(ns).len() == ns.len() / 2,
        model::pair_rest(ns).len() == ns.len() % 2,
    decreases ns.len(),
{
    if ns.len() >= 2 {
        lemma_pending_at_most_one(ns.skip(2));
    }
}

/// Streaming split safety, at a token boundary: delivering token text
/// in two calls — a first part that is whole characters and a whole
/// number of tokens ending in a separator (as every encoder call's
/// output is, see `model::lemma_encode_ends_at_sep`), then the rest —
/// consumes, decodes and leaves pending exactly what one call on the
/// whole text does, from any starting queue `r` of pending nibbles.
/// (Splitting inside a multi-byte character is already covered by the
/// decoder's contract: the cut-off character is not consumed and comes
/// back in the next call.)
pub proof fn lemma_streaming_split(u: Seq<u8>, v: Seq<u8>, r: Seq<u8>)
    requires
        utf8::utf8_prefix(u) == u.len(),
        model::ends_at_sep(u),
    ensures
        ({
            let whole = (u + v).take(utf8::utf8_prefix(u + v));
            let vpart = v.take(utf8::utf8_prefix(v));
            let nu = model::seg_nibbles(model::segs(u));
            let nv = model::seg_nibbles(model::segs(vpart));
            &&& utf8::utf8_prefix(u + v) == u.len() + utf8::utf8_prefix(v)
            &&& model::segs(whole) == model::segs(u) + model::segs(vpart)
            &&& (model::seg_ok(model::segs(whole)) <==> model::seg_ok(model::segs(u))
                && model::seg_ok(model::segs(vpart)))
            &&& model::seg_nibbles(model::segs(whole)) == nu + nv
            &&& model::pair_bytes(r + (nu + nv)) == model::pair_bytes(r + nu) + model::pair_bytes(
                model::pair_rest(r + nu) + nv,
            )
            &&& model::pair_rest(r + (nu + nv)) == model::pair_rest(
                model::pair_rest(r + nu) + nv,
            )
        }),
{
    utf8::lemma_utf8_prefix_concat(u, v);
    let pv = utf8::utf8_prefix(v);
    let vpart = v.take(pv);
    let whole = (u + v).take(u.len() + pv);
    utf8::lemma_valid_to_bounds(v, 0);
    assert(whole =~= u + vpart);
    model::lemma_segs_concat(u, vpart);
    model::lemma_seg_nibbles_concat(model::segs(u), model::segs(vpart));
    let nu = model::seg_nibbles(model::segs(u));
    let nv = model::seg_nibbles(model::segs(vpart));
    model::lemma_pairs_split(r + nu, nv);
    assert((r + nu) + nv =~= r + (nu + nv));
}

} // verus!
