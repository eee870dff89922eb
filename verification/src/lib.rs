//! A reversible streaming codec that renders arbitrary bytes as a stream of
//! "filler-word" glyphs.  Each byte splits into two nibbles; each nibble maps
//! to one of sixteen fixed text glyphs, and the glyphs are interleaved with
//! three separator tokens drawn round-robin.  The decoder tokenizes such text
//! back into nibbles and reassembles the original bytes, tolerating input
//! that arrives split across calls.

use vstd::prelude::*;

pub mod laws;
pub mod model;
pub mod utf8;
pub mod utils;
pub mod vocab;

pub use utils::Buffer;
use vocab::lookup_glyph;
use vocab::push_glyph;
use vocab::push_sep;

verus! {

/// The failures a decoder can report.
///
/// `MalformedToken`: a segment between separators is not a recognized glyph.
/// `IncompleteInput`: the stream ended with an unpaired trailing nibble.
#[derive(Clone, Copy, Debug, PartialEq, Eq, Structural)]
pub enum CodecError {
    MalformedToken,
    IncompleteInput,
}

/// Adds two lengths.
pub fn add(left: usize, right: usize) -> (r: usize)
    requires
        left + right <= usize::MAX,
    ensures
        r == left + right,
{
    left + right
}

/// A streaming transformer that renders every byte handed to it as two
/// glyphs and two separators, written through to an owned byte sink.
pub struct Encoder {
    writer: Vec<u8>,
}

impl Encoder {
    /// The bytes written through to the owned sink so far.
    pub closed spec fn sink(&self) -> Seq<u8> {
        self.writer@
    }

    /// Wraps a sink in a fresh encoder.
    pub fn new(writer: Vec<u8>) -> (r: Encoder)
        ensures
            r.sink() == writer@,
    {
        Encoder { writer }
    }

    /// Gives the sink back.
    pub fn get_writer(self) -> (r: Vec<u8>)
        ensures
            r@ == self.sink(),
    {
        self.writer
    }

    /// Encodes `buf`: per byte, the glyph of the low nibble, the next
    /// separator of the cycle, the glyph of the high nibble, and the next
    /// separator again.  The cycle starts afresh at every call.  All of
    /// `buf` is always consumed.
    pub fn write(&mut self, buf: &[u8]) -> (r: Result<usize, CodecError>)
        ensures
            final(self).sink() == old(self).sink() + model::encode_text(buf@),
            r matches Ok(c) && c == buf@.len(),
    {
        let mut i: usize = 0;
        let mut k: usize = 0;
        while i < buf.len()
            invariant
                i <= buf@.len(),
                k < 3,
                k as int == (2 * i) % 3,
                self.writer@ == old(self).sink() + model::encode_from(buf@.take(i as int), 0),
            decreases buf@.len() - i,
        {
            let b = buf[i];
            proof {
                model::lemma_nibble_range(b);
            }
            let lo = b & 0xF;
            let hi = (b >> 4) & 0xF;
            push_glyph(&mut self.writer, lo);
            push_sep(&mut self.writer, k);
            k = if k == 2 {
                0
            } else {
                k + 1
            };
            push_glyph(&mut self.writer, hi);
            push_sep(&mut self.writer, k);
            k = if k == 2 {
                0
            } else {
                k + 1
            };
            proof {
                model::lemma_encode_from_snoc(buf@.take(i as int), b, 0);
                model::lemma_mod3_shift(2 * i as int, 2);
                assert(buf@.take(i + 1) =~= buf@.take(i as int).push(b));
                assert(self.writer@ =~= old(self).sink() + model::encode_from(
                    buf@.take(i + 1),
                    0,
                ));
            }
            i += 1;
        }
        proof {
            assert(buf@.take(buf@.len() as int) =~= buf@);
        }
        Ok(i)
    }

    /// The encoder buffers nothing of its own: flushing is a pure
    /// pass-through to the sink.
    pub fn flush(&mut self) -> (r: Result<(), CodecError>)
        ensures
            final(self).sink() == old(self).sink(),
            r is Ok,
    {
        Ok(())
    }
}

/// A streaming transformer that turns glyph/separator token text back
/// into the bytes it encodes, written through to an owned byte sink.
/// Tokens may arrive split across calls: each call consumes only the
/// longest valid whole-character prefix and reports how much it took;
/// an odd trailing nibble waits in the reassembly buffer for its pair.
pub struct Decoder {
    writer: Vec<u8>,
    buffer: Buffer,
}

impl Decoder {
    /// The bytes written through to the owned sink so far.
    pub closed spec fn sink(&self) -> Seq<u8> {
        self.writer@
    }

    /// The decoded nibbles still waiting for a partner.
    pub closed spec fn pending(&self) -> Seq<u8> {
        self.buffer@
    }

    /// Wraps a sink in a fresh decoder with an empty reassembly buffer.
    pub fn new(writer: Vec<u8>) -> (r: Decoder)
        ensures
            r.sink() == writer@,
            r.pending() == Seq::<u8>::empty(),
    {
        Decoder { writer, buffer: Buffer::new() }
    }

    /// Gives the sink back.
    pub fn get_writer(self) -> (r: Vec<u8>)
        ensures
            r@ == self.sink(),
    {
        self.writer
    }

    /// Decodes the longest valid whole-character prefix of `buf`:
    /// separators are stripped, each remaining segment is looked up as a
    /// glyph, the nibbles queue up behind any pending one, and every
    /// complete pair is written to the sink as one byte (first nibble
    /// low).  Returns how many bytes were consumed; the caller resubmits
    /// the rest.  A segment that is no glyph is a fatal error: nothing
    /// is consumed and the decoder is left unchanged.
    pub fn write(&mut self, buf: &[u8]) -> (r: Result<usize, CodecError>)
        ensures
            ({
                let p = utf8::utf8_prefix(buf@);
                let sg = model::segs(buf@.take(p));
                &&& (r is Ok <==> model::seg_ok(sg))
                &&& (model::seg_ok(sg) ==> {
                    let total = old(self).pending() + model::seg_nibbles(sg);
                    &&& r == Ok::<usize, CodecError>(p as usize)
                    &&& final(self).sink() == old(self).sink() + model::pair_bytes(total)
                    &&& final(self).pending() == model::pair_rest(total)
                })
                &&& (!model::seg_ok(sg) ==> {
                    &&& r == Err::<usize, CodecError>(CodecError::MalformedToken)
                    &&& final(self).sink() == old(self).sink()
                    &&& final(self).pending() == old(self).pending()
                })
            }),
    {
        let p = utf8::utf8_prefix_len(buf);
        let ghost pref = buf@.take(p as int);
        let mut nibs: Vec<u8> = Vec::new();
        let mut seg: Vec<u8> = Vec::new();
        let ghost mut done: Seq<Seq<u8>> = seq![];
        let mut i: usize = 0;
        proof {
            assert(pref.skip(0) =~= pref);
            assert(done + model::scan(pref, seg@) =~= model::segs(pref));
        }
        while i < p
            invariant
                i <= p <= buf@.len(),
                p as int == utf8::utf8_prefix(buf@),
                pref == buf@.take(p as int),
                model::segs(pref) == done + model::scan(pref.skip(i as int), seg@),
                model::seg_ok(done),
                model::seg_nibbles(done) == nibs@,
            decreases p - i,
        {
            let ghost t = pref.skip(i as int);
            let ghost seg0 = seg@;
            let ghost done0 = done;
            let b = buf[i];
            proof {
                assert(t[0] == b);
                if p - i > 1 {
                    assert(t[1] == buf@[i + 1]);
                    assert(t.skip(2) =~= pref.skip(i + 2));
                }
                assert(t.skip(1) =~= pref.skip(i + 1));
            }
            let two_dots = b == 0x2E && p - i > 1 && buf[i + 1] == 0x2E;
            if b == 0x21 || b == 0x7E || two_dots {
                proof {
                    assert(model::scan(t, seg0) == model::flush_seg(seg0) + (if two_dots {
                        model::scan(pref.skip(i + 2), Seq::<u8>::empty())
                    } else {
                        model::scan(pref.skip(i + 1), Seq::<u8>::empty())
                    }));
                }
                if seg.len() > 0 {
                    match lookup_glyph(&seg) {
                        Some(n) => {
                            nibs.push(n);
                            proof {
                                model::lemma_seg_nibbles_snoc(done, seg0);
                                model::lemma_seg_ok_snoc(done, seg0);
                                done = done.push(seg0);
                                assert(model::seg_nibbles(done) =~= nibs@);
                            }
                        },
                        None => {
                            proof {
                                assert(model::segs(pref)[done.len() as int] == seg0);
                            }
                            return Err(CodecError::MalformedToken);
                        },
                    }
                    seg = Vec::new();
                }
                if two_dots {
                    i += 2;
                } else {
                    i += 1;
                }
                proof {
                    let rest = model::scan(pref.skip(i as int), Seq::<u8>::empty());
                    assert(seg@ =~= Seq::<u8>::empty());
                    assert(model::scan(pref.skip(i as int), seg@) == rest);
                    assert(model::scan(t, seg0) == model::flush_seg(seg0) + rest);
                    if seg0.len() == 0 {
                        assert(done == done0);
                        assert(done0 + (model::flush_seg(seg0) + rest) =~= done0 + rest);
                    } else {
                        assert(done == done0.push(seg0));
                        assert(done0 + (model::flush_seg(seg0) + rest) =~= done0.push(seg0)
                            + rest);
                    }
                    assert(done + model::scan(pref.skip(i as int), seg@) =~= model::segs(pref));
                }
            } else {
                seg.push(b);
                i += 1;
                proof {
                    assert(seg@ == seg0.push(b));
                    assert(model::scan(t, seg0) == model::scan(pref.skip(i as int), seg@));
                }
            }
        }
        proof {
            assert(pref.skip(p as int) =~= Seq::<u8>::empty());
        }
        if seg.len() > 0 {
            match lookup_glyph(&seg) {
                Some(n) => {
                    nibs.push(n);
                    proof {
                        model::lemma_seg_nibbles_snoc(done, seg@);
                        model::lemma_seg_ok_snoc(done, seg@);
                        done = done.push(seg@);
                        assert(model::segs(pref) =~= done);
                        assert(model::seg_nibbles(done) =~= nibs@);
                    }
                },
                None => {
                    proof {
                        assert(model::segs(pref)[done.len() as int] == seg@);
                    }
                    return Err(CodecError::MalformedToken);
                },
            }
        } else {
            proof {
                assert(model::segs(pref) =~= done);
            }
        }
        let ghost total = old(self).pending() + nibs@;
        self.buffer.write(nibs.as_slice());
        let ghost mut sunk: Seq<u8> = seq![];
        proof {
            assert(old(self).sink() + sunk =~= self.writer@);
        }
        while self.buffer.len() >= 2
            invariant
                self.writer@ == old(self).sink() + sunk,
                model::pair_bytes(total) == sunk + model::pair_bytes(self.buffer@),
                model::pair_rest(total) == model::pair_rest(self.buffer@),
            decreases self.buffer@.len(),
        {
            let ghost before = self.buffer@;
            let pair = self.buffer.read(2);
            proof {
                assert(pair@[0] == before[0]);
                assert(pair@[1] == before[1]);
            }
            let byte = pair[0] | (pair[1] << 4);
            self.writer.push(byte);
            proof {
                assert(self.buffer@ =~= before.skip(2));
                sunk = sunk.push(byte);
                assert(self.writer@ =~= old(self).sink() + sunk);
                assert(sunk + model::pair_bytes(self.buffer@) =~= model::pair_bytes(total));
            }
        }
        proof {
            assert(model::pair_bytes(total) =~= sunk);
        }
        Ok(p)
    }

    /// The sole end-of-stream check: fails if an unpaired nibble is still
    /// waiting (the stream ended mid-byte), else passes through.
    pub fn flush(&mut self) -> (r: Result<(), CodecError>)
        ensures
            final(self).sink() == old(self).sink(),
            final(self).pending() == old(self).pending(),
            r is Ok <==> old(self).pending().len() == 0,
            old(self).pending().len() != 0 ==> r == Err::<(), CodecError>(
                CodecError::IncompleteInput,
            ),
    {
        if self.buffer.len() != 0 {
            return Err(CodecError::IncompleteInput);
        }
        Ok(())
    }
}

} // verus!
