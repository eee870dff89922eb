use modal_particles::Buffer;
use modal_particles::CodecError;
use modal_particles::Decoder;
use modal_particles::Encoder;

fn encode_all(data: &[u8]) -> String {
    let mut encoder = Encoder::new(Vec::new());
    encoder.write(data).unwrap();
    String::from_utf8(encoder.get_writer()).unwrap()
}

fn decode_all(text: &str) -> Vec<u8> {
    let mut decoder = Decoder::new(Vec::new());
    let consumed = decoder.write(text.as_bytes()).unwrap();
    assert_eq!(consumed, text.len());
    decoder.get_writer()
}

#[test]
fn it_works() {
    let result = modal_particles::add(2, 2);
    assert_eq!(result, 4);
}

#[test]
fn encode() {
    let s = "我能吞下玻璃而不伤身体";
    let mut encoder = Encoder::new(Vec::new());
    encoder.write(s.as_bytes()).unwrap();

    String::from_utf8(encoder.get_writer()).unwrap();
}

#[test]
fn decode() {
    // A doubled-dot separator followed by a third dot leaves a lone dot
    // glued to the next segment, so this text is malformed under the
    // current separator set and is rejected as a whole.
    let s = "呼~啊啊...呜.呜啊...呜嗯.呜嗯...咿啊~啊啊!嗯~呜啊..呜呜...呜嗯...";
    let mut decoder = Decoder::new(Vec::new());
    let r = decoder.write(s.as_bytes());
    assert_eq!(r, Err(CodecError::MalformedToken));
    assert!(decoder.get_writer().is_empty());
}

#[test]
fn encode_and_decode() {
    let s = "我能吞下玻璃而不伤身体！I am the storm that is approaching!";
    let mut encoder = Encoder::new(Vec::new());
    encoder.write(s.as_bytes()).unwrap();
    let encoded = String::from_utf8(encoder.get_writer()).unwrap();

    let mut decoder = Decoder::new(Vec::new());
    decoder.write(encoded.as_bytes()).unwrap();
    let ss = String::from_utf8(decoder.get_writer()).unwrap();
    assert_eq!(s, ss);
}

#[test]
fn single_byte_tokens() {
    // 0x41 ('A'): low nibble 1, high nibble 4; the cycle starts at "!".
    assert_eq!(encode_all(b"A"), "啊!咿..");
}

#[test]
fn decode_single_byte() {
    let mut decoder = Decoder::new(Vec::new());
    assert_eq!(decoder.write("啊!咿..".as_bytes()), Ok(9));
    assert!(decoder.flush().is_ok());
    assert_eq!(decoder.get_writer(), vec![0x41]);
}

#[test]
fn empty_input() {
    assert_eq!(encode_all(b""), "");
    let mut decoder = Decoder::new(Vec::new());
    assert_eq!(decoder.write(b""), Ok(0));
    assert!(decoder.flush().is_ok());
    assert!(decoder.get_writer().is_empty());
}

#[test]
fn round_trip_binary() {
    let mut data: Vec<u8> = Vec::new();
    let mut i: usize = 0;
    while i < 256 {
        data.push(i as u8);
        i += 1;
    }
    data.push(0xFF);
    let text = encode_all(&data);
    assert_eq!(decode_all(&text), data);
}

#[test]
fn separator_cycle_resets_per_call() {
    // One call of two bytes walks the cycle on; two calls restart it.
    assert_eq!(encode_all(&[0, 0]), "嗯!嗯..嗯~嗯!");
    let mut encoder = Encoder::new(Vec::new());
    encoder.write(&[0]).unwrap();
    encoder.write(&[0]).unwrap();
    let two_calls = String::from_utf8(encoder.get_writer()).unwrap();
    assert_eq!(two_calls, "嗯!嗯..嗯!嗯..");
    // The separator pattern differs, the decoded bytes do not.
    assert_eq!(decode_all("嗯!嗯..嗯~嗯!"), vec![0, 0]);
    assert_eq!(decode_all(&two_calls), vec![0, 0]);
}

#[test]
fn split_at_token_boundary() {
    let s = "stream me";
    let text = encode_all(s.as_bytes());
    let bytes = text.as_bytes();
    // "啊!" is one glyph and one separator: a clean token boundary.
    let mut decoder = Decoder::new(Vec::new());
    assert_eq!(decoder.write(&bytes[..4]), Ok(4));
    assert_eq!(decoder.write(&bytes[4..]), Ok(bytes.len() - 4));
    assert!(decoder.flush().is_ok());
    assert_eq!(decoder.get_writer(), s.as_bytes());
}

#[test]
fn split_mid_character_resubmits() {
    let s = "stream me";
    let text = encode_all(s.as_bytes());
    let bytes = text.as_bytes();
    let whole = decode_all(&text);
    // Walk the token structure: every character of a glyph takes three
    // bytes, every other byte is a separator byte.
    let mut sep_ends: Vec<usize> = Vec::new();
    let mut j: usize = 0;
    while j < bytes.len() {
        if bytes[j] == b'!' || bytes[j] == b'~' {
            j += 1;
            sep_ends.push(j);
        } else if bytes[j] == b'.' {
            j += 2;
            sep_ends.push(j);
        } else {
            j += 3;
        }
    }
    // Split right after a separator, and one or two bytes into the
    // character that follows it: the cut-off fragment is not consumed
    // and must be resubmitted in front of the rest.
    for &q in &sep_ends {
        let mut deltas: Vec<usize> = vec![0];
        if q < bytes.len() && bytes[q] >= 0x80 {
            deltas.push(1);
            deltas.push(2);
        }
        for &d in &deltas {
            let cut = q + d;
            let mut decoder = Decoder::new(Vec::new());
            let consumed = decoder.write(&bytes[..cut]).unwrap();
            assert_eq!(consumed, q);
            let rest = decoder.write(&bytes[consumed..]).unwrap();
            assert_eq!(consumed + rest, bytes.len());
            decoder.flush().unwrap();
            assert_eq!(decoder.get_writer(), whole);
        }
    }
}

#[test]
fn malformed_glyph_rejected() {
    let mut decoder = Decoder::new(Vec::new());
    assert_eq!(
        decoder.write("hello!".as_bytes()),
        Err(CodecError::MalformedToken)
    );
    // An unknown glyph-shaped segment fails too.
    let mut decoder = Decoder::new(Vec::new());
    assert_eq!(
        decoder.write("呼呼!".as_bytes()),
        Err(CodecError::MalformedToken)
    );
}

#[test]
fn invalid_utf8_suffix_not_consumed() {
    let text = "嗯!啊~".as_bytes();
    let mut decoder = Decoder::new(Vec::new());
    // Stop one byte into the second glyph: only "嗯!" can be taken.
    let consumed = decoder.write(&text[..5]).unwrap();
    assert_eq!(consumed, 4);
    let rest = decoder.write(&text[consumed..]).unwrap();
    assert_eq!(rest, text.len() - consumed);
    assert!(decoder.flush().is_ok());
    assert_eq!(decoder.get_writer(), vec![0x10]);
}

#[test]
fn incomplete_pair_detected() {
    let mut decoder = Decoder::new(Vec::new());
    assert_eq!(decoder.write("嗯!".as_bytes()), Ok(4));
    assert_eq!(decoder.flush(), Err(CodecError::IncompleteInput));
    // One more glyph completes the pair and the stream becomes whole.
    assert_eq!(decoder.write("嗯!".as_bytes()), Ok(4));
    assert!(decoder.flush().is_ok());
    assert_eq!(decoder.get_writer(), vec![0x00]);
}

#[test]
fn doubled_separators_collapse() {
    // Adjacent separators produce empty segments, which are dropped.
    assert_eq!(decode_all("啊!..~咿!"), vec![0x41]);
}

#[test]
fn buffer_queue_behaviour() {
    let mut buffer = Buffer::new();
    assert_eq!(buffer.len(), 0);
    assert_eq!(buffer.write(&[1, 2, 3]), 3);
    assert_eq!(buffer.len(), 3);
    assert_eq!(buffer.get_inner(), &[1, 2, 3]);
    let first = buffer.read(2);
    assert_eq!(first, vec![1, 2]);
    assert_eq!(buffer.len(), 1);
    // A short read hands back what is there.
    let rest = buffer.read(5);
    assert_eq!(rest, vec![3]);
    assert_eq!(buffer.len(), 0);
    assert_eq!(buffer.write(&[7]), 1);
    buffer.clear();
    assert_eq!(buffer.len(), 0);
    assert!(buffer.flush().is_ok());
}
