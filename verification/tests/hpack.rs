//! Header compression: integers, strings, tables and whole header blocks.

use bytes::BytesMut;
use h2_zero::hpack::decoder::Decoder;
use h2_zero::hpack::encoder::{Encoder, SizeUpdate};
use h2_zero::hpack::field::{pseudo_name, Field, PseudoName};
use h2_zero::hpack::integer::{read_integer, write_integer};
use h2_zero::hpack::static_table::get_static;
use h2_zero::hpack::table::Table;
use h2_zero::hpack::{huffman, DecoderError, NeedMore};

fn hex(text: &str) -> Vec<u8> {
    let digits: Vec<u8> = text
        .chars()
        .map(|c| c.to_digit(16).expect("a hex digit") as u8)
        .collect();
    digits.chunks(2).map(|d| d[0] * 16 + d[1]).collect()
}

fn field(name: &str, value: &str) -> Field {
    Field {
        name: name.as_bytes().to_vec(),
        value: value.as_bytes().to_vec(),
    }
}

fn decode_all(decoder: &mut Decoder, src: &[u8]) -> Result<Vec<(String, String)>, DecoderError> {
    decoder.start();
    let mut fields = Vec::new();
    let mut at = 0;
    let mut can_resize = true;
    while at < src.len() {
        let step = decoder.next(src, at, can_resize)?;
        at = step.end;
        if let Some(f) = step.field {
            can_resize = false;
            fields.push((
                String::from_utf8(f.name).unwrap(),
                String::from_utf8(f.value).unwrap(),
            ));
        }
    }
    Ok(fields)
}

fn pairs(list: &[(&str, &str)]) -> Vec<(String, String)> {
    list.iter()
        .map(|(n, v)| (n.to_string(), v.to_string()))
        .collect()
}

#[test]
fn huffman_texts() {
    let texts = [
        ("f1e3c2e5f23a6ba0ab90f4ff", "www.example.com"),
        ("a8eb10649cbf", "no-cache"),
        ("25a849e95ba97d7f", "custom-key"),
        ("25a849e95bb8e8b4bf", "custom-value"),
        ("6402", "302"),
        ("aec3771a4b", "private"),
        ("", ""),
    ];
    for (code, text) in texts {
        assert_eq!(huffman::decode(&hex(code)), Some(text.as_bytes().to_vec()));
    }
}

#[test]
fn huffman_refuses_bad_padding() {
    // The code of '0' is 00000, padded with a zero bit in place of ones.
    assert_eq!(huffman::decode(&[0b0000_0110]), None);
    // A whole byte of padding.
    assert_eq!(huffman::decode(&[0b0000_0111, 0xff]), None);
    assert_eq!(huffman::decode(&[0xff]), None);
    // The end of the code stands in the text.
    assert_eq!(huffman::decode(&[0xff, 0xff, 0xff, 0xff]), None);
    assert_eq!(huffman::decode(&[0b0000_0111]), Some(b"0".to_vec()));
}

#[test]
fn integers_as_they_are_written() {
    let mut dst = BytesMut::new();
    write_integer(&mut dst, 0, 32, 10);
    assert_eq!(&dst[..], [10]);
    dst.clear();
    write_integer(&mut dst, 0, 32, 1337);
    assert_eq!(&dst[..], [31, 154, 10]);
    dst.clear();
    write_integer(&mut dst, 32, 32, 31);
    assert_eq!(&dst[..], [63, 0]);
}

#[test]
fn integers_as_they_are_read() {
    assert_eq!(read_integer(&[10], 0, 32), Ok((10, 1)));
    assert_eq!(read_integer(&[0xff, 31, 154, 10], 1, 32), Ok((1337, 4)));
    assert_eq!(read_integer(&[127, 0], 0, 128), Ok((127, 2)));
    assert_eq!(
        read_integer(&[31, 154], 0, 32),
        Err(DecoderError::NeedMore(NeedMore::IntegerUnderflow))
    );
    assert_eq!(
        read_integer(&[31, 0xff, 0xff, 0xff, 0xff, 0xff, 0], 0, 32),
        Err(DecoderError::IntegerOverflow)
    );
}

#[test]
fn integers_come_back() {
    for n in [0usize, 1, 30, 31, 32, 127, 128, 254, 255, 16_383, 16_384, 0x0fff_ffff] {
        for limit in [16u8, 32, 64, 128] {
            let mut dst = BytesMut::new();
            write_integer(&mut dst, 0, limit, n);
            assert_eq!(read_integer(&dst, 0, limit), Ok((n, dst.len())));
        }
    }
}

#[test]
fn static_entries() {
    let entries = [
        (1, ":authority", ""),
        (2, ":method", "GET"),
        (7, ":scheme", "https"),
        (14, ":status", "500"),
        (16, "accept-encoding", "gzip, deflate"),
        (32, "cookie", ""),
        (61, "www-authenticate", ""),
    ];
    for (index, name, value) in entries {
        let f = get_static(index);
        assert_eq!(f.name, name.as_bytes());
        assert_eq!(f.value, value.as_bytes());
    }
}

#[test]
fn table_evicts_the_oldest() {
    let mut table = Table::new(80);
    table.insert(field("a", "1"));
    table.insert(field("b", "2"));
    assert_eq!(table.get(62).unwrap().name, b"b");
    assert_eq!(table.get(63).unwrap().name, b"a");
    table.insert(field("c", "3"));
    assert_eq!(table.get(62).unwrap().name, b"c");
    assert_eq!(table.get(63).unwrap().name, b"b");
    assert_eq!(table.get(64).err(), Some(DecoderError::InvalidTableIndex));
    assert_eq!(table.get(0).err(), Some(DecoderError::InvalidTableIndex));
    // An entry that is larger than the table empties it.
    table.insert(field("name", &"v".repeat(80)));
    assert_eq!(table.get(62).err(), Some(DecoderError::InvalidTableIndex));
}

#[test]
fn table_shrinks() {
    let mut table = Table::new(200);
    table.insert(field("a", "1"));
    table.insert(field("b", "2"));
    table.set_max_size(34);
    assert_eq!(table.get(62).unwrap().name, b"b");
    assert_eq!(table.get(63).err(), Some(DecoderError::InvalidTableIndex));
    table.set_max_size(0);
    assert_eq!(table.get(62).err(), Some(DecoderError::InvalidTableIndex));
}

#[test]
fn requests_with_huffman_code() {
    let mut decoder = Decoder::new(4096);
    assert_eq!(
        decode_all(&mut decoder, &hex("828684418cf1e3c2e5f23a6ba0ab90f4ff")).unwrap(),
        pairs(&[
            (":method", "GET"),
            (":scheme", "http"),
            (":path", "/"),
            (":authority", "www.example.com"),
        ])
    );
    assert_eq!(
        decode_all(&mut decoder, &hex("828684be5886a8eb10649cbf")).unwrap(),
        pairs(&[
            (":method", "GET"),
            (":scheme", "http"),
            (":path", "/"),
            (":authority", "www.example.com"),
            ("cache-control", "no-cache"),
        ])
    );
    let third = hex("828785bf408825a849e95ba97d7f8925a849e95bb8e8b4bf");
    assert_eq!(
        decode_all(&mut decoder, &third).unwrap(),
        pairs(&[
            (":method", "GET"),
            (":scheme", "https"),
            (":path", "/index.html"),
            (":authority", "www.example.com"),
            ("custom-key", "custom-value"),
        ])
    );
}

#[test]
fn responses_in_a_small_table() {
    let mut decoder = Decoder::new(256);
    let first = hex(concat_hex(&[
        "4803333032580770726976617465611d4d6f6e2c203231204f637420323031332032303a3133",
        "3a323120474d546e1768747470733a2f2f7777772e6578616d706c652e636f6d",
    ]).as_str());
    let date = "Mon, 21 Oct 2013 20:13:21 GMT";
    assert_eq!(
        decode_all(&mut decoder, &first).unwrap(),
        pairs(&[
            (":status", "302"),
            ("cache-control", "private"),
            ("date", date),
            ("location", "https://www.example.com"),
        ])
    );
    assert_eq!(
        decode_all(&mut decoder, &hex("4803333037c1c0bf")).unwrap(),
        pairs(&[
            (":status", "307"),
            ("cache-control", "private"),
            ("date", date),
            ("location", "https://www.example.com"),
        ])
    );
}

fn concat_hex(parts: &[&str]) -> String {
    parts.concat()
}

#[test]
fn decoder_faults() {
    let cases: Vec<(Vec<u8>, DecoderError)> = vec![
        // An index past both tables, and the index that stands for nothing.
        (vec![0xbe], DecoderError::InvalidTableIndex),
        (vec![0x80], DecoderError::InvalidTableIndex),
        // A Huffman code that ends in zeros.
        (
            vec![0x00, 0x01, b'a', 0x81, 0b0000_0110],
            DecoderError::InvalidHuffmanCode,
        ),
        // A name in capitals, and a value with a line break.
        (vec![0x00, 0x01, b'A', 0x00], DecoderError::InvalidUtf8),
        (
            vec![0x00, 0x01, b'a', 0x01, b'\n'],
            DecoderError::InvalidUtf8,
        ),
        // A method that is no token, a status out of range, a path that is no
        // UTF-8.
        (vec![0x02, 0x01, b' '], DecoderError::InvalidUtf8),
        (
            vec![0x08, 0x03, b'0', b'9', b'9'],
            DecoderError::InvalidUtf8,
        ),
        (vec![0x04, 0x01, 0xff], DecoderError::InvalidUtf8),
        // A pseudo-header that there is not.
        (
            vec![0x00, 0x02, b':', b'x', 0x00],
            DecoderError::InvalidPseudoheader,
        ),
        // A table larger than allowed.
        (vec![0x3f, 0xe2, 0x1f], DecoderError::InvalidMaxDynamicSize),
        // Blocks that stop too early.
        (
            vec![0x00],
            DecoderError::NeedMore(NeedMore::UnexpectedEndOfStream),
        ),
        (
            vec![0x00, 0x7f],
            DecoderError::NeedMore(NeedMore::IntegerUnderflow),
        ),
        (
            vec![0x00, 0x02, b'a'],
            DecoderError::NeedMore(NeedMore::StringUnderflow),
        ),
        (
            vec![0xff, 0xff, 0xff, 0xff, 0xff, 0xff, 0x0f],
            DecoderError::IntegerOverflow,
        ),
    ];
    for (src, fault) in cases {
        let mut decoder = Decoder::new(4096);
        assert_eq!(decode_all(&mut decoder, &src), Err(fault), "{:?}", src);
    }
}

#[test]
fn accepted_texts() {
    // The same shapes with texts that are in order.
    let mut decoder = Decoder::new(4096);
    let src = [
        0x00, 0x01, b'a', 0x02, b'b', b'\t', 0x02, 0x03, b'P', b'U', b'T', 0x08, 0x03, b'4', b'1',
        b'8', 0x04, 0x02, 0xc3, 0xa4,
    ];
    assert_eq!(
        decode_all(&mut decoder, &src).unwrap(),
        pairs(&[
            ("a", "b\t"),
            (":method", "PUT"),
            (":status", "418"),
            (":path", "\u{e4}"),
        ])
    );
}

#[test]
fn table_sizes_only_at_the_start() {
    let mut decoder = Decoder::new(4096);
    assert_eq!(
        decode_all(&mut decoder, &[0x20, 0x3f, 0xe1, 0x1f, 0x82]).unwrap(),
        pairs(&[(":method", "GET")])
    );
    assert_eq!(
        decode_all(&mut decoder, &[0x82, 0x20]),
        Err(DecoderError::InvalidMaxDynamicSize)
    );
}

#[test]
fn queued_table_size_counts_from_the_next_block() {
    let mut decoder = Decoder::new(100);
    let update = [0x3f, 0x45];
    assert_eq!(decode_all(&mut decoder, &update).unwrap(), pairs(&[]));
    let larger = [0x3f, 0x46];
    assert_eq!(
        decode_all(&mut decoder, &larger),
        Err(DecoderError::InvalidMaxDynamicSize)
    );
    decoder.queue_size_update(101);
    decoder.queue_size_update(50);
    assert_eq!(decode_all(&mut decoder, &larger).unwrap(), pairs(&[]));
}

#[test]
fn encoded_block() {
    let mut encoder = Encoder::new();
    let mut dst = BytesMut::new();
    encoder.encode(&vec![field("te", "trailers"), field("a", "")], &mut dst);
    assert_eq!(&dst[..], b"\x00\x02te\x08trailers\x00\x01a\x00");
}

#[test]
fn encoder_tells_of_table_sizes() {
    let mut encoder = Encoder::new();
    encoder.update_max_size(4096);
    assert_eq!(encoder.size_update, None);
    encoder.update_max_size(100);
    assert_eq!(encoder.size_update, Some(SizeUpdate::One(100)));
    encoder.update_max_size(200);
    assert_eq!(encoder.size_update, Some(SizeUpdate::Two(100, 200)));
    encoder.update_max_size(50);
    assert_eq!(encoder.size_update, Some(SizeUpdate::One(50)));
    encoder.update_max_size(60);
    encoder.update_max_size(70);
    assert_eq!(encoder.size_update, Some(SizeUpdate::Two(50, 70)));
    let mut dst = BytesMut::new();
    encoder.encode(&vec![], &mut dst);
    assert_eq!(&dst[..], [0x3f, 19, 0x3f, 39]);
    assert_eq!(encoder.size_update, None);
    assert_eq!(encoder.max_size, 70);
    // Of two sizes that are not smaller than the table, only the last is told.
    encoder.update_max_size(90);
    encoder.update_max_size(70);
    assert_eq!(encoder.size_update, Some(SizeUpdate::One(70)));
}

#[test]
fn blocks_come_back() {
    let mut encoder = Encoder::new();
    encoder.update_max_size(0);
    encoder.update_max_size(2048);
    let mut dst = BytesMut::new();
    let long = "x".repeat(300);
    encoder.encode(
        &vec![field(":path", "/"), field("a", "b"), field("long", &long)],
        &mut dst,
    );
    let mut decoder = Decoder::new(4096);
    assert_eq!(
        decode_all(&mut decoder, &dst).unwrap(),
        pairs(&[(":path", "/"), ("a", "b"), ("long", &long)])
    );
}

#[test]
fn pseudo_header_names() {
    assert_eq!(pseudo_name(b":method"), Some(PseudoName::Method));
    assert_eq!(pseudo_name(b":scheme"), Some(PseudoName::Scheme));
    assert_eq!(pseudo_name(b":authority"), Some(PseudoName::Authority));
    assert_eq!(pseudo_name(b":path"), Some(PseudoName::Path));
    assert_eq!(pseudo_name(b":protocol"), Some(PseudoName::Protocol));
    assert_eq!(pseudo_name(b":status"), Some(PseudoName::Status));
    assert_eq!(pseudo_name(b":methods"), None);
    assert_eq!(pseudo_name(b"method"), None);
}
