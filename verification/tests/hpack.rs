use bytes::{Bytes, BytesMut};
use h2proxy_core::conn::ErrorCode;
use h2proxy_core::hpack::static_table;
use h2proxy_core::hpack::{
    decode_int, encode_int, lookup, Cursor, DynamicTable, Header, HpackDecoder, HpackEncoder,
    HpackError,
};

fn field(name: &str, value: &str) -> Header {
    Header::new(
        Bytes::copy_from_slice(name.as_bytes()),
        Bytes::copy_from_slice(value.as_bytes()),
    )
}

fn secret(name: &str, value: &str) -> Header {
    Header::sensitive(
        Bytes::copy_from_slice(name.as_bytes()),
        Bytes::copy_from_slice(value.as_bytes()),
    )
}

fn decode_int_of(bytes: &[u8], prefix_bits: u32) -> Result<usize, HpackError> {
    let buf = Bytes::copy_from_slice(bytes);
    let mut cur = Cursor::new(&buf);
    let first = cur.next_byte()?;
    decode_int(first, prefix_bits, &mut cur)
}

/// RFC 7541 Appendix C.1: the three worked integer examples.
#[test]
fn rfc_c1_integer_vectors() {
    // C.1.1 — 10 in a 5-bit prefix.
    assert_eq!(decode_int_of(&[0b0000_1010], 5).unwrap(), 10);
    // C.1.2 — 1337 in a 5-bit prefix.
    assert_eq!(decode_int_of(&[0b0001_1111, 0x9a, 0x0a], 5).unwrap(), 1337);
    // C.1.3 — 42 starting at an octet boundary (8-bit value, 7-bit prefix
    // is the closest this codec offers; the RFC uses a full octet).
    assert_eq!(decode_int_of(&[42], 7).unwrap(), 42);

    for (value, prefix, expected) in [
        (10usize, 5u32, vec![0b0000_1010]),
        (1337, 5, vec![0b0001_1111, 0x9a, 0x0a]),
        (42, 7, vec![42]),
    ] {
        let mut out = BytesMut::new();
        encode_int(value, prefix, 0, &mut out);
        assert_eq!(&out[..], &expected[..], "encoding {value}");
    }
}

#[test]
fn integers_round_trip_at_every_prefix_width() {
    for prefix in 4..=7u32 {
        for value in [0usize, 1, 30, 31, 127, 128, 255, 16_383, 16_384, 1 << 24] {
            let mut out = BytesMut::new();
            encode_int(value, prefix, 0, &mut out);
            assert_eq!(
                decode_int_of(&out, prefix).unwrap(),
                value,
                "{value} at prefix {prefix}"
            );
        }
    }
}

/// A continuation run that never terminates must be rejected, not looped on.
#[test]
fn rejects_unterminated_and_oversized_integers() {
    assert!(decode_int_of(&[0xff, 0x80, 0x80, 0x80], 7).is_err());
    assert!(decode_int_of(&[0xff, 0xff, 0xff, 0xff, 0xff, 0xff], 7).is_err());
}

/// RFC 7541 C.2.1: a literal header field with incremental indexing, name
/// given as a literal.
#[test]
fn rfc_c21_literal_with_indexing() {
    let block = Bytes::from_static(&[
        0x40, 0x0a, b'c', b'u', b's', b't', b'o', b'm', b'-', b'k', b'e', b'y', 0x0d, b'c',
        b'u', b's', b't', b'o', b'm', b'-', b'h', b'e', b'a', b'd', b'e', b'r',
    ]);
    let mut dec = HpackDecoder::new(4096, None);
    let headers = dec.decode(&block).expect("decode");
    assert_eq!(headers, vec![field("custom-key", "custom-header")]);
    // The field was added to the table: 10 + 13 + 32.
    assert_eq!(dec.table_entries().len(), 1);
    assert_eq!(dec.table_size(), 55);
}

/// RFC 7541 C.2.2: literal without indexing, name from the static table.
#[test]
fn rfc_c22_literal_without_indexing() {
    let block = Bytes::from_static(&[
        0x04, 0x0c, b'/', b's', b'a', b'm', b'p', b'l', b'e', b'/', b'p', b'a', b't', b'h',
    ]);
    let mut dec = HpackDecoder::new(4096, None);
    assert_eq!(
        dec.decode(&block).expect("decode"),
        vec![field(":path", "/sample/path")]
    );
    assert_eq!(dec.table_entries().len(), 0, "this representation must not index");
}

/// RFC 7541 C.2.3: never-indexed, which is what marks a field sensitive.
#[test]
fn rfc_c23_never_indexed_marks_sensitive() {
    let block = Bytes::from_static(&[
        0x10, 0x08, b'p', b'a', b's', b's', b'w', b'o', b'r', b'd', 0x06, b's', b'e', b'c',
        b'r', b'e', b't',
    ]);
    let mut dec = HpackDecoder::new(4096, None);
    let headers = dec.decode(&block).expect("decode");
    assert_eq!(headers, vec![secret("password", "secret")]);
    assert!(headers[0].sensitive);
    assert_eq!(dec.table_entries().len(), 0, "a sensitive field must not be indexed");
}

/// RFC 7541 C.2.4: an indexed field, the one-octet case.
#[test]
fn rfc_c24_indexed_field() {
    let block = Bytes::from_static(&[0x82]);
    let mut dec = HpackDecoder::new(4096, None);
    assert_eq!(
        dec.decode(&block).expect("decode"),
        vec![field(":method", "GET")]
    );
}

#[test]
fn static_table_matches_the_rfc_at_its_edges() {
    assert_eq!(static_table::LEN, 61);
    assert_eq!(lookup(&DynamicTable::new(0), 1).unwrap().0, ":authority");
    assert_eq!(lookup(&DynamicTable::new(0), 8).unwrap().1, "200");
    assert_eq!(
        lookup(&DynamicTable::new(0), 16).unwrap(),
        (
            Bytes::from_static(b"accept-encoding"),
            Bytes::from_static(b"gzip, deflate")
        )
    );
    assert_eq!(
        lookup(&DynamicTable::new(0), 61).unwrap().0,
        "www-authenticate"
    );
}

#[test]
fn index_zero_and_out_of_range_indices_are_errors() {
    let table = DynamicTable::new(4096);
    assert!(lookup(&table, 0).is_err());
    assert!(lookup(&table, 62).is_err(), "the dynamic table is empty");
    assert!(lookup(&table, usize::MAX).is_err());
}

#[test]
fn dynamic_table_evicts_oldest_first() {
    // Two entries of 32 + 1 + 1 = 34 octets each fit; a third evicts the
    // first.
    let mut table = DynamicTable::new(70);
    table.insert(Bytes::from_static(b"a"), Bytes::from_static(b"1"));
    table.insert(Bytes::from_static(b"b"), Bytes::from_static(b"2"));
    assert_eq!(table.len(), 2);
    assert_eq!(table.size, 68);

    table.insert(Bytes::from_static(b"c"), Bytes::from_static(b"3"));
    assert_eq!(table.len(), 2);
    assert_eq!(table.get(0).unwrap().0, "c", "newest is index 0");
    assert_eq!(table.get(1).unwrap().0, "b");
}

/// §4.4: an entry too big for the table empties it and is dropped — an
/// awkward case that must not be an error, or the peers would disagree.
#[test]
fn entry_larger_than_the_table_empties_it() {
    let mut table = DynamicTable::new(64);
    table.insert(Bytes::from_static(b"a"), Bytes::from_static(b"1"));
    assert_eq!(table.len(), 1);

    table.insert(Bytes::from_static(b"big"), Bytes::from(vec![b'x'; 100]));
    assert_eq!(table.len(), 0);
    assert_eq!(table.size, 0);
}

#[test]
fn size_update_shrinks_the_table_and_must_come_first() {
    // Two entries, then a size update to 0, which evicts both.
    let mut dec = HpackDecoder::new(4096, None);
    let mut enc = HpackEncoder::new(4096);
    let mut block = BytesMut::new();
    enc.encode(&[field("a", "1"), field("b", "2")], &mut block);
    dec.decode(&block.split().freeze()).expect("decode");
    assert_eq!(dec.table_entries().len(), 2);

    dec.decode(&Bytes::from_static(&[0x20])).expect("size 0");
    assert_eq!(dec.table_entries().len(), 0, "a size update to 0 empties the table");

    // The same update *after* a field is a protocol violation (§4.3.1).
    let mut dec = HpackDecoder::new(4096, None);
    let err = dec
        .decode(&Bytes::from_static(&[0x82, 0x20]))
        .expect_err("size update after a field");
    assert!(matches!(err, HpackError::Compression(_)), "{err:?}");
}

#[test]
fn size_update_above_the_advertised_maximum_is_rejected() {
    let mut dec = HpackDecoder::new(256, None);
    // 0x3f 0xe1 0x1f = size update to 4096.
    let err = dec
        .decode(&Bytes::from_static(&[0x3f, 0xe1, 0x1f]))
        .expect_err("update past the advertised capacity");
    assert!(matches!(err, HpackError::Compression(_)), "{err:?}");
}

#[test]
fn truncated_blocks_are_errors_not_panics() {
    let mut dec = HpackDecoder::new(4096, None);
    for block in [
        &[0x40][..],             // literal, no name
        &[0x40, 0x05, b'a'][..], // name length past the end
        &[0x00, 0x00][..],       // name, then no value
        &[0xff][..],             // an index whose continuation is missing
    ] {
        assert!(
            dec.decode(&Bytes::copy_from_slice(block)).is_err(),
            "{block:02x?} should not decode"
        );
    }
}

/// The bomb guard: the list is capped, but the block is still decoded to
/// the end so the table keeps tracking the peer's.
#[test]
fn oversized_header_list_is_rejected_but_leaves_the_table_in_step() {
    let mut enc = HpackEncoder::new(4096);
    let headers = [
        field("a", &"x".repeat(100)),
        field("b", &"y".repeat(100)),
    ];
    let mut block = BytesMut::new();
    enc.encode(&headers, &mut block);

    let mut dec = HpackDecoder::new(4096, Some(150));
    let err = dec.decode(&block.freeze()).expect_err("over the limit");
    match err {
        HpackError::HeaderListTooLarge { size, limit } => {
            assert_eq!(limit, 150);
            assert_eq!(size, 133 + 133);
        }
        other => panic!("expected HeaderListTooLarge, got {other:?}"),
    }
    // Both fields were still indexed, so a later block that references them
    // decodes correctly.
    assert_eq!(dec.table_entries().len(), 2);
    assert_eq!(dec.table_entries()[0].0, "b");
}

#[test]
fn encoder_indexes_a_repeated_field_on_the_second_use() {
    let mut enc = HpackEncoder::new(4096);
    let headers = [field("custom", "value")];

    let mut first = BytesMut::new();
    enc.encode(&headers, &mut first);
    let mut second = BytesMut::new();
    enc.encode(&headers, &mut second);

    assert!(first.len() > second.len(), "the second use must be indexed");
    assert_eq!(&second[..], &[0xbe], "dynamic index 62");
}

#[test]
fn encoder_never_indexes_a_sensitive_field() {
    let mut enc = HpackEncoder::new(4096);
    let headers = [secret("authorization", "Bearer hunter2")];

    let mut first = BytesMut::new();
    enc.encode(&headers, &mut first);
    let mut second = BytesMut::new();
    enc.encode(&headers, &mut second);

    assert_eq!(first, second, "a sensitive field is never indexed");
    assert_eq!(first[0] & 0xf0, 0x10, "never-indexed representation");

    let mut dec = HpackDecoder::new(4096, None);
    let decoded = dec.decode(&first.freeze()).expect("decode");
    assert!(decoded[0].sensitive, "sensitivity survives the round trip");
    assert_eq!(dec.table_entries().len(), 0);
}

/// A size update crossing the wire must leave both tables agreeing.
#[test]
fn encoder_announces_a_table_resize() {
    let mut enc = HpackEncoder::new(4096);
    let mut dec = HpackDecoder::new(4096, None);

    let mut block = BytesMut::new();
    enc.encode(&[field("a", "1")], &mut block);
    dec.decode(&block.split().freeze()).expect("decode");
    assert_eq!(dec.table_entries().len(), 1);

    enc.set_max_table_size(0);
    enc.encode(&[field("b", "2")], &mut block);
    assert_eq!(block[0] & 0xe0, 0x20, "the block opens with a size update");
    dec.decode(&block.freeze()).expect("decode");
    assert_eq!(dec.table_entries().len(), 0, "both tables were emptied");
}

#[test]
fn blocks_round_trip_and_shrink_as_the_tables_fill() {
    let mut enc = HpackEncoder::new(4096);
    let mut dec = HpackDecoder::new(4096, None);
    let headers = [
        field(":method", "GET"),
        field(":path", "/index.html"),
        field("x-trace", "abc-123"),
        secret("authorization", "Bearer hunter2"),
        field("", ""),
    ];
    let mut sizes = Vec::new();
    for _ in 0..3 {
        let mut block = BytesMut::new();
        enc.encode(&headers, &mut block);
        sizes.push(block.len());
        let got = dec.decode(&block.freeze()).expect("decode");
        assert_eq!(&got[..], &headers[..]);
        assert_eq!(enc.table_size(), dec.table_size());
    }
    assert!(sizes[0] > sizes[1]);
    assert_eq!(sizes[1], sizes[2]);
}

#[test]
fn strings_are_sent_plain_when_the_code_is_off() {
    let mut enc = HpackEncoder::new(4096);
    enc.set_huffman(false);
    let mut block = BytesMut::new();
    enc.encode(&[field("x", "abc")], &mut block);
    assert_eq!(&block[..], b"\x40\x01x\x03abc");

    let mut enc = HpackEncoder::new(4096);
    let mut coded = BytesMut::new();
    enc.encode(&[field("x", "aaaaaaaa")], &mut coded);
    // Eight five-bit codes: five octets, announced with the high bit.
    assert_eq!(coded[3], 0x85);
}

#[test]
fn a_shrunken_table_is_announced_before_it_is_used() {
    let mut enc = HpackEncoder::new(4096);
    enc.set_max_table_size(100);
    let mut block = BytesMut::new();
    enc.encode(&[field("a", "1")], &mut block);
    // 100 in a five-bit prefix: 31, then 69.
    assert_eq!(&block[..2], &[0x3f, 69]);
    let mut dec = HpackDecoder::new(4096, None);
    assert_eq!(
        dec.decode(&block.freeze()).expect("decode"),
        vec![field("a", "1")]
    );
    assert_eq!(enc.table_size(), 34);
    assert_eq!(dec.table_size(), 34);
}

#[test]
fn a_compression_failure_ends_the_connection_and_says_why() {
    let mut dec = HpackDecoder::new(4096, Some(10));
    let err = dec.decode(&Bytes::from_static(&[0xbe])).expect_err("no entry");
    assert_eq!(
        err.message(),
        "HPACK compression error: index 62 is past the end of the dynamic table (0 entries)"
    );
    let err = err.into_connection_error();
    assert_eq!(err.code, ErrorCode::CompressionError);

    let err = dec.decode(&Bytes::from_static(&[0x82])).expect_err("42 octets");
    assert!(matches!(
        err,
        HpackError::HeaderListTooLarge { size: 42, limit: 10 }
    ));
    assert_eq!(err.into_connection_error().code, ErrorCode::EnhanceYourCalm);
}

#[test]
fn a_cursor_hands_out_a_block_piece_by_piece() {
    let block = Bytes::from_static(b"abcdef");
    let mut cur = Cursor::new(&block);
    assert_eq!(cur.next_byte().expect("first"), b'a');
    assert_eq!(&cur.take(3).expect("three")[..], b"bcd");
    assert!(cur.take(3).is_err());
    assert_eq!(&cur.take(2).expect("the rest")[..], b"ef");
    assert!(cur.is_empty());
    assert!(cur.next_byte().is_err());
}

// ---- the RFC's worked sequences ------------------------------------------------

fn octets(hex: &str) -> Bytes {
    let digits: Vec<u8> = hex
        .bytes()
        .filter(|b| !b.is_ascii_whitespace())
        .map(|b| (b as char).to_digit(16).expect("a hex digit") as u8)
        .collect();
    digits.chunks(2).map(|p| p[0] * 16 + p[1]).collect::<Vec<u8>>().into()
}

/// The three requests of C.3 and C.4.
fn requests() -> [Vec<Header>; 3] {
    [
        vec![
            field(":method", "GET"),
            field(":scheme", "http"),
            field(":path", "/"),
            field(":authority", "www.example.com"),
        ],
        vec![
            field(":method", "GET"),
            field(":scheme", "http"),
            field(":path", "/"),
            field(":authority", "www.example.com"),
            field("cache-control", "no-cache"),
        ],
        vec![
            field(":method", "GET"),
            field(":scheme", "https"),
            field(":path", "/index.html"),
            field(":authority", "www.example.com"),
            field("custom-key", "custom-value"),
        ],
    ]
}

/// The three responses of C.5 and C.6.
fn responses() -> [Vec<Header>; 3] {
    let date = "Mon, 21 Oct 2013 20:13:21 GMT";
    let url = "https://www.example.com";
    [
        vec![
            field(":status", "302"),
            field("cache-control", "private"),
            field("date", date),
            field("location", url),
        ],
        vec![
            field(":status", "307"),
            field("cache-control", "private"),
            field("date", date),
            field("location", url),
        ],
        vec![
            field(":status", "200"),
            field("cache-control", "private"),
            field("date", "Mon, 21 Oct 2013 20:13:22 GMT"),
            field("location", url),
            field("content-encoding", "gzip"),
            field(
                "set-cookie",
                "foo=ASDJKHQKBZXOQWEOPIUAXQWEOIU; max-age=3600; version=1",
            ),
        ],
    ]
}

/// Encodes a sequence of lists, compares each block with the RFC's octets, and
/// decodes the RFC's octets back; the tables must agree with the RFC's sizes.
fn sequence(
    table: usize,
    huffman: bool,
    lists: [Vec<Header>; 3],
    blocks: [&str; 3],
    sizes: [usize; 3],
) {
    let mut enc = HpackEncoder::new(table);
    enc.set_huffman(huffman);
    let mut dec = HpackDecoder::new(table, None);
    for i in 0..3 {
        let expected = octets(blocks[i]);
        let mut out = BytesMut::new();
        enc.encode(&lists[i], &mut out);
        assert_eq!(&out[..], &expected[..], "block {i}");
        assert_eq!(dec.decode(&expected).expect("decode"), lists[i], "list {i}");
        assert_eq!(dec.table_size(), sizes[i], "decoder table after {i}");
        assert_eq!(enc.table_size(), sizes[i], "encoder table after {i}");
    }
}

#[test]
fn rfc_c3_requests_without_huffman() {
    sequence(
        4096,
        false,
        requests(),
        [
            "828684410f7777772e6578616d706c652e636f6d",
            "828684be58086e6f2d6361636865",
            "828785bf400a637573746f6d2d6b65790c637573746f6d2d76616c7565",
        ],
        [57, 110, 164],
    );
}

#[test]
fn rfc_c4_requests_with_huffman() {
    sequence(
        4096,
        true,
        requests(),
        [
            "828684418cf1e3c2e5f23a6ba0ab90f4ff",
            "828684be5886a8eb10649cbf",
            "828785bf408825a849e95ba97d7f8925a849e95bb8e8b4bf",
        ],
        [57, 110, 164],
    );
}

#[test]
fn rfc_c5_responses_without_huffman_evict() {
    sequence(
        256,
        false,
        responses(),
        [
            "4803333032580770726976617465611d4d6f6e2c203231204f63742032303133\
             2032303a31333a323120474d546e1768747470733a2f2f7777772e6578616d70\
             6c652e636f6d",
            "4803333037c1c0bf",
            "88c1611d4d6f6e2c203231204f637420323031332032303a31333a323220474d\
             54c05a04677a69707738666f6f3d4153444a4b48514b425a584f5157454f5049\
             5541585157454f49553b206d61782d6167653d333630303b2076657273696f6e\
             3d31",
        ],
        [222, 222, 215],
    );
}

#[test]
fn rfc_c6_responses_with_huffman_evict() {
    sequence(
        256,
        true,
        responses(),
        [
            "488264025885aec3771a4b6196d07abe941054d444a8200595040b8166e082a6\
             2d1bff6e919d29ad171863c78f0b97c8e9ae82ae43d3",
            "4883640effc1c0bf",
            "88c16196d07abe941054d444a8200595040b8166e084a62d1bffc05a839bd9ab\
             77ad94e7821dd7f2e6c7b335dfdfcd5b3960d5af27087f3672c1ab270fb5291f\
             9587316065c003ed4ee5b1063d5007",
        ],
        [222, 222, 215],
    );
}

#[test]
fn a_bad_index_condemns_the_block_but_not_what_follows_it() {
    let mut dec = HpackDecoder::new(4096, None);
    // Index 62 of an empty table, then a literal with indexing.
    let err = dec
        .decode(&Bytes::from_static(&[0xbe, 0x40, 0x01, 0x61, 0x01, 0x31]))
        .expect_err("an index past the table");
    assert!(matches!(&err, HpackError::Compression(why) if why.contains("index 62")), "{err:?}");
    let entries = dec.table_entries();
    assert_eq!(entries.len(), 1);
    assert_eq!((&entries[0].0[..], &entries[0].1[..]), (&b"a"[..], &b"1"[..]));
    assert_eq!(dec.table_size(), 34);
}

#[test]
fn every_fault_that_can_be_read_past_is_read_past() {
    let literal = [0x40, 0x01, 0x61, 0x01, 0x31];
    for (fault, why) in [
        (&[0x80][..], "index 0"),
        // A literal whose name is index 62, with a value.
        (&[0x7e, 0x01, 0x7a], "index 62"),
        // A size update behind a field.
        (&[0x82, 0x20], "after a header field"),
        // A size update above the capacity.
        (&[0x3f, 0xe2, 0x1f], "exceeds the advertised maximum"),
        // A string that is not Huffman-coded, though it says so.
        (&[0x00, 0x01, 0x62, 0x84, 0xff, 0xff, 0xff, 0xff], ""),
    ] {
        let mut dec = HpackDecoder::new(4096, None);
        let mut block = fault.to_vec();
        block.extend_from_slice(&literal);
        // The first of two faults is the one reported.
        block.push(0x80);
        match dec.decode(&Bytes::from(block)) {
            Err(HpackError::Compression(text)) => {
                assert!(text.contains(why), "{fault:02x?}: {text}")
            }
            other => panic!("{fault:02x?}: {other:?}"),
        }
        assert_eq!(dec.table_entries().len(), 1, "{fault:02x?}");
        assert_eq!(dec.table_size(), 34, "{fault:02x?}");
    }
}

#[test]
fn octets_that_cannot_be_parsed_end_a_block() {
    let mut dec = HpackDecoder::new(4096, None);
    // A literal, then a string that runs past the end.
    let err = dec
        .decode(&Bytes::from_static(&[0x40, 0x01, 0x61, 0x01, 0x31, 0x40, 0x7f, 0x01]))
        .expect_err("truncated");
    assert!(matches!(err, HpackError::Compression(_)), "{err:?}");
    assert_eq!(dec.table_entries().len(), 1, "what came before is applied");
}

#[test]
fn a_bound_lowered_and_raised_again_empties_both_tables() {
    let mut enc = HpackEncoder::new(4096);
    let mut dec = HpackDecoder::new(4096, None);
    let mut block = BytesMut::new();
    enc.encode(&[field("a", &"x".repeat(100))], &mut block);
    dec.decode(&block.split().freeze()).expect("decode");
    assert_eq!((enc.table_size(), dec.table_size()), (133, 133));

    enc.set_max_table_size(0);
    enc.set_max_table_size(4096);
    enc.encode(&[], &mut block);
    // A size update to 0, then one to 4096.
    assert_eq!(&block[..], &[0x20, 0x3f, 0xe1, 0x1f]);
    assert_eq!(dec.decode(&block.split().freeze()).expect("decode"), vec![]);
    assert_eq!((enc.table_size(), dec.table_size()), (0, 0));
}

#[test]
fn the_tables_agree_through_any_mix_of_lists_and_bounds() {
    let mut enc = HpackEncoder::new(4096);
    let mut dec = HpackDecoder::new(4096, None);
    let lists = [
        vec![field("a", &"x".repeat(60)), field("b", "2")],
        vec![],
        vec![secret("cookie", "k"), field("a", &"x".repeat(60))],
        vec![field("c", &"y".repeat(500)), field("b", "2")],
    ];
    let bounds = [4096, 100, 4096, 0, 50, 3000, 3000, 64, 4096, 128];
    let mut at = 0;
    for round in 0..60 {
        for _ in 0..round % 4 {
            enc.set_max_table_size(bounds[at % bounds.len()]);
            at += 1;
        }
        let list = &lists[round % lists.len()];
        let mut block = BytesMut::new();
        enc.encode(list, &mut block);
        let got = dec.decode(&block.freeze()).expect("decode");
        assert_eq!(&got, list, "round {round}");
        assert_eq!(enc.table_size(), dec.table_size(), "round {round}");
        assert!(
            dec.table_entries().iter().all(|e| &e.0[..] != b"cookie"),
            "a sensitive field is stored nowhere"
        );
    }
}
