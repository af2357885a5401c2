use bytes::{BufMut, BytesMut};
use h2proxy_core::hpack::huffman::{decode, encode, encoded_len, DecodeTable, CODES};
use h2proxy_core::hpack::HpackError;

/// A table with a slip in it would still look like one: the code must be a *complete* prefix code, or some bit string would decode to nothing.
#[test]
fn code_table_is_a_complete_prefix_code() {
    // Kraft sum, scaled by 2^30 (the longest code) to stay in integers.
    let total: u64 = CODES
        .iter()
        .map(|&(_, len)| 1u64 << (30 - u32::from(len)))
        .sum();
    assert_eq!(total, 1 << 30, "the Huffman code is not complete");

    for (i, &(c1, l1)) in CODES.iter().enumerate() {
        for (j, &(c2, l2)) in CODES.iter().enumerate() {
            if i != j && l1 <= l2 {
                assert_ne!(c2 >> (l2 - l1), c1, "code {i} is a prefix of code {j}");
            }
        }
    }
}

/// The RFC's own worked example (Appendix B): '/' is the six bits 011000.
#[test]
fn rfc_worked_example() {
    assert_eq!(CODES[b'/' as usize], (0x18, 6));
}

#[test]
fn every_symbol_round_trips() {
    for byte in 0u8..=255 {
        let mut out = BytesMut::new();
        encode(&[byte], &mut out);
        assert_eq!(out.len(), encoded_len(&[byte]), "symbol {byte}");
        assert_eq!(decode(&out).expect("decode"), vec![byte], "symbol {byte}");
    }
}

#[test]
fn decodes_the_rfc_string_vectors() {
    // C.4.1: "www.example.com", and C.6.1: "Mon, 21 Oct 2013 20:13:21 GMT".
    let cases: [(&str, &[u8]); 2] = [
        (
            "www.example.com",
            &[
                0xf1, 0xe3, 0xc2, 0xe5, 0xf2, 0x3a, 0x6b, 0xa0, 0xab, 0x90, 0xf4, 0xff,
            ],
        ),
        (
            "Mon, 21 Oct 2013 20:13:21 GMT",
            &[
                0xd0, 0x7a, 0xbe, 0x94, 0x10, 0x54, 0xd4, 0x44, 0xa8, 0x20, 0x05, 0x95, 0x04,
                0x0b, 0x81, 0x66, 0xe0, 0x82, 0xa6, 0x2d, 0x1b, 0xff,
            ],
        ),
    ];
    for (text, coded) in cases {
        let mut out = BytesMut::new();
        encode(text.as_bytes(), &mut out);
        assert_eq!(&out[..], coded, "encoding {text:?}");
        assert_eq!(decode(coded).expect("decode"), text.as_bytes(), "{text:?}");
    }
}

#[test]
fn rejects_the_eos_symbol() {
    // The EOS code is thirty 1-bits; pad to four octets with more ones so
    // the symbol itself is complete rather than being read as padding.
    let eos = [0xff, 0xff, 0xff, 0xff];
    let err = decode(&eos).expect_err("EOS in a string must be rejected");
    assert!(matches!(err, HpackError::Compression(_)), "{err:?}");
}

#[test]
fn rejects_overlong_padding() {
    // 'a' is five bits (00011), leaving three bits in the octet; a whole
    // extra octet of padding after it is more than the 7 bits allowed.
    let mut out = BytesMut::new();
    encode(b"a", &mut out);
    out.put_u8(0xff);
    let err = decode(&out).expect_err("padding longer than 7 bits");
    assert!(matches!(err, HpackError::Compression(_)), "{err:?}");
}

#[test]
fn rejects_padding_that_is_not_the_eos_prefix() {
    // '0' is the five bits 00000. Pad with zeroes instead of ones.
    let coded = [0b0000_0000u8];
    let err = decode(&coded).expect_err("padding must be all ones");
    assert!(matches!(err, HpackError::Compression(_)), "{err:?}");
}

#[test]
fn empty_string_round_trips() {
    let mut out = BytesMut::new();
    encode(b"", &mut out);
    assert!(out.is_empty());
    assert!(decode(b"").expect("decode empty").is_empty());
}

#[test]
fn a_table_is_built_once_and_serves_many_strings() {
    let table = DecodeTable::build();
    for text in ["", "a", "no-cache", "https://www.example.com", "\u{fe}\u{7f}"] {
        let mut out = BytesMut::new();
        encode(text.as_bytes(), &mut out);
        assert_eq!(table.decode(&out).expect("decode"), text.as_bytes());
    }
}

#[test]
fn the_whole_alphabet_round_trips_in_one_string() {
    let all: Vec<u8> = (0u8..=255).collect();
    let mut out = BytesMut::new();
    encode(&all, &mut out);
    assert_eq!(out.len(), encoded_len(&all));
    assert_eq!(decode(&out).expect("decode"), all);
}
