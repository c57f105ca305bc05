use hex_conservative::{DisplayHex, HexSliceToBytesIter};
use script_asm::try_parse_raw_hex;

#[test]
fn decodes_even_hex_words() {
    let mut buf: Vec<u8> = Vec::new();
    assert!(try_parse_raw_hex("00ff10", &mut buf));
    assert_eq!(buf, vec![0x00, 0xff, 0x10]);

    assert!(try_parse_raw_hex("DEADBEEF", &mut buf));
    assert_eq!(buf, vec![0xde, 0xad, 0xbe, 0xef]);

    assert!(try_parse_raw_hex("DeAdBeEf", &mut buf));
    assert_eq!(buf, vec![0xde, 0xad, 0xbe, 0xef]);

    assert!(try_parse_raw_hex("0123456789abcdefABCDEF", &mut buf));
    assert_eq!(
        buf,
        vec![0x01, 0x23, 0x45, 0x67, 0x89, 0xab, 0xcd, 0xef, 0xab, 0xcd, 0xef]
    );
    assert_eq!(buf.len(), "0123456789abcdefABCDEF".len() / 2);
}

#[test]
fn rejects_odd_and_non_hex() {
    let mut buf: Vec<u8> = Vec::new();
    assert!(!try_parse_raw_hex("abc", &mut buf));
    assert!(!try_parse_raw_hex("0g", &mut buf));
    assert!(!try_parse_raw_hex("zz", &mut buf));
    assert!(!try_parse_raw_hex("12 4", &mut buf));

    // A subsequent valid decode clears the buffer and repopulates it: no
    // leakage across calls.
    assert!(try_parse_raw_hex("0102", &mut buf));
    assert_eq!(buf, vec![0x01, 0x02]);
}

#[test]
fn empty_word_decodes_to_empty() {
    let mut buf: Vec<u8> = vec![9, 9, 9];
    assert!(try_parse_raw_hex("", &mut buf));
    assert!(buf.is_empty());
}

#[test]
fn round_trip_reencode() {
    for word in ["deadbeef00ff", "DEADBEEF00FF", "DeAdBeEf", "0102030405"] {
        let mut buf: Vec<u8> = Vec::new();
        assert!(try_parse_raw_hex(word, &mut buf));
        let reencoded = buf.as_slice().to_lower_hex_string();
        assert_eq!(reencoded, word.to_lowercase());

        let mut again: Vec<u8> = Vec::new();
        assert!(try_parse_raw_hex(&reencoded, &mut again));
        assert_eq!(again, buf);
    }
}

#[test]
fn matches_reference_decoder() {
    let words = [
        "", "00", "ff", "deadbeef", "DEADBEEF", "abc", "0g", "g0", "zz", "0102030405060708",
    ];
    for word in words {
        let mut buf: Vec<u8> = Vec::new();
        let ours = try_parse_raw_hex(word, &mut buf);
        let reference: Option<Vec<u8>> = match HexSliceToBytesIter::new(word) {
            Ok(iter) => iter.collect::<Result<Vec<u8>, _>>().ok(),
            Err(_) => None,
        };
        match reference {
            Some(bytes) => {
                assert!(ours, "word: {:?}", word);
                assert_eq!(buf, bytes, "word: {:?}", word);
            }
            None => assert!(!ours, "word: {:?}", word),
        }
    }
}
