//! Copying to the clipboard.
use herdr_scratchpad::clipboard::{
    base64, check, copy, osc52_sequence, Clip, CopyError, MAX_CLIPBOARD_BYTES,
};

#[test]
fn base64_matches_known_vectors() {
    assert_eq!(base64(b""), "");
    assert_eq!(base64(b"f"), "Zg==");
    assert_eq!(base64(b"fo"), "Zm8=");
    assert_eq!(base64(b"foo"), "Zm9v");
    assert_eq!(base64(b"foob"), "Zm9vYg==");
    assert_eq!(base64(b"fooba"), "Zm9vYmE=");
    assert_eq!(base64(b"foobar"), "Zm9vYmFy");
}

#[test]
fn base64_handles_non_utf8_and_high_bytes() {
    assert_eq!(base64(&[0xff, 0xfe, 0xfd]), "//79");
    assert_eq!(base64(&[0x00, 0x00, 0x00]), "AAAA");
}

#[test]
fn sequence_matches_herdr_own_test_vector() {
    assert_eq!(osc52_sequence(b"hello"), "\x1b]52;c;aGVsbG8=\x07");
}

#[test]
fn empty_is_refused_because_herdr_rejects_empty_payloads() {
    assert_eq!(check(""), Err(CopyError::Empty));
}

#[test]
fn limit_is_inclusive() {
    let exact = "x".repeat(MAX_CLIPBOARD_BYTES);
    assert_eq!(check(&exact), Ok(()));

    let over = "x".repeat(MAX_CLIPBOARD_BYTES + 1);
    assert_eq!(
        check(&over),
        Err(CopyError::TooLarge {
            len: MAX_CLIPBOARD_BYTES + 1
        })
    );
}

#[test]
fn limit_counts_bytes_not_chars() {
    let text = "é".repeat(MAX_CLIPBOARD_BYTES / 2 + 1);
    assert!(matches!(check(&text), Err(CopyError::TooLarge { .. })));
}

#[test]
fn every_symbol_has_its_place() {
    let bytes: Vec<u8> = vec![
        0x00, 0x10, 0x83, 0x10, 0x51, 0x87, 0x20, 0x92, 0x8b, 0x30, 0xd3, 0x8f, 0x41, 0x14, 0x93,
        0x51, 0x55, 0x97, 0x61, 0x96, 0x9b, 0x71, 0xd7, 0x9f, 0x82, 0x18, 0xa3, 0x92, 0x59, 0xa7,
        0xa2, 0x9a, 0xab, 0xb2, 0xdb, 0xaf, 0xc3, 0x1c, 0xb3, 0xd3, 0x5d, 0xb7, 0xe3, 0x9e, 0xbb,
        0xf3, 0xdf, 0xbf,
    ];
    assert_eq!(
        base64(&bytes),
        "ABCDEFGHIJKLMNOPQRSTUVWXYZabcdefghijklmnopqrstuvwxyz0123456789+/"
    );
}

#[test]
fn four_symbols_for_each_three_bytes() {
    for n in 0..20usize {
        assert_eq!(base64(&vec![0xa5; n]).len(), (n + 2) / 3 * 4);
    }
}

#[test]
fn a_copy_carries_the_whole_text() {
    assert_eq!(
        copy("é"),
        Ok(Clip { sequence: "\x1b]52;c;w6k=\x07".to_owned(), len: 2 })
    );
}

#[test]
fn a_copy_is_refused_for_the_same_reasons_as_the_check() {
    assert_eq!(copy(""), Err(CopyError::Empty));
    let over = "x".repeat(MAX_CLIPBOARD_BYTES + 1);
    assert_eq!(copy(&over), Err(CopyError::TooLarge { len: MAX_CLIPBOARD_BYTES + 1 }));
}
