use git_starter_rust::blob::BlobType;
use git_starter_rust::digest::{digest, hex_to_id, id_to_hex};
use git_starter_rust::error::StoreError;
use git_starter_rust::frame::{decode_frame, encode_frame};

#[test]
fn frames_name_the_kind_and_the_length() {
    assert_eq!(encode_frame(BlobType::BLOB, b"hello"), b"blob 5\x00hello".to_vec());
    assert_eq!(encode_frame(BlobType::TREE, b""), b"tree 0\x00".to_vec());
    assert_eq!(encode_frame(BlobType::COMMIT, b"0123456789"), b"commit 10\x000123456789".to_vec());
    let long = vec![7u8; 12345];
    let framed = encode_frame(BlobType::BLOB, &long);
    assert_eq!(&framed[..11], b"blob 12345\x00");
    assert_eq!(framed.len(), 11 + 12345);
}

#[test]
fn decoding_a_frame_gives_kind_and_payload() {
    assert_eq!(decode_frame(b"blob 5\x00hello"), Ok((BlobType::BLOB, b"hello".to_vec())));
    assert_eq!(decode_frame(b"tree 0\x00"), Ok((BlobType::TREE, Vec::new())));
    assert_eq!(decode_frame(b"commit 3\x00a\x00b"), Ok((BlobType::COMMIT, b"a\x00b".to_vec())));
}

#[test]
fn decoding_gives_back_what_was_framed() {
    for kind in [BlobType::BLOB, BlobType::TREE, BlobType::COMMIT] {
        for payload in [&b""[..], &b"x"[..], &b"\x00\x00"[..], &b"blob 5\x00hello"[..], &[9u8; 1000][..]] {
            assert_eq!(decode_frame(&encode_frame(kind, payload)), Ok((kind, payload.to_vec())));
        }
    }
}

#[test]
fn a_declared_length_may_have_leading_zeros() {
    assert_eq!(decode_frame(b"blob 005\x00hello"), Ok((BlobType::BLOB, b"hello".to_vec())));
    assert_eq!(
        decode_frame(b"blob 000000000000000000000000000000005\x00hello"),
        Ok((BlobType::BLOB, b"hello".to_vec()))
    );
}

#[test]
fn decoding_rejects_a_malformed_header() {
    for bytes in [
        &b""[..],
        &b"blob 5"[..],
        &b"blob 5hello"[..],
        &b"\x00hello"[..],
        &b"blob\x00hello"[..],
        &b"blob \x00"[..],
        &b"blob  5\x00hello"[..],
        &b"blob 5 \x00hello"[..],
        &b"blob -5\x00hello"[..],
        &b"blob +5\x00hello"[..],
        &b"blob 5x\x00hello"[..],
        &b"Blob 5\x00hello"[..],
        &b"blobs 5\x00hello"[..],
        &b"tag 5\x00hello"[..],
        &b" blob 5\x00hello"[..],
        &b"commit5\x00hello"[..],
    ] {
        assert_eq!(decode_frame(bytes), Err(StoreError::CorruptObject));
    }
}

#[test]
fn decoding_rejects_a_wrong_length() {
    assert_eq!(decode_frame(b"blob 4\x00hello"), Err(StoreError::CorruptObject));
    assert_eq!(decode_frame(b"blob 6\x00hello"), Err(StoreError::CorruptObject));
    assert_eq!(decode_frame(b"blob 50\x00hello"), Err(StoreError::CorruptObject));
    assert_eq!(decode_frame(b"blob 0\x00hello"), Err(StoreError::CorruptObject));
    assert_eq!(
        decode_frame(b"blob 99999999999999999999999999999999999999\x00hello"),
        Err(StoreError::CorruptObject)
    );
    assert_eq!(
        decode_frame(b"blob 18446744073709551621\x00hello"),
        Err(StoreError::CorruptObject)
    );
}

#[test]
fn a_frame_cut_short_by_one_byte_is_rejected() {
    for payload in [&b""[..], &b"hello"[..]] {
        let mut framed = encode_frame(BlobType::BLOB, payload);
        framed.pop();
        assert_eq!(decode_frame(&framed), Err(StoreError::CorruptObject));
    }
}

#[test]
fn the_digest_is_sha1() {
    assert_eq!(id_to_hex(&digest(b"")), "da39a3ee5e6b4b0d3255bfef95601890afd80709");
    assert_eq!(id_to_hex(&digest(b"hello world")), "2aae6c35c94fcfb415dbe95f408b9ce91ee846ed");
    assert_eq!(id_to_hex(&digest(b"blob 5\x00hello")), "b6fc4c620b67d95f953a5c1c1230aaab5db5a1b0");
}

#[test]
fn hex_is_lowercase_and_two_characters_a_byte() {
    let mut id = [0u8; 20];
    for (i, b) in id.iter_mut().enumerate() {
        *b = (i as u8) * 13 + 1;
    }
    id[0] = 0x00;
    id[1] = 0x0f;
    id[2] = 0xf0;
    id[19] = 0xff;
    let hex = id_to_hex(&id);
    assert_eq!(hex.len(), 40);
    assert_eq!(&hex[..6], "000ff0");
    assert_eq!(&hex[38..], "ff");
    assert_eq!(hex, hex.to_lowercase());
    assert_eq!(hex_to_id(&hex), Ok(id));
}

#[test]
fn hex_reads_either_case() {
    let lower = hex_to_id("00112233445566778899aabbccddeeff01234567").unwrap();
    let upper = hex_to_id("00112233445566778899AABBCCDDEEFF01234567").unwrap();
    assert_eq!(lower, upper);
    assert_eq!(lower[0], 0x00);
    assert_eq!(lower[10], 0xaa);
    assert_eq!(lower[15], 0xff);
    assert_eq!(lower[19], 0x67);
}

#[test]
fn hex_rejects_wrong_length_and_wrong_characters() {
    assert_eq!(hex_to_id(""), Err(StoreError::InvalidIdFormat));
    assert_eq!(hex_to_id("00112233445566778899aabbccddeeff0123456"), Err(StoreError::InvalidIdFormat));
    assert_eq!(hex_to_id("00112233445566778899aabbccddeeff012345678"), Err(StoreError::InvalidIdFormat));
    assert_eq!(hex_to_id("00112233445566778899aabbccddeeff0123456g"), Err(StoreError::InvalidIdFormat));
    assert_eq!(hex_to_id("00112233445566778899aabbccddeeff0123456 "), Err(StoreError::InvalidIdFormat));
    assert_eq!(hex_to_id("0x112233445566778899aabbccddeeff01234567"), Err(StoreError::InvalidIdFormat));
    assert_eq!(hex_to_id("/0112233445566778899aabbccddeeff01234567"), Err(StoreError::InvalidIdFormat));
    assert_eq!(hex_to_id(":0112233445566778899aabbccddeeff01234567"), Err(StoreError::InvalidIdFormat));
    assert_eq!(hex_to_id("@0112233445566778899aabbccddeeff01234567"), Err(StoreError::InvalidIdFormat));
    assert_eq!(hex_to_id("G0112233445566778899aabbccddeeff01234567"), Err(StoreError::InvalidIdFormat));
    assert_eq!(hex_to_id("`0112233445566778899aabbccddeeff01234567"), Err(StoreError::InvalidIdFormat));
    assert_eq!(hex_to_id("日本語日本語日本語日本語日本語日本語日本語日本語日本語日本語日本語日本語日本語1"), Err(StoreError::InvalidIdFormat));
}
