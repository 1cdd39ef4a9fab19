use git_starter_rust::blob::{
    get_path, hash_object, is_hidden_name, read_blob, Blob, BlobType, ObjectFile,
};
use git_starter_rust::bytes::is_before;
use git_starter_rust::digest::{digest, path_of_id};
use git_starter_rust::compress::{compress, decompress};
use git_starter_rust::error::StoreError;

#[test]
fn hello_blob_has_the_well_known_frame_and_id() {
    let blob = Blob::new_blob_from_data(b"hello".to_vec(), BlobType::BLOB);
    assert_eq!(blob.content().to_vec(), b"blob 5\x00hello".to_vec());
    assert_eq!(blob.blob_type(), BlobType::BLOB);
    assert_eq!(blob.get_sha_string(), "b6fc4c620b67d95f953a5c1c1230aaab5db5a1b0");
}

#[test]
fn empty_blob_has_the_well_known_id() {
    let blob = hash_object(Vec::new());
    assert_eq!(blob.content().to_vec(), b"blob 0\x00".to_vec());
    assert_eq!(blob.get_sha_string(), "e69de29bb2d1d6434b8b29ae775ad8c2e48c5391");
}

#[test]
fn equal_contents_give_equal_ids_and_one_path() {
    let first = hash_object(b"hello\n".to_vec());
    let second = hash_object(b"hello\n".to_vec());
    assert_eq!(first.sha_val(), second.sha_val());
    assert_eq!(first.get_sha_string(), "ce013625030ba8dba906f756967f9e9ca394464a");
    assert_eq!(first.write_blob().path, second.write_blob().path);
    let other = hash_object(b"hello".to_vec());
    assert_ne!(first.sha_val(), other.sha_val());
    assert_ne!(first.write_blob().path, other.write_blob().path);
}

#[test]
fn an_object_is_written_below_a_two_character_directory() {
    let blob = hash_object(b"hello".to_vec());
    let file = blob.write_blob();
    assert_eq!(file.path, "objects/b6/fc4c620b67d95f953a5c1c1230aaab5db5a1b0");
    assert_eq!(decompress(&file.bytes), Ok(b"blob 5\x00hello".to_vec()));
}

#[test]
fn get_path_splits_the_id_after_two_characters() {
    assert_eq!(
        get_path("b6fc4c620b67d95f953a5c1c1230aaab5db5a1b0"),
        Ok(String::from("objects/b6/fc4c620b67d95f953a5c1c1230aaab5db5a1b0"))
    );
    assert_eq!(
        get_path("B6FC4C620B67D95F953A5C1C1230AAAB5DB5A1B0"),
        Ok(String::from("objects/b6/fc4c620b67d95f953a5c1c1230aaab5db5a1b0"))
    );
}

#[test]
fn get_path_rejects_what_is_not_an_id() {
    assert_eq!(get_path(""), Err(StoreError::InvalidIdFormat));
    assert_eq!(get_path("b6"), Err(StoreError::InvalidIdFormat));
    assert_eq!(
        get_path("b6fc4c620b67d95f953a5c1c1230aaab5db5a1b"),
        Err(StoreError::InvalidIdFormat)
    );
    assert_eq!(
        get_path("b6fc4c620b67d95f953a5c1c1230aaab5db5a1b0a"),
        Err(StoreError::InvalidIdFormat)
    );
    assert_eq!(
        get_path("g6fc4c620b67d95f953a5c1c1230aaab5db5a1b0"),
        Err(StoreError::InvalidIdFormat)
    );
    assert_eq!(
        get_path("é6fc4c620b67d95f953a5c1c1230aaab5db5a1b"),
        Err(StoreError::InvalidIdFormat)
    );
}

#[test]
fn a_stored_blob_reads_back() {
    let blob = hash_object(b"hello".to_vec());
    let file = blob.write_blob();
    assert_eq!(read_blob(ObjectFile::Present(file.bytes)), Ok(b"hello".to_vec()));
}

#[test]
fn a_stored_object_loads_with_its_kind_and_id() {
    let blob = Blob::new_blob_from_data(b"some text".to_vec(), BlobType::COMMIT);
    let file = blob.write_blob();
    let loaded = Blob::new_blob_from_blob_file(ObjectFile::Present(file.bytes)).unwrap();
    assert_eq!(loaded.blob_type(), BlobType::COMMIT);
    assert_eq!(loaded.sha_val(), blob.sha_val());
    assert_eq!(loaded.content(), blob.content());
}

#[test]
fn reading_reports_an_absent_file() {
    assert_eq!(read_blob(ObjectFile::Absent), Err(StoreError::ObjectNotFound));
    assert!(matches!(
        Blob::new_blob_from_blob_file(ObjectFile::Absent),
        Err(StoreError::ObjectNotFound)
    ));
}

#[test]
fn reading_reports_an_unreadable_file() {
    assert_eq!(read_blob(ObjectFile::Unreadable), Err(StoreError::IoFailure));
}

#[test]
fn reading_rejects_bytes_that_are_no_zlib_stream() {
    assert_eq!(
        read_blob(ObjectFile::Present(b"blob 5\x00hello".to_vec())),
        Err(StoreError::CorruptObject)
    );
    assert_eq!(read_blob(ObjectFile::Present(Vec::new())), Err(StoreError::CorruptObject));
}

#[test]
fn reading_rejects_a_stream_that_holds_no_frame() {
    assert_eq!(
        read_blob(ObjectFile::Present(compress(b"hello"))),
        Err(StoreError::CorruptObject)
    );
    assert_eq!(
        read_blob(ObjectFile::Present(compress(b"blob 4\x00hello"))),
        Err(StoreError::CorruptObject)
    );
    assert_eq!(
        read_blob(ObjectFile::Present(compress(b"note 5\x00hello"))),
        Err(StoreError::CorruptObject)
    );
}

#[test]
fn a_stored_object_cut_short_by_one_byte_is_corrupt() {
    let blob = hash_object(b"hello".to_vec());
    let mut bytes = blob.write_blob().bytes;
    bytes.pop();
    assert_eq!(read_blob(ObjectFile::Present(bytes)), Err(StoreError::CorruptObject));
}

#[test]
fn small_objects_cut_short_by_one_byte_are_corrupt() {
    for payload in [&b""[..], &b"a"[..], &b"\x00"[..], &[0xffu8; 70][..]] {
        for kind in [BlobType::BLOB, BlobType::TREE, BlobType::COMMIT] {
            let blob = Blob::of_payload(payload, kind);
            let whole = blob.write_blob().bytes;
            assert!(!whole.is_empty());
            assert_eq!(read_blob(ObjectFile::Present(whole.clone())), Ok(payload.to_vec()));
            let mut cut = whole;
            cut.pop();
            assert_eq!(read_blob(ObjectFile::Present(cut)), Err(StoreError::CorruptObject));
        }
    }
}

#[test]
fn every_cut_of_a_stored_object_is_corrupt() {
    let data: Vec<u8> = (0..2000u32).map(|i| (i % 251) as u8).collect();
    let bytes = hash_object(data).write_blob().bytes;
    for cut in 0..bytes.len() {
        assert_eq!(
            read_blob(ObjectFile::Present(bytes[..cut].to_vec())),
            Err(StoreError::CorruptObject)
        );
    }
}

#[test]
fn compression_round_trips() {
    let empty: Vec<u8> = Vec::new();
    assert_eq!(decompress(&compress(&empty)), Ok(empty));
    let text = b"the quick brown fox jumps over the lazy dog".to_vec();
    assert_eq!(decompress(&compress(&text)), Ok(text.clone()));
    assert_ne!(compress(&text), text);
    let long: Vec<u8> = (0..100_000u32).map(|i| (i * 7 % 256) as u8).collect();
    assert_eq!(decompress(&compress(&long)), Ok(long));
}

#[test]
fn decompress_reads_a_stream_made_elsewhere() {
    let stream: Vec<u8> = vec![
        0x78, 0x9c, 0x4b, 0xca, 0xc9, 0x4f, 0x52, 0x30, 0x65, 0xc8, 0x48, 0xcd, 0xc9, 0xc9, 0x07,
        0x00, 0x19, 0xaa, 0x04, 0x09,
    ];
    assert_eq!(decompress(&stream), Ok(b"blob 5\x00hello".to_vec()));
    assert_eq!(read_blob(ObjectFile::Present(stream)), Ok(b"hello".to_vec()));
}

#[test]
fn decompress_rejects_a_damaged_stream() {
    let mut stream = compress(b"blob 5\x00hello");
    let last = stream.len() - 1;
    stream[last] ^= 0xff;
    assert_eq!(decompress(&stream), Err(StoreError::CorruptObject));
}

#[test]
fn a_borrowed_payload_makes_the_same_object() {
    let owned = Blob::new_blob_from_data(b"payload".to_vec(), BlobType::TREE);
    let borrowed = Blob::of_payload(b"payload", BlobType::TREE);
    assert_eq!(owned.sha_val(), borrowed.sha_val());
    assert_eq!(owned.content(), borrowed.content());
    assert_eq!(owned.blob_type(), borrowed.blob_type());
    assert_eq!(owned.sha_val(), digest(b"tree 7\x00payload"));
}

#[test]
fn the_kind_is_part_of_the_id() {
    let blob = Blob::of_payload(b"x", BlobType::BLOB);
    let tree = Blob::of_payload(b"x", BlobType::TREE);
    let commit = Blob::of_payload(b"x", BlobType::COMMIT);
    assert_ne!(blob.sha_val(), tree.sha_val());
    assert_ne!(blob.sha_val(), commit.sha_val());
    assert_ne!(tree.sha_val(), commit.sha_val());
}

#[test]
fn a_path_is_derived_from_the_id_alone() {
    let mut id = [0u8; 20];
    id[0] = 0xab;
    id[1] = 0xcd;
    id[19] = 0x01;
    assert_eq!(path_of_id(&id), "objects/ab/cd000000000000000000000000000000000001");
    assert_eq!(path_of_id(&[0xff; 20]), "objects/ff/ffffffffffffffffffffffffffffffffffffff");
}

#[test]
fn names_that_begin_with_a_dot_are_hidden() {
    assert!(is_hidden_name(b".git"));
    assert!(is_hidden_name(b"."));
    assert!(is_hidden_name(b".."));
    assert!(is_hidden_name(b".a.b"));
    assert!(!is_hidden_name(b""));
    assert!(!is_hidden_name(b"a.b"));
    assert!(!is_hidden_name(b"a."));
    assert!(!is_hidden_name(b" .a"));
}

#[test]
fn names_are_ordered_byte_by_byte() {
    assert!(is_before(b"", b"a"));
    assert!(is_before(b"a", b"b"));
    assert!(is_before(b"a", b"aa"));
    assert!(is_before(b"B", b"a"));
    assert!(is_before(b"a-b", b"a.b"));
    assert!(is_before(b"z", b"\xc3\xa9"));
    assert!(is_before(b"\x7f", b"\x80"));
    assert!(!is_before(b"", b""));
    assert!(!is_before(b"a", b"a"));
    assert!(!is_before(b"a", b""));
    assert!(!is_before(b"aa", b"a"));
    assert!(!is_before(b"b", b"a"));
    assert!(!is_before(b"b", b"ab"));
}

#[test]
fn each_error_has_its_message() {
    assert_eq!(StoreError::ObjectNotFound.message(), "object not found");
    assert_eq!(StoreError::CorruptObject.message(), "corrupt object");
    assert_eq!(StoreError::InvalidIdFormat.message(), "invalid object id");
    assert_eq!(StoreError::IoFailure.message(), "i/o failure");
}

#[test]
fn a_stream_without_its_last_byte_never_inflates() {
    let mut state: u32 = 12345;
    let mut next = move || {
        state = state.wrapping_mul(1664525).wrapping_add(1013904223);
        (state >> 24) as u8
    };
    for size in 0..400usize {
        let noise: Vec<u8> = (0..size).map(|_| next()).collect();
        let even: Vec<u8> = vec![(size % 256) as u8; size];
        for data in [noise, even] {
            let whole = compress(&data);
            assert_eq!(decompress(&whole), Ok(data));
            assert_eq!(decompress(&whole[..whole.len() - 1]), Err(StoreError::CorruptObject));
        }
    }
    let large: Vec<u8> = (0..300_000usize).map(|_| next()).collect();
    let whole = compress(&large);
    assert_eq!(decompress(&whole[..whole.len() - 1]), Err(StoreError::CorruptObject));
    assert_eq!(decompress(&whole), Ok(large));
}
