use git_starter_rust::blob::{
    create_tree_object, hash_object, read_tree_object, write_tree_object, Blob, BlobType, ObjectFile,
};
use git_starter_rust::digest::{hex_to_id, id_to_hex};
use git_starter_rust::dir::DirEntry;
use git_starter_rust::error::StoreError;
use git_starter_rust::tree::{decode_tree, encode_tree, sort_entries, tree_object, TreeObject};

fn file(name: &str, data: &[u8]) -> DirEntry {
    DirEntry::File { name: name.as_bytes().to_vec(), data: data.to_vec() }
}

fn dir(name: &str, entries: Vec<DirEntry>) -> DirEntry {
    DirEntry::Dir { name: name.as_bytes().to_vec(), entries }
}

fn child(is_file: bool, name: &str, fill: u8) -> TreeObject {
    TreeObject { is_file, name: name.as_bytes().to_vec(), sha_val: [fill; 20] }
}

fn names(entries: &[TreeObject]) -> Vec<String> {
    entries.iter().map(|e| String::from_utf8(e.name.clone()).unwrap()).collect()
}

#[test]
fn a_flat_directory_gives_the_well_known_tree() {
    let entries = vec![file("b.txt", b"world"), file("a.txt", b"hello")];
    let mut objects = Vec::new();
    let id = create_tree_object(&entries, &mut objects);
    assert_eq!(id, Some(String::from("e30b5202a91c72788d1ce94a3918edb647d2f48c")));
    assert_eq!(objects.len(), 3);
    assert_eq!(objects[0].get_sha_string(), "04fea06420ca60892f73becee3614f6d023a4b7f");
    assert_eq!(objects[1].get_sha_string(), "b6fc4c620b67d95f953a5c1c1230aaab5db5a1b0");
    assert_eq!(objects[2].get_sha_string(), "e30b5202a91c72788d1ce94a3918edb647d2f48c");
    assert_eq!(objects[2].blob_type(), BlobType::TREE);
    let mut expected = b"tree 66\x00100644 a.txt\x00".to_vec();
    expected.extend_from_slice(&hex_to_id("b6fc4c620b67d95f953a5c1c1230aaab5db5a1b0").unwrap());
    expected.extend_from_slice(b"100644 b.txt\x00");
    expected.extend_from_slice(&hex_to_id("04fea06420ca60892f73becee3614f6d023a4b7f").unwrap());
    assert_eq!(objects[2].content().to_vec(), expected);
}

#[test]
fn a_nested_directory_gives_the_well_known_tree() {
    let entries = vec![dir("sub", vec![file("c", b"x")]), file("a.txt", b"hello")];
    let mut objects = Vec::new();
    let id = write_tree_object(&entries, &mut objects).unwrap();
    assert_eq!(id_to_hex(&id), "b296dcb85a1e2f65c9094a1381ecffd949a52844");
    let ids: Vec<String> = objects.iter().map(|b| b.get_sha_string()).collect();
    assert_eq!(
        ids,
        vec![
            "c1b0730e0133447badcfd47fd144e254807b06e1",
            "eb419bb6d84a1cb33305c7398c075ebc821e7c41",
            "b6fc4c620b67d95f953a5c1c1230aaab5db5a1b0",
            "b296dcb85a1e2f65c9094a1381ecffd949a52844",
        ]
    );
    let kinds: Vec<BlobType> = objects.iter().map(|b| b.blob_type()).collect();
    assert_eq!(kinds, vec![BlobType::BLOB, BlobType::TREE, BlobType::BLOB, BlobType::TREE]);
}

#[test]
fn the_listing_order_does_not_change_the_tree() {
    let make = |order: [usize; 4]| {
        let all = [
            || file("zeta", b"1"),
            || dir("alpha", vec![file("x", b"2"), file("a", b"3")]),
            || file("Beta", b"4"),
            || file("alpha.txt", b"5"),
        ];
        let entries: Vec<DirEntry> = order.iter().map(|&i| all[i]()).collect();
        let mut objects = Vec::new();
        create_tree_object(&entries, &mut objects).unwrap()
    };
    let first = make([0, 1, 2, 3]);
    for order in [[3, 2, 1, 0], [1, 0, 3, 2], [2, 3, 0, 1], [1, 2, 3, 0], [0, 3, 1, 2]] {
        assert_eq!(make(order), first);
    }
}

#[test]
fn entries_are_sorted_byte_by_byte() {
    let sorted = sort_entries(vec![
        child(true, "b", 1),
        child(true, "a.txt", 2),
        child(false, "a", 3),
        child(true, "B", 4),
        child(true, "ab", 5),
        child(true, "", 6),
        child(true, "a-b", 7),
        child(true, "\u{e9}", 8),
    ]);
    assert_eq!(names(&sorted), vec!["", "B", "a", "a-b", "a.txt", "ab", "b", "\u{e9}"]);
    assert_eq!(sorted[2].sha_val, [3u8; 20]);
    assert!(!sorted[2].is_file);
}

#[test]
fn entries_of_one_name_keep_their_order() {
    let sorted = sort_entries(vec![
        child(true, "same", 1),
        child(true, "other", 2),
        child(false, "same", 3),
        child(true, "same", 4),
    ]);
    assert_eq!(names(&sorted), vec!["other", "same", "same", "same"]);
    let fills: Vec<u8> = sorted.iter().map(|e| e.sha_val[0]).collect();
    assert_eq!(fills, vec![2, 1, 3, 4]);
}

#[test]
fn a_tree_payload_writes_mode_name_and_raw_id() {
    let payload = encode_tree(&vec![child(true, "f", 0xab), child(false, "d", 0xcd)]);
    let mut expected = b"100644 f\x00".to_vec();
    expected.extend_from_slice(&[0xab; 20]);
    expected.extend_from_slice(b"40000 d\x00");
    expected.extend_from_slice(&[0xcd; 20]);
    assert_eq!(payload, expected);
    assert_eq!(encode_tree(&Vec::new()), Vec::<u8>::new());
}

#[test]
fn a_tree_payload_reads_back() {
    let payload = encode_tree(&vec![
        child(true, "with space.txt", 1),
        child(false, "dir", 0),
        child(true, "", 2),
    ]);
    let entries = decode_tree(&payload).unwrap();
    assert_eq!(entries.len(), 3);
    assert_eq!(entries[0].mode, b"100644".to_vec());
    assert_eq!(entries[0].name, b"with space.txt".to_vec());
    assert_eq!(entries[0].child_id, [1u8; 20]);
    assert_eq!(entries[1].mode, b"40000".to_vec());
    assert_eq!(entries[1].name, b"dir".to_vec());
    assert_eq!(entries[1].child_id, [0u8; 20]);
    assert_eq!(entries[2].mode, b"100644".to_vec());
    assert_eq!(entries[2].name, Vec::<u8>::new());
    assert_eq!(entries[2].child_id, [2u8; 20]);
    assert_eq!(decode_tree(b"").unwrap().len(), 0);
}

#[test]
fn a_tree_payload_may_hold_other_modes() {
    let mut payload = b"100755 run.sh\x00".to_vec();
    payload.extend_from_slice(&[5u8; 20]);
    let entries = decode_tree(&payload).unwrap();
    assert_eq!(entries.len(), 1);
    assert_eq!(entries[0].mode, b"100755".to_vec());
    assert_eq!(entries[0].name, b"run.sh".to_vec());
}

#[test]
fn a_truncated_tree_payload_is_corrupt() {
    let payload = encode_tree(&vec![child(true, "a", 1), child(true, "b", 2)]);
    for cut in 1..payload.len() {
        if cut == 29 {
            continue;
        }
        assert!(
            matches!(decode_tree(&payload[..cut]), Err(StoreError::CorruptObject)),
            "cut at {}",
            cut
        );
    }
    assert_eq!(decode_tree(&payload[..29]).unwrap().len(), 1);
}

#[test]
fn a_tree_entry_without_a_space_is_corrupt() {
    let mut payload = b"100644a\x00".to_vec();
    payload.extend_from_slice(&[1u8; 20]);
    assert!(matches!(decode_tree(&payload), Err(StoreError::CorruptObject)));
}

#[test]
fn a_directory_without_entries_has_no_tree() {
    let mut objects: Vec<Blob> = Vec::new();
    assert_eq!(write_tree_object(&Vec::new(), &mut objects), None);
    assert_eq!(create_tree_object(&Vec::new(), &mut objects), None);
    assert!(tree_object(Vec::new()).is_none());
    assert_eq!(objects.len(), 0);
}

#[test]
fn hidden_entries_and_empty_directories_are_left_out() {
    let entries = vec![
        file(".hidden", b"secret"),
        dir(".git", vec![file("HEAD", b"ref")]),
        dir("empty", Vec::new()),
        dir("only-hidden", vec![file(".keep", b"")]),
        dir("nested-empty", vec![dir("inner", vec![dir("innermost", Vec::new())])]),
        DirEntry::Other { name: b"socket".to_vec() },
    ];
    let mut objects: Vec<Blob> = Vec::new();
    assert_eq!(write_tree_object(&entries, &mut objects), None);
    assert_eq!(objects.len(), 0);
}

#[test]
fn an_empty_directory_does_not_appear_in_its_parent() {
    let with = vec![
        file("a.txt", b"hello"),
        dir("empty", vec![file(".keep", b""), dir("deeper", Vec::new())]),
        file(".ignored", b"zzz"),
        file("b.txt", b"world"),
    ];
    let without = vec![file("a.txt", b"hello"), file("b.txt", b"world")];
    let mut first: Vec<Blob> = Vec::new();
    let mut second: Vec<Blob> = Vec::new();
    let id = create_tree_object(&with, &mut first);
    assert_eq!(id, create_tree_object(&without, &mut second));
    assert_eq!(id, Some(String::from("e30b5202a91c72788d1ce94a3918edb647d2f48c")));
    assert_eq!(first.len(), second.len());
    let tree = first.pop().unwrap();
    let listed = decode_tree(&tree.content()[8..]).unwrap();
    assert_eq!(listed.len(), 2);
    assert_eq!(listed[0].name, b"a.txt".to_vec());
    assert_eq!(listed[1].name, b"b.txt".to_vec());
}

#[test]
fn objects_are_appended_after_what_was_there() {
    let mut objects = vec![hash_object(b"earlier".to_vec())];
    let id = create_tree_object(&vec![file("a.txt", b"hello")], &mut objects);
    assert!(id.is_some());
    assert_eq!(objects.len(), 3);
    assert_eq!(objects[0].content().to_vec(), b"blob 7\x00earlier".to_vec());
    assert_eq!(objects[1].content().to_vec(), b"blob 5\x00hello".to_vec());
    assert_eq!(objects[2].blob_type(), BlobType::TREE);
}

#[test]
fn a_stored_tree_lists_its_entries() {
    let entries = vec![dir("sub", vec![file("c", b"x")]), file("a.txt", b"hello")];
    let mut objects = Vec::new();
    create_tree_object(&entries, &mut objects).unwrap();
    let tree = objects.pop().unwrap();
    let listed = read_tree_object(ObjectFile::Present(tree.write_blob().bytes)).unwrap();
    assert_eq!(listed.len(), 2);
    assert_eq!(listed[0].mode, b"100644".to_vec());
    assert_eq!(listed[0].name, b"a.txt".to_vec());
    assert_eq!(id_to_hex(&listed[0].child_id), "b6fc4c620b67d95f953a5c1c1230aaab5db5a1b0");
    assert_eq!(listed[1].mode, b"40000".to_vec());
    assert_eq!(listed[1].name, b"sub".to_vec());
    assert_eq!(id_to_hex(&listed[1].child_id), "eb419bb6d84a1cb33305c7398c075ebc821e7c41");
}

#[test]
fn reading_a_tree_reports_each_failure() {
    assert!(matches!(read_tree_object(ObjectFile::Absent), Err(StoreError::ObjectNotFound)));
    assert!(matches!(read_tree_object(ObjectFile::Unreadable), Err(StoreError::IoFailure)));
    assert!(matches!(
        read_tree_object(ObjectFile::Present(vec![1, 2, 3])),
        Err(StoreError::CorruptObject)
    ));
    let not_a_list = Blob::new_blob_from_data(b"100644 a\x00short".to_vec(), BlobType::TREE);
    assert!(matches!(
        read_tree_object(ObjectFile::Present(not_a_list.write_blob().bytes)),
        Err(StoreError::CorruptObject)
    ));
}

#[test]
fn every_child_of_a_built_tree_is_among_the_stored_objects() {
    let entries = vec![
        file("z", b"1"),
        dir("m", vec![file("b", b"2"), dir("a", vec![file("deep", b"3")]), dir("void", Vec::new())]),
        file(".skipped", b"4"),
        file("a", b"1"),
    ];
    let mut objects = Vec::new();
    let top = write_tree_object(&entries, &mut objects).unwrap();
    let ids: Vec<[u8; 20]> = objects.iter().map(|b| b.sha_val()).collect();
    assert_eq!(ids.last(), Some(&top));
    let mut trees = 0;
    for blob in &objects {
        if blob.blob_type() == BlobType::TREE {
            trees += 1;
            let stored = ObjectFile::Present(blob.write_blob().bytes);
            let listed = read_tree_object(stored).unwrap();
            assert!(!listed.is_empty());
            for pair in listed.windows(2) {
                assert!(pair[0].name < pair[1].name);
            }
            for entry in &listed {
                assert!(ids.contains(&entry.child_id));
                assert!(entry.name.first() != Some(&b'.'));
            }
        }
    }
    assert_eq!(trees, 3);
    assert_eq!(objects.len(), 7);
}
