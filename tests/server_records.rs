use fileshare::enc_string::EncString;
use fileshare::record::{remote_tree_of, DatabaseIdTrait, DirectoryData, FileData, Item, Trash};
use fileshare::store::{ContentStore, Upload, UploadError, MAX_OBJECT_ID};
use fileshare::zip::{AsyncDirectoryZip, ZipError};

fn record(id: i64, path: &str, file: Option<(i64, i64)>) -> Item {
    Item {
        id,
        repository: 1,
        owner: 2,
        name: EncString::encode(path.rsplit('/').next().unwrap()),
        description: None,
        parent_item: None,
        absolute_path: EncString(path.to_string()),
        in_trash: false,
        directory: if file.is_none() { Some(DirectoryData { open_upload: false, num_items: 0, content_size: 0 }) } else { None },
        file: file.map(|(size, timestamp)| FileData { size, mimetype: EncString::encode("text/plain"), timestamp, object: 5 }),
    }
}

#[test]
fn server_record_to_remote_node() {
    let r = record(4, "/docs/my%20notes.txt", Some((10, 1234))).to_remote();
    assert_eq!(r.id, 4);
    assert_eq!(r.node.path, b"docs/my notes.txt".to_vec());
    assert!(r.node.is_regular_file);
    assert_eq!(r.node.size, 10);
    assert_eq!(r.node.timestamp, 1234);
    assert_eq!(r.node.mime_type, b"text/plain".to_vec());
    let d = record(3, "/docs", None).to_remote();
    assert_eq!(d.node.path, b"docs".to_vec());
    assert!(!d.node.is_regular_file);
    assert_eq!(d.node.timestamp, 0);
    let negative = record(6, "/n", Some((-1, -5))).to_remote();
    assert_eq!(negative.node.size, 0);
    assert_eq!(negative.node.timestamp, 0);
}

#[test]
fn listing_builds_remote_tree_later_record_wins() {
    let items = vec![record(3, "/docs", None), record(4, "/docs/a", Some((1, 1))), record(9, "/docs/a", Some((2, 2)))];
    let tree = remote_tree_of(&items);
    assert_eq!(tree.tree.items.len(), 2);
    assert_eq!(tree.id_of(&b"docs/a".to_vec()), Some(9));
    assert_eq!(tree.id_of(&b"docs".to_vec()), Some(3));
}

#[test]
fn ids_and_trash_filters() {
    assert!(!0i64.is_valid());
    assert!(7i64.is_valid());
    assert!(Trash::Yes.admits(true) && !Trash::Yes.admits(false));
    assert!(Trash::No.admits(false) && !Trash::No.admits(true));
    assert!(Trash::Both.admits(true) && Trash::Both.admits(false));
    assert_eq!(record(8, "/x", None).id(), 8);
}

#[test]
fn upload_is_finished_when_all_bytes_arrived() {
    let mut up = Upload::new("u1".to_string(), EncString::encode("a.txt"), None, 5, 77, EncString::encode("text/plain"), 1, Some(3), 2);
    up.push_data(&b"he".to_vec());
    let state = up.get_state();
    assert!(!state.finished);
    assert!(state.item.is_none());
    let mut store = ContentStore::new();
    assert!(matches!(up.store(&mut store), Err(UploadError::Incomplete)));
    assert!(store.objects.is_empty());
    up.push_data(&b"llo".to_vec());
    let state = up.get_state();
    assert!(state.finished);
    assert_eq!(state.id, "u1");
    assert_eq!(state.item.unwrap().parent_item, Some(3));
    let item = up.store(&mut store).unwrap();
    let file = item.file.unwrap();
    assert_eq!(file.timestamp, 77);
    assert_eq!(file.size, 5);

    let mut twin = Upload::new("u2".to_string(), EncString::encode("b.txt"), None, 5, 78, EncString::encode("text/plain"), 1, None, 2);
    twin.push_data(&b"hello".to_vec());
    let other = twin.store(&mut store).unwrap();
    assert_eq!(other.file.unwrap().object, file.object);
    assert_eq!(store.objects.len(), 1);
}

#[test]
fn archive_size_counts_headers_names_and_content() {
    let mut zip = AsyncDirectoryZip::new();
    assert_eq!(zip.size(), Ok(22));
    zip.insert(record(1, "/docs", None));
    zip.insert(record(2, "/docs/a.txt", Some((100, 1))));
    zip.insert(record(2, "/docs/a.txt", Some((100, 1))));
    assert_eq!(zip.items.len(), 2);
    assert_eq!(AsyncDirectoryZip::format_item_name(&zip.items[0]), b"docs/".to_vec());
    assert_eq!(AsyncDirectoryZip::format_item_name(&zip.items[1]), b"docs/a.txt".to_vec());
    assert_eq!(AsyncDirectoryZip::item_size(&zip.items[1]), 100);
    assert_eq!(zip.size(), Ok(22 + (76 + 2 * 5) + (76 + 2 * 10 + 100)));
    let mut huge = AsyncDirectoryZip::new();
    huge.insert(record(1, "/a", Some((i64::MAX, 1))));
    huge.insert(record(2, "/b", Some((i64::MAX, 1))));
    huge.insert(record(3, "/c", Some((i64::MAX, 1))));
    assert_eq!(huge.size(), Err(ZipError::TooLarge));
}

#[test]
fn archive_records_layout() {
    let item = record(2, "/docs/a.txt", Some((100, 1)));
    let header = AsyncDirectoryZip::local_header(&item, 0x12345678).unwrap();
    let mut expected = vec![0x50, 0x4b, 0x03, 0x04, 0x0A, 0, 0, 0, 0, 0, 0, 0, 0, 0, 0x78, 0x56, 0x34, 0x12];
    expected.extend([100, 0, 0, 0, 100, 0, 0, 0, 10, 0, 0, 0]);
    expected.extend(b"docs/a.txt");
    assert_eq!(header, expected);

    let dir = record(1, "/docs", None);
    let dir_header = AsyncDirectoryZip::local_header(&dir, 0).unwrap();
    assert_eq!(dir_header[4], 0x14);
    assert_eq!(dir_header.len(), 30 + 5);

    let central = AsyncDirectoryZip::make_central_directory(&item, 0x0102, 0x12345678).unwrap();
    assert_eq!(central.len(), 46 + 10);
    assert_eq!(&central[0..4], &[0x50, 0x4b, 0x01, 0x02]);
    assert_eq!(&central[4..8], &[0x3F, 0, 0x0A, 0]);
    assert_eq!(&central[42..46], &[0x02, 0x01, 0, 0]);
    assert_eq!(&central[46..], b"docs/a.txt");
    assert_eq!(AsyncDirectoryZip::make_central_directory(&item, u32::MAX as u64, 0), Err(ZipError::TooLarge));

    let mut zip = AsyncDirectoryZip::new();
    zip.insert(item);
    zip.insert(dir);
    let end = zip.end_of_directory(1000, 1102).unwrap();
    assert_eq!(end, vec![0x50, 0x4b, 0x05, 0x06, 0, 0, 0, 0, 2, 0, 2, 0, 102, 0, 0, 0, 0xE8, 0x03, 0, 0, 0, 0]);
    assert_eq!(zip.end_of_directory(5, 4), Err(ZipError::TooLarge));
    let big = record(3, "/big", Some((u32::MAX as i64, 1)));
    assert_eq!(AsyncDirectoryZip::local_header(&big, 0), Err(ZipError::TooLarge));
}

#[test]
fn full_store_refuses_only_uploads_that_need_a_new_object() {
    let mut store = ContentStore { objects: Vec::new(), next_id: MAX_OBJECT_ID };
    let mut up = Upload::new("u".to_string(), EncString::encode("a"), None, 1, 1, EncString::encode("t/p"), 1, None, 1);
    up.push_data(&b"x".to_vec());
    assert!(matches!(up.store(&mut store), Err(UploadError::StoreFull)));
    assert!(store.objects.is_empty());

    let mut almost = ContentStore { objects: Vec::new(), next_id: MAX_OBJECT_ID - 1 };
    let first = up.store(&mut almost).unwrap().file.unwrap().object;
    assert_eq!(first, (MAX_OBJECT_ID - 1) as i64);
    let mut twin = Upload::new("v".to_string(), EncString::encode("b"), None, 1, 2, EncString::encode("t/p"), 1, None, 1);
    twin.push_data(&b"x".to_vec());
    let item = twin.store(&mut almost).unwrap();
    assert_eq!(item.file.unwrap().object, first);
    assert_eq!(item.name.encoded(), "b");
}
