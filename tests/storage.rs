use fileshare::codec::{decode, encode};
use fileshare::item::{name_of, parent_path, ItemTree, LocalItem, RemoteItem, RemoteTree};
use fileshare::store::{compute_hash, ContentStore, MAX_OBJECT_ID};

fn file(path: &str, size: u64, timestamp: u64) -> LocalItem {
    LocalItem { path: path.as_bytes().to_vec(), is_regular_file: true, size, timestamp, mime_type: b"text/plain".to_vec() }
}

#[test]
fn baseline_round_trip_keeps_every_field() {
    let t = ItemTree {
        items: vec![
            LocalItem { path: b"docs".to_vec(), is_regular_file: false, size: 0, timestamp: 3, mime_type: Vec::new() },
            file("docs/report.pdf", u64::MAX, 1_700_000_000_123),
            file("caf\u{e9} / x", 0, 0),
        ],
    };
    let bytes = encode(&t);
    let back = decode(&bytes).unwrap();
    assert_eq!(back.items.len(), 3);
    for (a, b) in t.items.iter().zip(back.items.iter()) {
        assert_eq!(a.path, b.path);
        assert_eq!(a.size, b.size);
        assert_eq!(a.timestamp, b.timestamp);
        assert_eq!(a.is_regular_file, b.is_regular_file);
        assert_eq!(a.mime_type, b.mime_type);
    }
}

#[test]
fn baseline_record_layout() {
    let t = ItemTree { items: vec![LocalItem { path: b"a".to_vec(), is_regular_file: true, size: 7, timestamp: 12, mime_type: b"t/p".to_vec() }] };
    let text = String::from_utf8(encode(&t)).unwrap();
    assert_eq!(text, format!("F{:020}{:020}{:020}a{:020}t/p\n", 7, 12, 1, 3));
    assert_eq!(text.len(), 1 + 20 * 3 + 1 + 20 + 3 + 1);
    assert!(decode(&Vec::new()).unwrap().items.is_empty());
}

#[test]
fn baseline_decoder_rejects_damage_and_duplicates() {
    let t = ItemTree { items: vec![file("a", 1, 2)] };
    let mut bytes = encode(&t);
    bytes.pop();
    assert!(decode(&bytes).is_none());
    let mut twice = encode(&t);
    twice.extend(encode(&t));
    assert!(decode(&twice).is_none());
    let mut bad_digit = encode(&t);
    bad_digit[3] = b'x';
    assert!(decode(&bad_digit).is_none());
    let too_big = "F99999999999999999999000000000000000000010000000000000000000001a00000000000000000000\n";
    assert!(decode(&too_big.as_bytes().to_vec()).is_none());
}

#[test]
fn identical_content_is_stored_once() {
    let mut store = ContentStore::new();
    let a = store.store(b"same bytes".to_vec()).unwrap();
    let b = store.store(b"same bytes".to_vec()).unwrap();
    assert_eq!(a, b);
    assert_eq!(store.objects.len(), 1);
    let c = store.store(b"other bytes".to_vec()).unwrap();
    assert_ne!(a, c);
    assert_eq!(store.objects.len(), 2);
}

#[test]
fn colliding_digest_with_different_content_gives_two_objects() {
    let mut store = ContentStore::new();
    let a = store.store_with_hash("deadbeef".to_string(), b"first".to_vec()).unwrap();
    let b = store.store_with_hash("deadbeef".to_string(), b"second".to_vec()).unwrap();
    assert_ne!(a, b);
    assert_eq!(store.objects.len(), 2);
    assert_eq!(store.find_candidates(&"deadbeef".to_string()), vec![0, 1]);
    let again = store.store_with_hash("deadbeef".to_string(), b"second".to_vec()).unwrap();
    assert_eq!(again, b);
}

#[test]
fn missing_stored_copy_is_not_equal() {
    let mut store = ContentStore::new();
    let a = store.store(b"payload".to_vec()).unwrap();
    store.objects[0].data = None;
    assert!(!store.bytes_equal(0, &b"payload".to_vec()));
    let b = store.store(b"payload".to_vec()).unwrap();
    assert_ne!(a, b);
}

#[test]
fn store_at_identifier_limit_still_shares_existing_objects() {
    let mut store = ContentStore { objects: Vec::new(), next_id: MAX_OBJECT_ID - 1 };
    let a = store.store(b"kept".to_vec()).unwrap();
    assert_eq!(a, MAX_OBJECT_ID - 1);
    assert_eq!(store.next_id, MAX_OBJECT_ID);
    assert_eq!(store.store(b"kept".to_vec()), Some(a));
    assert_eq!(store.store(b"new".to_vec()), None);
    assert_eq!(store.objects.len(), 1);
}

#[test]
fn content_hash_is_blake3_hex() {
    assert_eq!(compute_hash(&Vec::new()), "af1349b9f5f9a1a6a0404dea36dcc9499bcb25c9adc112b7cc9a93cae41f3262");
    assert_eq!(compute_hash(&b"abc".to_vec()).len(), 64);
}

#[test]
fn path_components() {
    assert_eq!(parent_path(&b"docs/sub/report.pdf".to_vec()), Some(b"docs/sub".to_vec()));
    assert_eq!(parent_path(&b"top".to_vec()), None);
    assert_eq!(name_of(&b"docs/sub/report.pdf".to_vec()), b"report.pdf".to_vec());
    assert_eq!(name_of(&b"top".to_vec()), b"top".to_vec());
}

#[test]
fn tree_upsert_and_removal() {
    let mut t = ItemTree::new();
    assert_eq!(t.upsert(file("a", 1, 1)), 0);
    assert_eq!(t.upsert(file("b", 1, 1)), 1);
    assert_eq!(t.upsert(file("a", 9, 9)), 0);
    assert_eq!(t.len(), 2);
    assert_eq!(t.items[0].size, 9);
    assert_eq!(t.remove_path(&b"a".to_vec()), Some(0));
    assert_eq!(t.remove_path(&b"a".to_vec()), None);
    assert_eq!(t.find_from_path(&b"b".to_vec()), Some(0));
    let mut r = RemoteTree::new();
    r.add_item(RemoteItem { id: 5, parent_item: None, node: file("x", 1, 1) });
    assert_eq!(r.id_of(&b"x".to_vec()), Some(5));
    r.remove_path(&b"x".to_vec());
    assert_eq!(r.id_of(&b"x".to_vec()), None);
}

#[test]
fn filesystem_entries_become_nodes() {
    let f = LocalItem::from_filesystem("/home/me/repo", "/home/me/repo/docs/report.pdf", true, 120, 55).unwrap();
    assert_eq!(f.path, b"docs/report.pdf".to_vec());
    assert_eq!(f.mime_type, b"application/pdf".to_vec());
    assert_eq!(f.size, 120);
    assert_eq!(f.timestamp, 55);
    let unknown = LocalItem::from_filesystem("/r", "/r/x.unknownext", true, 1, 1).unwrap();
    assert!(unknown.mime_type.is_empty());
    let d = LocalItem::from_filesystem("/r", "/r/docs", false, 4096, 9).unwrap();
    assert_eq!(d.path, b"docs".to_vec());
    assert!(!d.is_regular_file);
    assert_eq!(d.size, 0);
    assert_eq!(d.timestamp, 0);
    assert!(d.mime_type.is_empty());
    assert!(LocalItem::from_filesystem("/r", "relative/x", true, 1, 1).is_none());
}

#[test]
fn object_is_released_only_when_unreferenced() {
    let mut store = ContentStore::new();
    let a = store.store(b"one".to_vec()).unwrap();
    let b = store.store(b"two".to_vec()).unwrap();
    assert!(!store.release(a, 1));
    assert_eq!(store.objects.len(), 2);
    assert!(store.release(a, 0));
    assert_eq!(store.objects.len(), 1);
    assert_eq!(store.objects[0].object.id, b);
    assert!(!store.release(a, 0));
    let c = store.store(b"one".to_vec()).unwrap();
    assert_ne!(c, a);
}
