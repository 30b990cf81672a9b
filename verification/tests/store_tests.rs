use keystore::{Entry, Msg, Reply, Store};

fn entry(name: &[u8], parent: Option<u64>) -> Entry {
    Entry {
        id: None,
        parent_id: parent,
        name: name.to_vec(),
        created: None,
        modified: None,
        accessed: None,
        permissions: None,
        user_id: None,
        group_id: None,
        data_hash: None,
        data_length: None,
    }
}

fn insert_id(store: &mut Store, e: Entry, data: Option<Vec<Vec<u8>>>) -> u64 {
    match store.handle(Msg::Insert(e, data)) {
        Reply::Id(id) => id,
        _ => panic!("unexpected reply from key store"),
    }
}

fn list(store: &mut Store, parent: Option<u64>) -> Vec<(Entry, Option<keystore::ChunkRef>)> {
    match store.handle(Msg::ListDir(parent)) {
        Reply::ListResult(elems) => elems,
        _ => panic!("unexpected reply from key store"),
    }
}

fn flush(store: &mut Store) {
    match store.handle(Msg::Flush) {
        Reply::FlushOk => (),
        _ => panic!("unexpected reply from key store"),
    }
}

fn read_back(store: &Store, e: &Entry) -> Vec<Vec<u8>> {
    let hash = e.data_hash.as_ref().expect("entry has no data hash");
    store.fetch_data(hash).expect("data hash does not resolve")
}

#[test]
fn empty_file() {
    let mut store = Store::new_for_testing();
    let id = insert_id(&mut store, entry(b"a", None), None);
    assert_eq!(id, 1);
    let ls = list(&mut store, None);
    assert_eq!(ls.len(), 1);
    assert_eq!(ls[0].0.name, b"a".to_vec());
    assert_eq!(ls[0].0.data_hash, None);
    assert_eq!(ls[0].1, None);
}

#[test]
fn single_small_file() {
    let mut store = Store::new_for_testing();
    let id = insert_id(&mut store, entry(b"b", None), Some(vec![b"hello".to_vec()]));
    assert_eq!(id, 1);
    flush(&mut store);
    let ls = list(&mut store, None);
    assert_eq!(ls.len(), 1);
    let chunks = read_back(&store, &ls[0].0);
    assert_eq!(chunks, vec![b"hello".to_vec()]);
}

#[test]
fn directory_with_children() {
    let mut store = Store::new_for_testing();
    let root_id = insert_id(&mut store, entry(b"r", None), None);
    assert_eq!(root_id, 1);
    let child_id = insert_id(&mut store, entry(b"c", Some(1)), None);
    assert_eq!(child_id, 2);
    let ls = list(&mut store, Some(1));
    assert_eq!(ls.len(), 1);
    assert_eq!(ls[0].0.name, b"c".to_vec());
    assert_eq!(ls[0].0.id, Some(2));
    assert_eq!(ls[0].0.parent_id, Some(1));
}

#[test]
fn dedup_identical_chunks() {
    let mut store = Store::new_for_testing();
    let chunk = vec![b'X'; 1024];
    insert_id(&mut store, entry(b"one", None), Some(vec![chunk.clone()]));
    insert_id(&mut store, entry(b"two", None), Some(vec![chunk.clone()]));
    // a single blob-store call serves both entries
    assert_eq!(store.store_count(), 1);
    let ls = list(&mut store, None);
    assert_eq!(ls.len(), 2);
    for (e, _) in &ls {
        assert_eq!(read_back(&store, e), vec![chunk.clone()]);
    }
}

#[test]
fn unchanged_reinsert_fast_path() {
    let mut store = Store::new_for_testing();
    let mut e = entry(b"d", None);
    e.created = Some(1);
    e.modified = Some(1);
    e.accessed = Some(1);
    let id = insert_id(&mut store, e.clone(), Some(vec![b"z".to_vec()]));
    flush(&mut store);
    let stores_before = store.store_count();
    let id2 = insert_id(&mut store, e, Some(vec![b"z".to_vec()]));
    assert_eq!(id, id2);
    // the second insert does not call the blob store at all
    assert_eq!(store.store_count(), stores_before);
}

#[test]
fn size_mismatch_warning() {
    let mut store = Store::new_for_testing();
    let mut e = entry(b"f", None);
    e.data_length = Some(10);
    let id = insert_id(&mut store, e, Some(vec![b"abcd".to_vec()]));
    assert_eq!(id, 1);
    let warnings = store.take_warnings();
    assert_eq!(warnings.len(), 1);
    assert_eq!(warnings[0].name, b"f".to_vec());
    assert_eq!(warnings[0].wanted, 10);
    assert_eq!(warnings[0].got, 4);
    assert!(!warnings[0].grew);
    // the committed tree reflects what was actually read
    flush(&mut store);
    let ls = list(&mut store, None);
    assert_eq!(read_back(&store, &ls[0].0), vec![b"abcd".to_vec()]);
}

#[test]
fn grown_file_warning() {
    let mut store = Store::new_for_testing();
    let mut e = entry(b"g", None);
    e.data_length = Some(2);
    insert_id(&mut store, e, Some(vec![b"abcd".to_vec()]));
    let warnings = store.take_warnings();
    assert_eq!(warnings.len(), 1);
    assert!(warnings[0].grew);
}

#[test]
fn exact_size_no_warning() {
    let mut store = Store::new_for_testing();
    let mut e = entry(b"h", None);
    e.data_length = Some(4);
    insert_id(&mut store, e, Some(vec![b"abcd".to_vec()]));
    assert!(store.take_warnings().is_empty());
}

#[test]
fn multi_chunk_round_trip() {
    // more chunks than the fan-out, so interior nodes appear
    let mut store = Store::new_for_testing();
    let chunks: Vec<Vec<u8>> = (0u8..20).map(|i| vec![i; 64]).collect();
    insert_id(&mut store, entry(b"big", None), Some(chunks.clone()));
    flush(&mut store);
    let ls = list(&mut store, None);
    assert_eq!(read_back(&store, &ls[0].0), chunks);
}

#[test]
fn empty_chunk_sequence_reads_as_one_empty_chunk() {
    // a data source that yields no chunks still records a root
    let mut store = Store::new_for_testing();
    insert_id(&mut store, entry(b"e", None), Some(vec![]));
    flush(&mut store);
    let ls = list(&mut store, None);
    assert!(ls[0].0.data_hash.is_some());
    assert_eq!(read_back(&store, &ls[0].0), vec![Vec::<u8>::new()]);
}

#[test]
fn reinsert_after_metadata_change_gets_fresh_id() {
    let mut store = Store::new_for_testing();
    let mut e = entry(b"m", None);
    e.modified = Some(1);
    let id1 = insert_id(&mut store, e.clone(), Some(vec![b"v1".to_vec()]));
    e.modified = Some(2);
    let id2 = insert_id(&mut store, e, Some(vec![b"v2".to_vec()]));
    assert_ne!(id1, id2);
    // the key is replaced, not duplicated
    let ls = list(&mut store, None);
    assert_eq!(ls.len(), 1);
    flush(&mut store);
    let ls = list(&mut store, None);
    assert_eq!(read_back(&store, &ls[0].0), vec![b"v2".to_vec()]);
}

#[test]
fn unknown_hash_fetches_nothing() {
    let store = Store::new_for_testing();
    assert!(store.fetch_data(&vec![1, 2, 3]).is_none());
}

#[test]
fn flush_resolves_every_recorded_hash() {
    let mut store = Store::new_for_testing();
    for i in 0u8..5 {
        insert_id(
            &mut store,
            entry(&[b'n', i], None),
            Some(vec![vec![i; 17], vec![i ^ 0xff; 9]]),
        );
    }
    flush(&mut store);
    let ls = list(&mut store, None);
    assert_eq!(ls.len(), 5);
    for (e, pref) in &ls {
        assert!(e.data_hash.is_some());
        assert!(pref.is_some());
        let chunks = read_back(&store, e);
        assert_eq!(chunks.len(), 2);
    }
}

#[test]
fn two_phase_insert_replies_before_ingestion() {
    // the actor shell replies the id from insert_begin, then ingests
    let mut store = Store::new_for_testing();
    let (row, fast) = store.insert_begin(entry(b"p", None));
    assert_eq!(row.id, Some(1));
    assert!(!fast);
    store.insert_data(&row, Some(vec![b"pay".to_vec(), b"load".to_vec()]));
    flush(&mut store);
    let ls = list(&mut store, None);
    assert_eq!(ls.len(), 1);
    assert_eq!(read_back(&store, &ls[0].0), vec![b"pay".to_vec(), b"load".to_vec()]);
    // an unchanged re-insert is already settled in the first phase
    let mut again = entry(b"p", None);
    again.data_length = None;
    let (row2, fast2) = store.insert_begin(again);
    assert!(fast2);
    assert_eq!(row2.id, Some(1));
}

#[test]
fn next_key_id_tracks_inserts() {
    let mut store = Store::new_for_testing();
    assert_eq!(store.next_key_id(), 1);
    insert_id(&mut store, entry(b"a", None), None);
    assert_eq!(store.next_key_id(), 2);
}
