use keystore::{Entry, Msg, Reply, Store};
use rand::{Rng, RngExt};

fn random_ascii_bytes() -> Vec<u8> {
    let mut rng = rand::rng();
    (0..32).map(|_| rng.sample(rand::distr::Alphanumeric)).collect()
}

fn random_opt_u64() -> Option<u64> {
    let mut rng = rand::rng();
    if rng.random::<bool>() {
        Some(rng.random::<u64>())
    } else {
        None
    }
}

#[derive(Clone, Debug)]
struct EntryStub {
    key_entry: Entry,
    data: Option<Vec<Vec<u8>>>,
}

#[derive(Clone, Debug)]
struct FileSystem {
    file: EntryStub,
    filelist: Vec<FileSystem>,
}

fn rng_filesystem(size: usize) -> FileSystem {
    fn create_files(size: usize) -> Vec<FileSystem> {
        let children = size as f32 / 10.0;

        // dist_factor * i for i in range(children) + children == size
        let dist_factor: f32 = (size as f32 - children) / ((children * (children - 1.0)) / 2.0);

        let mut child_size = 0.0 as f32;

        let mut files = Vec::new();
        for _ in 0..children as usize {
            let data_opt = if rand::random::<bool>() {
                None
            } else {
                let mut v = vec![];
                for _ in 0..8 {
                    v.push(random_ascii_bytes())
                }
                Some(v)
            };

            let new_root = EntryStub {
                data: data_opt,
                key_entry: Entry {
                    id: None,
                    parent_id: None, // updated by insert_and_update_fs()

                    name: random_ascii_bytes(),
                    data_hash: None,
                    data_length: None,

                    created: random_opt_u64(),
                    modified: random_opt_u64(),
                    accessed: random_opt_u64(),

                    permissions: None,
                    user_id: None,
                    group_id: None,
                },
            };

            files.push(FileSystem { file: new_root, filelist: create_files(child_size as usize) });
            child_size += dist_factor;
        }
        files
    }

    let root = EntryStub {
        data: None,
        key_entry: Entry {
            parent_id: None,
            id: None, // updated by insert_and_update_fs()
            name: b"root".to_vec(),
            data_hash: None,
            data_length: None,
            created: random_opt_u64(),
            modified: random_opt_u64(),
            accessed: random_opt_u64(),
            permissions: None,
            user_id: None,
            group_id: None,
        },
    };

    FileSystem { file: root, filelist: create_files(size) }
}

fn insert_and_update_fs(fs: &mut FileSystem, store: &mut Store) {
    let data = fs.file.data.clone();
    let id = match store.handle(Msg::Insert(fs.file.key_entry.clone(), data)) {
        Reply::Id(id) => id,
        _ => panic!("unexpected reply from key store"),
    };

    fs.file.key_entry.id = Some(id);

    for f in fs.filelist.iter_mut() {
        f.file.key_entry.parent_id = Some(id);
        insert_and_update_fs(f, store);
    }
}

fn verify_filesystem(fs: &FileSystem, store: &mut Store) -> usize {
    let listing = match store.handle(Msg::ListDir(fs.file.key_entry.id)) {
        Reply::ListResult(ls) => ls,
        _ => panic!("Unexpected result from key store."),
    };

    assert_eq!(fs.filelist.len(), listing.len());

    for (entry, persistent_ref) in listing {
        let mut found = false;

        for dir in fs.filelist.iter() {
            if dir.file.key_entry.name == entry.name {
                found = true;

                assert_eq!(dir.file.key_entry.id, entry.id);
                assert_eq!(dir.file.key_entry.created, entry.created);
                assert_eq!(dir.file.key_entry.accessed, entry.accessed);
                assert_eq!(dir.file.key_entry.modified, entry.modified);

                match dir.file.data {
                    Some(ref original) => {
                        let hash = entry.data_hash.as_ref().expect("has data");
                        let it = store.fetch_data(hash).expect("No data.");
                        let mut chunk_count = 0;
                        for (i, chunk) in it.into_iter().enumerate() {
                            assert_eq!(original.get(i), Some(&chunk));
                            chunk_count += 1;
                        }
                        assert_eq!(original.len(), chunk_count);
                    }
                    None => {
                        assert_eq!(entry.data_hash, None);
                        assert_eq!(persistent_ref, None);
                    }
                }

                break;  // Proceed to check next file
            }
        }
        assert_eq!(true, found);
    }

    let mut count = fs.filelist.len();
    for dir in fs.filelist.iter() {
        count += verify_filesystem(dir, store);
    }

    count
}

#[test]
fn identity() {
    fn prop(size: u8) -> bool {
        let mut store = Store::new_for_testing();

        let mut fs = rng_filesystem(size as usize);
        insert_and_update_fs(&mut fs, &mut store);
        let fs = fs;

        match store.handle(Msg::Flush) {
            Reply::FlushOk => (),
            _ => panic!("Unexpected result from key store."),
        }

        verify_filesystem(&fs, &mut store);
        true
    }
    quickcheck::quickcheck(prop as fn(u8) -> bool);
}
