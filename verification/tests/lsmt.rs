use hasty::hash_table::HashTable;
use hasty::lsmt::{DisktableEntry, DisktableRepository, LSMTree};
use rand::Rng;
use std::collections::HashMap;

#[test]
fn lsmt_entry_serde() {
    {
        let val = u64::max_value();
        let serialized = DisktableEntry::Insert {
            rev: val,
            key: val,
            value: val,
        }
        .serialize();
        assert_eq!(DisktableEntry::bin_size(), serialized.len());
    }
    let tests = [
        DisktableEntry::Insert {
            rev: 0,
            key: 124,
            value: 421,
        },
        DisktableEntry::Insert {
            rev: 2,
            key: 0,
            value: 9,
        },
        DisktableEntry::Insert {
            rev: 1,
            key: 1,
            value: 21,
        },
        DisktableEntry::Delete { rev: 123, key: 9 },
        DisktableEntry::Delete { rev: 13, key: 91 },
    ];

    for test in tests {
        let serialized = test.serialize();
        let deserialized = DisktableEntry::deserialize(serialized.as_ref()).unwrap();
        assert_eq!(test, deserialized);
    }
}

#[test]
fn mod_entry_serde() {
    {
        let val = u64::max_value();
        let serialized = DisktableEntry::Insert {
            rev: val,
            key: val,
            value: val,
        }
        .serialize();
        assert_eq!(DisktableEntry::bin_size(), serialized.len());
    }
    let tests = [
        DisktableEntry::Insert {
            rev: 0,
            key: 124,
            value: 421,
        },
        DisktableEntry::Insert {
            rev: 2,
            key: 0,
            value: 9,
        },
        DisktableEntry::Insert {
            rev: 1,
            key: 1,
            value: 21,
        },
        DisktableEntry::Delete { rev: 123, key: 9 },
        DisktableEntry::Delete { rev: 13, key: 91 },
    ];

    for test in tests {
        let serialized = test.serialize();
        let deserialized = DisktableEntry::deserialize(serialized.as_ref()).unwrap();
        assert_eq!(test, deserialized);
    }
}

#[test]
fn lsmt_check_correctness() {
    let mut my_table = LSMTree::new(1e3 as usize, 2);
    let mut table = HashMap::new();
    const WRITE_ITERS: usize = 1e4 as usize;
    let mut rng = rand::thread_rng();
    for _ in 0..WRITE_ITERS {
        let key = rng.gen::<u64>();
        let value = rng.gen::<u64>();
        my_table.set(key, value);
        table.insert(key, value);
    }
    const READ_ITERS: usize = 1e3 as usize;
    for i in 0..READ_ITERS {
        let key = rng.gen::<u64>();
        if i % 100 == 0 {
            println!("{}/{}", i, READ_ITERS);
        }
        assert_eq!(my_table.get(key), table.get(&key).copied());
    }
}

#[test]
fn lsm_tombstone_wins() {
    let mut tree = LSMTree::new(2, 4);
    tree.set(1, 10);
    tree.set(2, 20);
    tree.remove(1);
    tree.set(3, 30);
    assert_eq!(tree.get(1), None);
    assert_eq!(tree.get(2), Some(20));
    assert_eq!(tree.get(3), Some(30));
}

#[test]
fn lsm_revive_after_delete() {
    let mut tree = LSMTree::new(2, 4);
    tree.set(5, 50);
    tree.set(6, 60);
    tree.remove(5);
    tree.set(7, 70);
    tree.set(5, 500);
    tree.set(8, 80);
    assert_eq!(tree.get(5), Some(500));
    assert_eq!(tree.get(6), Some(60));
    assert_eq!(tree.get(7), Some(70));
    assert_eq!(tree.get(8), Some(80));
}

#[test]
fn lsm_cascade() {
    let mut tree = LSMTree::new(1, 1);
    tree.set(1, 1);
    tree.set(2, 2);
    tree.set(3, 3);
    tree.set(4, 4);
    assert_eq!(tree.get(1), Some(1));
    assert_eq!(tree.get(2), Some(2));
    assert_eq!(tree.get(3), Some(3));
    assert_eq!(tree.get(4), Some(4));
    // Four single-record flushes collapse into one segment of four records.
    assert_eq!(tree.on_disk_size(), 4 * 28);
}

#[test]
fn lsm_entry_layout() {
    // 4-byte little-endian tag, then revision, key and value as 8-byte
    // little-endian; a tombstone pads the value with zero bytes.
    let ins = DisktableEntry::Insert {
        rev: 1,
        key: 2,
        value: 0x0102030405060708,
    }
    .serialize();
    assert_eq!(
        ins,
        vec![
            0, 0, 0, 0, // tag 0 = Insert
            1, 0, 0, 0, 0, 0, 0, 0, // rev
            2, 0, 0, 0, 0, 0, 0, 0, // key
            0x08, 0x07, 0x06, 0x05, 0x04, 0x03, 0x02, 0x01, // value
        ]
    );
    let del = DisktableEntry::Delete { rev: 3, key: 4 }.serialize();
    assert_eq!(
        del,
        vec![
            1, 0, 0, 0, // tag 1 = Delete
            3, 0, 0, 0, 0, 0, 0, 0, // rev
            4, 0, 0, 0, 0, 0, 0, 0, // key
            0, 0, 0, 0, 0, 0, 0, 0, // padding
        ]
    );
}

#[test]
fn lsm_decode_rejects_corrupt_records() {
    // Too short.
    assert_eq!(DisktableEntry::deserialize(&[0u8; 27]), None);
    // Unknown tag.
    let mut bad = vec![0u8; 28];
    bad[0] = 9;
    assert_eq!(DisktableEntry::deserialize(&bad), None);
}

#[test]
fn segment_filenames_are_fresh_alphanumeric() {
    let mut repo = DisktableRepository::new();
    let mut names = Vec::new();
    for i in 0..20u64 {
        let d = repo.from_iter(vec![DisktableEntry::Insert {
            rev: 1,
            key: i,
            value: i,
        }]);
        let name = d.name().clone();
        assert_eq!(name.len(), 12);
        for b in name.iter() {
            assert!(b.is_ascii_alphanumeric());
        }
        assert!(!names.contains(&name), "filename reused");
        names.push(name);
    }
}

#[test]
fn merge_keeps_greatest_revision() {
    let mut repo = DisktableRepository::new();
    let d1 = repo.from_iter(vec![
        DisktableEntry::Insert {
            rev: 1,
            key: 1,
            value: 10,
        },
        DisktableEntry::Insert {
            rev: 1,
            key: 2,
            value: 20,
        },
    ]);
    let d2 = repo.from_iter(vec![
        DisktableEntry::Delete { rev: 2, key: 1 },
        DisktableEntry::Insert {
            rev: 2,
            key: 3,
            value: 30,
        },
    ]);
    let merged = repo.merge(vec![d1, d2]);
    assert_eq!(merged.len(), 3);
    assert_eq!(merged.read_pos(0), DisktableEntry::Delete { rev: 2, key: 1 });
    assert_eq!(
        merged.read_pos(1),
        DisktableEntry::Insert {
            rev: 1,
            key: 2,
            value: 20
        }
    );
    assert_eq!(
        merged.read_pos(2),
        DisktableEntry::Insert {
            rev: 2,
            key: 3,
            value: 30
        }
    );
    assert_eq!(merged.on_disk_size(), 3 * 28);
    assert_eq!(merged.get(2), Some((20, 1)));
    assert_eq!(merged.get(1), None);
    assert_eq!(merged.get(9), None);
}
