use hasty::hash_table::HashTable;
use hasty::linear_probing::{LPHashTable, LPHashTableEntry, LPHashTableOptions};
use rand::Rng;
use std::collections::HashMap;

#[test]
fn linear_probing_entry() {
    let test_entries = vec![
        LPHashTableEntry(None),
        LPHashTableEntry(Some((0, 0))),
        LPHashTableEntry(Some((1, 1))),
        LPHashTableEntry(Some((u64::MAX, u64::MAX))),
    ];
    for entry in test_entries {
        let bytes = entry.serialize();
        assert_eq!(bytes.len(), LPHashTableEntry::bin_size());
        let entry2 = LPHashTableEntry::deserialize(&bytes).unwrap();
        assert_eq!(entry, entry2);
    }
}

#[test]
fn linear_probing_check_correctness() {
    let filename = "lp1.bin".to_string();
    let mut my_table = LPHashTable::new(&LPHashTableOptions {
        filename: filename.clone(),
    });
    let mut table = HashMap::new();
    const ITERS: usize = 1e4 as usize;
    let mut rng = rand::thread_rng();
    for _ in 0..ITERS {
        let key = rng.gen::<u64>();
        let value = rng.gen::<u64>();
        my_table.set(key, value);
        table.insert(key, value);
    }
    for _ in 0..ITERS {
        let key = rng.gen::<u64>();
        assert_eq!(my_table.get(key), table.get(&key).copied());
    }
}

#[test]
fn lib_check_correctness() {
    let filename = "lp1.bin".to_string();
    let mut my_table = LPHashTable::new(&LPHashTableOptions {
        filename: filename.clone(),
    });
    let mut table = HashMap::new();
    const ITERS: usize = 1e4 as usize;
    let mut rng = rand::thread_rng();
    for _ in 0..ITERS {
        let key = rng.gen::<u64>();
        let value = rng.gen::<u64>();
        my_table.set(key, value);
        table.insert(key, value);
        assert_eq!(my_table.len(), table.len());
    }
    for _ in 0..ITERS {
        let key = rng.gen::<u64>();
        assert_eq!(my_table.get(key), table.get(&key).copied());
    }
}

#[test]
fn lp_round_trip() {
    let mut table = LPHashTable::new(&LPHashTableOptions {
        filename: "lp_round_trip.bin".to_string(),
    });
    table.set(7, 42);
    table.set(9, 99);
    table.set(7, 1234);
    assert_eq!(table.get(7), Some(1234));
    assert_eq!(table.get(9), Some(99));
    assert_eq!(table.get(11), None);
    assert_eq!(table.len(), 2);
}

#[test]
fn lp_growth() {
    let mut table = LPHashTable::new(&LPHashTableOptions {
        filename: "lp_growth.bin".to_string(),
    });
    let initial_size = table.on_disk_size();
    let initial_slots = initial_size / LPHashTableEntry::bin_size();
    // Insert enough distinct keys to reach the 0.5 load factor and trigger
    // one incremental growth step.
    let k = (initial_slots / 2) as u64;
    for i in 0..k {
        table.set(i, i);
    }
    assert_eq!(table.len(), k as usize);
    for i in 0..k {
        assert_eq!(table.get(i), Some(i), "key {} lost", i);
    }
    let grown_size = table.on_disk_size();
    assert!(
        grown_size >= initial_size + initial_slots * LPHashTableEntry::bin_size(),
        "file did not grow by at least one block"
    );
    assert_eq!(grown_size % LPHashTableEntry::bin_size(), 0);
}

#[test]
fn lp_remove_is_idempotent_on_missing() {
    let mut table = LPHashTable::new(&LPHashTableOptions {
        filename: "lp_remove.bin".to_string(),
    });
    table.set(5, 50);
    table.remove(17);
    table.remove(17);
    assert_eq!(table.len(), 1);
    assert_eq!(table.get(5), Some(50));
    table.remove(5);
    assert_eq!(table.len(), 0);
    assert_eq!(table.get(5), None);
}

#[test]
fn lp_entry_layout() {
    // One discriminator byte, then key and value as 8-byte little-endian.
    let bytes = LPHashTableEntry(Some((0x0102030405060708, 1))).serialize();
    assert_eq!(
        bytes,
        vec![1, 0x08, 0x07, 0x06, 0x05, 0x04, 0x03, 0x02, 0x01, 1, 0, 0, 0, 0, 0, 0, 0]
    );
    let empty = LPHashTableEntry(None).serialize();
    assert_eq!(empty, vec![0u8; 17]);
}

#[test]
fn lp_decode_rejects_corrupt_slots() {
    // Too short for an occupied slot.
    assert_eq!(LPHashTableEntry::deserialize(&[1u8; 5]), None);
    // Unknown discriminator byte.
    assert_eq!(LPHashTableEntry::deserialize(&[2u8; 17]), None);
    // Empty buffer.
    assert_eq!(LPHashTableEntry::deserialize(&[]), None);
}

#[test]
fn lp_file_image_matches_size() {
    let mut table = LPHashTable::new(&LPHashTableOptions {
        filename: "lp_image.bin".to_string(),
    });
    table.set(3, 33);
    let image = table.file_bytes();
    assert_eq!(image.len(), table.on_disk_size());
    // The occupied slot is somewhere in the image: its 17-byte record must
    // appear at a slot boundary.
    let record = LPHashTableEntry(Some((3, 33))).serialize();
    let mut found = false;
    let mut pos = 0;
    while pos + 17 <= image.len() {
        if &image[pos..pos + 17] == record.as_slice() {
            found = true;
        }
        pos += 17;
    }
    assert!(found);
}
