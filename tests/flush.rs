use ferrum_store::codec::{decode_table, encode_table};
use ferrum_store::flush::{build_sst, flush, load, DataBlock, LoadError, BLOCK_SIZE};
use ferrum_store::mem_table::{MemTable, MemTableEntry};

fn table_of(n: u32) -> MemTable {
    let mut mem_table = MemTable::new();
    for i in 0..n {
        mem_table.data.push(MemTableEntry {
            e_type: "PUT".to_string(),
            key: i.to_string(),
            value: i + 10,
        });
    }
    mem_table
}

#[test]
fn test_flush() {
    let mut mem_table = MemTable::new();
    mem_table.data.push(MemTableEntry {
        e_type: "PUT".to_string(),
        key: "1".to_string(),
        value: 0,
    });

    let (bytes, new_mem_table) = flush(&mem_table);

    assert!(!std::ptr::eq(&mem_table, &new_mem_table));
    assert!(!std::ptr::eq(&mem_table.data, &new_mem_table.data));
    assert!(!std::ptr::eq(&mem_table.wal, &new_mem_table.wal));

    let sst = load(&bytes).unwrap();
    assert_eq!(sst.data_blocks.len(), 1);
    assert_eq!(sst.data_blocks[0].block, mem_table.data);
    assert_eq!(sst.index.keys, ["1"]);
}

#[test]
fn test_sst_write() {
    let mut mem_table = MemTable::new();
    for i in 0..100 {
        mem_table.data.push(MemTableEntry {
            e_type: "PUT".to_string(),
            key: i.to_string(),
            value: i + 10,
        });
    }

    let (bytes, _) = flush(&mem_table);

    let f_sst = load(&bytes).unwrap();

    assert_eq!(f_sst.data_blocks.len(), 100 / 4);
    assert_eq!(f_sst.block_size, 4);

    let mut f_sst_data: Vec<&MemTableEntry> = vec![];
    for data_block in &f_sst.data_blocks {
        for entry in &data_block.block {
            f_sst_data.push(&entry)
        }
    }

    for (i, j) in mem_table.data.iter().zip(f_sst_data.iter()) {
        assert_eq!(*i, **j);
    }

    for (i, data_block) in f_sst.data_blocks.iter().enumerate() {
        assert_eq!(
            data_block.block[f_sst.block_size - 1].key,
            f_sst.index.keys[i]
        )
    }
}

#[test]
fn flush_of_put_entries_has_sorted_blocks() {
    let mut mem_table = MemTable::new();
    for i in 0..100u32 {
        mem_table.put(i.to_string(), i + 10);
    }
    let sst = build_sst(&mem_table, 4);
    assert_eq!(sst.data_blocks.len(), 25);
    let all: Vec<MemTableEntry> = sst.data_blocks.iter().flat_map(|d| d.block.clone()).collect();
    assert_eq!(all, mem_table.data);
    for (i, d) in sst.data_blocks.iter().enumerate() {
        assert_eq!(d.block[3].key, sst.index.keys[i]);
    }
}

#[test]
fn flush_partial_last_block() {
    let mem_table = table_of(10);
    let sst = build_sst(&mem_table, 4);
    let sizes: Vec<usize> = sst.data_blocks.iter().map(|d| d.block.len()).collect();
    assert_eq!(sizes, [4, 4, 2]);
    assert_eq!(sst.index.keys, ["3", "7", "9"]);
    assert_eq!(sst.block_size, 4);
    let all: Vec<MemTableEntry> = sst.data_blocks.iter().flat_map(|d| d.block.clone()).collect();
    assert_eq!(all, mem_table.data);

    let sst = build_sst(&mem_table, 3);
    let sizes: Vec<usize> = sst.data_blocks.iter().map(|d| d.block.len()).collect();
    assert_eq!(sizes, [3, 3, 3, 1]);

    let sst = build_sst(&mem_table, 10);
    assert_eq!(sst.data_blocks.len(), 1);
    let sst = build_sst(&mem_table, 11);
    assert_eq!(sst.data_blocks.len(), 1);
    let sst = build_sst(&mem_table, 1);
    assert_eq!(sst.data_blocks.len(), 10);
}

#[test]
fn flush_of_empty_table() {
    let mem_table = MemTable::new();
    let sst = build_sst(&mem_table, BLOCK_SIZE);
    assert!(sst.data_blocks.is_empty());
    assert!(sst.index.keys.is_empty());
    let (bytes, fresh) = flush(&mem_table);
    let loaded = load(&bytes).unwrap();
    assert_eq!(loaded, sst);
    assert!(fresh.data.is_empty() && fresh.wal.is_empty());
}

#[test]
fn flush_returns_fresh_table() {
    let mut mem_table = MemTable::new();
    for i in 0..9u32 {
        mem_table.put(i.to_string(), i);
    }
    let (_, fresh) = flush(&mem_table);
    assert!(fresh.data.is_empty());
    assert!(fresh.wal.is_empty());
    assert_eq!(mem_table.data.len(), 9);
}

#[test]
fn block_hashes_are_stable_and_sensitive() {
    let sst = build_sst(&table_of(9), 4);
    for d in &sst.data_blocks {
        assert_eq!(d.hash, d.hash());
        assert!(d.is_intact());
        assert_eq!(d.hash.len(), 64);
    }
    let mut changed = sst.data_blocks[0].clone();
    changed.block[2].value += 1;
    assert_ne!(changed.hash(), sst.data_blocks[0].hash);
    assert!(!changed.is_intact());
    assert_ne!(sst.data_blocks[0].hash, sst.data_blocks[1].hash);
}

#[test]
fn block_hash_is_sha256_of_entries() {
    let mut d = DataBlock::new(4);
    assert_eq!(d.hash, "None");
    assert!(d.block.is_empty());
    d.block.push(MemTableEntry {
        e_type: "PUT".to_string(),
        key: "1".to_string(),
        value: 0,
    });
    assert_eq!(
        d.hash(),
        "AFA2A27196EDE6C75C596EAFBDE28633BC0EB6A7995FAF8444CD2A97C61A6E80"
    );
}

#[test]
fn table_round_trips_through_bytes() {
    let mut mem_table = MemTable::new();
    for k in ["pear", "apple", "fig", "grape", "kiwi", "été"] {
        mem_table.put(k.to_string(), k.len() as u32);
    }
    let sst = build_sst(&mem_table, 4);
    let bytes = encode_table(&sst);
    assert_eq!(decode_table(&bytes), Some(sst.clone()));
    assert_eq!(load(&bytes), Ok(sst));
}

#[test]
fn load_rejects_malformed_bytes() {
    let (bytes, _) = flush(&table_of(6));
    assert_eq!(load(&bytes[..bytes.len() - 1].to_vec()), Err(LoadError::Serialization));
    let mut longer = bytes.clone();
    longer.push(0);
    assert_eq!(load(&longer), Err(LoadError::Serialization));
    assert_eq!(load(&Vec::new()), Err(LoadError::Serialization));
    let mut bad_utf8 = bytes.clone();
    // the first key's only byte follows the key count and its length
    bad_utf8[16] = 0xFF;
    assert_eq!(load(&bad_utf8), Err(LoadError::Serialization));
}

#[test]
fn load_rejects_tampered_block() {
    let mem_table = table_of(6);
    let mut sst = build_sst(&mem_table, 4);
    sst.data_blocks[1].block[0].value = 99;
    let bytes = encode_table(&sst);
    assert_eq!(load(&bytes), Err(LoadError::Integrity));
    assert!(decode_table(&bytes).is_some());
}
