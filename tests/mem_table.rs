use ferrum_store::mem_table::{MemTable, MemTableEntry, MemTableWALEntry};
use ferrum_store::order::key_greater;

fn put_entry(key: &str, value: u32) -> MemTableEntry {
    MemTableEntry {
        e_type: "PUT".to_string(),
        key: key.to_string(),
        value,
    }
}

#[test]
fn test_mem_table_read_and_write() {
    let mut data: Vec<MemTableEntry> = Vec::new();
    let mut wal: Vec<MemTableWALEntry> = Vec::new();

    for i in 0..10 {
        let mem_table_entry = MemTableEntry {
            e_type: "PUT".to_string(),
            key: i.to_string(),
            value: i + 5,
        };

        data.push(mem_table_entry.clone());

        wal.push(MemTableWALEntry {
            mem_table_entry: mem_table_entry.clone(),
            checksum: mem_table_entry.hash(),
        });
    }

    let mut mem_table = MemTable { data, wal };

    assert_eq!(mem_table.get("3".to_string()).unwrap(), 8);

    assert_eq!(mem_table.get("11".to_string()), None);

    mem_table.put("21".to_string(), 26);
    mem_table.put("24".to_string(), 29);
    assert_eq!(mem_table.get("21".to_string()).unwrap(), 26);
    assert_eq!(mem_table.get("24".to_string()).unwrap(), 29);

    let keys: Vec<&String> = mem_table.data.iter().map(|i| &i.key).collect();

    assert_eq!(
        keys,
        ["0", "1", "2", "21", "24", "3", "4", "5", "6", "7", "8", "9"]
    );

    assert_eq!(
        mem_table.wal.get(10).unwrap().checksum,
        mem_table.data.get(3).unwrap().hash()
    );

    assert_eq!(mem_table.wal.len(), mem_table.data.len());
}

#[test]
fn new_table_is_empty() {
    let t = MemTable::new();
    assert!(t.data.is_empty());
    assert!(t.wal.is_empty());
    assert_eq!(t.get("a".to_string()), None);
}

#[test]
fn puts_keep_entries_sorted() {
    let mut t = MemTable::new();
    for k in ["m", "c", "x", "a", "q", "c", "b"] {
        t.put(k.to_string(), 1);
        for w in t.data.windows(2) {
            assert!(w[0].key <= w[1].key);
        }
    }
    let keys: Vec<&str> = t.data.iter().map(|e| e.key.as_str()).collect();
    assert_eq!(keys, ["a", "b", "c", "c", "m", "q", "x"]);
}

#[test]
fn wal_has_one_intact_record_per_put() {
    let mut t = MemTable::new();
    for (i, k) in ["k2", "k1", "k3"].iter().enumerate() {
        t.put(k.to_string(), i as u32);
        assert_eq!(t.wal.len(), t.data.len());
    }
    for rec in &t.wal {
        assert_eq!(rec.checksum, rec.mem_table_entry.hash());
        assert_eq!(rec.mem_table_entry.e_type, "PUT");
    }
    assert_eq!(t.wal[0].mem_table_entry, put_entry("k2", 0));
    assert_eq!(t.wal[1].mem_table_entry, put_entry("k1", 1));
    assert_eq!(t.wal[2].mem_table_entry, put_entry("k3", 2));
}

#[test]
fn lookup_finds_each_put_value() {
    let mut t = MemTable::new();
    for i in 0..50u32 {
        t.put(format!("key{}", (i * 7) % 50), i);
    }
    for i in 0..50u32 {
        assert_eq!(t.get(format!("key{}", (i * 7) % 50)), Some(i));
    }
    assert_eq!(t.get("key50".to_string()), None);
    assert_eq!(t.get("".to_string()), None);
}

#[test]
fn duplicate_key_goes_after_equal_keys() {
    let mut t = MemTable::new();
    t.put("a".to_string(), 1);
    t.put("b".to_string(), 5);
    t.put("a".to_string(), 2);
    let entries: Vec<(&str, u32)> = t.data.iter().map(|e| (e.key.as_str(), e.value)).collect();
    assert_eq!(entries, [("a", 1), ("a", 2), ("b", 5)]);
    assert_eq!(t.get("a".to_string()), Some(1));
    assert_eq!(t.wal.len(), 3);
}

#[test]
fn entry_hash_is_sha256_of_encoding() {
    let e = put_entry("1", 0);
    assert_eq!(
        e.hash(),
        "DE62E175AAC63994BCAECFFCDC2CD4CB4C95DFB40712933F2F72EFA52AA6E583"
    );
    assert_ne!(e.hash(), put_entry("1", 1).hash());
    assert_ne!(e.hash(), put_entry("2", 0).hash());
}

#[test]
fn key_order_is_byte_order() {
    let s = |x: &str| x.to_string();
    assert!(key_greater(&s("b"), &s("a")));
    assert!(!key_greater(&s("a"), &s("b")));
    assert!(!key_greater(&s("a"), &s("a")));
    assert!(key_greater(&s("ab"), &s("a")));
    assert!(!key_greater(&s(""), &s("")));
    assert!(key_greater(&s("é"), &s("z")));
    assert!(key_greater(&s("a"), &s("B")));
}
