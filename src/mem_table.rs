//! The mem-table: entries kept in key order, and a write-ahead log that
//! records every mutation with a checksum.

use crate::codec::{encode_entry, entry_bytes};
use crate::digest::{sha256_hex, sha256_upper_hex};
use crate::order::{key_bytes, key_greater, key_le, key_lt, lemma_bytes_lt_asymmetric};
use vstd::prelude::*;

verus! {

/// One mutation: an operation tag, a key and a value.
#[derive(Clone, Debug, PartialEq)]
pub struct MemTableEntry {
    pub e_type: String,
    pub key: String,
    pub value: u32,
}

/// What an entry holds.
pub ghost struct EntryModel {
    pub op: Seq<char>,
    pub key: Seq<char>,
    pub value: u32,
}

impl View for MemTableEntry {
    type V = EntryModel;

    open spec fn view(&self) -> EntryModel {
        EntryModel { op: self.e_type@, key: self.key@, value: self.value }
    }
}

/// The checksum of an entry: the digest of its encoding.
pub open spec fn entry_checksum(e: EntryModel) -> Seq<char> {
    sha256_upper_hex(entry_bytes(e))
}

/// The tag of an insertion.
pub open spec fn put_tag() -> Seq<char> {
    seq!['P', 'U', 'T']
}

impl MemTableEntry {
    /// The checksum of this entry.
    pub fn hash(&self) -> (r: String)
        ensures
            r@ == entry_checksum(self@),
    {
        let bytes = encode_entry(self);
        sha256_hex(&bytes)
    }

    /// A copy of this entry.
    pub fn copy(&self) -> (r: MemTableEntry)
        ensures
            r == *self,
    {
        MemTableEntry { e_type: self.e_type.clone(), key: self.key.clone(), value: self.value }
    }
}

/// A write-ahead log record: an entry and its checksum.
#[derive(Clone, Debug, PartialEq)]
pub struct MemTableWALEntry {
    pub mem_table_entry: MemTableEntry,
    pub checksum: String,
}

/// The record's checksum matches its entry.
pub open spec fn record_intact(r: MemTableWALEntry) -> bool {
    r.checksum@ == entry_checksum(r.mem_table_entry@)
}

/// The entries of a sequence, as models.
pub open spec fn entries_view(s: Seq<MemTableEntry>) -> Seq<EntryModel> {
    s.map_values(|e: MemTableEntry| e@)
}

/// Each entry's key sorts no later than the next one's.
pub open spec fn sorted_by_key(s: Seq<EntryModel>) -> bool {
    forall|i: int| 0 <= i < s.len() - 1 ==> key_le(#[trigger] s[i].key, s[i + 1].key)
}

/// Where a new entry with key `k` goes: before the first entry whose key is
/// strictly greater, or at the end.
pub open spec fn insert_pos(s: Seq<EntryModel>, k: Seq<char>) -> int
    decreases s.len(),
{
    if s.len() == 0 {
        0
    } else if key_lt(k, s[0].key) {
        0
    } else {
        1 + insert_pos(s.drop_first(), k)
    }
}

/// The entries after an insertion of `e`.
pub open spec fn insert_entry(s: Seq<EntryModel>, e: EntryModel) -> Seq<EntryModel> {
    s.insert(insert_pos(s, e.key), e)
}

/// The value of the first entry with key `k`, if any.
pub open spec fn lookup(s: Seq<EntryModel>, k: Seq<char>) -> Option<u32>
    decreases s.len(),
{
    if s.len() == 0 {
        None
    } else if s[0].key == k {
        Some(s[0].value)
    } else {
        lookup(s.drop_first(), k)
    }
}

/// Where `insert_pos` lands: every entry before it sorts no later than `k`,
/// and the entry at it, if any, sorts strictly after `k`.
pub proof fn lemma_insert_pos(s: Seq<EntryModel>, k: Seq<char>)
    ensures
        0 <= insert_pos(s, k) <= s.len(),
        forall|j: int| 0 <= j < insert_pos(s, k) ==> key_le(#[trigger] s[j].key, k),
        insert_pos(s, k) < s.len() ==> key_lt(k, s[insert_pos(s, k)].key),
    decreases s.len(),
{
    if s.len() > 0 && !key_lt(k, s[0].key) {
        lemma_insert_pos(s.drop_first(), k);
        assert forall|j: int| 0 <= j < insert_pos(s, k) implies key_le(#[trigger] s[j].key, k) by {
            if j > 0 {
                assert(s[j] == s.drop_first()[j - 1]);
            }
        }
    }
}

/// Inserting an entry keeps a sorted sequence sorted.
pub proof fn lemma_insert_sorted(s: Seq<EntryModel>, e: EntryModel)
    requires
        sorted_by_key(s),
    ensures
        sorted_by_key(insert_entry(s, e)),
{
    lemma_insert_pos(s, e.key);
    let p = insert_pos(s, e.key);
    let t = insert_entry(s, e);
    assert forall|j: int| 0 <= j < t.len() - 1 implies key_le(#[trigger] t[j].key, t[j + 1].key) by {
        if j < p - 1 {
            assert(t[j] == s[j] && t[j + 1] == s[j + 1]);
        } else if j == p - 1 {
            assert(t[j] == s[j] && t[j + 1] == e);
        } else if j == p {
            assert(t[j] == e && t[j + 1] == s[p]);
            lemma_bytes_lt_asymmetric(
                key_bytes(e.key),
                key_bytes(s[p].key),
            );
        } else {
            assert(t[j] == s[j - 1] && t[j + 1] == s[j]);
        }
    }
}

/// Inserting an entry under another key leaves the lookup of `k` as it was.
pub proof fn lemma_lookup_insert_other(s: Seq<EntryModel>, e: EntryModel, k: Seq<char>)
    requires
        e.key != k,
    ensures
        lookup(insert_entry(s, e), k) == lookup(s, k),
{
    lemma_insert_pos(s, e.key);
    lemma_lookup_insert_at_other(s, insert_pos(s, e.key), e, k);
}

proof fn lemma_lookup_insert_at_other(s: Seq<EntryModel>, p: int, e: EntryModel, k: Seq<char>)
    requires
        e.key != k,
        0 <= p <= s.len(),
    ensures
        lookup(s.insert(p, e), k) == lookup(s, k),
    decreases s.len(),
{
    let t = s.insert(p, e);
    if p == 0 {
        assert(t.drop_first() =~= s);
    } else {
        assert(t[0] == s[0]);
        assert(t.drop_first() =~= s.drop_first().insert(p - 1, e));
        lemma_lookup_insert_at_other(s.drop_first(), p - 1, e, k);
    }
}

/// Where no entry has key `k`, inserting one with key `k` makes its value
/// the one found.
pub proof fn lemma_lookup_insert_new(s: Seq<EntryModel>, e: EntryModel)
    requires
        lookup(s, e.key) is None,
    ensures
        lookup(insert_entry(s, e), e.key) == Some(e.value),
{
    lemma_insert_pos(s, e.key);
    lemma_lookup_insert_at_new(s, insert_pos(s, e.key), e);
}

proof fn lemma_lookup_insert_at_new(s: Seq<EntryModel>, p: int, e: EntryModel)
    requires
        lookup(s, e.key) is None,
        0 <= p <= s.len(),
    ensures
        lookup(s.insert(p, e), e.key) == Some(e.value),
    decreases s.len(),
{
    let t = s.insert(p, e);
    if p > 0 {
        assert(t[0] == s[0]);
        assert(t.drop_first() =~= s.drop_first().insert(p - 1, e));
        lemma_lookup_insert_at_new(s.drop_first(), p - 1, e);
    }
}

/// The entry that `put(key, value)` adds.
pub open spec fn put_entry(key: Seq<char>, value: u32) -> EntryModel {
    EntryModel { op: put_tag(), key, value }
}

/// The entries after a sequence of `put` calls on `s`.
pub open spec fn apply_puts(s: Seq<EntryModel>, ops: Seq<(Seq<char>, u32)>) -> Seq<EntryModel>
    decreases ops.len(),
{
    if ops.len() == 0 {
        s
    } else {
        insert_entry(apply_puts(s, ops.drop_last()), put_entry(ops.last().0, ops.last().1))
    }
}

/// After any sequence of `put` calls on an empty mem-table the entries are
/// sorted by key.
pub proof fn lemma_puts_sorted(ops: Seq<(Seq<char>, u32)>)
    ensures
        sorted_by_key(apply_puts(Seq::empty(), ops)),
    decreases ops.len(),
{
    if ops.len() > 0 {
        lemma_puts_sorted(ops.drop_last());
        lemma_insert_sorted(
            apply_puts(Seq::empty(), ops.drop_last()),
            put_entry(ops.last().0, ops.last().1),
        );
    }
}

/// After a sequence of `put` calls on an empty mem-table, a key that one call
/// alone put is found with that call's value, and a key that no call put is
/// not found.
pub proof fn lemma_puts_lookup(ops: Seq<(Seq<char>, u32)>, k: Seq<char>)
    requires
        forall|i: int, j: int|
            0 <= i < ops.len() && 0 <= j < ops.len() && #[trigger] ops[i].0 == k
                && #[trigger] ops[j].0 == k ==> i == j,
    ensures
        (forall|i: int| 0 <= i < ops.len() ==> #[trigger] ops[i].0 != k) ==> lookup(
            apply_puts(Seq::empty(), ops),
            k,
        ) is None,
        forall|i: int|
            0 <= i < ops.len() && #[trigger] ops[i].0 == k ==> lookup(
                apply_puts(Seq::empty(), ops),
                k,
            ) == Some(ops[i].1),
    decreases ops.len(),
{
    if ops.len() > 0 {
        let init = ops.drop_last();
        assert forall|i: int, j: int|
            0 <= i < init.len() && 0 <= j < init.len() && #[trigger] init[i].0 == k
                && #[trigger] init[j].0 == k implies i == j by {
            assert(ops[i] == init[i] && ops[j] == init[j]);
        }
        lemma_puts_lookup(init, k);
        let prev = apply_puts(Seq::empty(), init);
        let e = put_entry(ops.last().0, ops.last().1);
        if ops.last().0 == k {
            assert forall|i: int| 0 <= i < init.len() implies #[trigger] init[i].0 != k by {
                assert(ops[i] == init[i]);
                if init[i].0 == k {
                    assert(ops[ops.len() - 1].0 == k);
                }
            }
            lemma_lookup_insert_new(prev, e);
        } else {
            lemma_lookup_insert_other(prev, e, k);
            assert forall|i: int| 0 <= i < ops.len() - 1 && #[trigger] ops[i].0 == k implies init[i].0
                == k && init[i].1 == ops[i].1 by {}
        }
    }
}

/// Inserts `entry` before the first entry whose key sorts strictly after its
/// key, or at the end.
fn insert_sorted(data: &mut Vec<MemTableEntry>, entry: MemTableEntry)
    ensures
        entries_view(final(data)@) == insert_entry(entries_view(old(data)@), entry@),
{
    let ghost s = entries_view(data@);
    let ghost e = entry@;
    let mut i: usize = 0;
    assert(s.skip(0) =~= s);
    while i < data.len()
        invariant
            i <= data@.len(),
            data@ == old(data)@,
            s == entries_view(data@),
            e == entry@,
            insert_pos(s, e.key) == i + insert_pos(s.skip(i as int), e.key),
        decreases data@.len() - i,
    {
        if key_greater(&data[i].key, &entry.key) {
            data.insert(i, entry);
            assert(entries_view(data@) =~= s.insert(i as int, e));
            return;
        }
        assert(s.skip(i as int).drop_first() =~= s.skip(i + 1));
        i += 1;
    }
    data.push(entry);
    assert(entries_view(data@) =~= s.insert(i as int, e));
}

/// The mem-table: sorted entries, and one log record per mutation.
#[derive(Clone, Debug, PartialEq)]
pub struct MemTable {
    pub data: Vec<MemTableEntry>,
    pub wal: Vec<MemTableWALEntry>,
}

impl MemTable {
    /// The entries, in order.
    pub open spec fn entries(&self) -> Seq<EntryModel> {
        entries_view(self.data@)
    }

    /// Entries sorted, a log record per entry, and every record intact.
    pub open spec fn wf(&self) -> bool {
        &&& sorted_by_key(self.entries())
        &&& self.wal@.len() == self.data@.len()
        &&& forall|i: int| 0 <= i < self.wal@.len() ==> record_intact(#[trigger] self.wal@[i])
    }

    /// An empty mem-table.
    pub fn new() -> (r: MemTable)
        ensures
            r.data@.len() == 0,
            r.wal@.len() == 0,
            r.wf(),
    {
        MemTable { data: Vec::new(), wal: Vec::new() }
    }

    /// The value of the first entry with this key, if any.
    pub fn get(&self, key: String) -> (r: Option<u32>)
        ensures
            r == lookup(self.entries(), key@),
    {
        let ghost s = self.entries();
        let mut i: usize = 0;
        assert(s.skip(0) =~= s);
        while i < self.data.len()
            invariant
                i <= self.data@.len(),
                s == self.entries(),
                lookup(s, key@) == lookup(s.skip(i as int), key@),
            decreases self.data@.len() - i,
        {
            if self.data[i].key == key {
                return Some(self.data[i].value);
            }
            assert(s.skip(i as int).drop_first() =~= s.skip(i + 1));
            i += 1;
        }
        None
    }

    /// Logs an insertion of `value` under `key`, then inserts the entry before
    /// the first entry whose key sorts strictly after `key`, or at the end.
    pub fn put(&mut self, key: String, value: u32)
        ensures
            final(self).entries() == insert_entry(old(self).entries(), put_entry(key@, value)),
            final(self).wal@.len() == old(self).wal@.len() + 1,
            final(self).wal@.drop_last() == old(self).wal@,
            final(self).wal@.last().mem_table_entry@ == put_entry(key@, value),
            record_intact(final(self).wal@.last()),
            old(self).wf() ==> final(self).wf(),
    {
        let tag = "PUT".to_owned();
        proof {
            reveal_strlit("PUT");
            assert(tag@ =~= put_tag());
        }
        let entry = MemTableEntry { e_type: tag, key, value };
        assert(entry@ == put_entry(key@, value));
        let checksum = entry.hash();
        self.wal.push(MemTableWALEntry { mem_table_entry: entry.copy(), checksum });
        assert(self.wal@.drop_last() =~= old(self).wal@);
        insert_sorted(&mut self.data, entry);
        proof {
            if old(self).wf() {
                lemma_insert_sorted(old(self).entries(), put_entry(key@, value));
                lemma_insert_pos(old(self).entries(), key@);
                assert(self.entries().len() == self.data@.len());
                assert(old(self).entries().len() == old(self).data@.len());
                assert forall|i: int| 0 <= i < self.wal@.len() implies record_intact(
                    #[trigger] self.wal@[i],
                ) by {
                    if i < old(self).wal@.len() {
                        assert(self.wal@[i] == old(self).wal@[i]);
                    }
                }
            }
        }
    }
}

} // verus!
