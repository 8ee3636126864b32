//! The flush: a mem-table's entries cut into fixed-size data blocks, each
//! with a digest of its entries, and a sparse index of each block's last key.

use crate::codec::{decode_table, encode_entries, encode_table, entries_bytes, parse_table, table_bytes};
use crate::digest::{sha256_hex, sha256_upper_hex};
use crate::mem_table::{entries_view, EntryModel, MemTable, MemTableEntry};
use vstd::arithmetic::div_mod::lemma_basic_div;
use vstd::prelude::*;

verus! {

/// The number of entries in each data block that a flush writes.
pub const BLOCK_SIZE: usize = 4;

/// The last key of each data block, in block order.
#[derive(Clone, Debug, PartialEq)]
pub struct Index {
    pub keys: Vec<String>,
}

impl View for Index {
    type V = Seq<Seq<char>>;

    open spec fn view(&self) -> Seq<Seq<char>> {
        self.keys@.map_values(|k: String| k@)
    }
}

/// A run of consecutive entries and the digest of their encoding.
#[derive(Clone, Debug, PartialEq)]
pub struct DataBlock {
    pub block: Vec<MemTableEntry>,
    pub hash: String,
}

/// What a data block holds.
pub ghost struct BlockModel {
    pub entries: Seq<EntryModel>,
    pub hash: Seq<char>,
}

impl View for DataBlock {
    type V = BlockModel;

    open spec fn view(&self) -> BlockModel {
        BlockModel { entries: entries_view(self.block@), hash: self.hash@ }
    }
}

/// The immutable table that a flush produces.
#[derive(Clone, Debug, PartialEq)]
pub struct StaticSortedTable {
    pub index: Index,
    pub data_blocks: Vec<DataBlock>,
    pub block_size: usize,
}

/// What a table holds.
pub ghost struct TableModel {
    pub keys: Seq<Seq<char>>,
    pub blocks: Seq<BlockModel>,
    pub block_size: usize,
}

impl View for StaticSortedTable {
    type V = TableModel;

    open spec fn view(&self) -> TableModel {
        TableModel {
            keys: self.index@,
            blocks: self.data_blocks@.map_values(|d: DataBlock| d@),
            block_size: self.block_size,
        }
    }
}

/// The digest of a block's entries.
pub open spec fn block_hash(entries: Seq<EntryModel>) -> Seq<char> {
    sha256_upper_hex(entries_bytes(entries))
}

/// The number of blocks of at most `b` entries that `n` entries fill.
pub open spec fn num_blocks(n: nat, b: nat) -> nat {
    ((n + b - 1) / b as int) as nat
}

/// The entries of block `j` when `s` is cut into blocks of `b` entries.
pub open spec fn block_entries(s: Seq<EntryModel>, b: nat, j: int) -> Seq<EntryModel> {
    let end = if (j + 1) * b <= s.len() {
        (j + 1) * b
    } else {
        s.len() as int
    };
    s.subrange(j * b, end)
}

/// Block `j`, its entries and their digest.
pub open spec fn table_block(s: Seq<EntryModel>, b: nat, j: int) -> BlockModel {
    BlockModel { entries: block_entries(s, b, j), hash: block_hash(block_entries(s, b, j)) }
}

/// The table that a flush of the entries `s` with block size `b` produces.
pub open spec fn table_of(s: Seq<EntryModel>, b: usize) -> TableModel {
    let nb = num_blocks(s.len(), b as nat);
    TableModel {
        keys: Seq::new(nb, |j: int| block_entries(s, b as nat, j).last().key),
        blocks: Seq::new(nb, |j: int| table_block(s, b as nat, j)),
        block_size: b,
    }
}

proof fn lemma_block_start(n: int, b: int, k: int)
    requires
        b > 0,
        0 <= k < (n + b - 1) / b,
    ensures
        k * b < n,
{
    assert((k + 1) * b <= ((n + b - 1) / b) * b) by (nonlinear_arith)
        requires
            b > 0,
            0 <= k + 1 <= (n + b - 1) / b,
    ;
    assert(((n + b - 1) / b) * b <= n + b - 1) by (nonlinear_arith)
        requires
            b > 0,
    ;
    assert((k + 1) * b == k * b + b) by (nonlinear_arith);
}

proof fn lemma_last_block(n: int, b: int, k: int)
    requires
        b > 0,
        k >= 0,
        k * b < n <= k * b + b,
    ensures
        (n + b - 1) / b == k + 1,
{
    assert((n + b - 1) / b == k + 1) by (nonlinear_arith)
        requires
            b > 0,
            k >= 0,
            k * b < n <= k * b + b,
    ;
}

proof fn lemma_more_blocks(n: int, b: int, k: int)
    requires
        b > 0,
        k >= 0,
        k * b < n,
    ensures
        k < (n + b - 1) / b,
{
    assert(k < (n + b - 1) / b) by (nonlinear_arith)
        requires
            b > 0,
            k >= 0,
            k * b < n,
    ;
}

proof fn lemma_blocks_prefix(s: Seq<EntryModel>, b: nat, k: int)
    requires
        b > 0,
        0 <= k <= num_blocks(s.len(), b),
    ensures
        Seq::new(k as nat, |j: int| block_entries(s, b, j)).flatten() == s.take(
            if k * b <= s.len() {
                k * b
            } else {
                s.len() as int
            },
        ),
    decreases k,
{
    let f = |j: int| block_entries(s, b, j);
    if k == 0 {
        assert(Seq::new(0, f) =~= Seq::<Seq<EntryModel>>::empty());
        assert(s.take(0) =~= Seq::<EntryModel>::empty());
    } else {
        lemma_blocks_prefix(s, b, k - 1);
        lemma_block_start(s.len() as int, b as int, k - 1);
        assert(k * b == (k - 1) * b + b) by (nonlinear_arith);
        assert(Seq::new(k as nat, f) =~= Seq::new((k - 1) as nat, f).push(f(k - 1)));
        Seq::new((k - 1) as nat, f).lemma_flatten_push(f(k - 1));
        let end = if k * b <= s.len() {
            k * b
        } else {
            s.len() as int
        };
        assert(s.take((k - 1) * b) + s.subrange((k - 1) * b, end) =~= s.take(end));
    }
}

/// Flushing `n` entries with block size `b` gives ceil(n / b) blocks, each of
/// one to `b` entries, and the blocks' entries, concatenated in block order,
/// are the flushed entries in their order.
pub proof fn lemma_flush_complete(s: Seq<EntryModel>, b: usize)
    requires
        b > 0,
    ensures
        table_of(s, b).blocks.len() == num_blocks(s.len(), b as nat),
        num_blocks(s.len(), b as nat) * b >= s.len(),
        num_blocks(s.len(), b as nat) * b < s.len() + b,
        forall|j: int|
            0 <= j < table_of(s, b).blocks.len() ==> 1 <= (#[trigger] table_of(
                s,
                b,
            ).blocks[j]).entries.len() <= b,
        table_of(s, b).blocks.map_values(|d: BlockModel| d.entries).flatten() == s,
{
    let n = s.len() as int;
    let nb = num_blocks(s.len(), b as nat) as int;
    let bi = b as int;
    assert(nb * bi >= n && nb * bi < n + bi) by (nonlinear_arith)
        requires
            bi > 0,
            n >= 0,
            nb == (n + bi - 1) / bi,
    ;
    lemma_blocks_prefix(s, b as nat, nb);
    assert(table_of(s, b).blocks.map_values(|d: BlockModel| d.entries) =~= Seq::new(
        nb as nat,
        |j: int| block_entries(s, b as nat, j),
    ));
    assert(s.take(n) =~= s);
    assert forall|j: int| 0 <= j < table_of(s, b).blocks.len() implies 1 <= (#[trigger] table_of(
        s,
        b,
    ).blocks[j]).entries.len() <= b by {
        lemma_block_start(n, bi, j);
        assert((j + 1) * bi == j * bi + bi) by (nonlinear_arith);
    }
}

/// Index entry `j` is the key of the last entry of block `j`, and there is
/// one index entry per block.
pub proof fn lemma_index_correct(s: Seq<EntryModel>, b: usize)
    requires
        b > 0,
    ensures
        table_of(s, b).keys.len() == table_of(s, b).blocks.len(),
        forall|j: int|
            0 <= j < table_of(s, b).keys.len() ==> (#[trigger] table_of(s, b).blocks[j]).entries.len()
                > 0 && table_of(s, b).keys[j] == table_of(s, b).blocks[j].entries.last().key,
{
    lemma_flush_complete(s, b);
}

impl DataBlock {
    /// An empty block, not yet hashed.
    pub fn new(block_size: usize) -> (r: DataBlock)
        ensures
            r@.entries.len() == 0,
            r@.hash == seq!['N', 'o', 'n', 'e'],
    {
        let hash = "None".to_owned();
        proof {
            reveal_strlit("None");
            assert(hash@ =~= seq!['N', 'o', 'n', 'e']);
        }
        DataBlock { block: Vec::with_capacity(block_size), hash }
    }

    /// The digest of this block's entries.
    pub fn hash(&self) -> (r: String)
        ensures
            r@ == block_hash(self@.entries),
    {
        let bytes = encode_entries(&self.block);
        sha256_hex(&bytes)
    }

    /// Whether the stored digest is the digest of the block's entries.
    pub fn is_intact(&self) -> (r: bool)
        ensures
            r == (self@.hash == block_hash(self@.entries)),
    {
        let h = self.hash();
        h == self.hash
    }
}

/// Cuts the entries of `mem_table` into blocks of `block_size` entries, in
/// order, hashes each block, and indexes each block by its last key.
pub fn build_sst(mem_table: &MemTable, block_size: usize) -> (r: StaticSortedTable)
    requires
        block_size > 0,
    ensures
        r@ == table_of(mem_table.entries(), block_size),
{
    let ghost s = mem_table.entries();
    let ghost b = block_size as nat;
    let n = mem_table.data.len();
    let mut blocks: Vec<DataBlock> = Vec::new();
    let mut keys: Vec<String> = Vec::new();
    let mut start: usize = 0;
    proof {
        if n == 0 {
            lemma_basic_div(b - 1, b as int);
        } else {
            lemma_more_blocks(n as int, b as int, 0);
        }
    }
    while start < n
        invariant
            s == mem_table.entries(),
            b == block_size as nat,
            b > 0,
            n == s.len(),
            start <= n,
            start < n ==> start == blocks@.len() * b,
            start < n ==> blocks@.len() < num_blocks(n as nat, b),
            start == n ==> blocks@.len() == num_blocks(n as nat, b),
            keys@.len() == blocks@.len(),
            blocks@.map_values(|d: DataBlock| d@) =~= Seq::new(
                blocks@.len(),
                |j: int| table_block(s, b, j),
            ),
            keys@.map_values(|k: String| k@) =~= Seq::new(
                blocks@.len(),
                |j: int| block_entries(s, b, j).last().key,
            ),
        decreases n - start,
    {
        let ghost j = blocks@.len() as int;
        let end = if n - start > block_size {
            start + block_size
        } else {
            n
        };
        assert((j + 1) * b == j * b + b) by (nonlinear_arith);
        assert(block_entries(s, b, j) == s.subrange(start as int, end as int));
        let mut block = DataBlock::new(block_size);
        let mut k: usize = start;
        while k < end
            invariant
                s == mem_table.entries(),
                start <= k <= end <= n,
                n == s.len(),
                entries_view(block.block@) =~= s.subrange(start as int, k as int),
            decreases end - k,
        {
            let ghost prev = block.block@;
            let e = mem_table.data[k].copy();
            block.block.push(e);
            assert(s[k as int] == mem_table.data@[k as int]@);
            assert(entries_view(block.block@) =~= entries_view(prev).push(s[k as int]));
            assert(entries_view(block.block@) =~= s.subrange(start as int, k + 1));
            k += 1;
        }
        block.hash = block.hash();
        assert(block@ == table_block(s, b, j));
        let last_key = block.block[block.block.len() - 1].key.clone();
        assert(last_key@ == block_entries(s, b, j).last().key);
        let ghost old_blocks = blocks@;
        let ghost old_keys = keys@;
        keys.push(last_key);
        blocks.push(block);
        proof {
            assert(blocks@.map_values(|d: DataBlock| d@) =~= old_blocks.map_values(
                |d: DataBlock| d@,
            ).push(table_block(s, b, j)));
            assert(keys@.map_values(|k: String| k@) =~= old_keys.map_values(|k: String| k@).push(
                block_entries(s, b, j).last().key,
            ));
            if end == n {
                lemma_last_block(n as int, b as int, j);
            } else {
                assert(end == (j + 1) * b);
                lemma_more_blocks(n as int, b as int, j + 1);
            }
        }
        start = end;
    }
    StaticSortedTable { index: Index { keys }, data_blocks: blocks, block_size }
}


/// Every block's stored digest is the digest of its entries.
pub open spec fn table_intact(t: TableModel) -> bool {
    forall|j: int|
        0 <= j < t.blocks.len() ==> (#[trigger] t.blocks[j]).hash == block_hash(t.blocks[j].entries)
}

/// A flush stores in every block the digest of that block's entries, so
/// hashing a block's entries again gives its stored digest.
pub proof fn lemma_flushed_blocks_intact(s: Seq<EntryModel>, b: usize)
    ensures
        table_intact(table_of(s, b)),
{
}

/// Flushes the entries of `mem_table` into blocks of `BLOCK_SIZE` entries.
/// Returns the bytes of the table, to be persisted as one unit, and a fresh
/// empty mem-table to take the flushed one's place.
pub fn flush(mem_table: &MemTable) -> (r: (Vec<u8>, MemTable))
    ensures
        r.0@ == table_bytes(table_of(mem_table.entries(), BLOCK_SIZE)),
        parse_table(r.0@) == Some(table_of(mem_table.entries(), BLOCK_SIZE)),
        r.1.data@.len() == 0,
        r.1.wal@.len() == 0,
        r.1.wf(),
{
    let sst = build_sst(mem_table, BLOCK_SIZE);
    let bytes = encode_table(&sst);
    proof {
        crate::codec::lemma_table_round_trip(sst@);
    }
    (bytes, MemTable::new())
}

/// Why persisted bytes could not be loaded as a table.
#[derive(Clone, Copy, Debug, PartialEq, Eq)]
pub enum LoadError {
    /// The bytes do not hold exactly one table.
    Serialization,
    /// A block's stored digest is not the digest of its entries.
    Integrity,
}

/// Reads a table from its bytes and checks every block's digest.
pub fn load(bytes: &Vec<u8>) -> (r: Result<StaticSortedTable, LoadError>)
    ensures
        match r {
            Ok(t) => parse_table(bytes@) == Some(t@) && table_intact(t@),
            Err(LoadError::Serialization) => parse_table(bytes@) is None,
            Err(LoadError::Integrity) => parse_table(bytes@) matches Some(m) && !table_intact(m),
        },
{
    let t = match decode_table(bytes) {
        Some(t) => t,
        None => return Err(LoadError::Serialization),
    };
    let mut j: usize = 0;
    while j < t.data_blocks.len()
        invariant
            j <= t.data_blocks@.len(),
            parse_table(bytes@) == Some(t@),
            forall|i: int| 0 <= i < j ==> (#[trigger] t@.blocks[i]).hash == block_hash(
                t@.blocks[i].entries,
            ),
        decreases t.data_blocks@.len() - j,
    {
        if !t.data_blocks[j].is_intact() {
            assert(t@.blocks[j as int] == t.data_blocks@[j as int]@);
            return Err(LoadError::Integrity);
        }
        assert(t@.blocks[j as int] == t.data_blocks@[j as int]@);
        j += 1;
    }
    Ok(t)
}

} // verus!
