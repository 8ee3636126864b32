//! The byte encoding shared by the integrity digests and the persisted table:
//! integers are little-endian, a string is its UTF-8 byte length followed by
//! those bytes, and a list is its item count followed by its items in order.

use crate::flush::{BlockModel, DataBlock, Index, StaticSortedTable, TableModel};
use crate::mem_table::{EntryModel, MemTableEntry};
use vstd::bytes::{
    lemma_auto_spec_u32_to_from_le_bytes, lemma_auto_spec_u64_to_from_le_bytes,
    spec_u32_from_le_bytes, spec_u32_to_le_bytes, spec_u64_from_le_bytes, spec_u64_to_le_bytes,
    u32_to_le_bytes, u64_to_le_bytes,
};
use vstd::prelude::*;
use vstd::utf8::{decode_utf8, encode_utf8, encode_utf8_decode_utf8, encode_utf8_valid_utf8, valid_utf8};

verus! {

/// A string: its UTF-8 byte length, then those bytes.
pub open spec fn str_bytes(s: Seq<char>) -> Seq<u8> {
    spec_u64_to_le_bytes(encode_utf8(s).len() as u64) + encode_utf8(s)
}

/// The string's byte length can be written in the length field.
pub open spec fn str_fits(s: Seq<char>) -> bool {
    encode_utf8(s).len() <= u64::MAX
}

/// An entry: its operation tag, its key, then its value.
pub open spec fn entry_bytes(e: EntryModel) -> Seq<u8> {
    str_bytes(e.op) + str_bytes(e.key) + spec_u32_to_le_bytes(e.value)
}

/// Both strings of the entry can be written with their length fields.
pub open spec fn entry_fits(e: EntryModel) -> bool {
    str_fits(e.op) && str_fits(e.key)
}

/// The encodings of `items`, one after another.
pub open spec fn concat_bytes<T>(items: Seq<T>, f: spec_fn(T) -> Seq<u8>) -> Seq<u8>
    decreases items.len(),
{
    if items.len() == 0 {
        Seq::empty()
    } else {
        concat_bytes(items.drop_last(), f) + f(items.last())
    }
}

/// A list: its item count, then the items' encodings in order.
pub open spec fn list_bytes<T>(items: Seq<T>, f: spec_fn(T) -> Seq<u8>) -> Seq<u8> {
    spec_u64_to_le_bytes(items.len() as u64) + concat_bytes(items, f)
}

/// The entries of a block, as a list.
pub open spec fn entries_bytes(entries: Seq<EntryModel>) -> Seq<u8> {
    list_bytes(entries, |e: EntryModel| entry_bytes(e))
}


/// A data block: its entries, then its digest.
pub open spec fn block_bytes(d: BlockModel) -> Seq<u8> {
    entries_bytes(d.entries) + str_bytes(d.hash)
}

/// The index keys, as a list.
pub open spec fn keys_bytes(keys: Seq<Seq<char>>) -> Seq<u8> {
    list_bytes(keys, |k: Seq<char>| str_bytes(k))
}

/// The data blocks, as a list.
pub open spec fn blocks_bytes(blocks: Seq<BlockModel>) -> Seq<u8> {
    list_bytes(blocks, |d: BlockModel| block_bytes(d))
}

/// A table: its index keys, its data blocks, then its block size.
pub open spec fn table_bytes(t: TableModel) -> Seq<u8> {
    keys_bytes(t.keys) + blocks_bytes(t.blocks) + spec_u64_to_le_bytes(t.block_size as u64)
}

/// The block's entry count, its entries and its digest can be written.
pub open spec fn block_fits(d: BlockModel) -> bool {
    &&& d.entries.len() <= u64::MAX
    &&& forall|i: int| 0 <= i < d.entries.len() ==> entry_fits(#[trigger] d.entries[i])
    &&& str_fits(d.hash)
}

/// Every length and count of the table can be written in its field.
pub open spec fn table_fits(t: TableModel) -> bool {
    &&& t.keys.len() <= u64::MAX
    &&& t.blocks.len() <= u64::MAX
    &&& forall|i: int| 0 <= i < t.keys.len() ==> str_fits(#[trigger] t.keys[i])
    &&& forall|i: int| 0 <= i < t.blocks.len() ==> block_fits(#[trigger] t.blocks[i])
}

/// A result of a parse: the value read and the bytes after it.
pub type Parsed<T> = Option<(T, Seq<u8>)>;

/// Eight little-endian bytes.
pub open spec fn parse_u64(b: Seq<u8>) -> Parsed<u64> {
    if b.len() >= 8 {
        Some((spec_u64_from_le_bytes(b.take(8)), b.skip(8)))
    } else {
        None
    }
}

/// Four little-endian bytes.
pub open spec fn parse_u32(b: Seq<u8>) -> Parsed<u32> {
    if b.len() >= 4 {
        Some((spec_u32_from_le_bytes(b.take(4)), b.skip(4)))
    } else {
        None
    }
}

/// A byte length, then that many bytes of valid UTF-8.
pub open spec fn parse_str(b: Seq<u8>) -> Parsed<Seq<char>> {
    match parse_u64(b) {
        Some((n, r)) => if n <= r.len() && valid_utf8(r.take(n as int)) {
            Some((decode_utf8(r.take(n as int)), r.skip(n as int)))
        } else {
            None
        },
        None => None,
    }
}

/// An operation tag, a key, then a value.
pub open spec fn parse_entry(b: Seq<u8>) -> Parsed<EntryModel> {
    match parse_str(b) {
        Some((op, r1)) => match parse_str(r1) {
            Some((key, r2)) => match parse_u32(r2) {
                Some((value, r3)) => Some((EntryModel { op, key, value }, r3)),
                None => None,
            },
            None => None,
        },
        None => None,
    }
}

/// `pre` put in front of the items of a parse.
pub open spec fn prepend<T>(pre: Seq<T>, r: Parsed<Seq<T>>) -> Parsed<Seq<T>> {
    match r {
        Some((items, rest)) => Some((pre + items, rest)),
        None => None,
    }
}

/// `count` items, one after another, each read by `p`.
pub open spec fn parse_items<T>(
    b: Seq<u8>,
    count: nat,
    p: spec_fn(Seq<u8>) -> Parsed<T>,
) -> Parsed<Seq<T>>
    decreases count,
{
    if count == 0 {
        Some((Seq::empty(), b))
    } else {
        match p(b) {
            Some((x, r)) => prepend(seq![x], parse_items(r, (count - 1) as nat, p)),
            None => None,
        }
    }
}

/// An item count, then that many items.
pub open spec fn parse_list<T>(b: Seq<u8>, p: spec_fn(Seq<u8>) -> Parsed<T>) -> Parsed<Seq<T>> {
    match parse_u64(b) {
        Some((n, r)) => parse_items(r, n as nat, p),
        None => None,
    }
}

/// A list of entries.
pub open spec fn parse_entries(b: Seq<u8>) -> Parsed<Seq<EntryModel>> {
    parse_list(b, |x: Seq<u8>| parse_entry(x))
}

/// A list of entries, then a digest.
pub open spec fn parse_block(b: Seq<u8>) -> Parsed<BlockModel> {
    match parse_entries(b) {
        Some((entries, r1)) => match parse_str(r1) {
            Some((hash, r2)) => Some((BlockModel { entries, hash }, r2)),
            None => None,
        },
        None => None,
    }
}

/// A list of index keys.
pub open spec fn parse_keys(b: Seq<u8>) -> Parsed<Seq<Seq<char>>> {
    parse_list(b, |x: Seq<u8>| parse_str(x))
}

/// A list of data blocks.
pub open spec fn parse_blocks(b: Seq<u8>) -> Parsed<Seq<BlockModel>> {
    parse_list(b, |x: Seq<u8>| parse_block(x))
}

/// The table that the bytes `b` hold, where they hold exactly one.
pub open spec fn parse_table(b: Seq<u8>) -> Option<TableModel> {
    match parse_keys(b) {
        Some((keys, r1)) => match parse_blocks(r1) {
            Some((blocks, r2)) => match parse_u64(r2) {
                Some((size, r3)) => if r3.len() == 0 && size <= usize::MAX {
                    Some(TableModel { keys, blocks, block_size: size as usize })
                } else {
                    None
                },
                None => None,
            },
            None => None,
        },
        None => None,
    }
}

proof fn lemma_u64_round_trip(n: u64, rest: Seq<u8>)
    ensures
        parse_u64(spec_u64_to_le_bytes(n) + rest) == Some((n, rest)),
{
    lemma_auto_spec_u64_to_from_le_bytes();
    let b = spec_u64_to_le_bytes(n) + rest;
    assert(b.take(8) =~= spec_u64_to_le_bytes(n));
    assert(b.skip(8) =~= rest);
}

proof fn lemma_u32_round_trip(n: u32, rest: Seq<u8>)
    ensures
        parse_u32(spec_u32_to_le_bytes(n) + rest) == Some((n, rest)),
{
    lemma_auto_spec_u32_to_from_le_bytes();
    let b = spec_u32_to_le_bytes(n) + rest;
    assert(b.take(4) =~= spec_u32_to_le_bytes(n));
    assert(b.skip(4) =~= rest);
}

proof fn lemma_str_round_trip(s: Seq<char>, rest: Seq<u8>)
    requires
        str_fits(s),
    ensures
        parse_str(str_bytes(s) + rest) == Some((s, rest)),
{
    let e = encode_utf8(s);
    let n = e.len() as u64;
    lemma_u64_round_trip(n, e + rest);
    assert(str_bytes(s) + rest =~= spec_u64_to_le_bytes(n) + (e + rest));
    assert((e + rest).take(n as int) =~= e);
    assert((e + rest).skip(n as int) =~= rest);
    encode_utf8_valid_utf8(s);
    encode_utf8_decode_utf8(s);
}

proof fn lemma_entry_round_trip(e: EntryModel, rest: Seq<u8>)
    requires
        entry_fits(e),
    ensures
        parse_entry(entry_bytes(e) + rest) == Some((e, rest)),
{
    let v = spec_u32_to_le_bytes(e.value);
    lemma_u32_round_trip(e.value, rest);
    lemma_str_round_trip(e.key, v + rest);
    lemma_str_round_trip(e.op, str_bytes(e.key) + v + rest);
    assert(entry_bytes(e) + rest =~= str_bytes(e.op) + (str_bytes(e.key) + v + rest));
    assert(str_bytes(e.key) + v + rest =~= str_bytes(e.key) + (v + rest));
}

proof fn lemma_concat_first<T>(items: Seq<T>, f: spec_fn(T) -> Seq<u8>)
    requires
        items.len() > 0,
    ensures
        concat_bytes(items, f) == f(items[0]) + concat_bytes(items.drop_first(), f),
    decreases items.len(),
{
    if items.len() == 1 {
        assert(items.drop_last() =~= Seq::<T>::empty());
        assert(items.drop_first() =~= Seq::<T>::empty());
        assert(concat_bytes(items.drop_last(), f) =~= Seq::<u8>::empty());
        assert(concat_bytes(items.drop_first(), f) =~= Seq::<u8>::empty());
        assert(items.last() == items[0]);
        assert(concat_bytes(items, f) =~= f(items[0]) + concat_bytes(items.drop_first(), f));
    } else {
        lemma_concat_first(items.drop_last(), f);
        assert(items.drop_last().drop_first() =~= items.drop_first().drop_last());
        assert(items.drop_first().last() == items.last());
        assert(concat_bytes(items, f) =~= f(items[0]) + concat_bytes(items.drop_first(), f));
    }
}

proof fn lemma_items_round_trip<T>(
    items: Seq<T>,
    f: spec_fn(T) -> Seq<u8>,
    p: spec_fn(Seq<u8>) -> Parsed<T>,
    fits: spec_fn(T) -> bool,
    rest: Seq<u8>,
)
    requires
        forall|i: int| 0 <= i < items.len() ==> fits(#[trigger] items[i]),
        forall|x: T, r: Seq<u8>| fits(x) ==> #[trigger] p(f(x) + r) == Some((x, r)),
    ensures
        parse_items(concat_bytes(items, f) + rest, items.len(), p) == Some((items, rest)),
    decreases items.len(),
{
    if items.len() == 0 {
        assert(concat_bytes(items, f) + rest =~= rest);
        assert(items =~= Seq::<T>::empty());
    } else {
        let tail = items.drop_first();
        lemma_concat_first(items, f);
        assert forall|i: int| 0 <= i < tail.len() implies fits(#[trigger] tail[i]) by {
            assert(tail[i] == items[i + 1]);
        }
        lemma_items_round_trip(tail, f, p, fits, rest);
        assert(concat_bytes(items, f) + rest =~= f(items[0]) + (concat_bytes(tail, f) + rest));
        assert(p(f(items[0]) + (concat_bytes(tail, f) + rest)) == Some(
            (items[0], concat_bytes(tail, f) + rest),
        ));
        assert(seq![items[0]] + tail =~= items);
    }
}

proof fn lemma_list_round_trip<T>(
    items: Seq<T>,
    f: spec_fn(T) -> Seq<u8>,
    p: spec_fn(Seq<u8>) -> Parsed<T>,
    fits: spec_fn(T) -> bool,
    rest: Seq<u8>,
)
    requires
        items.len() <= u64::MAX,
        forall|i: int| 0 <= i < items.len() ==> fits(#[trigger] items[i]),
        forall|x: T, r: Seq<u8>| fits(x) ==> #[trigger] p(f(x) + r) == Some((x, r)),
    ensures
        parse_list(list_bytes(items, f) + rest, p) == Some((items, rest)),
{
    lemma_items_round_trip(items, f, p, fits, rest);
    lemma_u64_round_trip(items.len() as u64, concat_bytes(items, f) + rest);
    assert(list_bytes(items, f) + rest =~= spec_u64_to_le_bytes(items.len() as u64) + (
    concat_bytes(items, f) + rest));
}

proof fn lemma_entries_round_trip(entries: Seq<EntryModel>, rest: Seq<u8>)
    requires
        entries.len() <= u64::MAX,
        forall|i: int| 0 <= i < entries.len() ==> entry_fits(#[trigger] entries[i]),
    ensures
        parse_entries(entries_bytes(entries) + rest) == Some((entries, rest)),
{
    let fe = |e: EntryModel| entry_bytes(e);
    let pe = |x: Seq<u8>| parse_entry(x);
    let ok = |e: EntryModel| entry_fits(e);
    assert forall|x: EntryModel, r: Seq<u8>| ok(x) implies #[trigger] pe(fe(x) + r) == Some(
        (x, r),
    ) by {
        lemma_entry_round_trip(x, r);
    }
    lemma_list_round_trip(entries, fe, pe, ok, rest);
}

/// Two lists of entries with the same encoding are the same list: the bytes
/// that a block's digest covers change whenever any field of any entry does.
pub proof fn lemma_entries_bytes_injective(a: Seq<EntryModel>, b: Seq<EntryModel>)
    requires
        a.len() <= u64::MAX,
        b.len() <= u64::MAX,
        forall|i: int| 0 <= i < a.len() ==> entry_fits(#[trigger] a[i]),
        forall|i: int| 0 <= i < b.len() ==> entry_fits(#[trigger] b[i]),
        entries_bytes(a) == entries_bytes(b),
    ensures
        a == b,
{
    lemma_entries_round_trip(a, Seq::empty());
    lemma_entries_round_trip(b, Seq::empty());
    assert(entries_bytes(a) + Seq::<u8>::empty() =~= entries_bytes(a));
    assert(entries_bytes(b) + Seq::<u8>::empty() =~= entries_bytes(b));
}

proof fn lemma_block_round_trip(d: BlockModel, rest: Seq<u8>)
    requires
        block_fits(d),
    ensures
        parse_block(block_bytes(d) + rest) == Some((d, rest)),
{
    lemma_entries_round_trip(d.entries, str_bytes(d.hash) + rest);
    lemma_str_round_trip(d.hash, rest);
    assert(block_bytes(d) + rest =~= entries_bytes(d.entries) + (str_bytes(d.hash) + rest));
}

/// Reading back the bytes of a table gives the same table: its index keys,
/// its blocks with their entries and digests, and its block size.
pub proof fn lemma_table_round_trip(t: TableModel)
    requires
        table_fits(t),
    ensures
        parse_table(table_bytes(t)) == Some(t),
{
    let size = spec_u64_to_le_bytes(t.block_size as u64);
    let fk = |k: Seq<char>| str_bytes(k);
    let pk = |x: Seq<u8>| parse_str(x);
    let okk = |k: Seq<char>| str_fits(k);
    assert forall|x: Seq<char>, r: Seq<u8>| okk(x) implies #[trigger] pk(fk(x) + r) == Some(
        (x, r),
    ) by {
        lemma_str_round_trip(x, r);
    }
    let fb = |d: BlockModel| block_bytes(d);
    let pb = |x: Seq<u8>| parse_block(x);
    let okb = |d: BlockModel| block_fits(d);
    assert forall|x: BlockModel, r: Seq<u8>| okb(x) implies #[trigger] pb(fb(x) + r) == Some(
        (x, r),
    ) by {
        lemma_block_round_trip(x, r);
    }
    lemma_list_round_trip(t.keys, fk, pk, okk, blocks_bytes(t.blocks) + size);
    lemma_list_round_trip(t.blocks, fb, pb, okb, size);
    lemma_u64_round_trip(t.block_size as u64, Seq::empty());
    assert(size + Seq::<u8>::empty() =~= size);
    assert(table_bytes(t) =~= keys_bytes(t.keys) + (blocks_bytes(t.blocks) + size));
}

fn append_bytes(out: &mut Vec<u8>, b: &[u8])
    ensures
        final(out)@ == old(out)@ + b@,
{
    let mut i: usize = 0;
    while i < b.len()
        invariant
            i <= b@.len(),
            out@ == old(out)@ + b@.take(i as int),
        decreases b@.len() - i,
    {
        out.push(b[i]);
        i += 1;
        assert(out@ =~= old(out)@ + b@.take(i as int));
    }
    assert(b@.take(b@.len() as int) =~= b@);
}

/// Appends `n` as eight little-endian bytes.
pub fn write_u64(out: &mut Vec<u8>, n: u64)
    ensures
        final(out)@ == old(out)@ + spec_u64_to_le_bytes(n),
{
    let b = u64_to_le_bytes(n);
    append_bytes(out, b.as_slice());
}

/// Appends `n` as four little-endian bytes.
pub fn write_u32(out: &mut Vec<u8>, n: u32)
    ensures
        final(out)@ == old(out)@ + spec_u32_to_le_bytes(n),
{
    let b = u32_to_le_bytes(n);
    append_bytes(out, b.as_slice());
}

/// Appends the encoding of a string.
pub fn write_str(out: &mut Vec<u8>, s: &String)
    ensures
        final(out)@ == old(out)@ + str_bytes(s@),
        str_fits(s@),
{
    let b = s.as_str().as_bytes();
    let n = b.len();
    write_u64(out, n as u64);
    append_bytes(out, b);
    assert(final(out)@ =~= old(out)@ + str_bytes(s@));
}

/// Appends the encoding of an entry.
pub fn write_entry(out: &mut Vec<u8>, e: &MemTableEntry)
    ensures
        final(out)@ == old(out)@ + entry_bytes(e@),
        entry_fits(e@),
{
    write_str(out, &e.e_type);
    write_str(out, &e.key);
    write_u32(out, e.value);
    assert(final(out)@ =~= old(out)@ + entry_bytes(e@));
}

/// The encoding of one entry.
pub fn encode_entry(e: &MemTableEntry) -> (r: Vec<u8>)
    ensures
        r@ == entry_bytes(e@),
{
    let mut out: Vec<u8> = Vec::new();
    write_entry(&mut out, e);
    assert(out@ =~= entry_bytes(e@));
    out
}

/// Appends the encoding of a list of entries.
pub fn write_entries(out: &mut Vec<u8>, entries: &Vec<MemTableEntry>)
    ensures
        final(out)@ == old(out)@ + entries_bytes(entries@.map_values(|e: MemTableEntry| e@)),
        entries@.len() <= u64::MAX,
        forall|i: int| 0 <= i < entries@.len() ==> entry_fits(#[trigger] entries@[i]@),
{
    let ghost model = entries@.map_values(|e: MemTableEntry| e@);
    let ghost f = |e: EntryModel| entry_bytes(e);
    let ghost start = out@;
    write_u64(out, entries.len() as u64);
    let mut i: usize = 0;
    while i < entries.len()
        invariant
            i <= entries@.len(),
            model == entries@.map_values(|e: MemTableEntry| e@),
            f == (|e: EntryModel| entry_bytes(e)),
            out@ == start + spec_u64_to_le_bytes(entries@.len() as u64) + concat_bytes(
                model.take(i as int),
                f,
            ),
            forall|k: int| 0 <= k < i ==> entry_fits(#[trigger] entries@[k]@),
        decreases entries@.len() - i,
    {
        write_entry(out, &entries[i]);
        proof {
            assert(model.take(i + 1).drop_last() =~= model.take(i as int));
            assert(model.take(i + 1).last() == entries@[i as int]@);
            assert(f(entries@[i as int]@) == entry_bytes(entries@[i as int]@));
            assert(concat_bytes(model.take(i + 1), f) == concat_bytes(
                model.take(i + 1).drop_last(),
                f,
            ) + f(model.take(i + 1).last()));
        }
        i += 1;
    }
    assert(model.take(entries@.len() as int) =~= model);
}

/// The encoding of a list of entries.
pub fn encode_entries(entries: &Vec<MemTableEntry>) -> (r: Vec<u8>)
    ensures
        r@ == entries_bytes(entries@.map_values(|e: MemTableEntry| e@)),
{
    let mut out: Vec<u8> = Vec::new();
    write_entries(&mut out, entries);
    assert(out@ =~= entries_bytes(entries@.map_values(|e: MemTableEntry| e@)));
    out
}

/// The bytes `b[start..end]`.
fn copy_range(b: &Vec<u8>, start: usize, end: usize) -> (r: Vec<u8>)
    requires
        start <= end <= b@.len(),
    ensures
        r@ == b@.subrange(start as int, end as int),
{
    let mut r: Vec<u8> = Vec::new();
    let mut i: usize = start;
    while i < end
        invariant
            start <= i <= end <= b@.len(),
            r@ == b@.subrange(start as int, i as int),
        decreases end - i,
    {
        r.push(b[i]);
        i += 1;
        assert(r@ =~= b@.subrange(start as int, i as int));
    }
    r
}

/// Relies on std's `String::from_utf8`: it succeeds exactly on valid UTF-8,
/// and then holds the characters that the bytes encode.
#[verifier::external_body]
fn string_from_utf8(bytes: Vec<u8>) -> (r: Option<String>)
    ensures
        r is Some <==> valid_utf8(bytes@),
        r matches Some(s) ==> s@ == decode_utf8(bytes@),
{
    String::from_utf8(bytes).ok()
}

/// Reads a little-endian `u64` at `pos`; returns it and the position after it.
pub fn read_u64(b: &Vec<u8>, pos: usize) -> (r: Option<(u64, usize)>)
    requires
        pos <= b@.len(),
    ensures
        match r {
            Some((n, q)) => pos <= q <= b@.len() && parse_u64(b@.skip(pos as int)) == Some(
                (n, b@.skip(q as int)),
            ),
            None => parse_u64(b@.skip(pos as int)) is None,
        },
{
    if b.len() - pos < 8 {
        return None;
    }
    let bytes = copy_range(b, pos, pos + 8);
    let n = vstd::bytes::u64_from_le_bytes(bytes.as_slice());
    assert(b@.skip(pos as int).take(8) =~= bytes@);
    assert(b@.skip(pos as int).skip(8) =~= b@.skip(pos + 8));
    Some((n, pos + 8))
}

/// Reads a little-endian `u32` at `pos`; returns it and the position after it.
pub fn read_u32(b: &Vec<u8>, pos: usize) -> (r: Option<(u32, usize)>)
    requires
        pos <= b@.len(),
    ensures
        match r {
            Some((n, q)) => pos <= q <= b@.len() && parse_u32(b@.skip(pos as int)) == Some(
                (n, b@.skip(q as int)),
            ),
            None => parse_u32(b@.skip(pos as int)) is None,
        },
{
    if b.len() - pos < 4 {
        return None;
    }
    let bytes = copy_range(b, pos, pos + 4);
    let n = vstd::bytes::u32_from_le_bytes(bytes.as_slice());
    assert(b@.skip(pos as int).take(4) =~= bytes@);
    assert(b@.skip(pos as int).skip(4) =~= b@.skip(pos + 4));
    Some((n, pos + 4))
}

/// Reads a string at `pos`; returns it and the position after it.
pub fn read_str(b: &Vec<u8>, pos: usize) -> (r: Option<(String, usize)>)
    requires
        pos <= b@.len(),
    ensures
        match r {
            Some((s, q)) => pos <= q <= b@.len() && parse_str(b@.skip(pos as int)) == Some(
                (s@, b@.skip(q as int)),
            ),
            None => parse_str(b@.skip(pos as int)) is None,
        },
{
    let (n, q) = match read_u64(b, pos) {
        Some(x) => x,
        None => return None,
    };
    if n > (b.len() - q) as u64 {
        return None;
    }
    let m = n as usize;
    let bytes = copy_range(b, q, q + m);
    assert(b@.skip(q as int).take(m as int) =~= bytes@);
    assert(b@.skip(q as int).skip(m as int) =~= b@.skip(q + m));
    match string_from_utf8(bytes) {
        Some(s) => Some((s, q + m)),
        None => None,
    }
}

/// Reads an entry at `pos`; returns it and the position after it.
pub fn read_entry(b: &Vec<u8>, pos: usize) -> (r: Option<(MemTableEntry, usize)>)
    requires
        pos <= b@.len(),
    ensures
        match r {
            Some((e, q)) => pos <= q <= b@.len() && parse_entry(b@.skip(pos as int)) == Some(
                (e@, b@.skip(q as int)),
            ),
            None => parse_entry(b@.skip(pos as int)) is None,
        },
{
    let (e_type, q1) = match read_str(b, pos) {
        Some(x) => x,
        None => return None,
    };
    let (key, q2) = match read_str(b, q1) {
        Some(x) => x,
        None => return None,
    };
    let (value, q3) = match read_u32(b, q2) {
        Some(x) => x,
        None => return None,
    };
    Some((MemTableEntry { e_type, key, value }, q3))
}

proof fn lemma_prepend_push<T>(pre: Seq<T>, x: T, r: Parsed<Seq<T>>)
    ensures
        prepend(pre, prepend(seq![x], r)) == prepend(pre.push(x), r),
{
    if let Some((items, rest)) = r {
        assert(pre + (seq![x] + items) =~= pre.push(x) + items);
    }
}

/// Reads a list of entries at `pos`; returns them and the position after them.
pub fn read_entries(b: &Vec<u8>, pos: usize) -> (r: Option<(Vec<MemTableEntry>, usize)>)
    requires
        pos <= b@.len(),
    ensures
        match r {
            Some((v, q)) => pos <= q <= b@.len() && parse_entries(b@.skip(pos as int)) == Some(
                (v@.map_values(|e: MemTableEntry| e@), b@.skip(q as int)),
            ),
            None => parse_entries(b@.skip(pos as int)) is None,
        },
{
    let (count, q0) = match read_u64(b, pos) {
        Some(x) => x,
        None => return None,
    };
    let ghost p = |x: Seq<u8>| parse_entry(x);
    let ghost whole = parse_items(b@.skip(q0 as int), count as nat, p);
    let mut v: Vec<MemTableEntry> = Vec::new();
    let mut q = q0;
    let mut i: u64 = 0;
    assert(prepend(Seq::empty(), whole) == whole) by {
        if let Some((items, rest)) = whole {
            assert(Seq::<EntryModel>::empty() + items =~= items);
        }
    }
    while i < count
        invariant
            pos <= q <= b@.len(),
            i <= count,
            p == (|x: Seq<u8>| parse_entry(x)),
            whole == parse_items(b@.skip(q0 as int), count as nat, p),
            whole == parse_entries(b@.skip(pos as int)),
            whole == prepend(
                v@.map_values(|e: MemTableEntry| e@),
                parse_items(b@.skip(q as int), (count - i) as nat, p),
            ),
        decreases count - i,
    {
        match read_entry(b, q) {
            Some((e, q2)) => {
                let ghost pre = v@.map_values(|e: MemTableEntry| e@);
                proof {
                    lemma_prepend_push(
                        pre,
                        e@,
                        parse_items(b@.skip(q2 as int), (count - i - 1) as nat, p),
                    );
                }
                v.push(e);
                assert(v@.map_values(|e: MemTableEntry| e@) =~= pre.push(e@));
                q = q2;
                i += 1;
            },
            None => {
                assert(parse_items(b@.skip(q as int), (count - i) as nat, p) is None);
                return None;
            },
        }
    }
    assert(v@.map_values(|e: MemTableEntry| e@) + Seq::empty() =~= v@.map_values(
        |e: MemTableEntry| e@,
    ));
    Some((v, q))
}

/// Appends the encoding of a data block.
pub fn write_block(out: &mut Vec<u8>, d: &DataBlock)
    ensures
        final(out)@ == old(out)@ + block_bytes(d@),
        block_fits(d@),
{
    write_entries(out, &d.block);
    write_str(out, &d.hash);
    assert(final(out)@ =~= old(out)@ + block_bytes(d@));
}

/// Appends the encoding of a list of index keys.
pub fn write_keys(out: &mut Vec<u8>, keys: &Vec<String>)
    ensures
        final(out)@ == old(out)@ + keys_bytes(keys@.map_values(|k: String| k@)),
        keys@.len() <= u64::MAX,
        forall|i: int| 0 <= i < keys@.len() ==> str_fits(#[trigger] keys@[i]@),
{
    let ghost model = keys@.map_values(|k: String| k@);
    let ghost f = |k: Seq<char>| str_bytes(k);
    let ghost start = out@;
    write_u64(out, keys.len() as u64);
    let mut i: usize = 0;
    while i < keys.len()
        invariant
            i <= keys@.len(),
            model == keys@.map_values(|k: String| k@),
            f == (|k: Seq<char>| str_bytes(k)),
            out@ == start + spec_u64_to_le_bytes(keys@.len() as u64) + concat_bytes(
                model.take(i as int),
                f,
            ),
            forall|k: int| 0 <= k < i ==> str_fits(#[trigger] keys@[k]@),
        decreases keys@.len() - i,
    {
        write_str(out, &keys[i]);
        proof {
            assert(model.take(i + 1).drop_last() =~= model.take(i as int));
            assert(model.take(i + 1).last() == keys@[i as int]@);
            assert(concat_bytes(model.take(i + 1), f) == concat_bytes(
                model.take(i + 1).drop_last(),
                f,
            ) + f(model.take(i + 1).last()));
        }
        i += 1;
    }
    assert(model.take(keys@.len() as int) =~= model);
}

/// Appends the encoding of a list of data blocks.
pub fn write_blocks(out: &mut Vec<u8>, blocks: &Vec<DataBlock>)
    ensures
        final(out)@ == old(out)@ + blocks_bytes(blocks@.map_values(|d: DataBlock| d@)),
        blocks@.len() <= u64::MAX,
        forall|i: int| 0 <= i < blocks@.len() ==> block_fits(#[trigger] blocks@[i]@),
{
    let ghost model = blocks@.map_values(|d: DataBlock| d@);
    let ghost f = |d: BlockModel| block_bytes(d);
    let ghost start = out@;
    write_u64(out, blocks.len() as u64);
    let mut i: usize = 0;
    while i < blocks.len()
        invariant
            i <= blocks@.len(),
            model == blocks@.map_values(|d: DataBlock| d@),
            f == (|d: BlockModel| block_bytes(d)),
            out@ == start + spec_u64_to_le_bytes(blocks@.len() as u64) + concat_bytes(
                model.take(i as int),
                f,
            ),
            forall|k: int| 0 <= k < i ==> block_fits(#[trigger] blocks@[k]@),
        decreases blocks@.len() - i,
    {
        write_block(out, &blocks[i]);
        proof {
            assert(model.take(i + 1).drop_last() =~= model.take(i as int));
            assert(model.take(i + 1).last() == blocks@[i as int]@);
            assert(concat_bytes(model.take(i + 1), f) == concat_bytes(
                model.take(i + 1).drop_last(),
                f,
            ) + f(model.take(i + 1).last()));
        }
        i += 1;
    }
    assert(model.take(blocks@.len() as int) =~= model);
}

/// The bytes of a table.
pub fn encode_table(t: &StaticSortedTable) -> (r: Vec<u8>)
    ensures
        r@ == table_bytes(t@),
        table_fits(t@),
{
    let mut out: Vec<u8> = Vec::new();
    write_keys(&mut out, &t.index.keys);
    write_blocks(&mut out, &t.data_blocks);
    write_u64(&mut out, t.block_size as u64);
    assert(out@ =~= table_bytes(t@));
    proof {
        assert forall|i: int| 0 <= i < t@.keys.len() implies str_fits(#[trigger] t@.keys[i]) by {
            assert(t@.keys[i] == t.index.keys@[i]@);
        }
        assert forall|i: int| 0 <= i < t@.blocks.len() implies block_fits(
            #[trigger] t@.blocks[i],
        ) by {
            assert(t@.blocks[i] == t.data_blocks@[i]@);
        }
    }
    out
}

/// Reads a data block at `pos`; returns it and the position after it.
pub fn read_block(b: &Vec<u8>, pos: usize) -> (r: Option<(DataBlock, usize)>)
    requires
        pos <= b@.len(),
    ensures
        match r {
            Some((d, q)) => pos <= q <= b@.len() && parse_block(b@.skip(pos as int)) == Some(
                (d@, b@.skip(q as int)),
            ),
            None => parse_block(b@.skip(pos as int)) is None,
        },
{
    let (block, q1) = match read_entries(b, pos) {
        Some(x) => x,
        None => return None,
    };
    let (hash, q2) = match read_str(b, q1) {
        Some(x) => x,
        None => return None,
    };
    Some((DataBlock { block, hash }, q2))
}

/// Reads a list of index keys at `pos`; returns them and the position after them.
pub fn read_keys(b: &Vec<u8>, pos: usize) -> (r: Option<(Vec<String>, usize)>)
    requires
        pos <= b@.len(),
    ensures
        match r {
            Some((v, q)) => pos <= q <= b@.len() && parse_keys(b@.skip(pos as int)) == Some(
                (v@.map_values(|k: String| k@), b@.skip(q as int)),
            ),
            None => parse_keys(b@.skip(pos as int)) is None,
        },
{
    let (count, q0) = match read_u64(b, pos) {
        Some(x) => x,
        None => return None,
    };
    let ghost p = |x: Seq<u8>| parse_str(x);
    let ghost whole = parse_items(b@.skip(q0 as int), count as nat, p);
    let mut v: Vec<String> = Vec::new();
    let mut q = q0;
    let mut i: u64 = 0;
    assert(prepend(Seq::empty(), whole) == whole) by {
        if let Some((items, rest)) = whole {
            assert(Seq::<Seq<char>>::empty() + items =~= items);
        }
    }
    while i < count
        invariant
            pos <= q <= b@.len(),
            i <= count,
            p == (|x: Seq<u8>| parse_str(x)),
            whole == parse_items(b@.skip(q0 as int), count as nat, p),
            whole == parse_keys(b@.skip(pos as int)),
            whole == prepend(
                v@.map_values(|k: String| k@),
                parse_items(b@.skip(q as int), (count - i) as nat, p),
            ),
        decreases count - i,
    {
        match read_str(b, q) {
            Some((k, q2)) => {
                let ghost pre = v@.map_values(|k: String| k@);
                proof {
                    lemma_prepend_push(
                        pre,
                        k@,
                        parse_items(b@.skip(q2 as int), (count - i - 1) as nat, p),
                    );
                }
                v.push(k);
                assert(v@.map_values(|k: String| k@) =~= pre.push(k@));
                q = q2;
                i += 1;
            },
            None => {
                assert(parse_items(b@.skip(q as int), (count - i) as nat, p) is None);
                return None;
            },
        }
    }
    assert(v@.map_values(|k: String| k@) + Seq::empty() =~= v@.map_values(|k: String| k@));
    Some((v, q))
}

/// Reads a list of data blocks at `pos`; returns them and the position after them.
pub fn read_blocks(b: &Vec<u8>, pos: usize) -> (r: Option<(Vec<DataBlock>, usize)>)
    requires
        pos <= b@.len(),
    ensures
        match r {
            Some((v, q)) => pos <= q <= b@.len() && parse_blocks(b@.skip(pos as int)) == Some(
                (v@.map_values(|d: DataBlock| d@), b@.skip(q as int)),
            ),
            None => parse_blocks(b@.skip(pos as int)) is None,
        },
{
    let (count, q0) = match read_u64(b, pos) {
        Some(x) => x,
        None => return None,
    };
    let ghost p = |x: Seq<u8>| parse_block(x);
    let ghost whole = parse_items(b@.skip(q0 as int), count as nat, p);
    let mut v: Vec<DataBlock> = Vec::new();
    let mut q = q0;
    let mut i: u64 = 0;
    assert(prepend(Seq::empty(), whole) == whole) by {
        if let Some((items, rest)) = whole {
            assert(Seq::<BlockModel>::empty() + items =~= items);
        }
    }
    while i < count
        invariant
            pos <= q <= b@.len(),
            i <= count,
            p == (|x: Seq<u8>| parse_block(x)),
            whole == parse_items(b@.skip(q0 as int), count as nat, p),
            whole == parse_blocks(b@.skip(pos as int)),
            whole == prepend(
                v@.map_values(|d: DataBlock| d@),
                parse_items(b@.skip(q as int), (count - i) as nat, p),
            ),
        decreases count - i,
    {
        match read_block(b, q) {
            Some((d, q2)) => {
                let ghost pre = v@.map_values(|d: DataBlock| d@);
                proof {
                    lemma_prepend_push(
                        pre,
                        d@,
                        parse_items(b@.skip(q2 as int), (count - i - 1) as nat, p),
                    );
                }
                v.push(d);
                assert(v@.map_values(|d: DataBlock| d@) =~= pre.push(d@));
                q = q2;
                i += 1;
            },
            None => {
                assert(parse_items(b@.skip(q as int), (count - i) as nat, p) is None);
                return None;
            },
        }
    }
    assert(v@.map_values(|d: DataBlock| d@) + Seq::empty() =~= v@.map_values(|d: DataBlock| d@));
    Some((v, q))
}

/// The table that `b` holds, where it holds exactly one.
pub fn decode_table(b: &Vec<u8>) -> (r: Option<StaticSortedTable>)
    ensures
        match r {
            Some(t) => parse_table(b@) == Some(t@),
            None => parse_table(b@) is None,
        },
{
    assert(b@.skip(0) =~= b@);
    let (keys, q1) = match read_keys(b, 0) {
        Some(x) => x,
        None => return None,
    };
    let (data_blocks, q2) = match read_blocks(b, q1) {
        Some(x) => x,
        None => return None,
    };
    let (size, q3) = match read_u64(b, q2) {
        Some(x) => x,
        None => return None,
    };
    if q3 != b.len() || size > usize::MAX as u64 {
        return None;
    }
    let t = StaticSortedTable { index: Index { keys }, data_blocks, block_size: size as usize };
    Some(t)
}

} // verus!
