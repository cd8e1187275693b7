//! Building a table: entries come in key order, fill block after block, and
//! leave as the bytes of one table.

use vstd::prelude::*;
use crate::block::{
    block_len, BlockBuilder, EntryView, is_prefix, keys_valid, lemma_push_keeps_order,
    MAX_BLOCK_FILL, MAX_KEY_LEN, records_len, sorted_entries, spec_decode_block,
};
use crate::bloom::{bloom_hash, build_filter, is_filter_of, spec_bloom_hash};
use crate::checksum::ChecksumAlg;
use crate::coding::{append_bytes, clone_bytes};
use crate::error::HummockError;
use crate::key::{
    full_key_lt, lemma_full_key_lt_asymmetric, lemma_full_key_lt_irreflexive,
    lemma_full_key_lt_transitive, spec_user_key, user_key, valid_full_key,
};
use crate::table::{
    assemble_table, BlockHandle, handle_fits, handles_tile, index_keys_sorted, index_keys_valid,
    index_size_upto, index_view, IndexEntry, spec_block_at, spec_open_table, spec_table_entries,
    spec_table_entries_upto, TableMeta, TableMetaView,
};
use crate::value::{HummockValue, value_fits};

verus! {

/// A table takes no further entry once its index fills this many bytes.
pub const MAX_INDEX_FILL: usize = 0x3fff_ffff;

/// A table takes no further entry once its blocks fill this many bytes.
pub const MAX_TABLE_FILL: u64 = 0x1fff_ffff_ffff_ffff;

/// A table has room for a further entry as long as it holds at most this
/// many entries with short keys, whatever the sizes of their values.
pub const MAX_SURE_ENTRIES: usize = 16000;

/// A full key of at most this many bytes is short.
pub const SHORT_KEY_LEN: usize = 0xffff;

/// Whether the full keys of `entries` are short.
pub open spec fn short_keys(entries: Seq<EntryView>) -> bool {
    forall|i: int| 0 <= i < entries.len() ==> (#[trigger] entries[i]).0.len() <= SHORT_KEY_LEN
}

/// The most bytes that one record takes in a block.
pub open spec fn record_room() -> int {
    13 + MAX_KEY_LEN + crate::value::MAX_VALUE_LEN
}

/// The most bytes that one entry takes in a table: its record, and its
/// share of the end of its block.
pub open spec fn entry_room() -> int {
    record_room() + 16
}

/// How a table is built.
#[derive(Clone, Copy, Debug)]
pub struct TableBuilderOptions {
    /// The size at which a table counts as full, in bytes.
    pub table_capacity: u32,
    /// The size at which a block is closed, in bytes.
    pub block_size: u32,
    /// The bits that the Bloom filter spends per entry; 0 for no filter.
    pub bloom_bits_per_key: u32,
    /// The checksum algorithm.
    pub checksum_algo: ChecksumAlg,
}

/// The entries of a run of blocks, one block after the other.
pub open spec fn flatten(blocks: Seq<Seq<EntryView>>) -> Seq<EntryView>
    decreases blocks.len(),
{
    if blocks.len() == 0 {
        Seq::empty()
    } else {
        flatten(blocks.drop_last()) + blocks.last()
    }
}

/// The hashes under which the user keys of `entries` enter a Bloom filter.
pub open spec fn entry_hashes(entries: Seq<EntryView>) -> Seq<u64> {
    Seq::new(entries.len(), |i: int| spec_bloom_hash(spec_user_key(entries[i].0)))
}

/// `data` is made of the blocks that `idx` describes, and they hold `done`.
pub open spec fn blocks_stored(
    data: Seq<u8>,
    alg: ChecksumAlg,
    smallest: Seq<u8>,
    idx: Seq<BlockHandle>,
    done: Seq<Seq<EntryView>>,
) -> bool {
    &&& idx.len() == done.len()
    &&& (idx.len() == 0 ==> data.len() == 0)
    &&& (idx.len() > 0 ==> handles_tile(idx, data.len() as int) && index_keys_valid(smallest, idx)
        && index_keys_sorted(smallest, idx))
    &&& forall|i: int|
        0 <= i < idx.len() ==> #[trigger] spec_block_at(data, alg, smallest, idx, i) == Ok::<
            Seq<EntryView>,
            HummockError,
        >(done[i])
}

proof fn lemma_flatten_push(blocks: Seq<Seq<EntryView>>, b: Seq<EntryView>)
    ensures
        flatten(blocks.push(b)) == flatten(blocks) + b,
{
    assert(blocks.push(b).drop_last() =~= blocks);
}

proof fn lemma_index_size_push(idx: Seq<BlockHandle>, h: BlockHandle, n: nat)
    requires
        n <= idx.len(),
    ensures
        index_size_upto(idx.push(h), n) == index_size_upto(idx, n),
        n == idx.len() ==> index_size_upto(idx.push(h), n + 1) == index_size_upto(idx, n) + 16
            + h.last_key.len(),
    decreases n,
{
    if n > 0 {
        lemma_index_size_push(idx, h, (n - 1) as nat);
        assert(idx.push(h)[n - 1] == idx[n - 1]);
    }
}

proof fn lemma_flush_tile(idx: Seq<BlockHandle>, h: BlockHandle, data_len: int, bytes_len: int)
    requires
        idx.len() == 0 ==> data_len == 0,
        idx.len() > 0 ==> handles_tile(idx, data_len),
        h.offset == data_len,
        h.len == bytes_len,
        bytes_len >= 0,
        data_len >= 0,
    ensures
        handles_tile(idx.push(h), data_len + bytes_len),
{
    let n = idx.len() as int;
    let idx2 = idx.push(h);
    assert forall|i: int| 0 <= i < idx2.len() implies #[trigger] handle_fits(
        idx2,
        i,
        data_len + bytes_len,
    ) by {
        if i < n {
            assert(handle_fits(idx, i, data_len));
            assert(idx2[i] == idx[i]);
            if i > 0 {
                assert(idx2[i - 1] == idx[i - 1]);
            }
        } else if n > 0 {
            assert(idx2[n - 1] == idx[n - 1]);
        }
    }
}

proof fn lemma_flush_keys(smallest: Seq<u8>, idx: Seq<BlockHandle>, h: BlockHandle)
    requires
        idx.len() > 0 ==> index_keys_valid(smallest, idx) && index_keys_sorted(smallest, idx),
        valid_full_key(smallest),
        valid_full_key(h.last_key),
        !full_key_lt(h.last_key, smallest),
        idx.len() > 0 ==> full_key_lt(idx.last().last_key, h.last_key),
    ensures
        index_keys_valid(smallest, idx.push(h)),
        index_keys_sorted(smallest, idx.push(h)),
{
    let n = idx.len() as int;
    let idx2 = idx.push(h);
    assert forall|i: int| 0 <= i < idx2.len() implies valid_full_key(#[trigger] idx2[i].last_key) by {
        if i < n {
            assert(idx2[i] == idx[i]);
        }
    }
    assert forall|i: int| 0 <= i < idx2.len() implies !full_key_lt(
        #[trigger] idx2[i].last_key,
        smallest,
    ) by {
        if i < n {
            assert(idx2[i] == idx[i]);
        }
    }
    assert forall|i: int, j: int| 0 <= i < j < idx2.len() implies full_key_lt(
        #[trigger] idx2[i].last_key,
        #[trigger] idx2[j].last_key,
    ) by {
        assert(idx2[i] == idx[i]);
        if j < n {
            assert(idx2[j] == idx[j]);
        } else if i < n - 1 {
            lemma_full_key_lt_transitive(idx[i].last_key, idx[n - 1].last_key, h.last_key);
        }
    }
}

proof fn lemma_flush_blocks(
    data: Seq<u8>,
    bytes: Seq<u8>,
    alg: ChecksumAlg,
    smallest: Seq<u8>,
    idx: Seq<BlockHandle>,
    done: Seq<Seq<EntryView>>,
    cur: Seq<EntryView>,
    h: BlockHandle,
)
    requires
        idx.len() == done.len(),
        idx.len() == 0 ==> data.len() == 0,
        idx.len() > 0 ==> handles_tile(idx, data.len() as int),
        forall|i: int|
            0 <= i < idx.len() ==> #[trigger] spec_block_at(data, alg, smallest, idx, i) == Ok::<
                Seq<EntryView>,
                HummockError,
            >(done[i]),
        spec_decode_block(bytes, alg) == Ok::<Seq<EntryView>, HummockError>(cur),
        cur.len() > 0,
        h == (BlockHandle { last_key: cur.last().0, offset: data.len() as int, len: bytes.len() as int }),
        idx.len() == 0 ==> cur[0].0 == smallest,
        idx.len() > 0 ==> full_key_lt(idx.last().last_key, cur[0].0),
    ensures
        forall|i: int|
            0 <= i < idx.len() + 1 ==> #[trigger] spec_block_at(
                data + bytes,
                alg,
                smallest,
                idx.push(h),
                i,
            ) == Ok::<Seq<EntryView>, HummockError>(done.push(cur)[i]),
{
    let n = idx.len() as int;
    let data2 = data + bytes;
    let idx2 = idx.push(h);
    assert forall|i: int| 0 <= i < n + 1 implies #[trigger] spec_block_at(
        data2,
        alg,
        smallest,
        idx2,
        i,
    ) == Ok::<Seq<EntryView>, HummockError>(done.push(cur)[i]) by {
        if i < n {
            assert(handle_fits(idx, i, data.len() as int));
            assert(idx2[i] == idx[i]);
            if i > 0 {
                assert(idx2[i - 1] == idx[i - 1]);
            }
            assert(data2.subrange(idx[i].offset, idx[i].offset + idx[i].len) =~= data.subrange(
                idx[i].offset,
                idx[i].offset + idx[i].len,
            ));
            assert(spec_block_at(data, alg, smallest, idx, i) == Ok::<Seq<EntryView>, HummockError>(
                done[i],
            ));
        } else {
            assert(data2.subrange(h.offset, h.offset + h.len) =~= bytes);
            if n > 0 {
                assert(idx2[n - 1] == idx[n - 1]);
            }
        }
    }
}

/// One more block behind the stored ones is stored as well.
proof fn lemma_flush(
    data: Seq<u8>,
    bytes: Seq<u8>,
    alg: ChecksumAlg,
    smallest: Seq<u8>,
    idx: Seq<BlockHandle>,
    done: Seq<Seq<EntryView>>,
    cur: Seq<EntryView>,
    h: BlockHandle,
)
    requires
        blocks_stored(data, alg, smallest, idx, done),
        done.len() > 0 ==> flatten(done).len() > 0,
        spec_decode_block(bytes, alg) == Ok::<Seq<EntryView>, HummockError>(cur),
        cur.len() > 0,
        h == (BlockHandle { last_key: cur.last().0, offset: data.len() as int, len: bytes.len() as int }),
        keys_valid(flatten(done) + cur),
        sorted_entries(flatten(done) + cur),
        smallest == (flatten(done) + cur)[0].0,
    ensures
        blocks_stored(data + bytes, alg, smallest, idx.push(h), done.push(cur)),
{
    let all = flatten(done) + cur;
    let n = idx.len() as int;
    let flat = flatten(done).len() as int;
    assert(all[flat] == cur[0]);
    assert(all[all.len() - 1] == cur.last());
    assert(valid_full_key(all[all.len() - 1].0));
    assert(valid_full_key(all[0].0));
    if n > 0 {
        assert(spec_block_at(data, alg, smallest, idx, n - 1) == Ok::<Seq<EntryView>, HummockError>(
            done[n - 1],
        ));
        assert(done[n - 1] == done.last());
        assert(all[flat - 1] == done.last().last());
        assert(idx[n - 1].last_key == all[flat - 1].0);
        assert(full_key_lt(all[flat - 1].0, all[flat].0));
        assert(full_key_lt(all[flat - 1].0, all[all.len() - 1].0)) by {
            if flat < all.len() - 1 {
                assert(full_key_lt(all[flat - 1].0, all[all.len() - 1].0));
            }
        }
    } else {
        assert(flatten(done) =~= Seq::<EntryView>::empty());
    }
    assert(!full_key_lt(h.last_key, smallest)) by {
        lemma_full_key_lt_irreflexive(smallest);
        lemma_full_key_lt_asymmetric(smallest, h.last_key);
        if all.len() > 1 {
            assert(full_key_lt(all[0].0, all[all.len() - 1].0));
        }
    }
    lemma_flush_tile(idx, h, data.len() as int, bytes.len() as int);
    lemma_flush_keys(smallest, idx, h);
    lemma_flush_blocks(data, bytes, alg, smallest, idx, done, cur, h);
}

/// The blocks of a table hold, one after the other, what they were stored with.
proof fn lemma_stored_entries(
    data: Seq<u8>,
    meta: TableMetaView,
    done: Seq<Seq<EntryView>>,
    n: nat,
)
    requires
        n <= done.len(),
        done.len() == meta.index.len(),
        forall|i: int|
            0 <= i < done.len() ==> #[trigger] spec_block_at(
                data,
                meta.alg,
                meta.smallest_key,
                meta.index,
                i,
            ) == Ok::<Seq<EntryView>, HummockError>(done[i]),
    ensures
        spec_table_entries_upto(data, meta, n) == Ok::<Seq<EntryView>, HummockError>(
            flatten(done.take(n as int)),
        ),
    decreases n,
{
    if n == 0 {
        assert(done.take(0) =~= Seq::<Seq<EntryView>>::empty());
    } else {
        lemma_stored_entries(data, meta, done, (n - 1) as nat);
        assert(done.take(n as int).drop_last() =~= done.take(n - 1));
        assert(done.take(n as int).last() == done[n - 1]);
        assert(spec_block_at(data, meta.alg, meta.smallest_key, meta.index, n - 1) == Ok::<
            Seq<EntryView>,
            HummockError,
        >(done[n - 1]));
    }
}

/// Blocks that are stored in `a` are stored in every byte string that begins with `a`.
proof fn lemma_stored_prefix(
    a: Seq<u8>,
    b: Seq<u8>,
    alg: ChecksumAlg,
    smallest: Seq<u8>,
    idx: Seq<BlockHandle>,
    i: int,
)
    requires
        is_prefix(a, b),
        0 <= i < idx.len(),
        handles_tile(idx, a.len() as int),
    ensures
        spec_block_at(b, alg, smallest, idx, i) == spec_block_at(a, alg, smallest, idx, i),
{
    assert(handle_fits(idx, i, a.len() as int));
    let h = idx[i];
    assert(b.take(a.len() as int).subrange(h.offset, h.offset + h.len) =~= b.subrange(
        h.offset,
        h.offset + h.len,
    ));
}

/// The finished bytes of a table hold what its blocks were stored with.
proof fn lemma_finished(old_data: Seq<u8>, bytes: Seq<u8>, meta: TableMetaView, done: Seq<Seq<EntryView>>)
    requires
        blocks_stored(old_data, meta.alg, meta.smallest_key, meta.index, done),
        done.len() > 0,
        is_prefix(old_data, bytes),
    ensures
        spec_table_entries(bytes, meta) == Ok::<Seq<EntryView>, HummockError>(flatten(done)),
        meta.index.last().last_key == done.last().last().0,
{
    let idx = meta.index;
    assert forall|i: int| 0 <= i < idx.len() implies #[trigger] spec_block_at(
        bytes,
        meta.alg,
        meta.smallest_key,
        idx,
        i,
    ) == Ok::<Seq<EntryView>, HummockError>(done[i]) by {
        lemma_stored_prefix(old_data, bytes, meta.alg, meta.smallest_key, idx, i);
        assert(spec_block_at(old_data, meta.alg, meta.smallest_key, idx, i) == Ok::<
            Seq<EntryView>,
            HummockError,
        >(done[i]));
    }
    lemma_stored_entries(bytes, meta, done, done.len());
    assert(done.take(done.len() as int) =~= done);
    let n = idx.len() as int;
    assert(spec_block_at(old_data, meta.alg, meta.smallest_key, idx, n - 1) == Ok::<
        Seq<EntryView>,
        HummockError,
    >(done[n - 1]));
}

/// What a table under construction takes: the bytes of its closed blocks,
/// the bytes of their handles in the index, and the entries of the block
/// that is open.
pub struct Layout {
    pub data_len: int,
    pub index_len: int,
    pub open: Seq<EntryView>,
}

/// Whether a block of `block_size` that holds `open` is closed: its records
/// have outgrown the block size, or what a block can hold.
pub open spec fn block_closes(block_size: u32, open: Seq<EntryView>) -> bool {
    records_len(open, open.len() as int) > block_size || records_len(open, open.len() as int)
        >= MAX_BLOCK_FILL
}

/// What a table of blocks of `block_size` takes once the first `n` of
/// `entries` are added.
pub open spec fn layout(block_size: u32, entries: Seq<EntryView>, n: int) -> Layout
    decreases n,
{
    if n <= 0 {
        Layout { data_len: 0, index_len: 0, open: Seq::empty() }
    } else {
        let prev = layout(block_size, entries, n - 1);
        let open = prev.open.push(entries[n - 1]);
        if block_closes(block_size, open) {
            Layout {
                data_len: prev.data_len + block_len(open),
                index_len: prev.index_len + 16 + entries[n - 1].0.len(),
                open: Seq::empty(),
            }
        } else {
            Layout { data_len: prev.data_len, index_len: prev.index_len, open: open }
        }
    }
}

/// About how many bytes a table of `entries` takes before it is finished:
/// the blocks that are closed, and the records of the block that is open.
pub open spec fn estimated(block_size: u32, entries: Seq<EntryView>) -> int {
    let l = layout(block_size, entries, entries.len() as int);
    l.data_len + records_len(l.open, l.open.len() as int)
}

/// Whether a table that holds `entries` has room for a further entry: its
/// index and its blocks are within what the format can address.
pub open spec fn table_has_room(block_size: u32, entries: Seq<EntryView>) -> bool {
    let l = layout(block_size, entries, entries.len() as int);
    l.index_len <= MAX_INDEX_FILL && l.data_len <= MAX_TABLE_FILL
}

/// Whether one table takes all of `entries`: it has room for each of them
/// when its turn comes.
pub open spec fn one_table_takes(block_size: u32, entries: Seq<EntryView>) -> bool {
    forall|k: int| 0 <= k < entries.len() ==> table_has_room(block_size, #[trigger] entries.take(k))
}

/// What the first entries take does not depend on what follows them.
pub proof fn lemma_layout_prefix(block_size: u32, a: Seq<EntryView>, b: Seq<EntryView>, n: int)
    requires
        0 <= n <= a.len() <= b.len(),
        forall|i: int| 0 <= i < a.len() ==> a[i] == b[i],
    ensures
        layout(block_size, b, n) == layout(block_size, a, n),
    decreases n,
{
    if n > 0 {
        lemma_layout_prefix(block_size, a, b, n - 1);
    }
}

/// Collects entries in key order and serializes them as one table.
pub struct TableBuilder {
    options: TableBuilderOptions,
    data: Vec<u8>,
    index: Vec<IndexEntry>,
    index_size: usize,
    block: BlockBuilder,
    hashes: Vec<u64>,
    smallest_key: Vec<u8>,
    last_key: Vec<u8>,
    done: Ghost<Seq<Seq<EntryView>>>,
}

impl TableBuilder {
    /// The entries added so far.
    pub closed spec fn entries(&self) -> Seq<EntryView> {
        flatten(self.done@) + self.block.entries()
    }

    /// The options that the builder was made with.
    pub closed spec fn options(&self) -> TableBuilderOptions {
        self.options
    }

    /// Whether the table has room for a further entry.
    pub closed spec fn spec_has_room(&self) -> bool {
        self.index_size <= MAX_INDEX_FILL && self.data@.len() <= MAX_TABLE_FILL
    }

    /// Index and blocks take no more bytes than their entries allow.
    pub closed spec fn within_bounds(&self) -> bool {
        &&& (short_keys(self.entries()) ==> self.index_size <= self.done@.len() * (16 + SHORT_KEY_LEN))
        &&& self.done@.len() <= flatten(self.done@).len()
        &&& self.data@.len() <= flatten(self.done@).len() * entry_room()
        &&& self.block.fill() <= self.block.entries().len() * record_room()
    }

    /// A table of few entries with short keys has room for one more.
    pub proof fn lemma_room(&self)
        requires
            self.wf(),
            self.entries().len() <= MAX_SURE_ENTRIES,
            short_keys(self.entries()),
        ensures
            self.spec_has_room(),
    {
        let flat = flatten(self.done@).len() as int;
        let blocks = self.done@.len() as int;
        assert(flat <= 16000);
        assert(blocks * (16 + SHORT_KEY_LEN) <= 16000 * (16 + SHORT_KEY_LEN)) by (nonlinear_arith)
            requires
                0 <= blocks <= 16000,
        ;
        assert(flat * entry_room() <= 16000 * entry_room()) by (nonlinear_arith)
            requires
                0 <= flat <= 16000,
                entry_room() >= 0,
        ;
    }

    /// The bytes built so far hold the entries added so far, and take what
    /// their layout says.
    pub closed spec fn wf(&self) -> bool {
        self.sound() && self.laid_out()
    }

    /// Blocks, index and open block take what the layout of the entries says.
    pub closed spec fn laid_out(&self) -> bool {
        layout(self.options.block_size, self.entries(), self.entries().len() as int) == (Layout {
            data_len: self.data@.len() as int,
            index_len: self.index_size as int,
            open: self.block.entries(),
        })
    }

    /// The sizes of a builder are those of the layout of its entries.
    pub proof fn lemma_layout(&self)
        requires
            self.wf(),
        ensures
            self.spec_estimated_size() == estimated(self.options().block_size, self.entries()),
            self.spec_has_room() == table_has_room(self.options().block_size, self.entries()),
    {
        self.block.lemma_fill();
    }

    /// The bytes built so far hold the entries added so far.
    pub closed spec fn sound(&self) -> bool {
        &&& self.block.wf()
        &&& self.within_bounds()
        &&& self.block.fill() < MAX_BLOCK_FILL
        &&& blocks_stored(
            self.data@,
            self.options.checksum_algo,
            self.smallest_key@,
            index_view(self.index@),
            self.done@,
        )
        &&& keys_valid(self.entries())
        &&& sorted_entries(self.entries())
        &&& (self.entries().len() > 0 ==> self.smallest_key@ == self.entries()[0].0 && self.last_key@
            == self.entries().last().0)
        &&& (self.done@.len() > 0 ==> flatten(self.done@).len() > 0)
        &&& self.smallest_key@.len() <= MAX_KEY_LEN
        &&& self.last_key@.len() <= MAX_KEY_LEN
        &&& self.hashes@ == entry_hashes(self.entries())
        &&& self.index_size == index_size_upto(index_view(self.index@), self.index@.len())
        &&& self.index_size <= MAX_INDEX_FILL + 16 + MAX_KEY_LEN
        &&& self.data@.len() <= MAX_TABLE_FILL + u32::MAX
        &&& (self.block.entries().len() > 0 ==> self.spec_has_room())
    }

    /// Whether `key` with `value` may come next: the key is well formed and
    /// sorts behind the last one, key and value are short enough, and the
    /// table has room.
    pub open spec fn accepts(&self, key: Seq<u8>, value: Option<Seq<u8>>) -> bool {
        &&& valid_full_key(key)
        &&& key.len() <= MAX_KEY_LEN
        &&& value_fits(value)
        &&& self.spec_has_room()
        &&& (self.entries().len() > 0 ==> full_key_lt(self.entries().last().0, key))
    }

    /// A builder without entries.
    pub fn new(options: TableBuilderOptions) -> (r: TableBuilder)
        ensures
            r.wf(),
            r.entries() == Seq::<EntryView>::empty(),
            r.options() == options,
            r.spec_has_room(),
    {
        let r = TableBuilder {
            options,
            data: Vec::new(),
            index: Vec::new(),
            index_size: 0,
            block: BlockBuilder::new(),
            hashes: Vec::new(),
            smallest_key: Vec::new(),
            last_key: Vec::new(),
            done: Ghost(Seq::empty()),
        };
        assert(r.entries() =~= Seq::<EntryView>::empty());
        assert(r.hashes@ =~= entry_hashes(r.entries()));
        assert(index_view(r.index@) =~= Seq::<BlockHandle>::empty());
        r
    }

    /// Whether no entry has been added.
    pub fn is_empty(&self) -> (r: bool)
        requires
            self.wf(),
        ensures
            r == (self.entries().len() == 0),
    {
        self.index.len() == 0 && self.block.is_empty()
    }

    /// Whether the table has room for a further entry.
    pub fn has_room(&self) -> (r: bool)
        ensures
            r == self.spec_has_room(),
    {
        self.index_size <= MAX_INDEX_FILL && self.data.len() as u64 <= MAX_TABLE_FILL
    }

    /// The key added last.
    pub fn last_key(&self) -> (r: &[u8])
        requires
            self.wf(),
            self.entries().len() > 0,
        ensures
            r@ == self.entries().last().0,
            valid_full_key(r@),
    {
        assert(valid_full_key(self.entries()[self.entries().len() - 1].0));
        self.last_key.as_slice()
    }

    /// About how many bytes the table takes so far: the blocks that are
    /// closed, and the records of the block that is open.
    pub closed spec fn spec_estimated_size(&self) -> nat {
        self.data@.len() + self.block.fill()
    }

    /// About how many bytes the table takes so far.
    pub fn estimated_size(&self) -> (r: u64)
        requires
            self.wf(),
        ensures
            r == self.spec_estimated_size(),
    {
        (self.data.len() as u64) + (self.block.size() as u64)
    }

    /// Whether the table has reached the size that its options ask for.
    pub fn reached_capacity(&self) -> (r: bool)
        requires
            self.wf(),
        ensures
            r == (self.spec_estimated_size() >= self.options().table_capacity),
    {
        self.estimated_size() >= self.options.table_capacity as u64
    }

    /// Adds an entry behind those already there. A block that has grown
    /// beyond the block size is closed.
    pub fn add(&mut self, key: &[u8], value: &HummockValue)
        requires
            old(self).wf(),
            old(self).accepts(key@, value@),
        ensures
            final(self).wf(),
            final(self).entries() == old(self).entries().push((key@, value@)),
            final(self).options() == old(self).options(),
    {
        let ghost prev = self.entries();
        let was_empty: bool = self.is_empty();
        let ghost had = self.block.entries().len() as int;
        self.block.add(key, value);
        assert(self.within_bounds()) by {
            assert((had + 1) * record_room() == had * record_room() + record_room()) by (nonlinear_arith);
            assert(self.entries() =~= prev.push((key@, value@)));
            if short_keys(self.entries()) {
                assert forall|i: int| 0 <= i < prev.len() implies (#[trigger] prev[i]).0.len()
                    <= SHORT_KEY_LEN by {
                    assert(self.entries()[i] == prev[i]);
                }
            }
        }
        self.hashes.push(bloom_hash(user_key(key)));
        if was_empty {
            self.smallest_key = clone_bytes(key);
            assert(self.smallest_key@ =~= key@);
        }
        self.last_key = clone_bytes(key);
        proof {
            assert(self.last_key@ =~= key@);
            assert(self.entries() =~= prev.push((key@, value@)));
            lemma_push_keeps_order(prev, (key@, value@));
            assert(self.hashes@ =~= entry_hashes(self.entries()));
            if self.index@.len() > 0 {
                assert(prev.len() > 0);
                assert(self.entries()[0] == prev[0]);
            } else {
                assert(flatten(self.done@) =~= Seq::<EntryView>::empty());
            }
        }
        let ghost open = self.block.entries();
        let ghost bs = self.options.block_size;
        proof {
            self.block.lemma_fill();
            lemma_layout_prefix(bs, prev, self.entries(), prev.len() as int);
            assert(self.entries()[prev.len() as int] == (key@, value@));
        }
        if self.block.size() > self.options.block_size as usize || self.block.size() >= MAX_BLOCK_FILL {
            assert(block_closes(bs, open));
            self.flush_block();
            assert(self.block.entries() =~= Seq::<EntryView>::empty());
        } else {
            assert(!block_closes(bs, open));
        }
    }

    /// Closes the current block: its bytes go behind the blocks, its handle
    /// into the index.
    fn flush_block(&mut self)
        requires
            old(self).block.wf(),
            old(self).block.entries().len() > 0,
            blocks_stored(
                old(self).data@,
                old(self).options.checksum_algo,
                old(self).smallest_key@,
                index_view(old(self).index@),
                old(self).done@,
            ),
            keys_valid(old(self).entries()),
            sorted_entries(old(self).entries()),
            old(self).smallest_key@ == old(self).entries()[0].0,
            old(self).last_key@ == old(self).entries().last().0,
            old(self).done@.len() > 0 ==> flatten(old(self).done@).len() > 0,
            old(self).smallest_key@.len() <= MAX_KEY_LEN,
            old(self).last_key@.len() <= MAX_KEY_LEN,
            old(self).hashes@ == entry_hashes(old(self).entries()),
            old(self).index_size == index_size_upto(
                index_view(old(self).index@),
                old(self).index@.len(),
            ),
            old(self).spec_has_room(),
            old(self).within_bounds(),
        ensures
            final(self).sound(),
            final(self).entries() == old(self).entries(),
            final(self).options() == old(self).options(),
            final(self).block.entries().len() == 0,
            final(self).data@.len() == old(self).data@.len() + block_len(old(self).block.entries()),
            final(self).index_size == old(self).index_size + 16 + old(self).last_key@.len(),
    {
        let ghost cur = self.block.entries();
        let ghost fill = self.block.fill() as int;
        let ghost old_idx = index_view(self.index@);
        let ghost old_data = self.data@;
        let mut full: BlockBuilder = BlockBuilder::new();
        core::mem::swap(&mut self.block, &mut full);
        let last: Vec<u8> = clone_bytes(self.last_key.as_slice());
        assert(last@ =~= self.last_key@);
        let bytes: Vec<u8> = full.finish(self.options.checksum_algo);
        let entry = IndexEntry { last_key: last, offset: self.data.len() as u64, len: bytes.len() as u32 };
        append_bytes(&mut self.data, bytes.as_slice());
        proof {
            let all = flatten(self.done@) + cur;
            assert(all.last() == cur.last());
            assert(valid_full_key(all[all.len() - 1].0));
            lemma_flush(
                old_data,
                bytes@,
                self.options.checksum_algo,
                self.smallest_key@,
                old_idx,
                self.done@,
                cur,
                entry@,
            );
            lemma_flatten_push(self.done@, cur);
            lemma_index_size_push(old_idx, entry@, old_idx.len());
            assert(index_view(self.index@.push(entry)) =~= old_idx.push(entry@));
            assert(index_view(self.index@.push(entry)).drop_last() =~= old_idx);
            assert(flatten(self.done@) + cur + Seq::<EntryView>::empty() =~= flatten(self.done@) + cur);
        }
        proof {
            let n = cur.len() as int;
            let flat = flatten(self.done@).len() as int;
            let blocks = self.done@.len() as int;
            assert(bytes@.len() <= n * entry_room()) by {
                assert(4 * ((n + 15) / 16) + 12 <= 16 * n);
                assert(n * entry_room() == n * record_room() + 16 * n) by (nonlinear_arith);
            }
            assert((flat + n) * entry_room() == flat * entry_room() + n * entry_room())
                by (nonlinear_arith);
            assert((blocks + 1) * (16 + SHORT_KEY_LEN) == blocks * (16 + SHORT_KEY_LEN) + (16
                + SHORT_KEY_LEN)) by (nonlinear_arith);
            if short_keys(old(self).entries()) {
                assert(old(self).entries().last().0.len() <= SHORT_KEY_LEN);
            }
        }
        self.index_size = self.index_size + 16 + entry.last_key.len();
        self.index.push(entry);
        self.done = Ghost(self.done@.push(cur));
    }

    /// Serializes the table: the blocks, the index, the Bloom filter of the
    /// user keys, and the footer. Returns the bytes and what they say of the
    /// table.
    pub fn finish(self) -> (r: (Vec<u8>, TableMeta))
        requires
            self.wf(),
            self.entries().len() > 0,
        ensures
            spec_open_table(r.0@) == Ok::<TableMetaView, HummockError>(r.1@),
            spec_table_entries(r.0@, r.1@) == Ok::<Seq<EntryView>, HummockError>(self.entries()),
            r.1@.alg == self.options().checksum_algo,
            is_filter_of(
                r.1@.filter,
                entry_hashes(self.entries()),
                self.options().bloom_bits_per_key,
            ),
            r.1@.smallest_key == self.entries()[0].0,
            r.1@.index.len() > 0,
            r.1@.index.last().last_key == self.entries().last().0,
    {
        let mut b: TableBuilder = self;
        if !b.block.is_empty() {
            b.flush_block();
        }
        assert(b.entries() =~= flatten(b.done@));
        let filter: Vec<u8> = build_filter(&b.hashes, b.options.bloom_bits_per_key);
        let ghost old_data = b.data@;
        let ghost idx = index_view(b.index@);
        let alg: ChecksumAlg = b.options.checksum_algo;
        let bytes: Vec<u8> = assemble_table(b.data, &b.smallest_key, &b.index, &filter, alg);
        let meta = TableMeta { alg, smallest_key: b.smallest_key, index: b.index, filter };
        proof {
            lemma_finished(old_data, bytes@, meta@, b.done@);
        }
        (bytes, meta)
    }
}

} // verus!
