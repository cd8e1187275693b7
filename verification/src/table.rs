//! Tables: immutable sorted runs of entries, stored as blocks with an index,
//! an optional Bloom filter and a footer.
//!
//! A table's bytes are, in order: the blocks; the index; the filter; the
//! footer. The index is the number of blocks and the smallest key, then for
//! each block its last key, its offset and its length. The footer is 40 bytes:
//! the offset (8) and length (4) of the index, the offset (8) and length (4)
//! of the filter, the checksum algorithm (1), the format version (1), the
//! magic `HU` (2), the checksums of index (4) and filter (4), and the checksum
//! of the 36 bytes before it (4). Numbers are little-endian.

use vstd::prelude::*;
use vstd::slice::slice_subrange;
use crate::block::{Block, EntryView, is_prefix, spec_decode_block};
use crate::bloom::{filter_may_contain, spec_filter_may_contain};
use crate::checksum::{checksum32, checksum32_of, ChecksumAlg, spec_alg_of_tag, spec_alg_tag};
use crate::coding::{
    append_bytes, bytes_eq, clone_bytes, copy_range, get_u32_le, get_u64_le, le32, le32_decode,
    le64, le64_decode, lemma_le32_roundtrip, lemma_le64_roundtrip, put_u32_le, put_u64_le,
};
use crate::error::HummockError;
use crate::key::{
    full_key_less, full_key_lt, lemma_full_key_lt_transitive, spec_user_key, user_key,
    valid_full_key,
};

verus! {

/// The number of bytes of a footer.
pub const FOOTER_LEN: usize = 40;

/// The format version that this library writes and reads.
pub const FORMAT_VERSION: u8 = 1;

/// The first byte of the magic.
pub const MAGIC_0: u8 = 0x48;

/// The second byte of the magic.
pub const MAGIC_1: u8 = 0x55;

/// Where a block stands in its table, as plain values.
pub struct BlockHandle {
    pub last_key: Seq<u8>,
    pub offset: int,
    pub len: int,
}

/// Where a block stands in its table: its last key, its offset, its length.
#[derive(Debug)]
pub struct IndexEntry {
    pub last_key: Vec<u8>,
    pub offset: u64,
    pub len: u32,
}

impl View for IndexEntry {
    type V = BlockHandle;

    open spec fn view(&self) -> BlockHandle {
        BlockHandle { last_key: self.last_key@, offset: self.offset as int, len: self.len as int }
    }
}

/// The index entries of a vector as plain values.
pub open spec fn index_view(idx: Seq<IndexEntry>) -> Seq<BlockHandle> {
    idx.map_values(|e: IndexEntry| e@)
}

/// What a table's footer and index say, as plain values.
pub struct TableMetaView {
    pub alg: ChecksumAlg,
    pub smallest_key: Seq<u8>,
    pub index: Seq<BlockHandle>,
    pub filter: Seq<u8>,
}

/// What a table's footer and index say: the checksum algorithm, the smallest
/// key, where each block stands, and the serialized Bloom filter.
#[derive(Debug)]
pub struct TableMeta {
    pub alg: ChecksumAlg,
    pub smallest_key: Vec<u8>,
    pub index: Vec<IndexEntry>,
    pub filter: Vec<u8>,
}

impl View for TableMeta {
    type V = TableMetaView;

    open spec fn view(&self) -> TableMetaView {
        TableMetaView {
            alg: self.alg,
            smallest_key: self.smallest_key@,
            index: index_view(self.index@),
            filter: self.filter@,
        }
    }
}

/// The fields of a footer.
pub struct Footer {
    pub index_off: u64,
    pub index_len: u32,
    pub filter_off: u64,
    pub filter_len: u32,
    pub alg: ChecksumAlg,
    pub index_sum: u32,
    pub filter_sum: u32,
}

/// What 40 bytes hold as a footer, or why they are refused: a wrong magic or
/// version and an unknown algorithm are malformed; then the checksum decides.
pub open spec fn spec_parse_footer(f: Seq<u8>) -> Result<Footer, HummockError>
    recommends
        f.len() == FOOTER_LEN,
{
    if f[26] != MAGIC_0 || f[27] != MAGIC_1 || f[25] != FORMAT_VERSION {
        Err(HummockError::InvalidSST)
    } else {
        match spec_alg_of_tag(f[24]) {
            None => Err(HummockError::InvalidSST),
            Some(alg) => if checksum32_of(alg, f.take(36)) != le32_decode(f.subrange(36, 40)) {
                Err(HummockError::ChecksumMismatch)
            } else {
                Ok(
                    Footer {
                        index_off: le64_decode(f.subrange(0, 8)),
                        index_len: le32_decode(f.subrange(8, 12)),
                        filter_off: le64_decode(f.subrange(12, 20)),
                        filter_len: le32_decode(f.subrange(20, 24)),
                        alg: alg,
                        index_sum: le32_decode(f.subrange(28, 32)),
                        filter_sum: le32_decode(f.subrange(32, 36)),
                    },
                )
            },
        }
    }
}

/// The index entry at `bytes[p..]` and the position behind it, if one is there.
pub open spec fn index_entry_at(bytes: Seq<u8>, p: int) -> Option<(BlockHandle, int)> {
    if p < 0 || p + 4 > bytes.len() {
        None
    } else {
        let klen = le32_decode(bytes.subrange(p, p + 4)) as int;
        if p + 4 + klen + 12 > bytes.len() {
            None
        } else {
            Some(
                (
                    BlockHandle {
                        last_key: bytes.subrange(p + 4, p + 4 + klen),
                        offset: le64_decode(bytes.subrange(p + 4 + klen, p + 12 + klen)) as int,
                        len: le32_decode(bytes.subrange(p + 12 + klen, p + 16 + klen)) as int,
                    },
                    p + 16 + klen,
                ),
            )
        }
    }
}

/// The first `n` index entries from `bytes[start..]` and the position behind them.
pub open spec fn index_steps(bytes: Seq<u8>, start: int, n: nat) -> Option<(Seq<BlockHandle>, int)>
    decreases n,
{
    if n == 0 {
        Some((Seq::empty(), start))
    } else {
        match index_steps(bytes, start, (n - 1) as nat) {
            None => None,
            Some((es, p)) => match index_entry_at(bytes, p) {
                None => None,
                Some((h, q)) => Some((es.push(h), q)),
            },
        }
    }
}

/// The smallest key and the entries that an index holds, if the bytes are an index.
pub open spec fn spec_parse_index(bytes: Seq<u8>) -> Option<(Seq<u8>, Seq<BlockHandle>)> {
    if bytes.len() < 8 {
        None
    } else {
        let count = le32_decode(bytes.subrange(0, 4)) as nat;
        let sklen = le32_decode(bytes.subrange(4, 8)) as int;
        if 8 + sklen > bytes.len() {
            None
        } else {
            match index_steps(bytes, 8 + sklen, count) {
                None => None,
                Some((es, end)) => if end == bytes.len() {
                    Some((bytes.subrange(8, 8 + sklen), es))
                } else {
                    None
                },
            }
        }
    }
}

/// Where block `i` ends.
pub open spec fn handle_end(idx: Seq<BlockHandle>, i: int) -> int {
    idx[i].offset + idx[i].len
}

/// Block `i` starts where the block before it ends, the first at 0, and ends
/// within the first `end` bytes.
pub open spec fn handle_fits(idx: Seq<BlockHandle>, i: int, end: int) -> bool {
    &&& idx[i].len >= 0
    &&& idx[i].offset == if i == 0 {
        0
    } else {
        handle_end(idx, i - 1)
    }
    &&& 0 <= idx[i].offset
    &&& handle_end(idx, i) <= end
}

/// The blocks of a non-empty index cover the first `end` bytes without gap or overlap.
pub open spec fn handles_tile(idx: Seq<BlockHandle>, end: int) -> bool {
    &&& idx.len() >= 1
    &&& forall|i: int| 0 <= i < idx.len() ==> #[trigger] handle_fits(idx, i, end)
    &&& handle_end(idx, idx.len() - 1) == end
}

/// The smallest key and every last key are well formed.
pub open spec fn index_keys_valid(smallest: Seq<u8>, idx: Seq<BlockHandle>) -> bool {
    &&& valid_full_key(smallest)
    &&& forall|i: int| 0 <= i < idx.len() ==> valid_full_key(#[trigger] idx[i].last_key)
}

/// The last keys increase strictly, and no last key sorts before the smallest key.
pub open spec fn index_keys_sorted(smallest: Seq<u8>, idx: Seq<BlockHandle>) -> bool {
    &&& forall|i: int| 0 <= i < idx.len() ==> !full_key_lt(#[trigger] idx[i].last_key, smallest)
    &&& forall|i: int, j: int|
        0 <= i < j < idx.len() ==> full_key_lt(#[trigger] idx[i].last_key, #[trigger] idx[j].last_key)
}

/// What a table's bytes say of the table, or why they are refused. Only
/// footer, index and filter are read; the blocks are checked when they are
/// touched.
#[verifier::opaque]
pub open spec fn spec_open_table(data: Seq<u8>) -> Result<TableMetaView, HummockError> {
    let len = data.len() as int;
    if len < FOOTER_LEN {
        Err(HummockError::InvalidSST)
    } else {
        match spec_parse_footer(data.skip(len - 40)) {
            Err(e) => Err(e),
            Ok(ft) => if ft.index_off + ft.index_len != ft.filter_off || ft.filter_off
                + ft.filter_len != len - 40 {
                Err(HummockError::InvalidSST)
            } else {
                let index_bytes = data.subrange(ft.index_off as int, ft.filter_off as int);
                let filter_bytes = data.subrange(ft.filter_off as int, len - 40);
                if checksum32_of(ft.alg, index_bytes) != ft.index_sum {
                    Err(HummockError::ChecksumMismatch)
                } else if checksum32_of(ft.alg, filter_bytes) != ft.filter_sum {
                    Err(HummockError::ChecksumMismatch)
                } else {
                    match spec_parse_index(index_bytes) {
                        None => Err(HummockError::InvalidSST),
                        Some((sk, idx)) => if !handles_tile(idx, ft.index_off as int) {
                            Err(HummockError::InvalidSST)
                        } else if !index_keys_valid(sk, idx) {
                            Err(HummockError::InvalidKey)
                        } else if !index_keys_sorted(sk, idx) {
                            Err(HummockError::InvalidSST)
                        } else {
                            Ok(
                                TableMetaView {
                                    alg: ft.alg,
                                    smallest_key: sk,
                                    index: idx,
                                    filter: filter_bytes,
                                },
                            )
                        },
                    }
                }
            },
        }
    }
}

/// What block `i` of a table holds, or why it is refused: the block must
/// decode, must not be empty, must end with the key that the index names, and
/// must start behind the block before it (the first with the smallest key).
pub open spec fn spec_block_at(
    data: Seq<u8>,
    alg: ChecksumAlg,
    smallest: Seq<u8>,
    idx: Seq<BlockHandle>,
    i: int,
) -> Result<Seq<EntryView>, HummockError> {
    let h = idx[i];
    match spec_decode_block(data.subrange(h.offset, h.offset + h.len), alg) {
        Err(e) => Err(e),
        Ok(es) => if es.len() == 0 || es.last().0 != h.last_key {
            Err(HummockError::InvalidSST)
        } else if i == 0 && es[0].0 != smallest {
            Err(HummockError::InvalidSST)
        } else if i > 0 && !full_key_lt(idx[i - 1].last_key, es[0].0) {
            Err(HummockError::InvalidSST)
        } else {
            Ok(es)
        },
    }
}

/// What block `i` of a table holds, or why it is refused.
pub open spec fn spec_block_entries(data: Seq<u8>, meta: TableMetaView, i: int) -> Result<
    Seq<EntryView>,
    HummockError,
> {
    spec_block_at(data, meta.alg, meta.smallest_key, meta.index, i)
}

/// The entries of the first `n` blocks of a table, or the first refusal
/// among them.
pub open spec fn spec_table_entries_upto(data: Seq<u8>, meta: TableMetaView, n: nat) -> Result<
    Seq<EntryView>,
    HummockError,
>
    decreases n,
{
    if n == 0 {
        Ok(Seq::empty())
    } else {
        match spec_table_entries_upto(data, meta, (n - 1) as nat) {
            Err(e) => Err(e),
            Ok(es) => match spec_block_entries(data, meta, n - 1) {
                Err(e) => Err(e),
                Ok(b) => Ok(es + b),
            },
        }
    }
}

/// All entries of a table in order, or the first refusal among its blocks.
pub open spec fn spec_table_entries(data: Seq<u8>, meta: TableMetaView) -> Result<
    Seq<EntryView>,
    HummockError,
> {
    spec_table_entries_upto(data, meta, meta.index.len())
}

/// Where the blocks of a table end and its index begins, by its footer.
pub open spec fn spec_index_off(data: Seq<u8>) -> int {
    spec_parse_footer(data.skip(data.len() - 40)).unwrap().index_off as int
}

/// What holds of a table whose footer and index were accepted.
pub proof fn lemma_opened_table(data: Seq<u8>, meta: TableMetaView)
    requires
        spec_open_table(data) == Ok::<TableMetaView, HummockError>(meta),
    ensures
        data.len() >= FOOTER_LEN,
        0 <= spec_index_off(data) <= data.len() - 40,
        handles_tile(meta.index, spec_index_off(data)),
        index_keys_valid(meta.smallest_key, meta.index),
        index_keys_sorted(meta.smallest_key, meta.index),
        meta.filter.len() <= u32::MAX,
{
    reveal(spec_open_table);
}

/// Reads a footer from its 40 bytes.
pub fn parse_footer(f: &[u8]) -> (r: Result<Footer, HummockError>)
    requires
        f@.len() == FOOTER_LEN,
    ensures
        r == spec_parse_footer(f@),
{
    if f[26] != MAGIC_0 || f[27] != MAGIC_1 || f[25] != FORMAT_VERSION {
        return Err(HummockError::InvalidSST);
    }
    match ChecksumAlg::from_tag(f[24]) {
        None => Err(HummockError::InvalidSST),
        Some(alg) => {
            let covered: &[u8] = slice_subrange(f, 0, 36);
            assert(covered@ =~= f@.take(36));
            if checksum32(alg, covered) != get_u32_le(f, 36) {
                return Err(HummockError::ChecksumMismatch);
            }
            Ok(
                Footer {
                    index_off: get_u64_le(f, 0),
                    index_len: get_u32_le(f, 8),
                    filter_off: get_u64_le(f, 12),
                    filter_len: get_u32_le(f, 20),
                    alg: alg,
                    index_sum: get_u32_le(f, 28),
                    filter_sum: get_u32_le(f, 32),
                },
            )
        },
    }
}

/// Reads the index entry at `bytes[p..]`.
fn parse_index_entry(bytes: &[u8], p: usize) -> (r: Option<(IndexEntry, usize)>)
    ensures
        match index_entry_at(bytes@, p as int) {
            None => r is None,
            Some((h, q)) => (r matches Some(out) && out.0@ == h && out.1 == q),
        },
{
    let len: usize = bytes.len();
    if len < 4 || p > len - 4 {
        return None;
    }
    let klen: usize = get_u32_le(bytes, p) as usize;
    if len - p - 4 < 12 || len - p - 4 - 12 < klen {
        return None;
    }
    let last_key: Vec<u8> = copy_range(bytes, p + 4, p + 4 + klen);
    let offset: u64 = get_u64_le(bytes, p + 4 + klen);
    let blen: u32 = get_u32_le(bytes, p + 12 + klen);
    Some((IndexEntry { last_key, offset, len: blen }, p + 16 + klen))
}

/// Reads an index from its bytes.
#[verifier::loop_isolation(false)]
pub fn parse_index(bytes: &[u8]) -> (r: Option<(Vec<u8>, Vec<IndexEntry>)>)
    ensures
        match spec_parse_index(bytes@) {
            None => r is None,
            Some((sk, idx)) => (r matches Some(out) && out.0@ == sk && index_view(out.1@) == idx),
        },
{
    let len: usize = bytes.len();
    if len < 8 {
        return None;
    }
    let count: usize = get_u32_le(bytes, 0) as usize;
    let sklen: usize = get_u32_le(bytes, 4) as usize;
    if len - 8 < sklen {
        return None;
    }
    let smallest: Vec<u8> = copy_range(bytes, 8, 8 + sklen);
    let start: usize = 8 + sklen;
    let mut index: Vec<IndexEntry> = Vec::new();
    let mut pos: usize = start;
    let mut k: usize = 0;
    assert(index_view(index@) =~= Seq::<BlockHandle>::empty());
    while k < count
        invariant
            k <= count,
            index.len() == k,
            index_steps(bytes@, start as int, k as nat) == Some((index_view(index@), pos as int)),
        decreases count - k,
    {
        match parse_index_entry(bytes, pos) {
            None => {
                proof {
                    assert(index_steps(bytes@, start as int, (k + 1) as nat) is None);
                    lemma_index_steps_none(bytes@, start as int, (k + 1) as nat, count as nat);
                }
                return None;
            },
            Some((entry, next)) => {
                assert(index_view(index@.push(entry)) =~= index_view(index@).push(entry@));
                index.push(entry);
                pos = next;
                k += 1;
            },
        }
    }
    if pos != len {
        return None;
    }
    Some((smallest, index))
}

proof fn lemma_index_steps_none(bytes: Seq<u8>, start: int, n: nat, m: nat)
    requires
        n <= m,
        index_steps(bytes, start, n) is None,
    ensures
        index_steps(bytes, start, m) is None,
    decreases m,
{
    if n < m {
        lemma_index_steps_none(bytes, start, n, (m - 1) as nat);
    }
}

/// Whether the blocks of `index` cover the first `end` bytes without gap or overlap.
fn index_tiles(index: &Vec<IndexEntry>, end: u64) -> (r: bool)
    ensures
        r == handles_tile(index_view(index@), end as int),
{
    let ghost idx = index_view(index@);
    let n: usize = index.len();
    if n == 0 {
        return false;
    }
    let mut expect: u64 = 0;
    let mut i: usize = 0;
    while i < n
        invariant
            i <= n,
            n == index.len(),
            idx == index_view(index@),
            expect <= end,
            expect == if i == 0 {
                0
            } else {
                handle_end(idx, i - 1)
            },
            forall|t: int| 0 <= t < i ==> #[trigger] handle_fits(idx, t, end as int),
        decreases n - i,
    {
        let off: u64 = index[i].offset;
        let blen: u64 = index[i].len as u64;
        if off != expect || blen > end - off {
            assert(!handle_fits(idx, i as int, end as int));
            return false;
        }
        expect = off + blen;
        i += 1;
    }
    expect == end
}

/// Whether the smallest key and every last key are well formed.
fn index_has_valid_keys(smallest: &Vec<u8>, index: &Vec<IndexEntry>) -> (r: bool)
    ensures
        r == index_keys_valid(smallest@, index_view(index@)),
{
    let ghost idx = index_view(index@);
    if smallest.len() <= 8 {
        return false;
    }
    let mut i: usize = 0;
    while i < index.len()
        invariant
            i <= index.len(),
            idx == index_view(index@),
            forall|t: int| 0 <= t < i ==> valid_full_key(#[trigger] idx[t].last_key),
        decreases index.len() - i,
    {
        if index[i].last_key.len() <= 8 {
            assert(!valid_full_key(idx[i as int].last_key));
            return false;
        }
        i += 1;
    }
    true
}

/// Whether the last keys increase strictly from the smallest key on.
fn index_is_sorted(smallest: &Vec<u8>, index: &Vec<IndexEntry>) -> (r: bool)
    requires
        index_keys_valid(smallest@, index_view(index@)),
    ensures
        r == index_keys_sorted(smallest@, index_view(index@)),
{
    let ghost idx = index_view(index@);
    let n: usize = index.len();
    let mut i: usize = 0;
    while i < n
        invariant
            i <= n,
            n == index.len(),
            idx == index_view(index@),
            index_keys_valid(smallest@, idx),
            forall|t: int| 0 <= t < i ==> !full_key_lt(#[trigger] idx[t].last_key, smallest@),
            forall|a: int, b: int|
                0 <= a < b < i ==> full_key_lt(#[trigger] idx[a].last_key, #[trigger] idx[b].last_key),
        decreases n - i,
    {
        assert(valid_full_key(idx[i as int].last_key));
        if full_key_less(index[i].last_key.as_slice(), smallest.as_slice()) {
            return false;
        }
        if i > 0 {
            assert(valid_full_key(idx[i - 1].last_key));
            if !full_key_less(index[i - 1].last_key.as_slice(), index[i].last_key.as_slice()) {
                assert(!full_key_lt(idx[i - 1].last_key, idx[i as int].last_key));
                return false;
            }
            proof {
                assert forall|a: int, b: int| 0 <= a < b < i + 1 implies full_key_lt(
                    #[trigger] idx[a].last_key,
                    #[trigger] idx[b].last_key,
                ) by {
                    if b == i && a < i - 1 {
                        lemma_full_key_lt_transitive(
                            idx[a].last_key,
                            idx[i - 1].last_key,
                            idx[b].last_key,
                        );
                    }
                }
            }
        }
        i += 1;
    }
    true
}

/// Reads what a table's bytes say of the table.
pub fn open_meta(data: &[u8]) -> (r: Result<TableMeta, HummockError>)
    ensures
        match spec_open_table(data@) {
            Ok(m) => (r matches Ok(meta) && meta@ == m),
            Err(e) => (r matches Err(e2) && e2 == e),
        },
{
    reveal(spec_open_table);
    let len: usize = data.len();
    if len < FOOTER_LEN {
        return Err(HummockError::InvalidSST);
    }
    let body_len: usize = len - FOOTER_LEN;
    let footer: &[u8] = slice_subrange(data, body_len, len);
    assert(footer@ =~= data@.skip(len - 40));
    let ft: Footer = match parse_footer(footer) {
        Err(e) => {
            return Err(e);
        },
        Ok(ft) => ft,
    };
    let body: u64 = body_len as u64;
    if ft.filter_off > body || (ft.filter_len as u64) != body - ft.filter_off {
        return Err(HummockError::InvalidSST);
    }
    if ft.index_off > ft.filter_off || (ft.index_len as u64) != ft.filter_off - ft.index_off {
        return Err(HummockError::InvalidSST);
    }
    let index_bytes: &[u8] = slice_subrange(data, ft.index_off as usize, ft.filter_off as usize);
    let filter_bytes: &[u8] = slice_subrange(data, ft.filter_off as usize, body_len);
    if checksum32(ft.alg, index_bytes) != ft.index_sum {
        return Err(HummockError::ChecksumMismatch);
    }
    if checksum32(ft.alg, filter_bytes) != ft.filter_sum {
        return Err(HummockError::ChecksumMismatch);
    }
    match parse_index(index_bytes) {
        None => Err(HummockError::InvalidSST),
        Some((smallest_key, index)) => {
            if !index_tiles(&index, ft.index_off) {
                return Err(HummockError::InvalidSST);
            }
            if !index_has_valid_keys(&smallest_key, &index) {
                return Err(HummockError::InvalidKey);
            }
            if !index_is_sorted(&smallest_key, &index) {
                return Err(HummockError::InvalidSST);
            }
            let filter: Vec<u8> = copy_range(data, ft.filter_off as usize, body_len);
            Ok(TableMeta { alg: ft.alg, smallest_key, index, filter })
        },
    }
}

/// Reads block `i` of a table whose footer and index have been read.
pub fn read_block_at(data: &[u8], meta: &TableMeta, i: usize) -> (r: Result<Block, HummockError>)
    requires
        spec_open_table(data@) == Ok::<TableMetaView, HummockError>(meta@),
        i < meta@.index.len(),
    ensures
        match spec_block_entries(data@, meta@, i as int) {
            Ok(es) => (r matches Ok(b) && b@ == es && b.wf()),
            Err(e) => (r matches Err(e2) && e2 == e),
        },
{
    let ghost idx = index_view(meta.index@);
    let total: usize = data.len();
    proof {
        lemma_opened_table(data@, meta@);
        assert(handle_fits(idx, i as int, spec_index_off(data@)));
        assert(idx[i as int] == meta.index@[i as int]@);
        assert(handle_end(idx, i as int) <= data@.len() - 40);
        if i > 0 {
            assert(idx[i - 1] == meta.index@[i - 1]@);
        }
    }
    assert(meta.index[i as int].offset + meta.index[i as int].len <= total);
    let off: usize = meta.index[i].offset as usize;
    let blen: usize = meta.index[i].len as usize;
    let bytes: &[u8] = slice_subrange(data, off, off + blen);
    assert(bytes@ == data@.subrange(idx[i as int].offset, idx[i as int].offset + idx[i as int].len));
    match Block::decode(bytes, meta.alg) {
        Err(e) => Err(e),
        Ok(block) => {
            let n: usize = block.len();
            if n == 0 || !bytes_eq(block.key(n - 1), meta.index[i].last_key.as_slice()) {
                return Err(HummockError::InvalidSST);
            }
            if i == 0 {
                if !bytes_eq(block.key(0), meta.smallest_key.as_slice()) {
                    return Err(HummockError::InvalidSST);
                }
            } else {
                assert(valid_full_key(idx[i - 1].last_key));
                assert(valid_full_key(block@[0].0));
                if !full_key_less(meta.index[i - 1].last_key.as_slice(), block.key(0)) {
                    return Err(HummockError::InvalidSST);
                }
            }
            Ok(block)
        },
    }
}

/// The number of bytes that the first `n` entries of an index take.
pub open spec fn index_size_upto(idx: Seq<BlockHandle>, n: nat) -> int
    decreases n,
{
    if n == 0 {
        0
    } else {
        index_size_upto(idx, (n - 1) as nat) + 16 + idx[n - 1].last_key.len()
    }
}

/// The number of bytes that a serialized index takes.
pub open spec fn spec_index_size(smallest: Seq<u8>, idx: Seq<BlockHandle>) -> int {
    8 + smallest.len() + index_size_upto(idx, idx.len())
}

/// The largest index that a table can hold, in bytes.
pub const MAX_INDEX_LEN: usize = 0x7fff_ffff;

/// The most bytes of blocks that a table can hold.
pub const MAX_TABLE_DATA: u64 = 0x3fff_ffff_ffff_ffff;

proof fn lemma_index_entry_prefix(a: Seq<u8>, b: Seq<u8>, p: int)
    requires
        is_prefix(a, b),
        index_entry_at(a, p) is Some,
    ensures
        index_entry_at(b, p) == index_entry_at(a, p),
{
    let t = b.take(a.len() as int);
    let klen = le32_decode(a.subrange(p, p + 4)) as int;
    assert(a.subrange(p, p + 4) =~= b.subrange(p, p + 4)) by {
        assert(t.subrange(p, p + 4) =~= b.subrange(p, p + 4));
    }
    assert(a.subrange(p + 4, p + 4 + klen) =~= b.subrange(p + 4, p + 4 + klen)) by {
        assert(t.subrange(p + 4, p + 4 + klen) =~= b.subrange(p + 4, p + 4 + klen));
    }
    assert(a.subrange(p + 4 + klen, p + 12 + klen) =~= b.subrange(p + 4 + klen, p + 12 + klen)) by {
        assert(t.subrange(p + 4 + klen, p + 12 + klen) =~= b.subrange(p + 4 + klen, p + 12 + klen));
    }
    assert(a.subrange(p + 12 + klen, p + 16 + klen) =~= b.subrange(p + 12 + klen, p + 16 + klen)) by {
        assert(t.subrange(p + 12 + klen, p + 16 + klen) =~= b.subrange(p + 12 + klen, p + 16 + klen));
    }
}

proof fn lemma_index_steps_extend(a: Seq<u8>, b: Seq<u8>, start: int, n: nat)
    requires
        is_prefix(a, b),
        index_steps(a, start, n) is Some,
    ensures
        index_steps(b, start, n) == index_steps(a, start, n),
    decreases n,
{
    if n > 0 {
        lemma_index_steps_extend(a, b, start, (n - 1) as nat);
        let p = index_steps(a, start, (n - 1) as nat).unwrap().1;
        lemma_index_entry_prefix(a, b, p);
    }
}

proof fn lemma_index_entry_appended(buf: Seq<u8>, key: Seq<u8>, offset: u64, len: u32)
    requires
        key.len() <= u32::MAX,
    ensures
        index_entry_at(buf + le32(key.len() as u32) + key + le64(offset) + le32(len), buf.len() as int)
            == Some(
            (
                BlockHandle { last_key: key, offset: offset as int, len: len as int },
                (buf.len() + 16 + key.len()) as int,
            ),
        ),
{
    let all = buf + le32(key.len() as u32) + key + le64(offset) + le32(len);
    let p = buf.len() as int;
    let klen = key.len() as int;
    lemma_le32_roundtrip(key.len() as u32);
    lemma_le64_roundtrip(offset);
    lemma_le32_roundtrip(len);
    assert(all.subrange(p, p + 4) =~= le32(key.len() as u32));
    assert(all.subrange(p + 4, p + 4 + klen) =~= key);
    assert(all.subrange(p + 4 + klen, p + 12 + klen) =~= le64(offset));
    assert(all.subrange(p + 12 + klen, p + 16 + klen) =~= le32(len));
}

/// Appends one index entry to `buf`.
fn append_index_entry(buf: &mut Vec<u8>, e: &IndexEntry)
    requires
        e.last_key@.len() <= u32::MAX,
    ensures
        final(buf)@ == old(buf)@ + le32(e.last_key@.len() as u32) + e.last_key@ + le64(e.offset) + le32(
            e.len,
        ),
        final(buf)@.len() == old(buf)@.len() + 16 + e.last_key@.len(),
{
    put_u32_le(buf, e.last_key.len() as u32);
    append_bytes(buf, e.last_key.as_slice());
    put_u64_le(buf, e.offset);
    put_u32_le(buf, e.len);
}

/// One more entry behind a run of index entries is one more step of reading.
proof fn lemma_index_step_appended(
    before: Seq<u8>,
    after: Seq<u8>,
    start: int,
    k: nat,
    h: BlockHandle,
    offset: u64,
    len: u32,
)
    requires
        index_steps(before, start, k) matches Some(st) && st.1 == before.len(),
        h.last_key.len() <= u32::MAX,
        h.offset == offset,
        h.len == len,
        after == before + le32(h.last_key.len() as u32) + h.last_key + le64(offset) + le32(len),
    ensures
        index_steps(after, start, k + 1) == Some(
            (index_steps(before, start, k).unwrap().0.push(h), after.len() as int),
        ),
        is_prefix(before, after),
{
    lemma_index_entry_appended(before, h.last_key, offset, len);
    assert(is_prefix(before, after)) by {
        assert(after.take(before.len() as int) =~= before);
    }
    lemma_index_steps_extend(before, after, start, k);
    lemma_le32_roundtrip(h.last_key.len() as u32);
    lemma_le64_roundtrip(offset);
    lemma_le32_roundtrip(len);
}

/// The bytes that an index begins with: the number of blocks and the smallest key.
fn index_header(n: u32, smallest: &Vec<u8>) -> (r: Vec<u8>)
    requires
        smallest@.len() <= u32::MAX,
    ensures
        r@.len() == 8 + smallest@.len(),
        le32_decode(r@.subrange(0, 4)) == n,
        le32_decode(r@.subrange(4, 8)) == smallest@.len(),
        r@.subrange(8, 8 + smallest@.len() as int) == smallest@,
{
    let mut buf: Vec<u8> = Vec::new();
    put_u32_le(&mut buf, n);
    put_u32_le(&mut buf, smallest.len() as u32);
    append_bytes(&mut buf, smallest.as_slice());
    proof {
        lemma_le32_roundtrip(n);
        lemma_le32_roundtrip(smallest@.len() as u32);
        assert(buf@.subrange(0, 4) =~= le32(n));
        assert(buf@.subrange(4, 8) =~= le32(smallest@.len() as u32));
        assert(buf@.subrange(8, 8 + smallest@.len() as int) =~= smallest@);
    }
    buf
}

/// Serializes an index.
pub fn encode_index(smallest: &Vec<u8>, index: &Vec<IndexEntry>) -> (r: Vec<u8>)
    requires
        spec_index_size(smallest@, index_view(index@)) <= MAX_INDEX_LEN,
    ensures
        spec_parse_index(r@) == Some((smallest@, index_view(index@))),
        r@.len() == spec_index_size(smallest@, index_view(index@)),
{
    let ghost idx = index_view(index@);
    let n: usize = index.len();
    proof {
        lemma_index_size_bounds(idx, idx.len());
    }
    let mut buf: Vec<u8> = index_header(n as u32, smallest);
    let ghost header = buf@;
    let ghost start = header.len() as int;
    assert(idx.take(0) =~= Seq::<BlockHandle>::empty());
    assert(is_prefix(header, buf@)) by {
        assert(buf@.take(header.len() as int) =~= header);
    }
    let mut k: usize = 0;
    while k < n
        invariant
            k <= n,
            n == index.len(),
            idx == index_view(index@),
            start == 8 + smallest@.len(),
            start == header.len(),
            is_prefix(header, buf@),
            buf@.len() == start + index_size_upto(idx, k as nat),
            index_steps(buf@, start, k as nat) == Some((idx.take(k as int), buf@.len() as int)),
            spec_index_size(smallest@, idx) <= MAX_INDEX_LEN,
        decreases n - k,
    {
        let ghost before = buf@;
        let e: &IndexEntry = &index[k];
        proof {
            lemma_index_size_monotone(idx, (k + 1) as nat, idx.len());
            assert(idx[k as int] == e@);
        }
        append_index_entry(&mut buf, e);
        proof {
            lemma_index_step_appended(before, buf@, start, k as nat, e@, e.offset, e.len);
            assert(idx.take(k + 1) =~= idx.take(k as int).push(e@));
            assert(is_prefix(header, buf@)) by {
                assert(buf@.take(header.len() as int) =~= before.take(header.len() as int));
            }
        }
        k += 1;
    }
    proof {
        assert(idx.take(n as int) =~= idx);
        let t = buf@.take(header.len() as int);
        assert(buf@.subrange(0, 4) =~= t.subrange(0, 4));
        assert(buf@.subrange(4, 8) =~= t.subrange(4, 8));
        assert(buf@.subrange(8, 8 + smallest@.len() as int) =~= t.subrange(8, 8 + smallest@.len() as int));
    }
    buf
}

proof fn lemma_index_size_bounds(idx: Seq<BlockHandle>, n: nat)
    ensures
        index_size_upto(idx, n) >= 16 * n,
    decreases n,
{
    if n > 0 {
        lemma_index_size_bounds(idx, (n - 1) as nat);
    }
}

proof fn lemma_index_size_monotone(idx: Seq<BlockHandle>, n: nat, m: nat)
    requires
        n <= m,
    ensures
        index_size_upto(idx, n) <= index_size_upto(idx, m),
    decreases m,
{
    if n < m {
        lemma_index_size_monotone(idx, n, (m - 1) as nat);
    }
}

/// The first 36 bytes of a footer.
pub open spec fn spec_footer_head(ft: Footer) -> Seq<u8> {
    le64(ft.index_off) + le32(ft.index_len) + le64(ft.filter_off) + le32(ft.filter_len) + seq![
        spec_alg_tag(ft.alg),
        FORMAT_VERSION,
        MAGIC_0,
        MAGIC_1,
    ] + le32(ft.index_sum) + le32(ft.filter_sum)
}

/// The 40 bytes of a footer.
pub open spec fn spec_encode_footer(ft: Footer) -> Seq<u8> {
    spec_footer_head(ft) + le32(checksum32_of(ft.alg, spec_footer_head(ft)))
}

/// A footer is read back as it was written.
pub proof fn lemma_footer_roundtrip(ft: Footer)
    ensures
        spec_encode_footer(ft).len() == FOOTER_LEN,
        spec_parse_footer(spec_encode_footer(ft)) == Ok::<Footer, HummockError>(ft),
{
    let head = spec_footer_head(ft);
    let f = spec_encode_footer(ft);
    lemma_le64_roundtrip(ft.index_off);
    lemma_le32_roundtrip(ft.index_len);
    lemma_le64_roundtrip(ft.filter_off);
    lemma_le32_roundtrip(ft.filter_len);
    lemma_le32_roundtrip(ft.index_sum);
    lemma_le32_roundtrip(ft.filter_sum);
    lemma_le32_roundtrip(checksum32_of(ft.alg, head));
    assert(head.len() == 36);
    assert(f.take(36) =~= head);
    assert(f.subrange(0, 8) =~= le64(ft.index_off));
    assert(f.subrange(8, 12) =~= le32(ft.index_len));
    assert(f.subrange(12, 20) =~= le64(ft.filter_off));
    assert(f.subrange(20, 24) =~= le32(ft.filter_len));
    assert(f.subrange(28, 32) =~= le32(ft.index_sum));
    assert(f.subrange(32, 36) =~= le32(ft.filter_sum));
    assert(f.subrange(36, 40) =~= le32(checksum32_of(ft.alg, head)));
    assert(f[24] == spec_alg_tag(ft.alg));
    assert(f[25] == FORMAT_VERSION);
    assert(f[26] == MAGIC_0);
    assert(f[27] == MAGIC_1);
}

/// Serializes a footer.
pub fn encode_footer(ft: &Footer) -> (r: Vec<u8>)
    ensures
        r@ == spec_encode_footer(*ft),
        r@.len() == FOOTER_LEN,
{
    let mut buf: Vec<u8> = Vec::new();
    put_u64_le(&mut buf, ft.index_off);
    put_u32_le(&mut buf, ft.index_len);
    put_u64_le(&mut buf, ft.filter_off);
    put_u32_le(&mut buf, ft.filter_len);
    buf.push(ft.alg.tag());
    buf.push(FORMAT_VERSION);
    buf.push(MAGIC_0);
    buf.push(MAGIC_1);
    put_u32_le(&mut buf, ft.index_sum);
    put_u32_le(&mut buf, ft.filter_sum);
    assert(buf@ =~= spec_footer_head(*ft));
    let sum: u32 = checksum32(ft.alg, buf.as_slice());
    put_u32_le(&mut buf, sum);
    proof {
        lemma_footer_roundtrip(*ft);
    }
    buf
}

/// Puts index, filter and footer behind the blocks of a table.
pub fn assemble_table(
    blocks: Vec<u8>,
    smallest: &Vec<u8>,
    index: &Vec<IndexEntry>,
    filter: &Vec<u8>,
    alg: ChecksumAlg,
) -> (r: Vec<u8>)
    requires
        blocks@.len() <= MAX_TABLE_DATA,
        handles_tile(index_view(index@), blocks@.len() as int),
        index_keys_valid(smallest@, index_view(index@)),
        index_keys_sorted(smallest@, index_view(index@)),
        spec_index_size(smallest@, index_view(index@)) <= MAX_INDEX_LEN,
        filter@.len() <= u32::MAX,
    ensures
        is_prefix(blocks@, r@),
        spec_open_table(r@) == Ok::<TableMetaView, HummockError>(
            TableMetaView {
                alg: alg,
                smallest_key: smallest@,
                index: index_view(index@),
                filter: filter@,
            },
        ),
        r@.len() == blocks@.len() + spec_index_size(smallest@, index_view(index@)) + filter@.len()
            + FOOTER_LEN,
{
    let index_bytes: Vec<u8> = encode_index(smallest, index);
    let ft = Footer {
        index_off: blocks.len() as u64,
        index_len: index_bytes.len() as u32,
        filter_off: (blocks.len() as u64) + (index_bytes.len() as u64),
        filter_len: filter.len() as u32,
        alg: alg,
        index_sum: checksum32(alg, index_bytes.as_slice()),
        filter_sum: checksum32(alg, filter.as_slice()),
    };
    let footer: Vec<u8> = encode_footer(&ft);
    let ghost old_blocks = blocks@;
    let mut out: Vec<u8> = blocks;
    append_bytes(&mut out, index_bytes.as_slice());
    append_bytes(&mut out, filter.as_slice());
    append_bytes(&mut out, footer.as_slice());
    proof {
        lemma_assembled(old_blocks, index_bytes@, filter@, ft, smallest@, index_view(index@));
    }
    out
}

/// Blocks, an index, a filter and the footer that describes them are read
/// back as the table they were put together from.
proof fn lemma_assembled(
    blocks: Seq<u8>,
    index_bytes: Seq<u8>,
    filter: Seq<u8>,
    ft: Footer,
    smallest: Seq<u8>,
    idx: Seq<BlockHandle>,
)
    requires
        spec_parse_index(index_bytes) == Some((smallest, idx)),
        ft.index_off == blocks.len(),
        ft.index_len == index_bytes.len(),
        ft.filter_off == blocks.len() + index_bytes.len(),
        ft.filter_len == filter.len(),
        ft.index_sum == checksum32_of(ft.alg, index_bytes),
        ft.filter_sum == checksum32_of(ft.alg, filter),
        handles_tile(idx, blocks.len() as int),
        index_keys_valid(smallest, idx),
        index_keys_sorted(smallest, idx),
    ensures
        is_prefix(blocks, blocks + index_bytes + filter + spec_encode_footer(ft)),
        spec_open_table(blocks + index_bytes + filter + spec_encode_footer(ft)) == Ok::<
            TableMetaView,
            HummockError,
        >(TableMetaView { alg: ft.alg, smallest_key: smallest, index: idx, filter: filter }),
{
    reveal(spec_open_table);
    let footer = spec_encode_footer(ft);
    let data = blocks + index_bytes + filter + footer;
    let len = data.len() as int;
    lemma_footer_roundtrip(ft);
    assert(data.skip(len - 40) =~= footer);
    assert(data.subrange(ft.index_off as int, ft.filter_off as int) =~= index_bytes);
    assert(data.subrange(ft.filter_off as int, len - 40) =~= filter);
    assert(data.take(blocks.len() as int) =~= blocks);
}

/// The index of the first block from `from` on whose last key does not
/// sort before `target`; the number of blocks if there is none.
pub open spec fn block_lower_bound_from(idx: Seq<BlockHandle>, target: Seq<u8>, from: int) -> int
    decreases idx.len() - from,
{
    if from < 0 || from >= idx.len() {
        idx.len() as int
    } else if full_key_lt(idx[from].last_key, target) {
        block_lower_bound_from(idx, target, from + 1)
    } else {
        from
    }
}

/// The index of the first block that can hold a key that does not sort
/// before `target`.
pub open spec fn block_lower_bound(idx: Seq<BlockHandle>, target: Seq<u8>) -> int {
    block_lower_bound_from(idx, target, 0)
}

/// An index behind last keys that sort before the target, at one that does
/// not, is the lower bound.
pub proof fn lemma_block_lower_bound_is(idx: Seq<BlockHandle>, target: Seq<u8>, from: int, r: int)
    requires
        0 <= from <= r <= idx.len(),
        forall|i: int| from <= i < r ==> full_key_lt(#[trigger] idx[i].last_key, target),
        r < idx.len() ==> !full_key_lt(idx[r].last_key, target),
    ensures
        block_lower_bound_from(idx, target, from) == r,
    decreases r - from,
{
    if from < r {
        assert(full_key_lt(idx[from].last_key, target));
        lemma_block_lower_bound_is(idx, target, from + 1, r);
    }
}

/// What the lower bound is: all last keys before it sort before the target,
/// and the last key at it does not.
pub proof fn lemma_block_lower_bound_props(idx: Seq<BlockHandle>, target: Seq<u8>, from: int)
    requires
        0 <= from <= idx.len(),
    ensures
        from <= block_lower_bound_from(idx, target, from) <= idx.len(),
        forall|i: int|
            from <= i < block_lower_bound_from(idx, target, from) ==> full_key_lt(
                #[trigger] idx[i].last_key,
                target,
            ),
        block_lower_bound_from(idx, target, from) < idx.len() ==> !full_key_lt(
            idx[block_lower_bound_from(idx, target, from)].last_key,
            target,
        ),
    decreases idx.len() - from,
{
    if from < idx.len() && full_key_lt(idx[from].last_key, target) {
        lemma_block_lower_bound_props(idx, target, from + 1);
    }
}

impl IndexEntry {
    /// A copy of the entry.
    pub fn duplicate(&self) -> (r: IndexEntry)
        ensures
            r@ == self@,
    {
        IndexEntry {
            last_key: clone_bytes(self.last_key.as_slice()),
            offset: self.offset,
            len: self.len,
        }
    }
}

impl TableMeta {
    /// A copy of the description.
    pub fn duplicate(&self) -> (r: TableMeta)
        ensures
            r@ == self@,
    {
        let mut index: Vec<IndexEntry> = Vec::new();
        let mut i: usize = 0;
        while i < self.index.len()
            invariant
                i <= self.index.len(),
                index_view(index@) == index_view(self.index@).take(i as int),
            decreases self.index.len() - i,
        {
            let e: IndexEntry = self.index[i].duplicate();
            assert(index_view(index@.push(e)) =~= index_view(self.index@).take(i as int).push(e@));
            assert(index_view(self.index@).take(i + 1) =~= index_view(self.index@).take(i as int).push(
                self.index@[i as int]@,
            ));
            index.push(e);
            i += 1;
        }
        assert(index_view(self.index@).take(self.index.len() as int) =~= index_view(self.index@));
        TableMeta {
            alg: self.alg,
            smallest_key: clone_bytes(self.smallest_key.as_slice()),
            index,
            filter: clone_bytes(self.filter.as_slice()),
        }
    }
}

/// A table as plain values: its id, its bytes, and what footer and index say.
pub struct TableView {
    pub id: u64,
    pub data: Seq<u8>,
    pub meta: TableMetaView,
}

/// A table: its id and what its footer and index say. A table that was
/// fetched from the object store holds the bytes that were fetched, and its
/// blocks are read and checked when they are touched. A table in a version
/// holds no bytes: it stands for the bytes that were written.
pub struct Table {
    pub id: u64,
    pub meta: TableMeta,
    /// The bytes, where the table is loaded.
    pub data: Option<Vec<u8>>,
    /// The bytes that footer and index were read from.
    pub bytes: Ghost<Seq<u8>>,
}

impl View for Table {
    type V = TableView;

    open spec fn view(&self) -> TableView {
        TableView { id: self.id, data: self.bytes@, meta: self.meta@ }
    }
}

/// The bytes of the blocks of a table, by its index.
pub open spec fn table_block_bytes(t: TableView) -> int {
    handle_end(t.meta.index, t.meta.index.len() - 1)
}

/// The description of a table is the one that its bytes hold.
pub open spec fn table_wf(t: TableView) -> bool {
    spec_open_table(t.data) == Ok::<TableMetaView, HummockError>(t.meta)
}

/// A table is refused as bytes are refused.
pub proof fn lemma_open_fault(data: Seq<u8>)
    ensures
        spec_open_table(data) matches Err(e) ==> crate::error::read_fault(e),
{
    reveal(spec_open_table);
}

/// A block of a table is refused as bytes are refused.
pub proof fn lemma_block_fault(data: Seq<u8>, meta: TableMetaView, i: int)
    ensures
        spec_block_entries(data, meta, i) matches Err(e) ==> crate::error::read_fault(e),
{
    let h = meta.index[i];
    crate::block::lemma_decode_fault(data.subrange(h.offset, h.offset + h.len), meta.alg);
}

/// A table that opens holds at least its footer.
pub proof fn lemma_open_table_len(data: Seq<u8>)
    requires
        spec_open_table(data) is Ok,
    ensures
        data.len() >= FOOTER_LEN,
{
    reveal(spec_open_table);
}

/// The smallest user key of a table, by its index.
pub open spec fn table_smallest_user_key(t: TableView) -> Seq<u8> {
    spec_user_key(t.meta.smallest_key)
}

/// The largest user key of a table, by its index.
pub open spec fn table_largest_user_key(t: TableView) -> Seq<u8> {
    spec_user_key(t.meta.index.last().last_key)
}

/// The smallest user key of a well-formed table is not above its largest.
pub proof fn lemma_table_key_span(t: TableView)
    requires
        table_wf(t),
    ensures
        crate::coding::lex_le(table_smallest_user_key(t), table_largest_user_key(t)),
{
    lemma_opened_table(t.data, t.meta);
    let idx = t.meta.index;
    let last = idx[idx.len() - 1].last_key;
    assert(!full_key_lt(last, t.meta.smallest_key));
    assert(valid_full_key(last));
    crate::coding::lemma_lex_lt_total(spec_user_key(t.meta.smallest_key), spec_user_key(last));
}

impl Table {
    /// The description of the table is the one that its bytes hold.
    pub open spec fn wf(&self) -> bool {
        table_wf(self@)
    }

    /// The table holds the bytes that its footer and index were read from.
    pub open spec fn loaded(&self) -> bool {
        self.data matches Some(d) && d@ == self.bytes@
    }

    /// Opens a table from its bytes: reads footer, index and filter.
    pub fn open(id: u64, data: Vec<u8>) -> (r: Result<Table, HummockError>)
        ensures
            match spec_open_table(data@) {
                Ok(m) => (r matches Ok(t) && t@ == (TableView { id: id, data: data@, meta: m }) && t.wf()
                    && t.loaded()),
                Err(e) => (r matches Err(e2) && e2 == e),
            },
    {
        match open_meta(data.as_slice()) {
            Err(e) => Err(e),
            Ok(meta) => {
                let ghost bytes = data@;
                Ok(Table { id, meta, data: Some(data), bytes: Ghost(bytes) })
            },
        }
    }

    /// A table from bytes and the description that they hold.
    pub fn from_parts(id: u64, data: Vec<u8>, meta: TableMeta) -> (r: Table)
        requires
            spec_open_table(data@) == Ok::<TableMetaView, HummockError>(meta@),
        ensures
            r@ == (TableView { id: id, data: data@, meta: meta@ }),
            r.wf(),
            r.loaded(),
    {
        let ghost bytes = data@;
        Table { id, meta, data: Some(data), bytes: Ghost(bytes) }
    }

    /// A copy of the table, with its bytes where it holds them.
    pub fn duplicate(&self) -> (r: Table)
        ensures
            r@ == self@,
            r.loaded() == self.loaded(),
            r.data is Some == self.data is Some,
    {
        let data: Option<Vec<u8>> = match &self.data {
            Some(d) => Some(clone_bytes(d.as_slice())),
            None => None,
        };
        Table { id: self.id, meta: self.meta.duplicate(), data, bytes: self.bytes }
    }

    /// A copy of the table without its bytes, as a version holds it.
    pub fn unloaded(&self) -> (r: Table)
        ensures
            r@ == self@,
            r.data is None,
    {
        Table { id: self.id, meta: self.meta.duplicate(), data: None, bytes: self.bytes }
    }

    /// The bytes of the blocks, by the index.
    pub fn block_bytes(&self) -> (r: u64)
        requires
            self.wf(),
        ensures
            r == table_block_bytes(self@),
    {
        let ghost idx = index_view(self.meta.index@);
        proof {
            lemma_opened_table(self.bytes@, self.meta@);
        }
        let n: usize = self.meta.index.len();
        assert(handle_fits(idx, n - 1, spec_index_off(self.bytes@)));
        assert(idx[n - 1] == self.meta.index@[n - 1]@);
        self.meta.index[n - 1].offset + self.meta.index[n - 1].len as u64
    }

    /// The number of blocks.
    pub fn block_count(&self) -> (r: usize)
        ensures
            r == self@.meta.index.len(),
    {
        self.meta.index.len()
    }

    /// The number of bytes of a loaded table.
    pub fn size(&self) -> (r: usize)
        requires
            self.loaded(),
        ensures
            r == self@.data.len(),
    {
        match &self.data {
            Some(d) => d.len(),
            None => 0,
        }
    }

    /// The smallest user key, by the index.
    pub fn smallest_user_key(&self) -> (r: &[u8])
        requires
            self.wf(),
        ensures
            r@ == table_smallest_user_key(self@),
    {
        proof {
            lemma_opened_table(self.bytes@, self.meta@);
        }
        user_key(self.meta.smallest_key.as_slice())
    }

    /// The largest user key, by the index.
    pub fn largest_user_key(&self) -> (r: &[u8])
        requires
            self.wf(),
        ensures
            r@ == table_largest_user_key(self@),
    {
        proof {
            lemma_opened_table(self.bytes@, self.meta@);
        }
        let n: usize = self.meta.index.len();
        assert(valid_full_key(index_view(self.meta.index@)[n - 1].last_key));
        user_key(self.meta.index[n - 1].last_key.as_slice())
    }

    /// Whether the Bloom filter admits `user_key`. Without a filter every
    /// key is admitted.
    pub fn may_contain(&self, user_key: &[u8]) -> (r: bool)
        ensures
            r == spec_filter_may_contain(self@.meta.filter, user_key@),
    {
        filter_may_contain(self.meta.filter.as_slice(), user_key)
    }

    /// Reads and checks block `i` of a loaded table.
    pub fn read_block(&self, i: usize) -> (r: Result<Block, HummockError>)
        requires
            self.wf(),
            self.loaded(),
            i < self@.meta.index.len(),
        ensures
            match spec_block_entries(self@.data, self@.meta, i as int) {
                Ok(es) => (r matches Ok(b) && b@ == es && b.wf()),
                Err(e) => (r matches Err(e2) && e2 == e),
            },
    {
        match &self.data {
            Some(d) => read_block_at(d.as_slice(), &self.meta, i),
            None => Err(HummockError::ObjectStoreError),
        }
    }

    /// The index of the first block that can hold a key that does not sort
    /// before `target`, by binary search in the index.
    pub fn find_block(&self, target: &[u8]) -> (r: usize)
        requires
            self.wf(),
            target@.len() >= 8,
        ensures
            r == block_lower_bound(self@.meta.index, target@),
            r <= self@.meta.index.len(),
    {
        let ghost idx = index_view(self.meta.index@);
        proof {
            lemma_opened_table(self.bytes@, self.meta@);
        }
        let mut lo: usize = 0;
        let mut hi: usize = self.meta.index.len();
        while lo < hi
            invariant
                idx == index_view(self.meta.index@),
                index_keys_valid(self.meta.smallest_key@, idx),
                index_keys_sorted(self.meta.smallest_key@, idx),
                target@.len() >= 8,
                lo <= hi <= idx.len(),
                forall|i: int| 0 <= i < lo ==> full_key_lt(#[trigger] idx[i].last_key, target@),
                forall|i: int| hi <= i < idx.len() ==> !full_key_lt(#[trigger] idx[i].last_key, target@),
            decreases hi - lo,
        {
            let mid: usize = lo + (hi - lo) / 2;
            assert(valid_full_key(idx[mid as int].last_key));
            assert(idx[mid as int] == self.meta.index@[mid as int]@);
            if full_key_less(self.meta.index[mid].last_key.as_slice(), target) {
                proof {
                    assert forall|i: int| 0 <= i < mid + 1 implies full_key_lt(
                        #[trigger] idx[i].last_key,
                        target@,
                    ) by {
                        if i < mid {
                            lemma_full_key_lt_transitive(idx[i].last_key, idx[mid as int].last_key, target@);
                        }
                    }
                }
                lo = mid + 1;
            } else {
                proof {
                    assert forall|i: int| mid <= i < idx.len() implies !full_key_lt(
                        #[trigger] idx[i].last_key,
                        target@,
                    ) by {
                        if i > mid && full_key_lt(idx[i].last_key, target@) {
                            lemma_full_key_lt_transitive(idx[mid as int].last_key, idx[i].last_key, target@);
                        }
                    }
                }
                hi = mid;
            }
        }
        proof {
            lemma_block_lower_bound_is(idx, target@, 0, lo as int);
        }
        lo
    }
}

} // verus!
