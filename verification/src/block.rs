//! Blocks: runs of entries in key order, stored with prefix-compressed keys,
//! a list of restart points, and a checksum.
//!
//! A block's bytes are, in order: the records; the offset of each restart
//! point in four little-endian bytes; the number of restart points in four
//! little-endian bytes; the checksum of all bytes before it in eight
//! little-endian bytes. A record is the length of the prefix that its key
//! shares with the key of the last restart point, the length of the rest of
//! the key, that rest, and the serialized value. Every sixteenth record is a
//! restart point and holds its key in full.

use vstd::prelude::*;
use vstd::slice::slice_subrange;
use crate::checksum::{checksum, checksum_of, ChecksumAlg};
use crate::coding::{
    append_bytes, clone_bytes, copy_range, get_u32_le, get_u64_le, le32, le32_decode, le64,
    le64_decode, lemma_le32_roundtrip, lemma_le64_roundtrip, put_u32_le, put_u64_le,
};
use crate::error::HummockError;
use crate::key::{full_key_less, full_key_lt, lemma_full_key_lt_transitive, valid_full_key};
use crate::value::{
    HummockValue, lemma_parse_encoded_value, lemma_parse_value_prefix, spec_encode_value,
    spec_parse_value, value_fits,
};

verus! {

/// Every record whose index is a multiple of this holds its key in full.
pub const RESTART_INTERVAL: usize = 16;

/// The longest full key that a block can hold.
pub const MAX_KEY_LEN: usize = 0x1fff_fff0;

/// A block takes no further record once its records fill this many bytes.
pub const MAX_BLOCK_FILL: usize = 0x4000_0000;

/// One entry of a table: a full key and what is stored under it.
#[derive(Debug)]
pub struct Entry {
    pub key: Vec<u8>,
    pub value: HummockValue,
}

/// An entry as a pair of plain values: the full key, and the bytes of a put
/// or `None` for a tombstone.
pub type EntryView = (Seq<u8>, Option<Seq<u8>>);

impl View for Entry {
    type V = EntryView;

    open spec fn view(&self) -> EntryView {
        (self.key@, self.value@)
    }
}

impl Entry {
    /// A copy of the entry.
    pub fn duplicate(&self) -> (r: Entry)
        ensures
            r@ == self@,
    {
        Entry { key: clone_bytes(self.key.as_slice()), value: self.value.duplicate() }
    }
}

/// The entries of a vector as plain values.
pub open spec fn entries_view(es: Seq<Entry>) -> Seq<EntryView> {
    es.map_values(|e: Entry| e@)
}

/// Every key holds a non-empty user key and an epoch.
pub open spec fn keys_valid(es: Seq<EntryView>) -> bool {
    forall|i: int| 0 <= i < es.len() ==> valid_full_key(#[trigger] es[i].0)
}

/// The entries stand in strictly increasing key order.
pub open spec fn sorted_entries(es: Seq<EntryView>) -> bool {
    forall|i: int, j: int| 0 <= i < j < es.len() ==> full_key_lt(#[trigger] es[i].0, #[trigger] es[j].0)
}

/// `a` is the beginning of `b`.
pub open spec fn is_prefix(a: Seq<u8>, b: Seq<u8>) -> bool {
    a.len() <= b.len() && b.take(a.len() as int) == a
}

/// One record as it is read: its key, its value, and the position behind it.
pub struct Record {
    pub key: Seq<u8>,
    pub value: Option<Seq<u8>>,
    pub next: int,
}

/// The record at `region[p..]`, if one is there. A record at a restart point
/// shares nothing; any other shares a prefix of `restart_key`.
pub open spec fn spec_record(region: Seq<u8>, p: int, at_restart: bool, restart_key: Seq<u8>) -> Option<Record> {
    if p < 0 || p + 8 > region.len() {
        None
    } else {
        let shared = le32_decode(region.subrange(p, p + 4)) as int;
        let tail_len = le32_decode(region.subrange(p + 4, p + 8)) as int;
        if p + 8 + tail_len > region.len() {
            None
        } else if shared > restart_key.len() {
            None
        } else if at_restart && shared != 0 {
            None
        } else {
            match spec_parse_value(region, p + 8 + tail_len) {
                None => None,
                Some((v, q)) => Some(
                    Record {
                        key: restart_key.take(shared) + region.subrange(p + 8, p + 8 + tail_len),
                        value: v,
                        next: q,
                    },
                ),
            }
        }
    }
}

/// How far a run of records has been read.
pub struct ParseState {
    /// The entries read so far.
    pub entries: Seq<EntryView>,
    /// The position behind the last record read.
    pub pos: int,
    /// The key of the last restart point.
    pub restart_key: Seq<u8>,
    /// The positions of the restart points met so far.
    pub restarts: Seq<int>,
}

/// The state before any record is read.
pub open spec fn parse_start() -> ParseState {
    ParseState { entries: Seq::empty(), pos: 0, restart_key: Seq::empty(), restarts: Seq::empty() }
}

/// The state after one more record, if a record follows.
pub open spec fn parse_record(region: Seq<u8>, st: ParseState) -> Option<ParseState> {
    let at_restart = st.entries.len() % RESTART_INTERVAL as nat == 0;
    match spec_record(region, st.pos, at_restart, st.restart_key) {
        None => None,
        Some(rec) => Some(
            ParseState {
                entries: st.entries.push((rec.key, rec.value)),
                pos: rec.next,
                restart_key: if at_restart {
                    rec.key
                } else {
                    st.restart_key
                },
                restarts: if at_restart {
                    st.restarts.push(st.pos)
                } else {
                    st.restarts
                },
            },
        ),
    }
}

/// The state after `n` steps: each step reads one record, or rests where the
/// region has been read to its end.
pub open spec fn parse_steps(region: Seq<u8>, n: nat) -> Option<ParseState>
    decreases n,
{
    if n == 0 {
        Some(parse_start())
    } else {
        match parse_steps(region, (n - 1) as nat) {
            None => None,
            Some(st) => if st.pos == region.len() {
                Some(st)
            } else {
                parse_record(region, st)
            },
        }
    }
}

/// The records that fill `region` exactly, if it is made of records.
pub open spec fn parse_region(region: Seq<u8>) -> Option<ParseState> {
    parse_steps(region, region.len())
}

/// Whether the restart offsets stored at `bytes[base..]` are `restarts`.
pub open spec fn restarts_match(bytes: Seq<u8>, base: int, restarts: Seq<int>) -> bool {
    forall|k: int|
        0 <= k < restarts.len() ==> le32_decode(#[trigger] bytes.subrange(base + 4 * k, base + 4 * k + 4))
            == restarts[k]
}

/// What a block's bytes hold: its entries, or why they are refused.
#[verifier::opaque]
pub open spec fn spec_decode_block(bytes: Seq<u8>, alg: ChecksumAlg) -> Result<Seq<EntryView>, HummockError> {
    let len = bytes.len() as int;
    if len < 12 {
        Err(HummockError::InvalidSST)
    } else if checksum_of(alg, bytes.take(len - 8)) != le64_decode(bytes.skip(len - 8)) {
        Err(HummockError::ChecksumMismatch)
    } else {
        let count = le32_decode(bytes.subrange(len - 12, len - 8)) as int;
        if 4 * count > len - 12 {
            Err(HummockError::InvalidSST)
        } else {
            let base = len - 12 - 4 * count;
            match parse_region(bytes.take(base)) {
                None => Err(HummockError::InvalidSST),
                Some(st) => if st.restarts.len() != count || !restarts_match(bytes, base, st.restarts) {
                    Err(HummockError::InvalidSST)
                } else if !keys_valid(st.entries) {
                    Err(HummockError::InvalidKey)
                } else if !sorted_entries(st.entries) {
                    Err(HummockError::InvalidSST)
                } else {
                    Ok(st.entries)
                },
            }
        }
    }
}

/// A block is refused as bytes are refused.
pub proof fn lemma_decode_fault(bytes: Seq<u8>, alg: ChecksumAlg)
    ensures
        spec_decode_block(bytes, alg) matches Err(e) ==> crate::error::read_fault(e),
{
    reveal(spec_decode_block);
}

/// The entries of a block that decodes are well formed and in order.
pub proof fn lemma_decoded_block(bytes: Seq<u8>, alg: ChecksumAlg)
    ensures
        spec_decode_block(bytes, alg) matches Ok(es) ==> keys_valid(es) && sorted_entries(es),
{
    reveal(spec_decode_block);
}

proof fn lemma_record_bounds(region: Seq<u8>, p: int, at_restart: bool, restart_key: Seq<u8>)
    requires
        spec_record(region, p, at_restart, restart_key) is Some,
    ensures
        p + 9 <= spec_record(region, p, at_restart, restart_key).unwrap().next <= region.len(),
{
}

proof fn lemma_record_prefix(a: Seq<u8>, b: Seq<u8>, p: int, at_restart: bool, restart_key: Seq<u8>)
    requires
        is_prefix(a, b),
        spec_record(a, p, at_restart, restart_key) is Some,
    ensures
        spec_record(b, p, at_restart, restart_key) == spec_record(a, p, at_restart, restart_key),
{
    assert(a.subrange(p, p + 4) =~= b.take(a.len() as int).subrange(p, p + 4));
    assert(b.take(a.len() as int).subrange(p, p + 4) =~= b.subrange(p, p + 4));
    assert(a.subrange(p + 4, p + 8) =~= b.take(a.len() as int).subrange(p + 4, p + 8));
    assert(b.take(a.len() as int).subrange(p + 4, p + 8) =~= b.subrange(p + 4, p + 8));
    let tail_len = le32_decode(a.subrange(p + 4, p + 8)) as int;
    assert(a.subrange(p + 8, p + 8 + tail_len) =~= b.take(a.len() as int).subrange(p + 8, p + 8 + tail_len));
    assert(b.take(a.len() as int).subrange(p + 8, p + 8 + tail_len) =~= b.subrange(p + 8, p + 8 + tail_len));
    lemma_parse_value_prefix(a, b, p + 8 + tail_len);
}

proof fn lemma_parse_steps_bounds(region: Seq<u8>, n: nat)
    ensures
        parse_steps(region, n) matches Some(st) ==> st.entries.len() <= n && 9 * st.entries.len()
            <= st.pos <= region.len(),
    decreases n,
{
    if n > 0 {
        lemma_parse_steps_bounds(region, (n - 1) as nat);
        match parse_steps(region, (n - 1) as nat) {
            None => {},
            Some(st) => {
                if st.pos != region.len() {
                    let at_restart = st.entries.len() % RESTART_INTERVAL as nat == 0;
                    if spec_record(region, st.pos, at_restart, st.restart_key) is Some {
                        lemma_record_bounds(region, st.pos, at_restart, st.restart_key);
                    }
                }
            },
        }
    }
}

proof fn lemma_parse_steps_done(region: Seq<u8>, n: nat, m: nat)
    requires
        n <= m,
        parse_steps(region, n) matches Some(st) && st.pos == region.len(),
    ensures
        parse_steps(region, m) == parse_steps(region, n),
    decreases m,
{
    if n < m {
        lemma_parse_steps_done(region, n, (m - 1) as nat);
    }
}

proof fn lemma_parse_steps_none(region: Seq<u8>, n: nat, m: nat)
    requires
        n <= m,
        parse_steps(region, n) is None,
    ensures
        parse_steps(region, m) is None,
    decreases m,
{
    if n < m {
        lemma_parse_steps_none(region, n, (m - 1) as nat);
    }
}

proof fn lemma_parse_steps_extend(a: Seq<u8>, b: Seq<u8>, n: nat)
    requires
        is_prefix(a, b),
        parse_steps(a, n) matches Some(st) && st.entries.len() == n,
    ensures
        parse_steps(b, n) == parse_steps(a, n),
    decreases n,
{
    if n > 0 {
        let prev = (n - 1) as nat;
        lemma_parse_steps_bounds(a, prev);
        let st0 = parse_steps(a, prev).unwrap();
        if st0.pos == a.len() {
            assert(false);
        } else {
            assert(st0.entries.len() == prev);
            lemma_parse_steps_extend(a, b, prev);
            let at_restart = st0.entries.len() % RESTART_INTERVAL as nat == 0;
            lemma_record_prefix(a, b, st0.pos, at_restart, st0.restart_key);
        }
    }
}

/// A decoded block: its entries, in strictly increasing key order.
#[derive(Debug)]
pub struct Block {
    pub entries: Vec<Entry>,
}

impl View for Block {
    type V = Seq<EntryView>;

    open spec fn view(&self) -> Seq<EntryView> {
        entries_view(self.entries@)
    }
}

impl Block {
    /// Every key is well formed, and the keys increase strictly.
    pub open spec fn wf(&self) -> bool {
        keys_valid(self@) && sorted_entries(self@)
    }

    /// The number of entries.
    pub fn len(&self) -> (r: usize)
        ensures
            r == self@.len(),
    {
        self.entries.len()
    }

    /// The full key of entry `i`.
    pub fn key(&self, i: usize) -> (r: &[u8])
        requires
            i < self@.len(),
        ensures
            r@ == self@[i as int].0,
    {
        self.entries[i].key.as_slice()
    }

    /// The value of entry `i`.
    pub fn value(&self, i: usize) -> (r: &HummockValue)
        requires
            i < self@.len(),
        ensures
            r@ == self@[i as int].1,
    {
        &self.entries[i].value
    }

    /// Reads a block from its bytes: checks the checksum, reads the records,
    /// holds the restart points against the list at the end, and checks
    /// that every key is well formed and that the keys increase.
    pub fn decode(data: &[u8], alg: ChecksumAlg) -> (r: Result<Block, HummockError>)
        ensures
            match spec_decode_block(data@, alg) {
                Ok(es) => (r matches Ok(b) && b@ == es && b.wf()),
                Err(e) => r matches Err(e2) && e2 == e,
            },
    {
        reveal(spec_decode_block);
        let len: usize = data.len();
        if len < 12 {
            return Err(HummockError::InvalidSST);
        }
        let covered: &[u8] = slice_subrange(data, 0, len - 8);
        let stored: u64 = get_u64_le(data, len - 8);
        assert(data@.subrange(len - 8, len - 8 + 8) =~= data@.skip(len - 8));
        assert(covered@ =~= data@.take(len - 8));
        if checksum(alg, covered) != stored {
            return Err(HummockError::ChecksumMismatch);
        }
        let count: usize = get_u32_le(data, len - 12) as usize;
        if (len - 12) / 4 < count {
            return Err(HummockError::InvalidSST);
        }
        let base: usize = len - 12 - 4 * count;
        let region: &[u8] = slice_subrange(data, 0, base);
        assert(region@ =~= data@.take(base as int));
        match parse_records(region) {
            None => Err(HummockError::InvalidSST),
            Some((entries, restarts)) => {
                let ghost st = parse_region(region@).unwrap();
                if restarts.len() != count {
                    return Err(HummockError::InvalidSST);
                }
                if !restarts_agree(data, base, &restarts) {
                    assert(!restarts_match(data@, base as int, st.restarts));
                    return Err(HummockError::InvalidSST);
                }
                assert(restarts_match(data@, base as int, st.restarts));
                if !all_keys_valid(&entries) {
                    return Err(HummockError::InvalidKey);
                }
                if !is_sorted(&entries) {
                    return Err(HummockError::InvalidSST);
                }
                Ok(Block { entries })
            },
        }
    }
}

/// Reads the records that fill `region`, and notes where the restart points stand.
fn parse_records(region: &[u8]) -> (r: Option<(Vec<Entry>, Vec<usize>)>)
    ensures
        match parse_region(region@) {
            None => r is None,
            Some(st) => (r matches Some(out) && entries_view(out.0@) == st.entries && out.1@.len()
                == st.restarts.len() && forall|k: int|
                0 <= k < out.1@.len() ==> out.1@[k] as int == st.restarts[k]),
        },
{
    let base: usize = region.len();
    let mut entries: Vec<Entry> = Vec::new();
    let mut restarts: Vec<usize> = Vec::new();
    let mut restart_key: Vec<u8> = Vec::new();
    let mut pos: usize = 0;
    let ghost mut st: ParseState = parse_start();
    assert(entries_view(entries@) =~= st.entries);
    while pos < base
        invariant
            base == region@.len(),
            parse_steps(region@, entries.len() as nat) == Some(st),
            st.entries == entries_view(entries@),
            st.pos == pos,
            st.restart_key == restart_key@,
            st.restarts.len() == restarts.len(),
            forall|k: int| 0 <= k < restarts.len() ==> restarts@[k] as int == st.restarts[k],
            pos <= base,
            entries.len() <= pos,
        decreases base - pos,
    {
        let at_restart: bool = entries.len() % RESTART_INTERVAL == 0;
        proof {
            lemma_parse_steps_bounds(region@, entries.len() as nat);
        }
        match decode_record(region, pos, at_restart, restart_key.as_slice()) {
            None => {
                proof {
                    assert(parse_steps(region@, (entries.len() + 1) as nat) is None);
                    lemma_parse_steps_none(region@, (entries.len() + 1) as nat, region@.len());
                }
                return None;
            },
            Some((entry, next)) => {
                proof {
                    lemma_record_bounds(region@, pos as int, at_restart, restart_key@);
                    let new_st = parse_record(region@, st).unwrap();
                    assert(parse_steps(region@, (entries.len() + 1) as nat) == Some(new_st));
                    assert(entries_view(entries@.push(entry)) =~= st.entries.push(entry@));
                    st = new_st;
                }
                if at_restart {
                    restart_key = clone_bytes(entry.key.as_slice());
                    assert(restart_key@ =~= entry.key@);
                    restarts.push(pos);
                }
                entries.push(entry);
                pos = next;
            },
        }
    }
    proof {
        lemma_parse_steps_done(region@, entries.len() as nat, region@.len());
    }
    Some((entries, restarts))
}

/// Whether the offsets stored at `data[base..]` are those in `restarts`.
fn restarts_agree(data: &[u8], base: usize, restarts: &Vec<usize>) -> (r: bool)
    requires
        base + 4 * restarts.len() <= data.len(),
    ensures
        r == (forall|k: int|
            0 <= k < restarts.len() ==> le32_decode(
                #[trigger] data@.subrange(base + 4 * k, base + 4 * k + 4),
            ) == restarts@[k]),
{
    let mut k: usize = 0;
    while k < restarts.len()
        invariant
            k <= restarts.len(),
            base + 4 * restarts.len() <= data.len(),
            forall|t: int|
                0 <= t < k ==> le32_decode(#[trigger] data@.subrange(base + 4 * t, base + 4 * t + 4))
                    == restarts@[t],
        decreases restarts.len() - k,
    {
        let stored_offset: u32 = get_u32_le(data, base + 4 * k);
        if stored_offset as usize != restarts[k] {
            return false;
        }
        k += 1;
    }
    true
}

/// Whether every key holds a non-empty user key and an epoch.
pub fn all_keys_valid(entries: &Vec<Entry>) -> (r: bool)
    ensures
        r == keys_valid(entries_view(entries@)),
{
    let ghost es = entries_view(entries@);
    let mut i: usize = 0;
    while i < entries.len()
        invariant
            i <= entries.len(),
            es == entries_view(entries@),
            forall|t: int| 0 <= t < i ==> valid_full_key(#[trigger] es[t].0),
        decreases entries.len() - i,
    {
        if entries[i].key.len() <= 8 {
            assert(!valid_full_key(es[i as int].0));
            return false;
        }
        i += 1;
    }
    true
}

/// Whether the keys increase strictly.
pub fn is_sorted(entries: &Vec<Entry>) -> (r: bool)
    requires
        keys_valid(entries_view(entries@)),
    ensures
        r == sorted_entries(entries_view(entries@)),
{
    let ghost es = entries_view(entries@);
    let n: usize = entries.len();
    if n <= 1 {
        return true;
    }
    let mut j: usize = 1;
    while j < n
        invariant
            1 <= j <= n,
            n == entries.len(),
            es == entries_view(entries@),
            keys_valid(es),
            sorted_entries(es.take(j as int)),
        decreases n - j,
    {
        assert(valid_full_key(es[j - 1].0));
        assert(valid_full_key(es[j as int].0));
        if !full_key_less(entries[j - 1].key.as_slice(), entries[j].key.as_slice()) {
            assert(!full_key_lt(es[j - 1].0, es[j as int].0));
            return false;
        }
        proof {
            let prev = es.take(j as int);
            assert(keys_valid(prev)) by {
                assert forall|i: int| 0 <= i < prev.len() implies valid_full_key(#[trigger] prev[i].0) by {
                    assert(prev[i] == es[i]);
                }
            }
            assert(prev.last() == es[j - 1]);
            lemma_push_keeps_order(prev, es[j as int]);
            assert(es.take(j + 1) =~= prev.push(es[j as int]));
        }
        j += 1;
    }
    assert(es.take(j as int) =~= es);
    true
}

/// Reads the record at `region[p..]`.
fn decode_record(region: &[u8], p: usize, at_restart: bool, restart_key: &[u8]) -> (r: Option<(Entry, usize)>)
    ensures
        match spec_record(region@, p as int, at_restart, restart_key@) {
            None => r is None,
            Some(rec) => (r matches Some(out) && out.0@ == (rec.key, rec.value) && out.1 == rec.next),
        },
{
    let len: usize = region.len();
    if len < 8 || p > len - 8 {
        return None;
    }
    let shared: usize = get_u32_le(region, p) as usize;
    let tail_len: usize = get_u32_le(region, p + 4) as usize;
    if len - p - 8 < tail_len {
        return None;
    }
    if shared > restart_key.len() {
        return None;
    }
    if at_restart && shared != 0 {
        return None;
    }
    match HummockValue::decode_at(region, p + 8 + tail_len) {
        Err(_) => None,
        Ok((value, next)) => {
            let mut key: Vec<u8> = copy_range(restart_key, 0, shared);
            append_bytes(&mut key, slice_subrange(region, p + 8, p + 8 + tail_len));
            assert(restart_key@.subrange(0, shared as int) =~= restart_key@.take(shared as int));
            Some((Entry { key, value }, next))
        },
    }
}

/// Appends one record to `buf`.
fn append_record(buf: &mut Vec<u8>, shared: u32, tail: &[u8], value: &HummockValue)
    requires
        tail@.len() <= MAX_KEY_LEN,
        value_fits(value@),
    ensures
        final(buf)@ == old(buf)@ + le32(shared) + le32(tail@.len() as u32) + tail@ + spec_encode_value(
            value@,
        ),
        final(buf)@.len() == old(buf)@.len() + 8 + tail@.len() + HummockValue::spec_encoded_len(value@),
{
    put_u32_le(buf, shared);
    put_u32_le(buf, tail.len() as u32);
    append_bytes(buf, tail);
    value.encode(buf);
}

/// The length of the longest common prefix of `a` and `b`.
fn common_prefix_len(a: &[u8], b: &[u8]) -> (r: usize)
    ensures
        r <= a.len(),
        r <= b.len(),
        a@.take(r as int) == b@.take(r as int),
        r < a.len() && r < b.len() ==> a@[r as int] != b@[r as int],
{
    let n: usize = if a.len() < b.len() {
        a.len()
    } else {
        b.len()
    };
    let mut i: usize = 0;
    while i < n && a[i] == b[i]
        invariant
            i <= n,
            n <= a.len(),
            n <= b.len(),
            forall|j: int| 0 <= j < i ==> a@[j] == b@[j],
        decreases n - i,
    {
        i += 1;
    }
    assert(a@.take(i as int) =~= b@.take(i as int));
    i
}

/// The number of leading bytes that `a` and `b` share.
pub open spec fn shared_len(a: Seq<u8>, b: Seq<u8>) -> nat
    decreases a.len(),
{
    if a.len() > 0 && b.len() > 0 && a[0] == b[0] {
        1 + shared_len(a.drop_first(), b.drop_first())
    } else {
        0
    }
}

/// The place among `n` and more entries of the entry that holds the key in
/// full which the key of entry `k` is cut against.
pub open spec fn restart_of(k: int) -> int {
    k - k % 16
}

/// The number of bytes that the record of entry `k` of a block takes: two
/// lengths, what is left of the key behind what it shares with the key of
/// its restart point, and the value.
pub open spec fn record_len(entries: Seq<EntryView>, k: int) -> int {
    let shared = if k % 16 == 0 {
        0
    } else {
        shared_len(entries[restart_of(k)].0, entries[k].0)
    };
    8 + entries[k].0.len() - shared + HummockValue::spec_encoded_len(entries[k].1)
}

/// The number of bytes that the records of the first `n` entries of a block take.
pub open spec fn records_len(entries: Seq<EntryView>, n: int) -> int
    decreases n,
{
    if n <= 0 {
        0
    } else {
        records_len(entries, n - 1) + record_len(entries, n - 1)
    }
}

/// The number of bytes that a block of `entries` takes: the records, the
/// restart points, their number, and the checksum.
pub open spec fn block_len(entries: Seq<EntryView>) -> int {
    records_len(entries, entries.len() as int) + 4 * ((entries.len() + 15) / 16) + 12
}

/// The records of the first entries take the same bytes whatever follows them.
pub proof fn lemma_records_len_prefix(a: Seq<EntryView>, b: Seq<EntryView>, n: int)
    requires
        0 <= n <= a.len() <= b.len(),
        forall|i: int| 0 <= i < a.len() ==> a[i] == b[i],
    ensures
        records_len(b, n) == records_len(a, n),
    decreases n,
{
    if n > 0 {
        lemma_records_len_prefix(a, b, n - 1);
    }
}

/// Two byte strings that agree on `r` bytes, and differ in the next one
/// where both have one, share `r` bytes.
pub proof fn lemma_shared_len(a: Seq<u8>, b: Seq<u8>, r: int)
    requires
        0 <= r <= a.len(),
        r <= b.len(),
        a.take(r) == b.take(r),
        r < a.len() && r < b.len() ==> a[r] != b[r],
    ensures
        shared_len(a, b) == r,
    decreases r,
{
    if r > 0 {
        assert(a[0] == a.take(r)[0]);
        assert(b[0] == b.take(r)[0]);
        assert(a.drop_first().take(r - 1) =~= a.take(r).drop_first());
        assert(b.drop_first().take(r - 1) =~= b.take(r).drop_first());
        lemma_shared_len(a.drop_first(), b.drop_first(), r - 1);
    }
}

/// What the record of an entry adds to the records before it.
proof fn lemma_record_added(
    before: Seq<EntryView>,
    e: EntryView,
    restart_key: Seq<u8>,
    shared: int,
    old_len: int,
    new_len: int,
)
    requires
        old_len == records_len(before, before.len() as int),
        before.len() > 0 ==> restart_key == before[restart_of(before.len() - 1)].0,
        before.len() % 16 == 0 ==> shared == 0,
        before.len() % 16 != 0 ==> shared == shared_len(restart_key, e.0),
        new_len == old_len + 8 + e.0.len() - shared + HummockValue::spec_encoded_len(e.1),
    ensures
        new_len == records_len(before.push(e), before.len() as int + 1),
        new_len == old_len + record_len(before.push(e), before.len() as int),
        (if before.len() % 16 == 0 {
            e.0
        } else {
            restart_key
        }) == before.push(e)[restart_of(before.len() as int)].0,
{
    let k = before.len() as int;
    let after = before.push(e);
    lemma_records_len_prefix(before, after, k);
    assert(after[k] == e);
    if k % 16 != 0 {
        assert(restart_of(k) == restart_of(k - 1));
        assert(after[restart_of(k)] == before[restart_of(k - 1)]);
    }
}

/// Collects entries in key order and serializes them as one block.
pub struct BlockBuilder {
    buf: Vec<u8>,
    restarts: Vec<u32>,
    restart_key: Vec<u8>,
    last_key: Vec<u8>,
    count: usize,
    entries: Ghost<Seq<EntryView>>,
}

impl BlockBuilder {
    /// The entries added so far.
    pub closed spec fn entries(&self) -> Seq<EntryView> {
        self.entries@
    }

    /// The number of bytes that the records take so far.
    pub closed spec fn fill(&self) -> nat {
        self.buf@.len()
    }

    /// What reading the builder's bytes gives.
    pub closed spec fn state(&self) -> ParseState {
        parse_steps(self.buf@, self.count as nat).unwrap()
    }

    /// The builder's bytes are the records of its entries, and the entries
    /// are well formed and in order.
    pub closed spec fn wf(&self) -> bool {
        &&& parse_steps(self.buf@, self.count as nat) matches Some(st)
        &&& self.state().entries == self.entries@
        &&& self.state().pos == self.buf@.len()
        &&& self.state().restart_key == self.restart_key@
        &&& self.state().restarts.len() == self.restarts@.len()
        &&& (forall|k: int|
            0 <= k < self.restarts@.len() ==> #[trigger] self.restarts@[k] as int == self.state().restarts[k])
        &&& self.count == self.entries@.len()
        &&& keys_valid(self.entries@)
        &&& sorted_entries(self.entries@)
        &&& (self.count > 0 ==> self.last_key@ == self.entries@[self.count - 1].0)
        &&& self.restarts@.len() <= self.count
        &&& self.buf@.len() <= MAX_BLOCK_FILL + MAX_BLOCK_FILL + MAX_KEY_LEN + 16
        &&& self.buf@.len() == records_len(self.entries@, self.entries@.len() as int)
        &&& (self.count > 0 ==> self.restart_key@ == self.entries@[restart_of(self.count - 1)].0)
    }

    /// The records take the bytes that their entries ask for.
    pub proof fn lemma_fill(&self)
        requires
            self.wf(),
        ensures
            self.fill() == records_len(self.entries(), self.entries().len() as int),
    {
    }

    /// Whether `key` with `value` may come next: the key is well formed and
    /// sorts behind the last one, key and value are short enough, and the
    /// block is not yet full.
    pub open spec fn accepts(&self, key: Seq<u8>, value: Option<Seq<u8>>) -> bool {
        &&& valid_full_key(key)
        &&& key.len() <= MAX_KEY_LEN
        &&& value_fits(value)
        &&& self.fill() <= MAX_BLOCK_FILL
        &&& (self.entries().len() > 0 ==> full_key_lt(self.entries().last().0, key))
    }

    /// A builder without entries.
    pub fn new() -> (r: BlockBuilder)
        ensures
            r.wf(),
            r.entries() == Seq::<EntryView>::empty(),
            r.fill() == 0,
    {
        let r = BlockBuilder {
            buf: Vec::new(),
            restarts: Vec::new(),
            restart_key: Vec::new(),
            last_key: Vec::new(),
            count: 0,
            entries: Ghost(Seq::empty()),
        };
        r
    }

    /// Whether no entry has been added.
    pub fn is_empty(&self) -> (r: bool)
        requires
            self.wf(),
        ensures
            r == (self.entries().len() == 0),
    {
        self.count == 0
    }

    /// The number of entries added so far.
    pub fn len(&self) -> (r: usize)
        requires
            self.wf(),
        ensures
            r == self.entries().len(),
    {
        self.count
    }

    /// The number of bytes that the records take so far.
    pub fn size(&self) -> (r: usize)
        ensures
            r == self.fill(),
    {
        self.buf.len()
    }

    /// The key added last.
    pub fn last_key(&self) -> (r: &[u8])
        requires
            self.wf(),
            self.entries().len() > 0,
        ensures
            r@ == self.entries().last().0,
    {
        self.last_key.as_slice()
    }

    /// Adds an entry behind those already there.
    pub fn add(&mut self, key: &[u8], value: &HummockValue)
        requires
            old(self).wf(),
            old(self).accepts(key@, value@),
        ensures
            final(self).wf(),
            final(self).entries() == old(self).entries().push((key@, value@)),
            final(self).fill() <= old(self).fill() + key@.len() + 13 + (match value@ {
                Some(b) => b.len(),
                None => 0,
            }),
            final(self).fill() > old(self).fill(),
            final(self).fill() == old(self).fill() + record_len(
                final(self).entries(),
                old(self).entries().len() as int,
            ),
    {
        let ghost old_buf = self.buf@;
        let ghost old_st = parse_steps(old_buf, self.count as nat).unwrap();
        let at_restart: bool = self.count % RESTART_INTERVAL == 0;
        let p: usize = self.buf.len();
        proof {
            lemma_parse_steps_bounds(old_buf, self.count as nat);
        }
        let shared: usize = if at_restart {
            0
        } else {
            common_prefix_len(self.restart_key.as_slice(), key)
        };
        proof {
            if !at_restart {
                lemma_shared_len(self.restart_key@, key@, shared as int);
            }
        }
        let tail: &[u8] = slice_subrange(key, shared, key.len());
        append_record(&mut self.buf, shared as u32, tail, value);
        if at_restart {
            self.restart_key = clone_bytes(key);
            self.restarts.push(p as u32);
        }
        self.last_key = clone_bytes(key);
        assert(self.last_key@ =~= key@);
        self.count = self.count + 1;
        self.entries = Ghost(self.entries@.push((key@, value@)));
        proof {
            let rk = old(self).restart_key@;
            assert(rk.take(shared as int) + tail@ =~= key@) by {
                if at_restart {
                    assert(tail@ =~= key@);
                } else {
                    assert(rk.take(shared as int) == key@.take(shared as int));
                    assert(key@.take(shared as int) + key@.subrange(shared as int, key@.len() as int)
                        =~= key@);
                }
            }
            lemma_add_step(
                old_buf,
                self.buf@,
                old(self).count as nat,
                key@,
                value@,
                shared as u32,
                tail@,
                at_restart,
            );
            lemma_push_keeps_order(old(self).entries@, (key@, value@));
            lemma_record_added(
                old(self).entries@,
                (key@, value@),
                old(self).restart_key@,
                shared as int,
                old_buf.len() as int,
                self.buf@.len() as int,
            );
        }
    }

    /// Serializes the block: the records, the restart points, their number,
    /// and the checksum under `alg`.
    pub fn finish(self, alg: ChecksumAlg) -> (r: Vec<u8>)
        requires
            self.wf(),
        ensures
            spec_decode_block(r@, alg) == Ok::<Seq<EntryView>, HummockError>(self.entries()),
            r@.len() == self.fill() + 4 * ((self.entries().len() + 15) / 16) + 12,
            r@.len() == block_len(self.entries()),
            r@.len() <= u32::MAX,
    {
        reveal(spec_decode_block);
        let ghost st = parse_steps(self.buf@, self.count as nat).unwrap();
        let ghost region = self.buf@;
        let base: usize = self.buf.len();
        let count: usize = self.restarts.len();
        let restarts: Vec<u32> = self.restarts;
        let mut out: Vec<u8> = self.buf;
        proof {
            lemma_parse_steps_bounds(region, self.count as nat);
            lemma_restart_count(region, self.count as nat);
        }
        let mut k: usize = 0;
        while k < count
            invariant
                k <= count,
                count == restarts.len(),
                out@.len() == base + 4 * k,
                out@.take(base as int) == region,
                forall|t: int|
                    0 <= t < k ==> le32_decode(#[trigger] out@.subrange(base + 4 * t, base + 4 * t + 4))
                        == restarts@[t],
            decreases count - k,
        {
            let ghost before = out@;
            put_u32_le(&mut out, restarts[k]);
            proof {
                lemma_le32_roundtrip(restarts@[k as int]);
                assert(out@.take(base as int) =~= before.take(base as int));
                assert(out@.subrange(base + 4 * k, base + 4 * k + 4) =~= le32(restarts@[k as int]));
                assert forall|t: int| 0 <= t < k implies le32_decode(
                    #[trigger] out@.subrange(base + 4 * t, base + 4 * t + 4),
                ) == restarts@[t] by {
                    assert(out@.subrange(base + 4 * t, base + 4 * t + 4) =~= before.subrange(
                        base + 4 * t,
                        base + 4 * t + 4,
                    ));
                }
            }
            k += 1;
        }
        let ghost with_restarts = out@;
        put_u32_le(&mut out, count as u32);
        let ghost covered = out@;
        let sum: u64 = checksum(alg, out.as_slice());
        put_u64_le(&mut out, sum);
        proof {
            let bytes = out@;
            let len = bytes.len() as int;
            lemma_le32_roundtrip(count as u32);
            lemma_le64_roundtrip(sum);
            assert(bytes.take(len - 8) =~= covered);
            assert(bytes.skip(len - 8) =~= le64(sum));
            assert(bytes.subrange(len - 12, len - 8) =~= le32(count as u32));
            assert(bytes.take(base as int) =~= region);
            lemma_parse_steps_done(region, self.count as nat, region.len());
            assert forall|t: int| 0 <= t < st.restarts.len() implies le32_decode(
                #[trigger] bytes.subrange(base + 4 * t, base + 4 * t + 4),
            ) == st.restarts[t] by {
                assert(bytes.subrange(base + 4 * t, base + 4 * t + 4) =~= with_restarts.subrange(
                    base + 4 * t,
                    base + 4 * t + 4,
                ));
            }
        }
        out
    }
}

/// The record that was appended to a run of records is read back behind it.
proof fn lemma_record_appended(
    buf: Seq<u8>,
    shared: u32,
    tail: Seq<u8>,
    value: Option<Seq<u8>>,
    at_restart: bool,
    rk: Seq<u8>,
)
    requires
        shared <= rk.len(),
        at_restart ==> shared == 0,
        tail.len() <= u32::MAX,
        value matches Some(b) ==> b.len() <= u32::MAX,
    ensures
        spec_record(
            buf + le32(shared) + le32(tail.len() as u32) + tail + spec_encode_value(value),
            buf.len() as int,
            at_restart,
            rk,
        ) == Some(
            Record {
                key: rk.take(shared as int) + tail,
                value: value,
                next: (buf.len() + 8 + tail.len() + spec_encode_value(value).len()) as int,
            },
        ),
{
    let pre = buf + le32(shared) + le32(tail.len() as u32) + tail;
    let all = pre + spec_encode_value(value);
    let p = buf.len() as int;
    lemma_le32_roundtrip(shared);
    lemma_le32_roundtrip(tail.len() as u32);
    assert(all.subrange(p, p + 4) =~= le32(shared));
    assert(all.subrange(p + 4, p + 8) =~= le32(tail.len() as u32));
    assert(all.subrange(p + 8, p + 8 + tail.len()) =~= tail);
    lemma_parse_encoded_value(pre, value, Seq::empty());
    assert(pre + spec_encode_value(value) + Seq::<u8>::empty() =~= all);
}

/// One more record behind a run of records is one more step of reading.
proof fn lemma_add_step(
    old_buf: Seq<u8>,
    new_buf: Seq<u8>,
    n: nat,
    key: Seq<u8>,
    value: Option<Seq<u8>>,
    shared: u32,
    tail: Seq<u8>,
    at_restart: bool,
)
    requires
        parse_steps(old_buf, n) matches Some(st) && st.entries.len() == n && st.pos == old_buf.len()
            && shared <= st.restart_key.len() && st.restart_key.take(shared as int) + tail == key,
        at_restart == (n % RESTART_INTERVAL as nat == 0),
        at_restart ==> shared == 0,
        tail.len() <= u32::MAX,
        value matches Some(b) ==> b.len() <= u32::MAX,
        new_buf == old_buf + le32(shared) + le32(tail.len() as u32) + tail + spec_encode_value(value),
    ensures
        parse_steps(new_buf, n + 1) == Some(
            ParseState {
                entries: parse_steps(old_buf, n).unwrap().entries.push((key, value)),
                pos: new_buf.len() as int,
                restart_key: if at_restart {
                    key
                } else {
                    parse_steps(old_buf, n).unwrap().restart_key
                },
                restarts: if at_restart {
                    parse_steps(old_buf, n).unwrap().restarts.push(old_buf.len() as int)
                } else {
                    parse_steps(old_buf, n).unwrap().restarts
                },
            },
        ),
{
    let st = parse_steps(old_buf, n).unwrap();
    lemma_le32_roundtrip(shared);
    lemma_le32_roundtrip(tail.len() as u32);
    lemma_record_appended(old_buf, shared, tail, value, at_restart, st.restart_key);
    assert(is_prefix(old_buf, new_buf)) by {
        assert(new_buf.take(old_buf.len() as int) =~= old_buf);
    }
    lemma_parse_steps_extend(old_buf, new_buf, n);
    assert(parse_steps(new_buf, n + 1) == parse_record(new_buf, st));
}

/// An entry whose key sorts behind the last one keeps a run of entries well
/// formed and in order.
pub proof fn lemma_push_keeps_order(prev: Seq<EntryView>, e: EntryView)
    requires
        keys_valid(prev),
        sorted_entries(prev),
        valid_full_key(e.0),
        prev.len() > 0 ==> full_key_lt(prev.last().0, e.0),
    ensures
        keys_valid(prev.push(e)),
        sorted_entries(prev.push(e)),
{
    let es = prev.push(e);
    assert forall|i: int, j: int| 0 <= i < j < es.len() implies full_key_lt(
        #[trigger] es[i].0,
        #[trigger] es[j].0,
    ) by {
        if j == es.len() - 1 {
            assert(es[i] == prev[i]);
            if i < prev.len() - 1 {
                assert(full_key_lt(prev[i].0, prev[prev.len() - 1].0));
                lemma_full_key_lt_transitive(prev[i].0, prev.last().0, e.0);
            }
        } else {
            assert(es[i] == prev[i] && es[j] == prev[j]);
        }
    }
    assert forall|i: int| 0 <= i < es.len() implies valid_full_key(#[trigger] es[i].0) by {
        if i < prev.len() {
            assert(es[i] == prev[i]);
        }
    }
}

/// A restart point is met at every sixteenth record, and at no other.
proof fn lemma_restart_count(region: Seq<u8>, n: nat)
    ensures
        parse_steps(region, n) matches Some(st) ==> st.restarts.len() == (st.entries.len() + 15) / 16,
    decreases n,
{
    if n > 0 {
        lemma_restart_count(region, (n - 1) as nat);
    }
}

/// The index of the first entry from `from` on whose key does not sort
/// before `target`; the number of entries if there is none.
pub open spec fn lower_bound_from(es: Seq<EntryView>, target: Seq<u8>, from: int) -> int
    decreases es.len() - from,
{
    if from < 0 || from >= es.len() {
        es.len() as int
    } else if full_key_lt(es[from].0, target) {
        lower_bound_from(es, target, from + 1)
    } else {
        from
    }
}

/// The index of the first entry whose key does not sort before `target`.
pub open spec fn lower_bound(es: Seq<EntryView>, target: Seq<u8>) -> int {
    lower_bound_from(es, target, 0)
}

/// An index behind keys that sort before the target, at a key that does not,
/// is the lower bound.
pub proof fn lemma_lower_bound_is(es: Seq<EntryView>, target: Seq<u8>, from: int, r: int)
    requires
        0 <= from <= r <= es.len(),
        forall|i: int| from <= i < r ==> full_key_lt(#[trigger] es[i].0, target),
        r < es.len() ==> !full_key_lt(es[r].0, target),
    ensures
        lower_bound_from(es, target, from) == r,
    decreases r - from,
{
    if from < r {
        assert(full_key_lt(es[from].0, target));
        lemma_lower_bound_is(es, target, from + 1, r);
    }
}

/// What the lower bound is: all before it sort before the target, and the
/// entry at it does not.
pub proof fn lemma_lower_bound_props(es: Seq<EntryView>, target: Seq<u8>, from: int)
    requires
        0 <= from <= es.len(),
    ensures
        from <= lower_bound_from(es, target, from) <= es.len(),
        forall|i: int|
            from <= i < lower_bound_from(es, target, from) ==> full_key_lt(#[trigger] es[i].0, target),
        lower_bound_from(es, target, from) < es.len() ==> !full_key_lt(
            es[lower_bound_from(es, target, from)].0,
            target,
        ),
    decreases es.len() - from,
{
    if from < es.len() && full_key_lt(es[from].0, target) {
        lemma_lower_bound_props(es, target, from + 1);
    }
}

impl Block {
    /// The index of the first entry whose key does not sort before
    /// `target`: a binary search over the restart points, then a walk from
    /// the restart point found.
    pub fn seek_index(&self, target: &[u8]) -> (r: usize)
        requires
            self.wf(),
            target@.len() >= 8,
        ensures
            r == lower_bound(self@, target@),
            r <= self@.len(),
    {
        let ghost es = self@;
        let n: usize = self.entries.len();
        if n == 0 {
            return 0;
        }
        let restarts: usize = (n - 1) / RESTART_INTERVAL + 1;
        // All restart points before `lo` sort before the target; none from `hi` on does.
        let mut lo: usize = 0;
        let mut hi: usize = restarts;
        while lo < hi
            invariant
                es == self@,
                self.wf(),
                target@.len() >= 8,
                n == es.len(),
                n > 0,
                restarts == (n - 1) / 16 + 1,
                lo <= hi <= restarts,
                forall|i: int| 0 <= i < n && i < lo * 16 - 15 ==> full_key_lt(#[trigger] es[i].0, target@),
                forall|i: int| hi * 16 <= i < n ==> !full_key_lt(#[trigger] es[i].0, target@),
            decreases hi - lo,
        {
            let mid: usize = lo + (hi - lo) / 2;
            assert(mid * 16 < n);
            assert(valid_full_key(es[mid * 16].0));
            if full_key_less(self.entries[mid * RESTART_INTERVAL].key.as_slice(), target) {
                proof {
                    assert forall|i: int| 0 <= i < n && i < (mid + 1) * 16 - 15 implies full_key_lt(
                        #[trigger] es[i].0,
                        target@,
                    ) by {
                        if i < mid * 16 {
                            lemma_full_key_lt_transitive(es[i].0, es[mid * 16].0, target@);
                        }
                    }
                }
                lo = mid + 1;
            } else {
                proof {
                    assert forall|i: int| mid * 16 <= i < n implies !full_key_lt(
                        #[trigger] es[i].0,
                        target@,
                    ) by {
                        if i > mid * 16 && full_key_lt(es[i].0, target@) {
                            lemma_full_key_lt_transitive(es[mid * 16].0, es[i].0, target@);
                        }
                    }
                }
                hi = mid;
            }
        }
        let mut i: usize = if lo == 0 {
            0
        } else {
            (lo - 1) * RESTART_INTERVAL
        };
        while i < n
            invariant
                es == self@,
                self.wf(),
                target@.len() >= 8,
                n == es.len(),
                i <= n,
                forall|t: int| 0 <= t < i ==> full_key_lt(#[trigger] es[t].0, target@),
            decreases n - i,
        {
            assert(valid_full_key(es[i as int].0));
            if !full_key_less(self.entries[i].key.as_slice(), target) {
                proof {
                    lemma_lower_bound_is(es, target@, 0, i as int);
                }
                return i;
            }
            i += 1;
        }
        proof {
            lemma_lower_bound_is(es, target@, 0, n as int);
        }
        n
    }

    /// A copy of the block.
    pub fn duplicate(&self) -> (r: Block)
        ensures
            r@ == self@,
    {
        let mut out: Vec<Entry> = Vec::new();
        let mut i: usize = 0;
        while i < self.entries.len()
            invariant
                i <= self.entries.len(),
                entries_view(out@) == self@.take(i as int),
            decreases self.entries.len() - i,
        {
            let e: Entry = self.entries[i].duplicate();
            assert(entries_view(out@.push(e)) =~= self@.take(i as int).push(e@));
            assert(self@.take(i + 1) =~= self@.take(i as int).push(self@[i as int]));
            out.push(e);
            i += 1;
        }
        assert(self@.take(self.entries.len() as int) =~= self@);
        Block { entries: out }
    }
}

/// A cursor over the entries of one block.
pub struct BlockIterator {
    pub block: Block,
    pub idx: usize,
}

impl BlockIterator {
    /// The block is well formed and the cursor stands within it or at its end.
    pub open spec fn wf(&self) -> bool {
        self.block.wf() && self.idx <= self.block@.len()
    }

    /// The entries from the cursor on.
    pub open spec fn remaining(&self) -> Seq<EntryView> {
        self.block@.skip(self.idx as int)
    }

    /// A cursor at the first entry of `block`.
    pub fn new(block: Block) -> (r: BlockIterator)
        requires
            block.wf(),
        ensures
            r.wf(),
            r.block@ == block@,
            r.remaining() == block@,
    {
        assert(block@.skip(0) =~= block@);
        BlockIterator { block, idx: 0 }
    }

    /// Whether the cursor stands at an entry.
    pub fn is_valid(&self) -> (r: bool)
        requires
            self.wf(),
        ensures
            r == (self.remaining().len() > 0),
    {
        self.idx < self.block.len()
    }

    /// The full key at the cursor.
    pub fn key(&self) -> (r: &[u8])
        requires
            self.wf(),
            self.remaining().len() > 0,
        ensures
            r@ == self.remaining()[0].0,
    {
        self.block.key(self.idx)
    }

    /// The value at the cursor.
    pub fn value(&self) -> (r: &HummockValue)
        requires
            self.wf(),
            self.remaining().len() > 0,
        ensures
            r@ == self.remaining()[0].1,
    {
        self.block.value(self.idx)
    }

    /// Moves the cursor to the first entry.
    pub fn rewind(&mut self)
        requires
            old(self).wf(),
        ensures
            final(self).wf(),
            final(self).block@ == old(self).block@,
            final(self).remaining() == old(self).block@,
    {
        self.idx = 0;
        assert(self.block@.skip(0) =~= self.block@);
    }

    /// Moves the cursor to the first entry whose key does not sort before `target`.
    pub fn seek(&mut self, target: &[u8])
        requires
            old(self).wf(),
            target@.len() >= 8,
        ensures
            final(self).wf(),
            final(self).block@ == old(self).block@,
            final(self).remaining() == old(self).block@.skip(lower_bound(old(self).block@, target@)),
    {
        self.idx = self.block.seek_index(target);
    }

    /// Moves the cursor to the next entry.
    pub fn next(&mut self)
        requires
            old(self).wf(),
            old(self).remaining().len() > 0,
        ensures
            final(self).wf(),
            final(self).block@ == old(self).block@,
            final(self).remaining() == old(self).remaining().drop_first(),
    {
        let n: usize = self.block.len();
        self.idx = self.idx + 1;
        assert(self.block@.skip(self.idx as int) =~= old(self).remaining().drop_first());
    }
}

} // verus!
