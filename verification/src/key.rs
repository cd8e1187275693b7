//! Full keys: a user key followed by its epoch, stored so that for one user
//! key the newest epoch sorts first.

use vstd::prelude::*;
use vstd::slice::slice_subrange;
use crate::coding::{
    append_bytes, be64, be64_decode, compare_bytes, get_u64_be, is_proper_prefix, KeyOrder,
    lemma_be64_decode_injective, lemma_be64_order, lemma_be64_roundtrip, lemma_lex_lt_append,
    lemma_lex_lt_asymmetric, lemma_lex_lt_irreflexive, lemma_lex_lt_skip, lemma_lex_lt_total,
    lemma_lex_lt_transitive, lex_lt, put_u64_be,
};
use crate::error::HummockError;

verus! {

/// The number of bytes that the epoch takes at the end of a full key.
pub const EPOCH_LEN: usize = 8;

/// The full key of `user_key` at `epoch`: the user key, then the big-endian
/// bytes of the inverted epoch.
pub open spec fn spec_key_with_epoch(user_key: Seq<u8>, epoch: u64) -> Seq<u8> {
    user_key + be64((u64::MAX - epoch) as u64)
}

/// The user key of a full key: all but its last eight bytes.
pub open spec fn spec_user_key(full_key: Seq<u8>) -> Seq<u8>
    recommends
        full_key.len() >= 8,
{
    full_key.take(full_key.len() - 8)
}

/// The epoch of a full key, recovered from its last eight bytes.
pub open spec fn spec_epoch_of(full_key: Seq<u8>) -> u64
    recommends
        full_key.len() >= 8,
{
    (u64::MAX - be64_decode(full_key.skip(full_key.len() - 8))) as u64
}

/// A full key is well formed when a non-empty user key precedes its epoch.
pub open spec fn valid_full_key(full_key: Seq<u8>) -> bool {
    full_key.len() > 8
}

/// The order of full keys: ascending user key, and for one user key
/// descending epoch.
pub open spec fn full_key_lt(a: Seq<u8>, b: Seq<u8>) -> bool {
    lex_lt(spec_user_key(a), spec_user_key(b)) || (spec_user_key(a) == spec_user_key(b)
        && spec_epoch_of(a) > spec_epoch_of(b))
}

/// How `a` stands to `b` in the order of full keys.
pub open spec fn full_key_order(a: Seq<u8>, b: Seq<u8>) -> KeyOrder {
    if full_key_lt(a, b) {
        KeyOrder::Less
    } else if a == b {
        KeyOrder::Equal
    } else {
        KeyOrder::Greater
    }
}

/// What was put into a full key comes out of it again.
pub proof fn lemma_key_with_epoch_parts(user_key: Seq<u8>, epoch: u64)
    ensures
        spec_key_with_epoch(user_key, epoch).len() == user_key.len() + 8,
        spec_user_key(spec_key_with_epoch(user_key, epoch)) == user_key,
        spec_epoch_of(spec_key_with_epoch(user_key, epoch)) == epoch,
{
    let inv: u64 = (u64::MAX - epoch) as u64;
    let fk = spec_key_with_epoch(user_key, epoch);
    lemma_be64_roundtrip(inv);
    assert(fk.take(fk.len() - 8) =~= user_key);
    assert(fk.skip(fk.len() - 8) =~= be64(inv));
}

/// A full key is determined by its user key and its epoch.
pub proof fn lemma_full_key_parts_injective(a: Seq<u8>, b: Seq<u8>)
    requires
        a.len() >= 8,
        b.len() >= 8,
        spec_user_key(a) == spec_user_key(b),
        spec_epoch_of(a) == spec_epoch_of(b),
    ensures
        a == b,
{
    let sa = a.skip(a.len() - 8);
    let sb = b.skip(b.len() - 8);
    lemma_be64_decode_injective(sa);
    lemma_be64_decode_injective(sb);
    assert(be64_decode(sa) == be64_decode(sb));
    assert(sa == sb);
    assert(a =~= spec_user_key(a) + sa);
    assert(b =~= spec_user_key(b) + sb);
}

/// A full key is the full key of its own user key and epoch.
pub proof fn lemma_full_key_rebuild(a: Seq<u8>)
    requires
        a.len() >= 8,
    ensures
        spec_key_with_epoch(spec_user_key(a), spec_epoch_of(a)) == a,
{
    let b = spec_key_with_epoch(spec_user_key(a), spec_epoch_of(a));
    lemma_key_with_epoch_parts(spec_user_key(a), spec_epoch_of(a));
    lemma_full_key_parts_injective(a, b);
}

/// No full key sorts before itself.
pub proof fn lemma_full_key_lt_irreflexive(a: Seq<u8>)
    ensures
        !full_key_lt(a, a),
{
    lemma_lex_lt_irreflexive(spec_user_key(a));
}

/// Of two full keys at most one sorts before the other.
pub proof fn lemma_full_key_lt_asymmetric(a: Seq<u8>, b: Seq<u8>)
    ensures
        !(full_key_lt(a, b) && full_key_lt(b, a)),
{
    lemma_lex_lt_asymmetric(spec_user_key(a), spec_user_key(b));
    lemma_lex_lt_irreflexive(spec_user_key(a));
}

/// The order of full keys is transitive.
pub proof fn lemma_full_key_lt_transitive(a: Seq<u8>, b: Seq<u8>, c: Seq<u8>)
    requires
        full_key_lt(a, b),
        full_key_lt(b, c),
    ensures
        full_key_lt(a, c),
{
    let (ua, ub, uc) = (spec_user_key(a), spec_user_key(b), spec_user_key(c));
    if lex_lt(ua, ub) && lex_lt(ub, uc) {
        lemma_lex_lt_transitive(ua, ub, uc);
    }
}

/// The order of full keys is total on keys that hold an epoch.
pub proof fn lemma_full_key_lt_total(a: Seq<u8>, b: Seq<u8>)
    requires
        a.len() >= 8,
        b.len() >= 8,
    ensures
        full_key_lt(a, b) || full_key_lt(b, a) || a == b,
{
    lemma_lex_lt_total(spec_user_key(a), spec_user_key(b));
    if spec_user_key(a) == spec_user_key(b) && spec_epoch_of(a) == spec_epoch_of(b) {
        lemma_full_key_parts_injective(a, b);
    }
}

/// For one user key, the full key of the newer epoch sorts first.
pub proof fn lemma_newer_epoch_sorts_first(user_key: Seq<u8>, e1: u64, e2: u64)
    ensures
        full_key_lt(spec_key_with_epoch(user_key, e1), spec_key_with_epoch(user_key, e2)) <==> e1
            > e2,
{
    lemma_key_with_epoch_parts(user_key, e1);
    lemma_key_with_epoch_parts(user_key, e2);
    lemma_lex_lt_irreflexive(user_key);
}

/// Full keys of different user keys sort as their user keys do, whatever the epochs.
pub proof fn lemma_user_key_order_decides(u1: Seq<u8>, e1: u64, u2: Seq<u8>, e2: u64)
    requires
        u1 != u2,
    ensures
        full_key_lt(spec_key_with_epoch(u1, e1), spec_key_with_epoch(u2, e2)) <==> lex_lt(u1, u2),
{
    lemma_key_with_epoch_parts(u1, e1);
    lemma_key_with_epoch_parts(u2, e2);
}

/// The order of full keys is the plain order of their bytes, where neither
/// user key is a beginning of the other and shorter than it: ascending user
/// key, and for one user key descending epoch.
pub proof fn lemma_byte_order_is_key_order(u1: Seq<u8>, e1: u64, u2: Seq<u8>, e2: u64)
    requires
        !is_proper_prefix(u1, u2),
        !is_proper_prefix(u2, u1),
    ensures
        lex_lt(spec_key_with_epoch(u1, e1), spec_key_with_epoch(u2, e2)) == full_key_lt(
            spec_key_with_epoch(u1, e1),
            spec_key_with_epoch(u2, e2),
        ),
{
    let i1: u64 = (u64::MAX - e1) as u64;
    let i2: u64 = (u64::MAX - e2) as u64;
    let k1 = spec_key_with_epoch(u1, e1);
    let k2 = spec_key_with_epoch(u2, e2);
    lemma_key_with_epoch_parts(u1, e1);
    lemma_key_with_epoch_parts(u2, e2);
    lemma_lex_lt_irreflexive(u1);
    if u1 == u2 {
        let n = u1.len() as int;
        lemma_lex_lt_skip(k1, k2, n);
        assert(k1.skip(n) =~= be64(i1));
        assert(k2.skip(n) =~= be64(i2));
        lemma_be64_order(i1, i2);
    } else {
        lemma_lex_lt_append(u1, u2, be64(i1), be64(i2));
    }
}

/// Builds the full key of `user_key` at `epoch`.
pub fn key_with_epoch(user_key: Vec<u8>, epoch: u64) -> (r: Vec<u8>)
    ensures
        r@ == spec_key_with_epoch(user_key@, epoch),
        r@.len() == user_key@.len() + 8,
{
    let mut out: Vec<u8> = user_key;
    put_u64_be(&mut out, u64::MAX - epoch);
    out
}

/// Builds the full key of a borrowed user key at `epoch`.
pub fn full_key_of(user_key: &[u8], epoch: u64) -> (r: Vec<u8>)
    ensures
        r@ == spec_key_with_epoch(user_key@, epoch),
        r@.len() == user_key@.len() + 8,
{
    let mut out: Vec<u8> = Vec::new();
    append_bytes(&mut out, user_key);
    put_u64_be(&mut out, u64::MAX - epoch);
    assert(Seq::<u8>::empty() + user_key@ =~= user_key@);
    out
}

/// The user key of a full key.
pub fn user_key(full_key: &[u8]) -> (r: &[u8])
    requires
        full_key.len() >= 8,
    ensures
        r@ == spec_user_key(full_key@),
{
    let n: usize = full_key.len() - EPOCH_LEN;
    slice_subrange(full_key, 0, n)
}

/// The epoch of a full key.
pub fn epoch_of(full_key: &[u8]) -> (r: u64)
    requires
        full_key.len() >= 8,
    ensures
        r == spec_epoch_of(full_key@),
{
    let n: usize = full_key.len() - EPOCH_LEN;
    let inv: u64 = get_u64_be(full_key, n);
    assert(full_key@.subrange(n as int, n + 8) =~= full_key@.skip(full_key@.len() - 8));
    u64::MAX - inv
}

/// Splits a full key into its user key and its epoch; a key without a
/// non-empty user key before the epoch is refused.
pub fn split_full_key(full_key: &[u8]) -> (r: Result<(&[u8], u64), HummockError>)
    ensures
        valid_full_key(full_key@) ==> (r matches Ok(p) && p.0@ == spec_user_key(full_key@) && p.1
            == spec_epoch_of(full_key@)),
        !valid_full_key(full_key@) ==> r == Err::<(&[u8], u64), HummockError>(
            HummockError::InvalidKey,
        ),
{
    if full_key.len() <= EPOCH_LEN {
        return Err(HummockError::InvalidKey);
    }
    Ok((user_key(full_key), epoch_of(full_key)))
}

/// Compares two full keys: by user key, then by epoch, newest first.
pub fn compare_full_keys(a: &[u8], b: &[u8]) -> (r: KeyOrder)
    requires
        a.len() >= 8,
        b.len() >= 8,
    ensures
        r == full_key_order(a@, b@),
{
    let by_user: KeyOrder = compare_bytes(user_key(a), user_key(b));
    proof {
        lemma_full_key_lt_asymmetric(a@, b@);
        lemma_full_key_lt_irreflexive(a@);
        lemma_lex_lt_irreflexive(spec_user_key(a@));
        lemma_lex_lt_asymmetric(spec_user_key(a@), spec_user_key(b@));
    }
    match by_user {
        KeyOrder::Less => KeyOrder::Less,
        KeyOrder::Greater => KeyOrder::Greater,
        KeyOrder::Equal => {
            let ea: u64 = epoch_of(a);
            let eb: u64 = epoch_of(b);
            if ea > eb {
                KeyOrder::Less
            } else if ea < eb {
                KeyOrder::Greater
            } else {
                proof {
                    lemma_full_key_parts_injective(a@, b@);
                }
                KeyOrder::Equal
            }
        },
    }
}

/// Whether full key `a` sorts strictly before full key `b`.
pub fn full_key_less(a: &[u8], b: &[u8]) -> (r: bool)
    requires
        a.len() >= 8,
        b.len() >= 8,
    ensures
        r == full_key_lt(a@, b@),
{
    match compare_full_keys(a, b) {
        KeyOrder::Less => true,
        _ => false,
    }
}

} // verus!
