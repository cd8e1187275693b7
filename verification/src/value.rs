//! Values: a put of some bytes, or a tombstone.

use vstd::prelude::*;
use vstd::slice::slice_to_vec;
use crate::coding::{
    append_bytes, copy_range, get_u32_le, le32, le32_decode, lemma_le32_roundtrip, put_u32_le,
};
use crate::error::HummockError;

verus! {

/// The tag byte of a put.
pub const VALUE_PUT: u8 = 0;

/// The tag byte of a tombstone.
pub const VALUE_DELETE: u8 = 1;

/// The longest put that a table can hold.
pub const MAX_VALUE_LEN: usize = 0x3fff_ffff;

/// Whether a value is short enough for a table.
pub open spec fn value_fits(v: Option<Seq<u8>>) -> bool {
    v matches Some(bytes) ==> bytes.len() <= MAX_VALUE_LEN
}

/// What a write stores under a key: some bytes, or the mark that the key is deleted.
#[derive(Debug)]
pub enum HummockValue {
    Put(Vec<u8>),
    Delete,
}

impl View for HummockValue {
    type V = Option<Seq<u8>>;

    /// `Some` of the bytes of a put, `None` for a tombstone.
    open spec fn view(&self) -> Option<Seq<u8>> {
        match self {
            HummockValue::Put(bytes) => Some(bytes@),
            HummockValue::Delete => None,
        }
    }
}

/// The serialized form of a value: the tag, and for a put the length of the
/// bytes in four little-endian bytes, then the bytes.
pub open spec fn spec_encode_value(v: Option<Seq<u8>>) -> Seq<u8> {
    match v {
        Some(bytes) => seq![VALUE_PUT] + le32(bytes.len() as u32) + bytes,
        None => seq![VALUE_DELETE],
    }
}

/// The value serialized at `data[pos..]` and the position behind it, if one is there.
pub open spec fn spec_parse_value(data: Seq<u8>, pos: int) -> Option<(Option<Seq<u8>>, int)> {
    if pos < 0 || pos >= data.len() {
        None
    } else if data[pos] == VALUE_DELETE {
        Some((None, pos + 1))
    } else if data[pos] == VALUE_PUT {
        if pos + 5 > data.len() {
            None
        } else {
            let n = le32_decode(data.subrange(pos + 1, pos + 5)) as int;
            if pos + 5 + n > data.len() {
                None
            } else {
                Some((Some(data.subrange(pos + 5, pos + 5 + n)), pos + 5 + n))
            }
        }
    } else {
        None
    }
}

/// A serialized value is read back as it was written, wherever it stands.
pub proof fn lemma_parse_encoded_value(pre: Seq<u8>, v: Option<Seq<u8>>, post: Seq<u8>)
    requires
        v matches Some(bytes) ==> bytes.len() <= u32::MAX,
    ensures
        spec_parse_value(pre + spec_encode_value(v) + post, pre.len() as int) == Some(
            (v, (pre.len() + spec_encode_value(v).len()) as int),
        ),
{
    let data = pre + spec_encode_value(v) + post;
    let pos = pre.len() as int;
    match v {
        Some(bytes) => {
            lemma_le32_roundtrip(bytes.len() as u32);
            assert(data[pos] == VALUE_PUT);
            assert(data.subrange(pos + 1, pos + 5) =~= le32(bytes.len() as u32));
            assert(data.subrange(pos + 5, pos + 5 + bytes.len()) =~= bytes);
        },
        None => {
            assert(data[pos] == VALUE_DELETE);
        },
    }
}

/// What is read at a position does not depend on the bytes behind the value.
pub proof fn lemma_parse_value_prefix(a: Seq<u8>, b: Seq<u8>, pos: int)
    requires
        a.len() <= b.len(),
        b.take(a.len() as int) == a,
        spec_parse_value(a, pos) is Some,
    ensures
        spec_parse_value(b, pos) == spec_parse_value(a, pos),
{
    assert(forall|i: int| 0 <= i < a.len() ==> a[i] == b.take(a.len() as int)[i]);
    assert(a[pos] == b[pos]);
    if a[pos] == VALUE_PUT {
        assert(a.subrange(pos + 1, pos + 5) =~= b.subrange(pos + 1, pos + 5));
        let n = le32_decode(a.subrange(pos + 1, pos + 5)) as int;
        assert(a.subrange(pos + 5, pos + 5 + n) =~= b.subrange(pos + 5, pos + 5 + n));
    }
}

impl HummockValue {
    /// Whether the value is short enough for a table.
    pub fn fits(&self) -> (r: bool)
        ensures
            r == value_fits(self@),
    {
        match self {
            HummockValue::Put(bytes) => bytes.len() <= MAX_VALUE_LEN,
            HummockValue::Delete => true,
        }
    }

    /// Whether the value is a tombstone.
    pub fn is_delete(&self) -> (r: bool)
        ensures
            r == (self@ is None),
    {
        match self {
            HummockValue::Put(_) => false,
            HummockValue::Delete => true,
        }
    }

    /// The bytes of a put; nothing for a tombstone.
    pub fn into_put_value(self) -> (r: Option<Vec<u8>>)
        ensures
            r is Some == (self@ is Some),
            r matches Some(bytes) ==> Some(bytes@) == self@,
    {
        match self {
            HummockValue::Put(bytes) => Some(bytes),
            HummockValue::Delete => None,
        }
    }

    /// A put of the bytes, or a tombstone where there are none.
    pub fn from_option(v: Option<Vec<u8>>) -> (r: HummockValue)
        ensures
            r@ is Some == (v is Some),
            v matches Some(bytes) ==> r@ == Some(bytes@),
    {
        match v {
            Some(bytes) => HummockValue::Put(bytes),
            None => HummockValue::Delete,
        }
    }

    /// A copy of the value.
    pub fn duplicate(&self) -> (r: HummockValue)
        ensures
            r@ == self@,
    {
        match self {
            HummockValue::Put(bytes) => HummockValue::Put(slice_to_vec(bytes.as_slice())),
            HummockValue::Delete => HummockValue::Delete,
        }
    }

    /// The number of bytes that the serialized value takes.
    pub open spec fn spec_encoded_len(v: Option<Seq<u8>>) -> int {
        match v {
            Some(bytes) => 5 + bytes.len() as int,
            None => 1,
        }
    }

    /// The number of bytes that the serialized value takes.
    pub fn encoded_len(&self) -> (r: usize)
        requires
            value_fits(self@),
        ensures
            r == Self::spec_encoded_len(self@),
            r == spec_encode_value(self@).len(),
    {
        proof {
            if let Some(b) = self@ {
                lemma_le32_roundtrip(b.len() as u32);
            }
        }
        match self {
            HummockValue::Put(bytes) => 5 + bytes.len(),
            HummockValue::Delete => 1,
        }
    }

    /// Appends the serialized value to `buf`.
    pub fn encode(&self, buf: &mut Vec<u8>)
        requires
            self@ matches Some(bytes) ==> bytes.len() <= u32::MAX,
        ensures
            final(buf)@ == old(buf)@ + spec_encode_value(self@),
            final(buf)@.len() == old(buf)@.len() + Self::spec_encoded_len(self@),
    {
        match self {
            HummockValue::Put(bytes) => {
                buf.push(VALUE_PUT);
                put_u32_le(buf, bytes.len() as u32);
                append_bytes(buf, bytes.as_slice());
                assert(buf@ =~= old(buf)@ + spec_encode_value(self@));
            },
            HummockValue::Delete => {
                buf.push(VALUE_DELETE);
                assert(buf@ =~= old(buf)@ + spec_encode_value(self@));
            },
        }
    }

    /// Reads the value serialized at `data[pos..]`; returns it with the
    /// position behind it. Bytes that hold no value there are refused.
    pub fn decode_at(data: &[u8], pos: usize) -> (r: Result<(HummockValue, usize), HummockError>)
        ensures
            match spec_parse_value(data@, pos as int) {
                Some((v, next)) => (r matches Ok(p) && p.0@ == v && p.1 == next),
                None => r == Err::<(HummockValue, usize), HummockError>(HummockError::InvalidSST),
            },
    {
        if pos >= data.len() {
            return Err(HummockError::InvalidSST);
        }
        let tag: u8 = data[pos];
        if tag == VALUE_DELETE {
            Ok((HummockValue::Delete, pos + 1))
        } else if tag == VALUE_PUT {
            if data.len() - pos < 5 {
                return Err(HummockError::InvalidSST);
            }
            let n: usize = get_u32_le(data, pos + 1) as usize;
            if data.len() - pos - 5 < n {
                return Err(HummockError::InvalidSST);
            }
            let bytes: Vec<u8> = copy_range(data, pos + 5, pos + 5 + n);
            Ok((HummockValue::Put(bytes), pos + 5 + n))
        } else {
            Err(HummockError::InvalidSST)
        }
    }

    /// Reads a value that fills `data` exactly.
    pub fn decode(data: &[u8]) -> (r: Result<HummockValue, HummockError>)
        ensures
            match spec_parse_value(data@, 0) {
                Some((v, next)) if next == data@.len() => (r matches Ok(out) && out@ == v),
                _ => r == Err::<HummockValue, HummockError>(HummockError::InvalidSST),
            },
    {
        match HummockValue::decode_at(data, 0) {
            Ok((v, next)) => {
                if next == data.len() {
                    Ok(v)
                } else {
                    Err(HummockError::InvalidSST)
                }
            },
            Err(e) => Err(e),
        }
    }
}

} // verus!
