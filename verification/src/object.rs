//! The object store: where the bytes of tables are kept under their paths.

use vstd::prelude::*;
use crate::error::HummockError;

verus! {

/// The decimal digit `d` as a character.
pub open spec fn digit_char(d: nat) -> char {
    if d == 0 {
        '0'
    } else if d == 1 {
        '1'
    } else if d == 2 {
        '2'
    } else if d == 3 {
        '3'
    } else if d == 4 {
        '4'
    } else if d == 5 {
        '5'
    } else if d == 6 {
        '6'
    } else if d == 7 {
        '7'
    } else if d == 8 {
        '8'
    } else {
        '9'
    }
}

/// The decimal digits of `n`, without leading zeros.
pub open spec fn spec_decimal(n: nat) -> Seq<char>
    decreases n,
{
    if n < 10 {
        seq![digit_char(n)]
    } else {
        spec_decimal(n / 10).push(digit_char(n % 10))
    }
}

/// The path of the table `table_id` under `remote_dir`: the directory, a
/// slash, the id in decimal digits, and `.sst`.
pub open spec fn spec_table_path(remote_dir: Seq<char>, table_id: u64) -> Seq<char> {
    remote_dir + seq!['/'] + spec_decimal(table_id as nat) + seq!['.', 's', 's', 't']
}

/// Different numbers have different decimal digits.
pub proof fn lemma_decimal_injective(a: nat, b: nat)
    requires
        spec_decimal(a) == spec_decimal(b),
    ensures
        a == b,
    decreases a,
{
    if a < 10 {
        if b >= 10 {
            assert(spec_decimal(b).len() == spec_decimal(b / 10).len() + 1);
            lemma_decimal_len(b / 10);
        } else {
            assert(spec_decimal(a)[0] == digit_char(a));
            assert(spec_decimal(b)[0] == digit_char(b));
        }
    } else {
        if b < 10 {
            assert(spec_decimal(a).len() == spec_decimal(a / 10).len() + 1);
            lemma_decimal_len(a / 10);
        } else {
            let x = spec_decimal(a / 10);
            let y = spec_decimal(b / 10);
            assert(x.push(digit_char(a % 10)).drop_last() =~= x);
            assert(y.push(digit_char(b % 10)).drop_last() =~= y);
            assert(x.push(digit_char(a % 10)).last() == digit_char(a % 10));
            assert(y.push(digit_char(b % 10)).last() == digit_char(b % 10));
            lemma_decimal_injective(a / 10, b / 10);
        }
    }
}

/// Every number has a digit.
pub proof fn lemma_decimal_len(n: nat)
    ensures
        spec_decimal(n).len() >= 1,
    decreases n,
{
    if n >= 10 {
        lemma_decimal_len(n / 10);
    }
}

/// Different tables have different paths.
pub proof fn lemma_table_path_injective(remote_dir: Seq<char>, a: u64, b: u64)
    requires
        spec_table_path(remote_dir, a) == spec_table_path(remote_dir, b),
    ensures
        a == b,
{
    let pa = spec_table_path(remote_dir, a);
    let pb = spec_table_path(remote_dir, b);
    let da = spec_decimal(a as nat);
    let db = spec_decimal(b as nat);
    assert(pa.subrange(remote_dir.len() as int + 1, pa.len() - 4) =~= da);
    assert(pb.subrange(remote_dir.len() as int + 1, pb.len() - 4) =~= db);
    lemma_decimal_injective(a as nat, b as nat);
}

/// Formats the path of a table with std's `format!`. The contract states
/// what `Display` gives for a string slice and for a `u64`: the slice as it
/// is, and the number in decimal digits without sign or leading zeros.
#[verifier::external_body]
pub(crate) fn format_table_path(remote_dir: &str, table_id: u64) -> (r: String)
    ensures
        r@ == spec_table_path(remote_dir@, table_id),
{
    format!("{}/{}.sst", remote_dir, table_id)
}

/// The path of the table `table_id` under `remote_dir`.
pub fn table_path(remote_dir: &str, table_id: u64) -> (r: String)
    ensures
        r@ == spec_table_path(remote_dir@, table_id),
{
    format_table_path(remote_dir, table_id)
}

/// A store of byte objects under paths. The library asks nothing of an
/// implementation: it keeps its own account of what the store has
/// acknowledged.
pub trait ObjectStore {
    /// Stores `data` under `path`, in place of what was there.
    fn put(&mut self, path: &str, data: &[u8]) -> (r: Result<(), HummockError>);

    /// The bytes stored under `path`.
    fn get(&self, path: &str) -> (r: Result<Vec<u8>, HummockError>);

    /// Removes what is stored under `path`.
    fn delete(&mut self, path: &str) -> (r: Result<(), HummockError>);
}

/// What the first `n` records of a log of writes and removals leave.
pub open spec fn objects_upto(log: Seq<(String, Option<Vec<u8>>)>, n: int) -> Map<Seq<char>, Seq<u8>>
    decreases n,
{
    if n <= 0 {
        Map::empty()
    } else {
        match log[n - 1].1 {
            Some(data) => objects_upto(log, n - 1).insert(log[n - 1].0@, data@),
            None => objects_upto(log, n - 1).remove(log[n - 1].0@),
        }
    }
}

/// The last of the first `n` records for `path`, if there is one.
pub open spec fn last_record(log: Seq<(String, Option<Vec<u8>>)>, path: Seq<char>, n: int) -> Option<int>
    decreases n,
{
    if n <= 0 {
        None
    } else if log[n - 1].0@ == path {
        Some(n - 1)
    } else {
        last_record(log, path, n - 1)
    }
}

/// The last record for a path decides what the store holds under it.
pub proof fn lemma_last_record(log: Seq<(String, Option<Vec<u8>>)>, path: Seq<char>, n: int)
    requires
        0 <= n <= log.len(),
    ensures
        match last_record(log, path, n) {
            None => !objects_upto(log, n).contains_key(path),
            Some(i) => 0 <= i < n && log[i].0@ == path && match log[i].1 {
                Some(data) => objects_upto(log, n).contains_key(path) && objects_upto(log, n)[path]
                    == data@,
                None => !objects_upto(log, n).contains_key(path),
            },
        },
    decreases n,
{
    if n > 0 {
        lemma_last_record(log, path, n - 1);
    }
}

/// An object store in memory: a log of writes and removals, of which the
/// last record for a path counts.
pub struct InMemObjectStore {
    log: Vec<(String, Option<Vec<u8>>)>,
}

impl InMemObjectStore {
    /// The objects that the store holds.
    pub closed spec fn objects(&self) -> Map<Seq<char>, Seq<u8>> {
        objects_upto(self.log@, self.log@.len() as int)
    }

    /// An empty store.
    pub fn new() -> (r: InMemObjectStore)
        ensures
            r.objects() == Map::<Seq<char>, Seq<u8>>::empty(),
    {
        InMemObjectStore { log: Vec::new() }
    }

    /// Whether the store holds an object under `path`.
    pub fn contains(&self, path: &str) -> (r: bool)
        ensures
            r == self.objects().contains_key(path@),
    {
        self.get(path).is_ok()
    }

    /// Finds the last record for `path`.
    fn find(&self, path: &str) -> (r: Option<usize>)
        ensures
            match last_record(self.log@, path@, self.log@.len() as int) {
                None => r is None,
                Some(i) => r == Some(i as usize) && 0 <= i < self.log@.len(),
            },
    {
        let key: String = path.to_owned();
        let mut i: usize = self.log.len();
        proof {
            lemma_last_record(self.log@, path@, self.log@.len() as int);
        }
        while i > 0
            invariant
                i <= self.log.len(),
                key@ == path@,
                last_record(self.log@, path@, self.log@.len() as int) == last_record(
                    self.log@,
                    path@,
                    i as int,
                ),
            decreases i,
        {
            if self.log[i - 1].0 == key {
                return Some(i - 1);
            }
            i -= 1;
        }
        None
    }
}

impl ObjectStore for InMemObjectStore {
    fn put(&mut self, path: &str, data: &[u8]) -> (r: Result<(), HummockError>)
        ensures
            r is Ok,
            final(self).objects() == old(self).objects().insert(path@, data@),
    {
        let ghost before = self.log@;
        self.log.push((path.to_owned(), Some(crate::coding::clone_bytes(data))));
        proof {
            lemma_objects_prefix(before, self.log@, before.len() as int);
        }
        Ok(())
    }

    fn get(&self, path: &str) -> (r: Result<Vec<u8>, HummockError>)
        ensures
            self.objects().contains_key(path@) ==> (r matches Ok(data) && data@ == self.objects()[path@]),
            !self.objects().contains_key(path@) ==> r == Err::<Vec<u8>, HummockError>(
                HummockError::ObjectStoreError,
            ),
    {
        proof {
            lemma_last_record(self.log@, path@, self.log@.len() as int);
        }
        let ghost last = last_record(self.log@, path@, self.log@.len() as int);
        match self.find(path) {
            None => Err(HummockError::ObjectStoreError),
            Some(i) => {
                let n: usize = self.log.len();
                assert(last == Some(i as int));
                let rec: &(String, Option<Vec<u8>>) = &self.log[i];
                assert(*rec == self.log@[i as int]);
                match &rec.1 {
                    Some(data) => {
                        assert(self.log@[i as int].1 == Some(*data));
                        Ok(crate::coding::clone_bytes(data.as_slice()))
                    },
                    None => Err(HummockError::ObjectStoreError),
                }
            },
        }
    }

    fn delete(&mut self, path: &str) -> (r: Result<(), HummockError>)
        ensures
            r is Ok,
            final(self).objects() == old(self).objects().remove(path@),
    {
        let ghost before = self.log@;
        self.log.push((path.to_owned(), None));
        proof {
            lemma_objects_prefix(before, self.log@, before.len() as int);
        }
        Ok(())
    }
}

/// What the first records leave does not depend on the records behind them.
pub proof fn lemma_objects_prefix(
    a: Seq<(String, Option<Vec<u8>>)>,
    b: Seq<(String, Option<Vec<u8>>)>,
    n: int,
)
    requires
        0 <= n <= a.len() <= b.len(),
        forall|i: int| 0 <= i < a.len() ==> a[i] == b[i],
    ensures
        objects_upto(b, n) == objects_upto(a, n),
    decreases n,
{
    if n > 0 {
        lemma_objects_prefix(a, b, n - 1);
    }
}

} // verus!
