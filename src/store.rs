//! The log itself: a sequence counter over a `sled` tree.
use crate::model::{append_model, counter_key, insert_entry, lookup, recovered_counter, replay, Entry};
use vstd::bytes::*;
use vstd::prelude::*;
use vstd::slice::slice_to_vec;

verus! {

#[verifier::external_type_specification]
#[verifier::external_body]
pub struct ExTree(sled::Tree);

#[verifier::external_type_specification]
#[verifier::external_body]
pub struct ExError(sled::Error);

/// What a tree holds: its pairs, in ascending byte order of their keys.
pub uninterp spec fn tree_entries(t: sled::Tree) -> Seq<Entry>;

/// The bytes of an optional buffer.
pub open spec fn opt_bytes(o: Option<Vec<u8>>) -> Option<Seq<u8>> {
    match o {
        Some(b) => Some(b@),
        None => None,
    }
}

/// The pairs of a list of owned key/value buffers.
pub open spec fn pairs_view(p: Seq<(Vec<u8>, Vec<u8>)>) -> Seq<Entry> {
    p.map_values(|e: (Vec<u8>, Vec<u8>)| (e.0@, e.1@))
}

/// The bytes of each buffer of a list.
pub open spec fn buffers_view(p: Seq<Vec<u8>>) -> Seq<Seq<u8>> {
    p.map_values(|b: Vec<u8>| b@)
}

/// Relies on `sled::Tree::get`: on success, the value stored under `key`, if there is one.
#[verifier::external_body]
fn tree_get(t: &sled::Tree, key: &[u8]) -> (r: Result<Option<Vec<u8>>, sled::Error>)
    ensures
        r is Ok ==> opt_bytes(r->Ok_0) == lookup(tree_entries(*t), key@),
{
    match t.get(key) {
        Ok(Some(v)) => Ok(Some(v.to_vec())),
        Ok(None) => Ok(None),
        Err(e) => Err(e),
    }
}

/// Relies on `sled::Tree::insert`: on success `key` holds `value`, in place of any
/// earlier value, and the tree keeps its keys in ascending byte order. The tree is
/// taken as `&mut` because this log is its only writer.
#[verifier::external_body]
fn tree_insert(t: &mut sled::Tree, key: &[u8], value: &[u8]) -> (r: Result<(), sled::Error>)
    ensures
        r is Ok ==> tree_entries(*final(t)) == insert_entry(tree_entries(*old(t)), key@, value@),
{
    match t.insert(key, value) {
        Ok(_) => Ok(()),
        Err(e) => Err(e),
    }
}

/// Relies on `sled::Tree::iter`: read to its end, every pair of the tree in
/// ascending key order; an error met on the way is returned.
#[verifier::external_body]
fn tree_pairs(t: &sled::Tree) -> (r: Result<Vec<(Vec<u8>, Vec<u8>)>, sled::Error>)
    ensures
        r is Ok ==> pairs_view(r->Ok_0@) == tree_entries(*t),
{
    let mut out = Vec::new();
    for item in t.iter() {
        match item {
            Ok((k, v)) => out.push((k.to_vec(), v.to_vec())),
            Err(e) => return Err(e),
        }
    }
    Ok(out)
}

/// Why an operation of the log failed.
#[derive(Debug)]
pub enum LogError {
    /// The tree failed to read or write.
    StorageError(sled::Error),
    /// The stored counter is not 8 bytes long, or a stored changeset does not decode.
    CorruptState,
}

/// The bytes of the reserved counter key, `"counter"`.
pub fn counter_key_bytes() -> (r: Vec<u8>)
    ensures
        r@ == counter_key(),
{
    let r: Vec<u8> = vec![99u8, 111u8, 117u8, 110u8, 116u8, 101u8, 114u8];
    assert(r@ =~= counter_key());
    r
}

/// Whether two byte strings are equal.
pub fn same_bytes(a: &[u8], b: &[u8]) -> (r: bool)
    ensures
        r == (a@ == b@),
{
    if a.len() != b.len() {
        return false;
    }
    let mut i: usize = 0;
    while i < a.len()
        invariant
            a@.len() == b@.len(),
            0 <= i <= a@.len(),
            a@.subrange(0, i as int) == b@.subrange(0, i as int),
        decreases a.len() - i,
    {
        if a[i] != b[i] {
            assert(a@[i as int] != b@[i as int]);
            return false;
        }
        assert(a@.subrange(0, i + 1) =~= a@.subrange(0, i as int).push(a@[i as int]));
        assert(b@.subrange(0, i + 1) =~= b@.subrange(0, i as int).push(b@[i as int]));
        i += 1;
    }
    assert(a@ =~= a@.subrange(0, a@.len() as int));
    assert(b@ =~= b@.subrange(0, b@.len() as int));
    true
}

/// An append-only log of encoded changesets in a `sled` tree.
///
/// Entry `n` is stored under the 8 little-endian bytes of `n`; the key `"counter"`
/// holds the next sequence number in the same form.
pub struct SledStore {
    db: sled::Tree,
    counter: u64,
}

impl SledStore {
    /// The pairs of the tree, in key order.
    pub closed spec fn entries(&self) -> Seq<Entry> {
        tree_entries(self.db)
    }

    /// The sequence number the next stored changeset gets.
    pub closed spec fn next_seq(&self) -> u64 {
        self.counter
    }

    /// Opens the log on `db`, recovering the counter from the counter key
    /// (zero where the key is absent).
    pub fn new(db: sled::Tree) -> (r: Result<SledStore, LogError>)
        ensures
            match r {
                Ok(s) => {
                    &&& recovered_counter(lookup(tree_entries(db), counter_key())) == Some(
                        s.next_seq(),
                    )
                    &&& s.entries() == tree_entries(db)
                },
                Err(LogError::CorruptState) => recovered_counter(
                    lookup(tree_entries(db), counter_key()),
                ) is None,
                Err(LogError::StorageError(_)) => true,
            },
    {
        let ck = counter_key_bytes();
        let stored = match tree_get(&db, ck.as_slice()) {
            Ok(v) => v,
            Err(e) => return Err(LogError::StorageError(e)),
        };
        let counter: u64 = match stored {
            None => 0,
            Some(bytes) => {
                if bytes.len() != 8 {
                    return Err(LogError::CorruptState);
                }
                u64_from_le_bytes(bytes.as_slice())
            },
        };
        Ok(SledStore { db, counter })
    }

    /// Stores `payload`, the encoding of a changeset, as the next entry and then
    /// persists the advanced counter. An empty changeset is not stored: the call
    /// succeeds and changes nothing. On an error the counter stays where it was,
    /// so the whole call can be retried.
    pub fn append_changeset(&mut self, payload: &[u8], is_empty: bool) -> (r: Result<(), LogError>)
        requires
            is_empty || old(self).next_seq() < u64::MAX,
        ensures
            is_empty ==> r is Ok && final(self).entries() == old(self).entries()
                && final(self).next_seq() == old(self).next_seq(),
            !is_empty && r is Ok ==> final(self).entries() == append_model(
                old(self).entries(),
                old(self).next_seq(),
                payload@,
            ) && final(self).next_seq() == old(self).next_seq() + 1,
            r is Err ==> (r matches Err(LogError::StorageError(_))),
            r is Err ==> final(self).next_seq() == old(self).next_seq(),
    {
        if is_empty {
            return Ok(());
        }
        let key = u64_to_le_bytes(self.counter);
        match tree_insert(&mut self.db, key.as_slice(), payload) {
            Ok(()) => {},
            Err(e) => return Err(LogError::StorageError(e)),
        }
        let next = self.counter + 1;
        let next_bytes = u64_to_le_bytes(next);
        let ck = counter_key_bytes();
        match tree_insert(&mut self.db, ck.as_slice(), next_bytes.as_slice()) {
            Ok(()) => {},
            Err(e) => return Err(LogError::StorageError(e)),
        }
        self.counter = next;
        Ok(())
    }

    /// Every stored changeset payload, in ascending key order, the counter key
    /// left out. Nothing is changed.
    pub fn load_changesets(&self) -> (r: Result<Vec<Vec<u8>>, LogError>)
        ensures
            r is Ok ==> buffers_view(r->Ok_0@) == replay(self.entries()),
            r is Err ==> r matches Err(LogError::StorageError(_)),
    {
        let pairs = match tree_pairs(&self.db) {
            Ok(p) => p,
            Err(e) => return Err(LogError::StorageError(e)),
        };
        let ghost es = self.entries();
        let ck = counter_key_bytes();
        let mut out: Vec<Vec<u8>> = Vec::new();
        let mut i: usize = 0;
        assert(es.subrange(0, es.len() as int) =~= es);
        while i < pairs.len()
            invariant
                0 <= i <= pairs@.len(),
                pairs_view(pairs@) == es,
                ck@ == counter_key(),
                replay(es) == buffers_view(out@) + replay(es.subrange(i as int, es.len() as int)),
            decreases pairs.len() - i,
        {
            let ghost rest = es.subrange(i as int, es.len() as int);
            assert(rest[0] == es[i as int]);
            assert(rest.drop_first() =~= es.subrange(i + 1, es.len() as int));
            if !same_bytes(pairs[i].0.as_slice(), ck.as_slice()) {
                let v = slice_to_vec(pairs[i].1.as_slice());
                let ghost before = out@;
                out.push(v);
                assert(buffers_view(out@) =~= buffers_view(before).push(v@));
                assert(buffers_view(out@) + replay(rest.drop_first()) =~= buffers_view(before)
                    + (seq![v@] + replay(rest.drop_first())));
            }
            i += 1;
        }
        assert(es.subrange(i as int, es.len() as int).len() == 0);
        assert(buffers_view(out@) + Seq::<Seq<u8>>::empty() =~= buffers_view(out@));
        Ok(out)
    }

    /// The sequence number the next stored changeset gets.
    pub fn counter(&self) -> (r: u64)
        ensures
            r == self.next_seq(),
    {
        self.counter
    }

    /// The value stored under `key`, if any.
    pub fn stored(&self, key: &[u8]) -> (r: Result<Option<Vec<u8>>, LogError>)
        ensures
            r is Ok ==> opt_bytes(r->Ok_0) == lookup(self.entries(), key@),
            r is Err ==> r matches Err(LogError::StorageError(_)),
    {
        match tree_get(&self.db, key) {
            Ok(v) => Ok(v),
            Err(e) => Err(LogError::StorageError(e)),
        }
    }
}

} // verus!
