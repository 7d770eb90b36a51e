//! What holds across calls of the log.
use crate::model::{
    append_model, counter_key, entries_after, entry_key, insert_entry, lemma_entries_after,
    lemma_lookup_absent, lemma_lookup_insert, lookup, recovered_counter, replay, Entry,
};
use vstd::bytes::*;
use vstd::prelude::*;

verus! {

/// Changesets appended one after another to an empty table are replayed exactly
/// and in the order they were appended. Entry keys are little-endian and the table
/// orders keys bytewise, so this holds up to 256 entries.
pub proof fn lemma_round_trip(cs: Seq<Seq<u8>>)
    requires
        cs.len() <= 256,
    ensures
        replay(entries_after(cs)) == cs,
{
    lemma_entries_after(cs);
}

/// After `k` changesets were appended to an empty table, opening the table again
/// recovers the counter `k`, and the key that the next append writes is not yet in use.
pub proof fn lemma_reopen_continues(cs: Seq<Seq<u8>>)
    requires
        cs.len() < u64::MAX,
    ensures
        recovered_counter(lookup(entries_after(cs), counter_key())) == Some(cs.len() as u64),
        lookup(entries_after(cs), entry_key(cs.len() as u64)) is None,
{
    lemma_auto_spec_u64_to_from_le_bytes();
    lemma_entries_after(cs);
    let es = entries_after(cs);
    let k = cs.len() as u64;
    assert forall|i: int| 0 <= i < es.len() implies #[trigger] es[i].0 != entry_key(k) by {
        if es[i].0 == entry_key(k) {
            assert(entry_key(k).len() == 8);
            assert(counter_key().len() == 7);
        }
    }
    lemma_lookup_absent(es, entry_key(k));
}

/// After any successful append the persisted counter is the advanced one, so
/// opening the table again continues where the log stopped.
pub proof fn lemma_append_persists_counter(es: Seq<Entry>, counter: u64, payload: Seq<u8>)
    requires
        counter < u64::MAX,
    ensures
        recovered_counter(lookup(append_model(es, counter, payload), counter_key())) == Some(
            (counter + 1) as u64,
        ),
        lookup(append_model(es, counter, payload), entry_key(counter)) == Some(payload),
{
    lemma_auto_spec_u64_to_from_le_bytes();
    let es1 = insert_entry(es, entry_key(counter), payload);
    lemma_lookup_insert(es1, counter_key(), entry_key((counter + 1) as u64), counter_key());
    lemma_lookup_insert(es1, counter_key(), entry_key((counter + 1) as u64), entry_key(counter));
    lemma_lookup_insert(es, entry_key(counter), payload, entry_key(counter));
    assert(entry_key(counter).len() == 8);
}

/// A counter stored as the 8 little-endian bytes of `v` is recovered as `v`.
pub proof fn lemma_counter_recovery(v: u64)
    ensures
        recovered_counter(Some(entry_key(v))) == Some(v),
{
    lemma_auto_spec_u64_to_from_le_bytes();
}

} // verus!
