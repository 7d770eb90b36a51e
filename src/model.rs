//! Mathematical model of the persisted log: the table as the list of its
//! entries in ascending key order, and what appending and replaying do to it.
use vstd::bytes::*;
use vstd::prelude::*;

verus! {

/// One stored pair: key bytes and value bytes.
pub type Entry = (Seq<u8>, Seq<u8>);

/// The reserved key under which the next sequence number is kept: the bytes of `"counter"`.
pub open spec fn counter_key() -> Seq<u8> {
    seq![99u8, 111u8, 117u8, 110u8, 116u8, 101u8, 114u8]
}

/// The key of the entry with sequence number `n`: its 8 little-endian bytes.
pub open spec fn entry_key(n: u64) -> Seq<u8> {
    spec_u64_to_le_bytes(n)
}

/// Lexicographic byte order, the order in which the table keeps its keys.
pub open spec fn lex_lt(a: Seq<u8>, b: Seq<u8>) -> bool
    decreases a.len(),
{
    if a.len() == 0 {
        b.len() > 0
    } else if b.len() == 0 {
        false
    } else if a[0] != b[0] {
        a[0] < b[0]
    } else {
        lex_lt(a.drop_first(), b.drop_first())
    }
}

/// Keys strictly ascending, so in particular unique.
pub open spec fn sorted(es: Seq<Entry>) -> bool {
    forall|i: int, j: int| 0 <= i < j < es.len() ==> lex_lt(#[trigger] es[i].0, #[trigger] es[j].0)
}

/// The listing after storing `v` under `k`: a pair with an equal key is replaced,
/// otherwise the pair goes before the first greater key.
pub open spec fn insert_entry(es: Seq<Entry>, k: Seq<u8>, v: Seq<u8>) -> Seq<Entry>
    decreases es.len(),
{
    if es.len() == 0 {
        seq![(k, v)]
    } else if lex_lt(k, es[0].0) {
        seq![(k, v)] + es
    } else if k == es[0].0 {
        seq![(k, v)] + es.drop_first()
    } else {
        seq![es[0]] + insert_entry(es.drop_first(), k, v)
    }
}

/// The value stored under `k`, if any.
pub open spec fn lookup(es: Seq<Entry>, k: Seq<u8>) -> Option<Seq<u8>>
    decreases es.len(),
{
    if es.len() == 0 {
        None
    } else if es[0].0 == k {
        Some(es[0].1)
    } else {
        lookup(es.drop_first(), k)
    }
}

/// The payloads in listing order, the counter key left out.
pub open spec fn replay(es: Seq<Entry>) -> Seq<Seq<u8>>
    decreases es.len(),
{
    if es.len() == 0 {
        seq![]
    } else if es[0].0 == counter_key() {
        replay(es.drop_first())
    } else {
        seq![es[0].1] + replay(es.drop_first())
    }
}

/// The counter adopted on opening, from what the counter key holds;
/// `None` where the stored value is not 8 bytes long.
pub open spec fn recovered_counter(stored: Option<Seq<u8>>) -> Option<u64> {
    match stored {
        None => Some(0),
        Some(b) => if b.len() == 8 {
            Some(spec_u64_from_le_bytes(b))
        } else {
            None
        },
    }
}

/// The listing after a successful append of `payload` at sequence number `counter`.
pub open spec fn append_model(es: Seq<Entry>, counter: u64, payload: Seq<u8>) -> Seq<Entry> {
    insert_entry(
        insert_entry(es, entry_key(counter), payload),
        counter_key(),
        entry_key((counter + 1) as u64),
    )
}

/// The listing of a table that started empty after each of `cs` was appended.
pub open spec fn entries_after(cs: Seq<Seq<u8>>) -> Seq<Entry>
    decreases cs.len(),
{
    if cs.len() == 0 {
        seq![]
    } else {
        append_model(entries_after(cs.drop_last()), (cs.len() - 1) as u64, cs.last())
    }
}

/// Every key is the counter key or the entry key of a sequence number below `n`.
pub open spec fn keys_below(es: Seq<Entry>, n: int) -> bool {
    forall|i: int|
        0 <= i < es.len() ==> #[trigger] es[i].0 == counter_key() || (es[i].0.len() == 8
            && spec_u64_from_le_bytes(es[i].0) < n)
}

pub proof fn lemma_lex_irrefl(a: Seq<u8>)
    ensures
        !lex_lt(a, a),
    decreases a.len(),
{
    if a.len() > 0 {
        lemma_lex_irrefl(a.drop_first());
    }
}

pub proof fn lemma_lex_trans(a: Seq<u8>, b: Seq<u8>, c: Seq<u8>)
    requires
        lex_lt(a, b),
        lex_lt(b, c),
    ensures
        lex_lt(a, c),
    decreases a.len(),
{
    if a.len() > 0 && b.len() > 0 && c.len() > 0 && a[0] == b[0] && b[0] == c[0] {
        lemma_lex_trans(a.drop_first(), b.drop_first(), c.drop_first());
    }
}

pub proof fn lemma_lex_total(a: Seq<u8>, b: Seq<u8>)
    ensures
        a == b || lex_lt(a, b) || lex_lt(b, a),
    decreases a.len(),
{
    if a.len() > 0 && b.len() > 0 && a[0] == b[0] {
        lemma_lex_total(a.drop_first(), b.drop_first());
        if a.drop_first() == b.drop_first() {
            assert(a == seq![a[0]] + a.drop_first());
            assert(b == seq![b[0]] + b.drop_first());
        }
    } else if a.len() == 0 && b.len() == 0 {
        assert(a == b);
    }
}

pub proof fn lemma_lex_asym(a: Seq<u8>, b: Seq<u8>)
    requires
        lex_lt(a, b),
    ensures
        !lex_lt(b, a),
{
    if lex_lt(b, a) {
        lemma_lex_trans(a, b, a);
        lemma_lex_irrefl(a);
    }
}


/// Every key of `insert_entry(es, k, v)` stays above a bound that `k` and all keys of `es` are above.
pub proof fn lemma_insert_lower(es: Seq<Entry>, k: Seq<u8>, v: Seq<u8>, b: Seq<u8>)
    requires
        lex_lt(b, k),
        forall|i: int| 0 <= i < es.len() ==> lex_lt(b, #[trigger] es[i].0),
    ensures
        forall|j: int|
            0 <= j < insert_entry(es, k, v).len() ==> lex_lt(
                b,
                #[trigger] insert_entry(es, k, v)[j].0,
            ),
    decreases es.len(),
{
    if es.len() > 0 && !lex_lt(k, es[0].0) && k != es[0].0 {
        let rest = es.drop_first();
        assert forall|i: int| 0 <= i < rest.len() implies lex_lt(b, #[trigger] rest[i].0) by {
            assert(rest[i] == es[i + 1]);
        }
        lemma_insert_lower(rest, k, v, b);
        let r = insert_entry(es, k, v);
        assert forall|j: int| 0 <= j < r.len() implies lex_lt(b, #[trigger] r[j].0) by {
            if j > 0 {
                assert(r[j] == insert_entry(rest, k, v)[j - 1]);
            }
        }
    }
}

pub proof fn lemma_insert_sorted(es: Seq<Entry>, k: Seq<u8>, v: Seq<u8>)
    requires
        sorted(es),
    ensures
        sorted(insert_entry(es, k, v)),
    decreases es.len(),
{
    if es.len() == 0 {
        return;
    }
    let r = insert_entry(es, k, v);
    let rest = es.drop_first();
    assert(sorted(rest)) by {
        assert forall|i: int, j: int| 0 <= i < j < rest.len() implies lex_lt(
            #[trigger] rest[i].0,
            #[trigger] rest[j].0,
        ) by {
            assert(rest[i] == es[i + 1] && rest[j] == es[j + 1]);
        }
    }
    if lex_lt(k, es[0].0) {
        assert forall|i: int, j: int| 0 <= i < j < r.len() implies lex_lt(
            #[trigger] r[i].0,
            #[trigger] r[j].0,
        ) by {
            assert(r[j] == es[j - 1]);
            if i > 0 {
                assert(r[i] == es[i - 1]);
            } else if j > 1 {
                lemma_lex_trans(k, es[0].0, es[j - 1].0);
            }
        }
    } else if k == es[0].0 {
        assert forall|i: int, j: int| 0 <= i < j < r.len() implies lex_lt(
            #[trigger] r[i].0,
            #[trigger] r[j].0,
        ) by {
            assert(r[j] == es[j]);
            if i > 0 {
                assert(r[i] == es[i]);
            }
        }
    } else {
        lemma_lex_total(k, es[0].0);
        lemma_insert_sorted(rest, k, v);
        assert forall|i: int| 0 <= i < rest.len() implies lex_lt(es[0].0, #[trigger] rest[i].0) by {
            assert(rest[i] == es[i + 1]);
        }
        lemma_insert_lower(rest, k, v, es[0].0);
        let t = insert_entry(rest, k, v);
        assert forall|i: int, j: int| 0 <= i < j < r.len() implies lex_lt(
            #[trigger] r[i].0,
            #[trigger] r[j].0,
        ) by {
            assert(r[j] == t[j - 1]);
            if i > 0 {
                assert(r[i] == t[i - 1]);
            }
        }
    }
}

pub proof fn lemma_insert_keys(es: Seq<Entry>, k: Seq<u8>, v: Seq<u8>, n: int)
    requires
        keys_below(es, n),
        k == counter_key() || (k.len() == 8 && spec_u64_from_le_bytes(k) < n),
    ensures
        keys_below(insert_entry(es, k, v), n),
    decreases es.len(),
{
    if es.len() > 0 && !lex_lt(k, es[0].0) && k != es[0].0 {
        let rest = es.drop_first();
        assert forall|i: int| 0 <= i < rest.len() implies #[trigger] rest[i].0 == counter_key() || (
        rest[i].0.len() == 8 && spec_u64_from_le_bytes(rest[i].0) < n) by {
            assert(rest[i] == es[i + 1]);
        }
        lemma_insert_keys(rest, k, v, n);
        let r = insert_entry(es, k, v);
        assert forall|j: int| 0 <= j < r.len() implies #[trigger] r[j].0 == counter_key() || (
        r[j].0.len() == 8 && spec_u64_from_le_bytes(r[j].0) < n) by {
            if j > 0 {
                assert(r[j] == insert_entry(rest, k, v)[j - 1]);
            }
        }
    } else if es.len() > 0 {
        let r = insert_entry(es, k, v);
        assert forall|j: int| 0 <= j < r.len() implies #[trigger] r[j].0 == counter_key() || (
        r[j].0.len() == 8 && spec_u64_from_le_bytes(r[j].0) < n) by {
            if j > 0 && lex_lt(k, es[0].0) {
                assert(r[j] == es[j - 1]);
            } else if j > 0 {
                assert(r[j] == es[j]);
            }
        }
    }
}

pub proof fn lemma_lookup_insert(es: Seq<Entry>, k: Seq<u8>, v: Seq<u8>, q: Seq<u8>)
    ensures
        lookup(insert_entry(es, k, v), q) == if q == k {
            Some(v)
        } else {
            lookup(es, q)
        },
    decreases es.len(),
{
    let r = insert_entry(es, k, v);
    if es.len() == 0 {
        assert(r.drop_first().len() == 0);
    } else if lex_lt(k, es[0].0) {
        assert(r.drop_first() == es);
    } else if k == es[0].0 {
        assert(r.drop_first() == es.drop_first());
    } else {
        lemma_lookup_insert(es.drop_first(), k, v, q);
        assert(r.drop_first() == insert_entry(es.drop_first(), k, v));
    }
}

pub proof fn lemma_lookup_absent(es: Seq<Entry>, q: Seq<u8>)
    requires
        forall|i: int| 0 <= i < es.len() ==> #[trigger] es[i].0 != q,
    ensures
        lookup(es, q) is None,
    decreases es.len(),
{
    if es.len() > 0 {
        let rest = es.drop_first();
        assert forall|i: int| 0 <= i < rest.len() implies #[trigger] rest[i].0 != q by {
            assert(rest[i] == es[i + 1]);
        }
        lemma_lookup_absent(rest, q);
    }
}

/// Storing under the counter key leaves the replay as it was.
pub proof fn lemma_replay_insert_counter(es: Seq<Entry>, x: Seq<u8>)
    ensures
        replay(insert_entry(es, counter_key(), x)) == replay(es),
    decreases es.len(),
{
    let r = insert_entry(es, counter_key(), x);
    if es.len() == 0 {
        assert(r.drop_first().len() == 0);
        assert(replay(r.drop_first()) == Seq::<Seq<u8>>::empty());
        assert(replay(r) =~= replay(es));
    } else if lex_lt(counter_key(), es[0].0) {
        assert(r.drop_first() == es);
    } else if counter_key() == es[0].0 {
        assert(r.drop_first() == es.drop_first());
    } else {
        lemma_replay_insert_counter(es.drop_first(), x);
        assert(r.drop_first() == insert_entry(es.drop_first(), counter_key(), x));
        assert(r[0] == es[0]);
    }
}

/// Storing under a key above every entry key adds its value at the end of the replay.
pub proof fn lemma_replay_insert_last(es: Seq<Entry>, k: Seq<u8>, v: Seq<u8>)
    requires
        sorted(es),
        k != counter_key(),
        forall|i: int| 0 <= i < es.len() && #[trigger] es[i].0 != counter_key() ==> lex_lt(es[i].0, k),
    ensures
        replay(insert_entry(es, k, v)) == replay(es).push(v),
    decreases es.len(),
{
    let r = insert_entry(es, k, v);
    if es.len() == 0 {
        assert(r.drop_first().len() == 0);
        assert(replay(r.drop_first()) == Seq::<Seq<u8>>::empty());
        assert(replay(r) =~= replay(es).push(v));
    } else if lex_lt(k, es[0].0) {
        if es[0].0 != counter_key() {
            lemma_lex_asym(es[0].0, k);
        }
        if es.len() > 1 {
            assert(lex_lt(es[0].0, es[1].0));
            lemma_lex_irrefl(es[0].0);
            lemma_lex_trans(k, es[0].0, es[1].0);
            lemma_lex_asym(es[1].0, k);
        }
        assert(es.len() == 1);
        assert(es.drop_first().len() == 0);
        assert(replay(es) == replay(es.drop_first()));
        assert(r.drop_first() == es);
        assert(replay(r) == seq![v] + replay(es));
        assert(replay(r) =~= replay(es).push(v));
    } else if k == es[0].0 {
        lemma_lex_irrefl(k);
    } else {
        let rest = es.drop_first();
        assert(sorted(rest)) by {
            assert forall|i: int, j: int| 0 <= i < j < rest.len() implies lex_lt(
                #[trigger] rest[i].0,
                #[trigger] rest[j].0,
            ) by {
                assert(rest[i] == es[i + 1] && rest[j] == es[j + 1]);
            }
        }
        assert forall|i: int|
            0 <= i < rest.len() && #[trigger] rest[i].0 != counter_key() implies lex_lt(
            rest[i].0,
            k,
        ) by {
            assert(rest[i] == es[i + 1]);
        }
        lemma_replay_insert_last(rest, k, v);
        assert(r.drop_first() == insert_entry(rest, k, v));
        assert(r[0] == es[0]);
        if es[0].0 == counter_key() {
            assert(replay(r) == replay(insert_entry(rest, k, v)));
        } else {
            assert(replay(r) == seq![es[0].1] + replay(insert_entry(rest, k, v)));
            assert(replay(r) =~= replay(es).push(v));
        }
    }
}


/// Below 256 the little-endian key is the number's own byte followed by zeros.
pub proof fn lemma_small_entry_key(x: u64)
    requires
        x < 256,
    ensures
        entry_key(x) == seq![x as u8, 0u8, 0u8, 0u8, 0u8, 0u8, 0u8, 0u8],
{
    spec_u64_to_le_bytes_to_open(x);
    assert((x & 0xff) == x && (x >> 8) & 0xff == 0 && (x >> 16) & 0xff == 0 && (x >> 24) & 0xff
        == 0 && (x >> 32) & 0xff == 0 && (x >> 40) & 0xff == 0 && (x >> 48) & 0xff == 0 && (x
        >> 56) & 0xff == 0) by (bit_vector)
        requires
            x < 256,
    ;
    assert(entry_key(x) =~= seq![x as u8, 0u8, 0u8, 0u8, 0u8, 0u8, 0u8, 0u8]);
}

/// Below 256, entry keys are ordered as their sequence numbers.
pub proof fn lemma_small_entry_keys_ordered(a: u64, b: u64)
    requires
        a < b < 256,
    ensures
        lex_lt(entry_key(a), entry_key(b)),
{
    lemma_small_entry_key(a);
    lemma_small_entry_key(b);
    assert(entry_key(a)[0] == a as u8 && entry_key(b)[0] == b as u8);
}

/// What holds of a table that started empty after `cs` was appended.
pub proof fn lemma_entries_after(cs: Seq<Seq<u8>>)
    requires
        cs.len() < u64::MAX,
    ensures
        sorted(entries_after(cs)),
        keys_below(entries_after(cs), cs.len() as int),
        lookup(entries_after(cs), counter_key()) == if cs.len() == 0 {
            None
        } else {
            Some(entry_key(cs.len() as u64))
        },
        cs.len() <= 256 ==> replay(entries_after(cs)) == cs,
    decreases cs.len(),
{
    lemma_auto_spec_u64_to_from_le_bytes();
    if cs.len() == 0 {
        return;
    }
    let prefix = cs.drop_last();
    let m = prefix.len() as u64;
    lemma_entries_after(prefix);
    let es0 = entries_after(prefix);
    let es1 = insert_entry(es0, entry_key(m), cs.last());
    let es = insert_entry(es1, counter_key(), entry_key((m + 1) as u64));
    assert(es == entries_after(cs));
    lemma_insert_sorted(es0, entry_key(m), cs.last());
    lemma_insert_sorted(es1, counter_key(), entry_key((m + 1) as u64));
    assert(entry_key(m).len() == 8 && spec_u64_from_le_bytes(entry_key(m)) == m);
    lemma_insert_keys(es0, entry_key(m), cs.last(), cs.len() as int);
    lemma_insert_keys(es1, counter_key(), entry_key((m + 1) as u64), cs.len() as int);
    lemma_lookup_insert(es1, counter_key(), entry_key((m + 1) as u64), counter_key());
    if cs.len() <= 256 {
        assert forall|i: int| 0 <= i < es0.len() && #[trigger] es0[i].0 != counter_key() implies lex_lt(
            es0[i].0,
            entry_key(m),
        ) by {
            let k = es0[i].0;
            let a = spec_u64_from_le_bytes(k);
            assert(spec_u64_to_le_bytes(spec_u64_from_le_bytes(k)) == k);
            lemma_small_entry_keys_ordered(a, m);
        }
        assert(entry_key(m) != counter_key());
        lemma_replay_insert_last(es0, entry_key(m), cs.last());
        lemma_replay_insert_counter(es1, entry_key((m + 1) as u64));
        assert(prefix.push(cs.last()) =~= cs);
    }
}

} // verus!
