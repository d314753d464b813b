//! What holds of the engine keys of documents and index entries.

use vstd::prelude::*;

use crate::jsondb::encoding::{
    counter_key_of, doc_key_of, idx_key_of, idx_prefix_of, schema_key_of, zero_free,
};

verus! {

/// Two byte strings that are cut at their first zero byte.
pub proof fn lemma_first_zero(a: Seq<u8>, b: Seq<u8>, c: Seq<u8>, d: Seq<u8>)
    requires
        zero_free(a),
        zero_free(c),
        a + seq![0u8] + b == c + seq![0u8] + d,
    ensures
        a == c,
        b == d,
{
    let s = a + seq![0u8] + b;
    let t = c + seq![0u8] + d;
    assert(s[a.len() as int] == 0);
    assert(t[c.len() as int] == 0);
    if a.len() < c.len() {
        assert(t[a.len() as int] == c[a.len() as int]);
    }
    if c.len() < a.len() {
        assert(s[c.len() as int] == a[c.len() as int]);
    }
    assert(a =~= s.subrange(0, a.len() as int));
    assert(c =~= t.subrange(0, a.len() as int));
    assert(b =~= s.subrange((a.len() + 1) as int, s.len() as int));
    assert(d =~= t.subrange((a.len() + 1) as int, t.len() as int));
}

/// Two byte strings that are cut at their last zero byte.
pub proof fn lemma_last_zero(a: Seq<u8>, b: Seq<u8>, c: Seq<u8>, d: Seq<u8>)
    requires
        zero_free(b),
        zero_free(d),
        a + seq![0u8] + b == c + seq![0u8] + d,
    ensures
        a == c,
        b == d,
{
    let s = a + seq![0u8] + b;
    let t = c + seq![0u8] + d;
    assert(s.len() == a.len() + 1 + b.len());
    assert(t.len() == c.len() + 1 + d.len());
    assert(s[a.len() as int] == 0);
    assert(t[c.len() as int] == 0);
    if a.len() < c.len() {
        assert(s[c.len() as int] == b[c.len() - a.len() - 1]);
    }
    if c.len() < a.len() {
        assert(t[a.len() as int] == d[a.len() - c.len() - 1]);
    }
    assert(a =~= s.subrange(0, a.len() as int));
    assert(c =~= t.subrange(0, a.len() as int));
    assert(b =~= s.subrange((a.len() + 1) as int, s.len() as int));
    assert(d =~= t.subrange((a.len() + 1) as int, t.len() as int));
}

/// Different documents have different keys, also in different stores.
pub proof fn law_document_keys_differ(s1: Seq<u8>, p1: Seq<u8>, s2: Seq<u8>, p2: Seq<u8>)
    requires
        zero_free(s1),
        zero_free(s2),
        doc_key_of(s1, p1) == doc_key_of(s2, p2),
    ensures
        s1 == s2,
        p1 == p2,
{
    let k1 = doc_key_of(s1, p1);
    let k2 = doc_key_of(s2, p2);
    assert(k1.skip(2) =~= s1 + seq![0u8] + p1);
    assert(k2.skip(2) =~= s2 + seq![0u8] + p2);
    lemma_first_zero(s1, p1, s2, p2);
}

/// Different index entries have different keys, also in different indexes and
/// stores.
pub proof fn law_entry_keys_differ(
    s1: Seq<u8>,
    i1: Seq<u8>,
    v1: Seq<u8>,
    p1: Seq<u8>,
    s2: Seq<u8>,
    i2: Seq<u8>,
    v2: Seq<u8>,
    p2: Seq<u8>,
)
    requires
        zero_free(s1),
        zero_free(i1),
        zero_free(p1),
        zero_free(s2),
        zero_free(i2),
        zero_free(p2),
        idx_key_of(s1, i1, v1, p1) == idx_key_of(s2, i2, v2, p2),
    ensures
        s1 == s2,
        i1 == i2,
        v1 == v2,
        p1 == p2,
{
    let k1 = idx_key_of(s1, i1, v1, p1);
    let k2 = idx_key_of(s2, i2, v2, p2);
    let r1 = i1 + seq![0u8] + (v1 + seq![0u8] + p1);
    let r2 = i2 + seq![0u8] + (v2 + seq![0u8] + p2);
    assert(k1.skip(2) =~= s1 + seq![0u8] + r1);
    assert(k2.skip(2) =~= s2 + seq![0u8] + r2);
    lemma_first_zero(s1, r1, s2, r2);
    lemma_first_zero(i1, v1 + seq![0u8] + p1, i2, v2 + seq![0u8] + p2);
    lemma_last_zero(v1, p1, v2, p2);
}

/// A key under the prefix of an index is under that of no other index.
pub proof fn lemma_prefixes_differ(
    s1: Seq<u8>,
    i1: Seq<u8>,
    r1: Seq<u8>,
    s2: Seq<u8>,
    i2: Seq<u8>,
    r2: Seq<u8>,
)
    requires
        zero_free(s1),
        zero_free(i1),
        zero_free(s2),
        zero_free(i2),
        idx_prefix_of(s1, i1) + r1 == idx_prefix_of(s2, i2) + r2,
    ensures
        s1 == s2,
        i1 == i2,
        r1 == r2,
{
    let k1 = idx_prefix_of(s1, i1) + r1;
    let k2 = idx_prefix_of(s2, i2) + r2;
    let t1 = i1 + seq![0u8] + r1;
    let t2 = i2 + seq![0u8] + r2;
    assert(k1.skip(2) =~= s1 + seq![0u8] + t1);
    assert(k2.skip(2) =~= s2 + seq![0u8] + t2);
    lemma_first_zero(s1, t1, s2, t2);
    lemma_first_zero(i1, r1, i2, r2);
}

/// Documents, index entries, definitions and counters never share a key.
pub proof fn law_kinds_of_keys_differ(
    store: Seq<u8>,
    pk: Seq<u8>,
    other: Seq<u8>,
    index: Seq<u8>,
    value: Seq<u8>,
    pk2: Seq<u8>,
)
    ensures
        doc_key_of(store, pk) != idx_key_of(other, index, value, pk2),
        doc_key_of(store, pk) != schema_key_of(other),
        doc_key_of(store, pk) != counter_key_of(other),
        idx_key_of(store, index, value, pk) != schema_key_of(other),
        idx_key_of(store, index, value, pk) != counter_key_of(other),
        schema_key_of(store) != counter_key_of(other),
{
    assert(doc_key_of(store, pk)[0] == 68);
    assert(idx_key_of(other, index, value, pk2)[0] == 73);
    assert(idx_key_of(store, index, value, pk)[0] == 73);
    assert(schema_key_of(other)[0] == 83);
    assert(schema_key_of(store)[0] == 83);
    assert(counter_key_of(other)[0] == 67);
}

/// How keys are spelled: a letter for the kind of the record, then its parts, a
/// zero byte behind each but the last.
pub proof fn law_keys_are_spelled(store: Seq<u8>, index: Seq<u8>, value: Seq<u8>, pk: Seq<u8>)
    ensures
        ({
            let n = store.len() as int;
            let d = doc_key_of(store, pk);
            &&& d.len() == n + pk.len() + 3
            &&& d[0] == 68 && d[1] == 0 && d[n + 2] == 0
            &&& d.subrange(2, n + 2) == store
            &&& d.subrange(n + 3, d.len() as int) == pk
        }),
        ({
            let n = store.len() as int;
            let m = n + 3 + index.len();
            let k = m + 1 + value.len();
            let e = idx_key_of(store, index, value, pk);
            &&& e.len() == k + 1 + pk.len()
            &&& e[0] == 73 && e[1] == 0 && e[n + 2] == 0 && e[m] == 0 && e[k] == 0
            &&& e.subrange(2, n + 2) == store
            &&& e.subrange(n + 3, m) == index
            &&& e.subrange(m + 1, k) == value
            &&& e.subrange(k + 1, e.len() as int) == pk
        }),
        schema_key_of(store) == seq![83u8, 0] + store,
        counter_key_of(store) == seq![67u8, 0] + store,
{
    let n = store.len() as int;
    let m = n + 3 + index.len();
    let k = m + 1 + value.len();
    let d = doc_key_of(store, pk);
    let e = idx_key_of(store, index, value, pk);
    assert(d.subrange(2, n + 2) =~= store);
    assert(d.subrange(n + 3, d.len() as int) =~= pk);
    assert(e.subrange(2, n + 2) =~= store);
    assert(e.subrange(n + 3, m) =~= index);
    assert(e.subrange(m + 1, k) =~= value);
    assert(e.subrange(k + 1, e.len() as int) =~= pk);
}

} // verus!
