//! The records that a change of a document comes to.

use vstd::prelude::*;
use vstd::utf8::encode_utf8;

use crate::bytes::{be_bytes, be_value, bytes_eq, copy_bytes, push_be, read_be};
use crate::engine::{Engine, EngineView};
use crate::error::{string_of, text5, FlowError, FlowErrorView, Result};
use crate::jsondb::encoding::{
    composite_value, counter_key, counter_key_of, doc_key, doc_key_of, encode_composite_value,
    idx_key, idx_key_of, idx_value_prefix, idx_value_prefix_of, index_entries, index_values_of,
    json_lists, path_bytes, prefix_range,
};
use crate::jsondb::schema::{IndexDef, IndexDefView, StoreDef, StoreDefView};
use crate::jsondb::value::{
    decode_doc, decoded_doc, json_seq, list_debug, list_debug_text, Json, JsonValue,
};
use crate::record::{entries, records_of, Entry, InternalRecord, Record, RecordView, ScanRangeView};

verus! {

/// The UTF-8 bytes of the paths of an index.
pub open spec fn paths_utf8(d: IndexDefView) -> Seq<Seq<u8>> {
    d.key_paths.map_values(|p: Seq<char>| encode_utf8(p))
}

/// The value lists that a document is entered under in an index.
pub open spec fn entered_under(doc: Json, d: IndexDefView) -> Seq<Seq<Json>> {
    index_entries(doc, paths_utf8(d), d.multi_entry)
}

/// Collects the value lists that a document is entered under in an index.
pub fn extract_index_values(doc: &JsonValue, idx: &IndexDef) -> (r: Vec<Vec<JsonValue>>)
    ensures
        json_lists(r@) == entered_under(doc@, idx@),
{
    assert(path_bytes(idx.key_paths@) =~= paths_utf8(idx@));
    index_values_of(doc, &idx.key_paths, idx.multi_entry)
}

/// A record without a time that never expires.
pub open spec fn plain_record(key: Seq<u8>, value: Seq<u8>) -> RecordView {
    RecordView { key, ts: 0, expire_at: i64::MAX, value }
}

/// The deletions of the first `n` entries of a document in an index.
pub open spec fn entry_deletions(
    store: Seq<u8>,
    index: Seq<u8>,
    lists: Seq<Seq<Json>>,
    pk: Seq<u8>,
) -> Seq<Entry> {
    lists.map_values(
        |vals: Seq<Json>|
            Entry::deletion(idx_key_of(store, index, composite_value(vals), pk), 0, 0),
    )
}

/// The puts of a document's entries in an index.
pub open spec fn entry_puts(
    store: Seq<u8>,
    index: Seq<u8>,
    lists: Seq<Seq<Json>>,
    pk: Seq<u8>,
) -> Seq<Entry> {
    lists.map_values(
        |vals: Seq<Json>|
            Entry::put(
                plain_record(idx_key_of(store, index, composite_value(vals), pk), pk),
                0,
            ),
    )
}

/// The deletions of a document's entries in the first `n` indexes.
pub open spec fn all_deletions(
    indexes: Seq<IndexDefView>,
    n: nat,
    doc: Json,
    store: Seq<u8>,
    pk: Seq<u8>,
) -> Seq<Entry>
    decreases n,
{
    if n == 0 || n > indexes.len() {
        Seq::empty()
    } else {
        let d = indexes[n - 1];
        all_deletions(indexes, (n - 1) as nat, doc, store, pk) + entry_deletions(
            store,
            encode_utf8(d.name),
            entered_under(doc, d),
            pk,
        )
    }
}

/// The puts of a document's entries in the first `n` indexes.
pub open spec fn all_puts(
    indexes: Seq<IndexDefView>,
    n: nat,
    doc: Json,
    store: Seq<u8>,
    pk: Seq<u8>,
) -> Seq<Entry>
    decreases n,
{
    if n == 0 || n > indexes.len() {
        Seq::empty()
    } else {
        let d = indexes[n - 1];
        all_puts(indexes, (n - 1) as nat, doc, store, pk) + entry_puts(
            store,
            encode_utf8(d.name),
            entered_under(doc, d),
            pk,
        )
    }
}

/// The document that is stored under a key, where one can be read.
pub open spec fn stored_doc(v: EngineView, store: Seq<u8>, pk: Seq<u8>) -> Option<Json> {
    match v.point(doc_key_of(store, pk), 0) {
        Some(rec) => match decoded_doc(rec.value) {
            Ok(doc) => Some(doc),
            Err(_) => None,
        },
        None => None,
    }
}

/// The records of the keys with a prefix.
pub open spec fn records_under(v: EngineView, prefix: Seq<u8>) -> Seq<RecordView> {
    v.range_scan(ScanRangeView::of_prefix(prefix)).records()
}

/// The index holds the value for another document than that of `pk`.
pub open spec fn taken_by_other(
    v: EngineView,
    store: Seq<u8>,
    index: Seq<u8>,
    vals: Seq<Json>,
    pk: Seq<u8>,
) -> bool {
    let found = records_under(v, idx_value_prefix_of(store, index, composite_value(vals)));
    exists|i: int| 0 <= i < found.len() && (#[trigger] found[i]).value != pk
}

/// One of the value lists is taken in the index.
pub open spec fn any_taken(
    v: EngineView,
    store: Seq<u8>,
    index: Seq<u8>,
    lists: Seq<Seq<Json>>,
    pk: Seq<u8>,
) -> bool {
    exists|i: int| 0 <= i < lists.len() && taken_by_other(v, store, index, #[trigger] lists[i], pk)
}

/// The first of the value lists that is taken in the index.
pub open spec fn first_taken(
    v: EngineView,
    store: Seq<u8>,
    index: Seq<u8>,
    lists: Seq<Seq<Json>>,
    pk: Seq<u8>,
) -> Seq<Json>
    decreases lists.len(),
{
    if lists.len() == 0 {
        Seq::empty()
    } else if taken_by_other(v, store, index, lists.first(), pk) {
        lists.first()
    } else {
        first_taken(v, store, index, lists.drop_first(), pk)
    }
}

pub open spec fn unique_error(index: Seq<char>, vals: Seq<Json>) -> FlowErrorView {
    FlowErrorView::JsonDb(
        "unique constraint violation: index '"@ + index + "' value '"@ + list_debug(vals)
            + "' already exists"@,
    )
}

/// The complaint about the first of the first `n` indexes that is unique and
/// holds a value of the document for another one.
pub open spec fn unique_complaint(
    v: EngineView,
    indexes: Seq<IndexDefView>,
    n: nat,
    doc: Json,
    store: Seq<u8>,
    pk: Seq<u8>,
) -> Option<FlowErrorView>
    decreases n,
{
    if n == 0 || n > indexes.len() {
        None
    } else {
        let d = indexes[n - 1];
        match unique_complaint(v, indexes, (n - 1) as nat, doc, store, pk) {
            Some(e) => Some(e),
            None => if d.unique && any_taken(
                v,
                store,
                encode_utf8(d.name),
                entered_under(doc, d),
                pk,
            ) {
                Some(
                    unique_error(
                        d.name,
                        first_taken(v, store, encode_utf8(d.name), entered_under(doc, d), pk),
                    ),
                )
            } else {
                None
            },
        }
    }
}

/// The deletions of the entries of the document that is stored under a key.
pub open spec fn old_entries(v: EngineView, def: StoreDefView, store: Seq<u8>, pk: Seq<u8>) -> Seq<
    Entry,
> {
    match stored_doc(v, store, pk) {
        Some(old) => all_deletions(def.indexes, def.indexes.len(), old, store, pk),
        None => Seq::empty(),
    }
}

/// The entries that putting a document comes to: those of the old document go,
/// the document and its entries come. Nothing is put where a unique index
/// holds one of its values for another document.
pub open spec fn put_batch(
    v: EngineView,
    def: StoreDefView,
    store: Seq<u8>,
    pk: Seq<u8>,
    doc_bytes: Seq<u8>,
    doc: Json,
) -> core::result::Result<Seq<Entry>, FlowErrorView> {
    match unique_complaint(v, def.indexes, def.indexes.len(), doc, store, pk) {
        Some(e) => Err(e),
        None => Ok(
            old_entries(v, def, store, pk).push(
                Entry::put(plain_record(doc_key_of(store, pk), doc_bytes), 0),
            ) + all_puts(def.indexes, def.indexes.len(), doc, store, pk),
        ),
    }
}

/// The entries that deleting a document comes to.
pub open spec fn delete_batch(v: EngineView, def: StoreDefView, store: Seq<u8>, pk: Seq<u8>) -> Seq<
    Entry,
> {
    old_entries(v, def, store, pk).push(Entry::deletion(doc_key_of(store, pk), 0, 0))
}

/// Appends the deletions of a document's entries in an index.
fn push_entry_deletions(
    out: &mut Vec<InternalRecord>,
    store: &str,
    index: &str,
    lists: &Vec<Vec<JsonValue>>,
    pk: &[u8],
)
    ensures
        entries(final(out)@) == entries(old(out)@) + entry_deletions(
            encode_utf8(store@),
            encode_utf8(index@),
            json_lists(lists@),
            pk@,
        ),
{
    let ghost start = entries(out@);
    let ghost want = entry_deletions(
        encode_utf8(store@),
        encode_utf8(index@),
        json_lists(lists@),
        pk@,
    );
    let mut i: usize = 0;
    assert(start + want.subrange(0, 0) =~= start);
    while i < lists.len()
        invariant
            i <= lists.len(),
            start == entries(old(out)@),
            want == entry_deletions(
                encode_utf8(store@),
                encode_utf8(index@),
                json_lists(lists@),
                pk@,
            ),
            entries(out@) == start + want.subrange(0, i as int),
        decreases lists.len() - i,
    {
        let ghost before = entries(out@);
        let encoded = encode_composite_value(&lists[i]);
        let rec = InternalRecord::delete(idx_key(store, index, &encoded, pk), 0, 0);
        let ghost e = rec@;
        out.push(rec);
        proof {
            assert(json_lists(lists@)[i as int] == json_seq(lists@[i as int]@));
            assert(e == want[i as int]);
            assert(entries(out@) =~= before.push(e));
            assert(entries(out@) =~= start + want.subrange(0, i + 1));
        }
        i = i + 1;
    }
    assert(want.subrange(0, want.len() as int) =~= want);
}

/// Appends the puts of a document's entries in an index.
pub fn push_entry_puts(
    out: &mut Vec<InternalRecord>,
    store: &str,
    index: &str,
    lists: &Vec<Vec<JsonValue>>,
    pk: &[u8],
)
    ensures
        entries(final(out)@) == entries(old(out)@) + entry_puts(
            encode_utf8(store@),
            encode_utf8(index@),
            json_lists(lists@),
            pk@,
        ),
{
    let ghost start = entries(out@);
    let ghost want = entry_puts(
        encode_utf8(store@),
        encode_utf8(index@),
        json_lists(lists@),
        pk@,
    );
    let mut i: usize = 0;
    assert(start + want.subrange(0, 0) =~= start);
    while i < lists.len()
        invariant
            i <= lists.len(),
            start == entries(old(out)@),
            want == entry_puts(
                encode_utf8(store@),
                encode_utf8(index@),
                json_lists(lists@),
                pk@,
            ),
            entries(out@) == start + want.subrange(0, i as int),
        decreases lists.len() - i,
    {
        let ghost before = entries(out@);
        let encoded = encode_composite_value(&lists[i]);
        let rec = put_record(idx_key(store, index, &encoded, pk), copy_bytes(pk));
        let ghost e = rec@;
        out.push(rec);
        proof {
            assert(json_lists(lists@)[i as int] == json_seq(lists@[i as int]@));
            assert(e == want[i as int]);
            assert(entries(out@) =~= before.push(e));
            assert(entries(out@) =~= start + want.subrange(0, i + 1));
        }
        i = i + 1;
    }
    assert(want.subrange(0, want.len() as int) =~= want);
}

/// The put of a record without a time.
pub fn put_record(key: Vec<u8>, value: Vec<u8>) -> (r: InternalRecord)
    ensures
        r@ == Entry::put(plain_record(key@, value@), 0),
{
    InternalRecord::from_record(&Record::new(key, 0, value), 0)
}

/// The deletions of the index entries of the document that is stored under a key.
pub fn delete_old_entries(def: &StoreDef, store: &str, pk: &[u8], engine: &Engine) -> (r: Vec<
    InternalRecord,
>)
    requires
        engine.well_formed(),
    ensures
        entries(r@) == old_entries(engine@, def@, encode_utf8(store@), pk@),
{
    let mut out: Vec<InternalRecord> = Vec::new();
    let ghost sb = encode_utf8(store@);
    assert(entries(out@) =~= Seq::<Entry>::empty());
    if let Some(rec) = engine.get_bytes(&doc_key(store, pk), 0) {
        if let Ok(old) = decode_doc(&rec.value) {
            let ghost all = def@.indexes;
            let mut i: usize = 0;
            assert(entries(out@) =~= all_deletions(all, 0, old@, sb, pk@));
            while i < def.indexes.len()
                invariant
                    i <= def.indexes.len(),
                    all == def@.indexes,
                    sb == encode_utf8(store@),
                    entries(out@) == all_deletions(all, i as nat, old@, sb, pk@),
                decreases def.indexes.len() - i,
            {
                let idx = &def.indexes[i];
                assert(all[i as int] == idx@);
                let lists = extract_index_values(&old, idx);
                push_entry_deletions(&mut out, store, idx.name.as_str(), &lists, pk);
                i = i + 1;
            }
        }
    }
    out
}

/// Whether an index holds a value for another document than that of `pk`.
pub fn is_taken(engine: &Engine, store: &str, index: &str, vals: &Vec<JsonValue>, pk: &[u8]) -> (r:
    bool)
    requires
        engine.well_formed(),
    ensures
        r == taken_by_other(
            engine@,
            encode_utf8(store@),
            encode_utf8(index@),
            json_seq(vals@),
            pk@,
        ),
{
    let encoded = encode_composite_value(vals);
    let prefix = idx_value_prefix(store, index, &encoded);
    let found = engine.scan_all(prefix_range(&prefix));
    let ghost all = records_of(found@);
    let mut i: usize = 0;
    while i < found.len()
        invariant
            i <= found.len(),
            all == records_of(found@),
            all == records_under(
                engine@,
                idx_value_prefix_of(
                    encode_utf8(store@),
                    encode_utf8(index@),
                    composite_value(json_seq(vals@)),
                ),
            ),
            forall|j: int| 0 <= j < i ==> (#[trigger] all[j]).value == pk@,
        decreases found.len() - i,
    {
        assert(all[i as int] == found@[i as int]@);
        if !bytes_eq(&found[i].value, pk) {
            return true;
        }
        i = i + 1;
    }
    false
}

/// Looks for a unique index that holds a value of the document for another one.
pub fn check_unique(def: &StoreDef, store: &str, pk: &[u8], doc: &JsonValue, engine: &Engine) -> (r:
    Result<()>)
    requires
        engine.well_formed(),
    ensures
        ({
            let c = unique_complaint(
                engine@,
                def@.indexes,
                def@.indexes.len(),
                doc@,
                encode_utf8(store@),
                pk@,
            );
            match r {
                Ok(_) => c is None,
                Err(e) => c == Some(e@),
            }
        }),
{
    let ghost all = def@.indexes;
    let ghost sb = encode_utf8(store@);
    let mut i: usize = 0;
    while i < def.indexes.len()
        invariant
            i <= def.indexes.len(),
            engine.well_formed(),
            all == def@.indexes,
            sb == encode_utf8(store@),
            unique_complaint(engine@, all, i as nat, doc@, sb, pk@) is None,
        decreases def.indexes.len() - i,
    {
        let idx = &def.indexes[i];
        assert(all[i as int] == idx@);
        if idx.unique {
            let lists = extract_index_values(doc, idx);
            let ghost ls = json_lists(lists@);
            let ghost ib = encode_utf8(idx.name@);
            let mut k: usize = 0;
            while k < lists.len()
                invariant
                    k <= lists.len(),
                    engine.well_formed(),
                    i < def.indexes.len(),
                    all == def@.indexes,
                    all[i as int] == idx@,
                    idx.unique,
                    sb == encode_utf8(store@),
                    ib == encode_utf8(idx.name@),
                    ls == json_lists(lists@),
                    ls == entered_under(doc@, idx@),
                    unique_complaint(engine@, all, i as nat, doc@, sb, pk@) is None,
                    forall|j: int|
                        0 <= j < k ==> !taken_by_other(engine@, sb, ib, #[trigger] ls[j], pk@),
                decreases lists.len() - k,
            {
                assert(ls[k as int] == json_seq(lists@[k as int]@));
                if is_taken(engine, store, idx.name.as_str(), &lists[k], pk) {
                    proof {
                        assert(any_taken(engine@, sb, ib, ls, pk@));
                        lemma_first_taken(engine@, sb, ib, ls, pk@, k as int);
                        lemma_first_complaint(
                            engine@,
                            all,
                            i as nat,
                            all.len(),
                            doc@,
                            sb,
                            pk@,
                        );
                    }
                    return Err(
                        FlowError::JsonDb(
                            text5(
                                "unique constraint violation: index '",
                                idx.name.as_str(),
                                "' value '",
                                &list_debug_text(&lists[k]),
                                "' already exists",
                            ),
                        ),
                    );
                }
                k = k + 1;
            }
        }
        i = i + 1;
    }
    Ok(())
}

/// The first value list that is taken is the one with none before it.
proof fn lemma_first_taken(
    v: EngineView,
    store: Seq<u8>,
    index: Seq<u8>,
    lists: Seq<Seq<Json>>,
    pk: Seq<u8>,
    k: int,
)
    requires
        0 <= k < lists.len(),
        taken_by_other(v, store, index, lists[k], pk),
        forall|j: int| 0 <= j < k ==> !taken_by_other(v, store, index, #[trigger] lists[j], pk),
    ensures
        first_taken(v, store, index, lists, pk) == lists[k],
    decreases lists.len(),
{
    if k > 0 {
        let t = lists.drop_first();
        assert(!taken_by_other(v, store, index, lists[0], pk));
        assert forall|j: int| 0 <= j < k - 1 implies !taken_by_other(
            v,
            store,
            index,
            #[trigger] t[j],
            pk,
        ) by {
            assert(t[j] == lists[j + 1]);
        }
        lemma_first_taken(v, store, index, t, pk, k - 1);
    }
}

/// The first complaint decides.
proof fn lemma_first_complaint(
    v: EngineView,
    indexes: Seq<IndexDefView>,
    k: nat,
    n: nat,
    doc: Json,
    store: Seq<u8>,
    pk: Seq<u8>,
)
    requires
        k < n <= indexes.len(),
        unique_complaint(v, indexes, k, doc, store, pk) is None,
        indexes[k as int].unique,
        any_taken(
            v,
            store,
            encode_utf8(indexes[k as int].name),
            entered_under(doc, indexes[k as int]),
            pk,
        ),
    ensures
        unique_complaint(v, indexes, n, doc, store, pk) == Some(
            unique_error(
                indexes[k as int].name,
                first_taken(
                    v,
                    store,
                    encode_utf8(indexes[k as int].name),
                    entered_under(doc, indexes[k as int]),
                    pk,
                ),
            ),
        ),
    decreases n,
{
    if n > k + 1 {
        lemma_first_complaint(v, indexes, k, (n - 1) as nat, doc, store, pk);
    }
}

/// Appends the puts of a document and of its index entries.
pub fn push_doc_puts(
    out: &mut Vec<InternalRecord>,
    def: &StoreDef,
    store: &str,
    pk: &[u8],
    doc_bytes: &[u8],
    doc: &JsonValue,
)
    ensures
        entries(final(out)@) == entries(old(out)@).push(
            Entry::put(plain_record(doc_key_of(encode_utf8(store@), pk@), doc_bytes@), 0),
        ) + all_puts(def@.indexes, def@.indexes.len(), doc@, encode_utf8(store@), pk@),
{
    let ghost sb = encode_utf8(store@);
    let ghost all = def@.indexes;
    let ghost before = entries(out@);
    let rec = put_record(doc_key(store, pk), copy_bytes(doc_bytes));
    let ghost e = rec@;
    out.push(rec);
    let ghost head = entries(out@);
    assert(head =~= before.push(e));
    let mut i: usize = 0;
    assert(head + all_puts(all, 0, doc@, sb, pk@) =~= head);
    while i < def.indexes.len()
        invariant
            i <= def.indexes.len(),
            all == def@.indexes,
            sb == encode_utf8(store@),
            entries(out@) == head + all_puts(all, i as nat, doc@, sb, pk@),
        decreases def.indexes.len() - i,
    {
        let idx = &def.indexes[i];
        assert(all[i as int] == idx@);
        let ghost so_far = entries(out@);
        let lists = extract_index_values(doc, idx);
        push_entry_puts(out, store, idx.name.as_str(), &lists, pk);
        proof {
            assert(entries(out@) =~= head + all_puts(all, (i + 1) as nat, doc@, sb, pk@));
        }
        i = i + 1;
    }
}

/// The records that putting a document comes to.
pub fn build_put_batch(
    def: &StoreDef,
    store: &str,
    pk: &[u8],
    doc_bytes: &[u8],
    doc: &JsonValue,
    engine: &Engine,
) -> (r: Result<Vec<InternalRecord>>)
    requires
        engine.well_formed(),
    ensures
        ({
            let b = put_batch(engine@, def@, encode_utf8(store@), pk@, doc_bytes@, doc@);
            match r {
                Ok(records) => b is Ok && entries(records@) == b->Ok_0,
                Err(e) => b is Err && e@ == b->Err_0,
            }
        }),
{
    match check_unique(def, store, pk, doc, engine) {
        Ok(_) => {},
        Err(e) => {
            return Err(e);
        },
    }
    let mut out = delete_old_entries(def, store, pk, engine);
    push_doc_puts(&mut out, def, store, pk, doc_bytes, doc);
    Ok(out)
}

/// The records that deleting a document comes to.
pub fn build_delete_batch(def: &StoreDef, store: &str, pk: &[u8], engine: &Engine) -> (r: Vec<
    InternalRecord,
>)
    requires
        engine.well_formed(),
    ensures
        entries(r@) == delete_batch(engine@, def@, encode_utf8(store@), pk@),
{
    let mut out = delete_old_entries(def, store, pk, engine);
    let ghost before = entries(out@);
    let rec = InternalRecord::delete(doc_key(store, pk), 0, 0);
    let ghost e = rec@;
    out.push(rec);
    assert(entries(out@) =~= before.push(e));
    out
}

pub open spec fn bad_counter() -> FlowErrorView {
    FlowErrorView::Corruption { file: "counter"@, msg: "auto-increment counter is not 8 bytes"@ }
}

pub open spec fn counter_full() -> FlowErrorView {
    FlowErrorView::JsonDb("auto-increment counter exhausted"@)
}

/// The last id that a store has given out: 0 where it has given none.
pub open spec fn last_id(v: EngineView, store: Seq<u8>) -> core::result::Result<u64, FlowErrorView> {
    match v.point(counter_key_of(store), 0) {
        None => Ok(0),
        Some(rec) => if rec.value.len() == 8 {
            Ok(be_value(rec.value) as u64)
        } else {
            Err(bad_counter())
        },
    }
}

/// The id after the last one.
pub open spec fn next_id(v: EngineView, store: Seq<u8>) -> core::result::Result<u64, FlowErrorView> {
    match last_id(v, store) {
        Err(e) => Err(e),
        Ok(n) => if n == u64::MAX {
            Err(counter_full())
        } else {
            Ok((n + 1) as u64)
        },
    }
}

/// The put that stores the last id.
pub open spec fn counter_put(store: Seq<u8>, id: u64) -> Entry {
    Entry::put(plain_record(counter_key_of(store), be_bytes(id as nat, 8)), 0)
}

/// The record that stores the last id of a store.
pub fn counter_record(store: &str, id: u64) -> (r: InternalRecord)
    ensures
        r@ == counter_put(encode_utf8(store@), id),
{
    let mut value: Vec<u8> = Vec::new();
    push_be(&mut value, id, 8);
    assert(value@ =~= be_bytes(id as nat, 8));
    put_record(counter_key(store), value)
}

/// Finds the next id of an auto-increment store, and the record that stores it.
pub fn prepare_counter(engine: &Engine, store: &str) -> (r: Result<(u64, InternalRecord)>)
    requires
        engine.well_formed(),
    ensures
        r is Ok <==> next_id(engine@, encode_utf8(store@)) is Ok,
        match r {
            Ok((id, rec)) => id == next_id(engine@, encode_utf8(store@))->Ok_0 && rec@
                == counter_put(encode_utf8(store@), id),
            Err(e) => e@ == next_id(engine@, encode_utf8(store@))->Err_0,
        },
{
    let last: u64 = match engine.get_bytes(&counter_key(store), 0) {
        None => 0,
        Some(rec) => {
            if rec.value.len() != 8 {
                return Err(
                    FlowError::Corruption {
                        file: string_of("counter"),
                        msg: string_of("auto-increment counter is not 8 bytes"),
                    },
                );
            }
            assert(rec.value@.subrange(0, 8) =~= rec.value@);
            read_be(&rec.value, 0, 8)
        },
    };
    if last == u64::MAX {
        return Err(FlowError::JsonDb(string_of("auto-increment counter exhausted")));
    }
    Ok((last + 1, counter_record(store, last + 1)))
}

} // verus!
