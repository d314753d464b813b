//! Definitions of stores are read back as they were stored.

use vstd::prelude::*;
use vstd::utf8::{encode_utf8, encode_utf8_decode_utf8};

use crate::bytes::has_prefix;
use crate::engine_laws::{last_for, law_scan_is_ascending, lemma_last_for};
use crate::error::FlowErrorView;
use crate::jsondb::db::DbView;
use crate::jsondb::document_laws::{
    is_plain_entry, lemma_committed_points, lemma_no_store_named, lemma_same_bytes, plain,
};
use crate::jsondb::encoding::{schema_key_of, schema_prefix_of};
use crate::jsondb::helpers::records_under;
use crate::jsondb::schema::{
    index_json, lemma_store_named_with, lemma_store_position, loaded, member, named, parsed_index,
    parsed_indexes, parsed_store, schema_in, schema_put, store_json, store_named, store_position,
    stores_with, text_json, texts_in, IndexDefView, StoreDefView,
};
use crate::jsondb::value::{field_named, reads_back, Json, NumberView};
use crate::read_laws::{law_empty_engine_is_in_step, lemma_point_is_of_key};
use crate::record::{law_prefix_scan_is_exact, Entry, RecordView, ScanRangeView};
use crate::scan_laws::lemma_scan_has_result;

verus! {

/// Every index of a definition has a path.
pub open spec fn has_paths(d: StoreDefView) -> bool {
    forall|i: int| 0 <= i < d.indexes.len() ==> (#[trigger] d.indexes[i]).key_paths.len() > 0
}

/// The names of the fields differ.
proof fn lemma_field_names()
    ensures
        encode_utf8("name"@) != encode_utf8("unique"@),
        encode_utf8("name"@) != encode_utf8("multi_entry"@),
        encode_utf8("name"@) != encode_utf8("key_paths"@),
        encode_utf8("name"@) != encode_utf8("key_path"@),
        encode_utf8("name"@) != encode_utf8("auto_increment"@),
        encode_utf8("name"@) != encode_utf8("indexes"@),
        encode_utf8("name"@) != encode_utf8("next_auto_id"@),
        encode_utf8("unique"@) != encode_utf8("multi_entry"@),
        encode_utf8("unique"@) != encode_utf8("key_paths"@),
        encode_utf8("unique"@) != encode_utf8("key_path"@),
        encode_utf8("multi_entry"@) != encode_utf8("key_paths"@),
        encode_utf8("multi_entry"@) != encode_utf8("key_path"@),
        encode_utf8("key_paths"@) != encode_utf8("key_path"@),
        encode_utf8("auto_increment"@) != encode_utf8("indexes"@),
        encode_utf8("auto_increment"@) != encode_utf8("key_path"@),
        encode_utf8("auto_increment"@) != encode_utf8("next_auto_id"@),
        encode_utf8("indexes"@) != encode_utf8("key_path"@),
        encode_utf8("indexes"@) != encode_utf8("next_auto_id"@),
        encode_utf8("key_path"@) != encode_utf8("next_auto_id"@),
{
    reveal_strlit("name");
    reveal_strlit("unique");
    reveal_strlit("multi_entry");
    reveal_strlit("key_paths");
    reveal_strlit("key_path");
    reveal_strlit("auto_increment");
    reveal_strlit("indexes");
    reveal_strlit("next_auto_id");
    assert forall|a: Seq<char>, b: Seq<char>| a != b implies #[trigger] encode_utf8(a)
        != #[trigger] encode_utf8(b) by {
        if encode_utf8(a) == encode_utf8(b) {
            lemma_same_bytes(a, b);
        }
    }
    assert("name"@.len() == 4);
    assert("unique"@.len() == 6);
    assert("multi_entry"@.len() == 11);
    assert("key_paths"@.len() == 9);
    assert("key_path"@.len() == 8);
    assert("auto_increment"@.len() == 14);
    assert("indexes"@.len() == 7);
    assert("next_auto_id"@.len() == 12);
}

/// A field that is not the first is looked up among the others.
proof fn lemma_next_field(fs: Seq<(Seq<u8>, Json)>, rest: Seq<(Seq<u8>, Json)>, name: Seq<u8>)
    requires
        fs.len() > 0,
        rest == fs.drop_first(),
    ensures
        fs.first().0 == name ==> field_named(fs, name) == Some(fs.first().1),
        fs.first().0 != name ==> field_named(fs, name) == field_named(rest, name),
{
}

/// Texts are read back from a list.
proof fn lemma_texts_in(paths: Seq<Seq<char>>)
    ensures
        texts_in(paths.map_values(|p: Seq<char>| text_json(p))) == paths,
    decreases paths.len(),
{
    let a = paths.map_values(|p: Seq<char>| text_json(p));
    if paths.len() > 0 {
        let t = paths.drop_last();
        lemma_texts_in(t);
        assert(a.drop_last() =~= t.map_values(|p: Seq<char>| text_json(p)));
        assert(a.last() == text_json(paths.last()));
        encode_utf8_decode_utf8(paths.last());
        assert(texts_in(a) =~= paths);
    } else {
        assert(texts_in(a) =~= paths);
    }
}

/// An index definition is read back as it was stored.
pub proof fn law_index_definition_is_read_back(d: IndexDefView)
    requires
        d.key_paths.len() > 0,
    ensures
        parsed_index(index_json(d)) == Ok::<IndexDefView, FlowErrorView>(d),
{
    let j = index_json(d);
    let fs = j->Object_0;
    lemma_field_names();
    let f1 = fs.drop_first();
    let f2 = f1.drop_first();
    let f3 = f2.drop_first();
    let f4 = f3.drop_first();
    let paths = Json::Array(d.key_paths.map_values(|p: Seq<char>| text_json(p)));
    assert(fs[0] == named("key_paths"@, paths));
    assert(fs[1] == named("multi_entry"@, Json::Bool(d.multi_entry)));
    assert(fs[2] == named("name"@, text_json(d.name)));
    assert(fs[3] == named("unique"@, Json::Bool(d.unique)));
    assert(f4.len() == 0);
    assert(member(j, "name"@) == Some(text_json(d.name))) by {
        let n = encode_utf8("name"@);
        lemma_next_field(fs, f1, n);
        lemma_next_field(f1, f2, n);
        lemma_next_field(f2, f3, n);
    }
    assert(member(j, "unique"@) == Some(Json::Bool(d.unique))) by {
        let n = encode_utf8("unique"@);
        lemma_next_field(fs, f1, n);
        lemma_next_field(f1, f2, n);
        lemma_next_field(f2, f3, n);
        lemma_next_field(f3, f4, n);
    }
    assert(member(j, "multi_entry"@) == Some(Json::Bool(d.multi_entry))) by {
        let n = encode_utf8("multi_entry"@);
        lemma_next_field(fs, f1, n);
        lemma_next_field(f1, f2, n);
    }
    assert(member(j, "key_paths"@) == Some(paths));
    assert(member(j, "key_path"@) is None) by {
        let n = encode_utf8("key_path"@);
        lemma_next_field(fs, f1, n);
        lemma_next_field(f1, f2, n);
        lemma_next_field(f2, f3, n);
        lemma_next_field(f3, f4, n);
        assert(field_named(f4, n) is None);
    }
    lemma_texts_in(d.key_paths);
    encode_utf8_decode_utf8(d.name);
}

proof fn lemma_parsed_indexes(indexes: Seq<IndexDefView>, n: nat)
    requires
        n <= indexes.len(),
        forall|i: int| 0 <= i < indexes.len() ==> (#[trigger] indexes[i]).key_paths.len() > 0,
    ensures
        parsed_indexes(indexes.map_values(|i: IndexDefView| index_json(i)), n) == Ok::<
            Seq<IndexDefView>,
            FlowErrorView,
        >(indexes.take(n as int)),
    decreases n,
{
    let a = indexes.map_values(|i: IndexDefView| index_json(i));
    if n > 0 {
        lemma_parsed_indexes(indexes, (n - 1) as nat);
        assert(indexes[n - 1].key_paths.len() > 0);
        law_index_definition_is_read_back(indexes[n - 1]);
        assert(a[n - 1] == index_json(indexes[n - 1]));
        assert(indexes.take(n - 1).push(indexes[n - 1]) =~= indexes.take(n as int));
    } else {
        assert(indexes.take(0) =~= Seq::<IndexDefView>::empty());
    }
}

/// A store definition is read back as it was stored.
pub proof fn law_store_definition_is_read_back(d: StoreDefView)
    requires
        has_paths(d),
    ensures
        parsed_store(store_json(d)) == Ok::<StoreDefView, FlowErrorView>(d),
{
    let j = store_json(d);
    let fs = j->Object_0;
    lemma_field_names();
    let f1 = fs.drop_first();
    let f2 = f1.drop_first();
    let f3 = f2.drop_first();
    let f4 = f3.drop_first();
    let f5 = f4.drop_first();
    let list = d.indexes.map_values(|i: IndexDefView| index_json(i));
    assert(fs[0] == named("auto_increment"@, Json::Bool(d.auto_increment)));
    assert(fs[1] == named("indexes"@, Json::Array(list)));
    assert(fs[2] == named("key_path"@, text_json(d.key_path)));
    assert(fs[3] == named("name"@, text_json(d.name)));
    assert(member(j, "auto_increment"@) == Some(Json::Bool(d.auto_increment)));
    assert(member(j, "indexes"@) == Some(Json::Array(list))) by {
        let n = encode_utf8("indexes"@);
        lemma_next_field(fs, f1, n);
        lemma_next_field(f1, f2, n);
    }
    assert(member(j, "key_path"@) == Some(text_json(d.key_path))) by {
        let n = encode_utf8("key_path"@);
        lemma_next_field(fs, f1, n);
        lemma_next_field(f1, f2, n);
        lemma_next_field(f2, f3, n);
    }
    assert(member(j, "name"@) == Some(text_json(d.name))) by {
        let n = encode_utf8("name"@);
        lemma_next_field(fs, f1, n);
        lemma_next_field(f1, f2, n);
        lemma_next_field(f2, f3, n);
        lemma_next_field(f3, f4, n);
    }
    let id = Json::Number(NumberView::PosInt(d.next_auto_id));
    assert(member(j, "next_auto_id"@) == Some(id)) by {
        let n = encode_utf8("next_auto_id"@);
        lemma_next_field(fs, f1, n);
        lemma_next_field(f1, f2, n);
        lemma_next_field(f2, f3, n);
        lemma_next_field(f3, f4, n);
        lemma_next_field(f4, f5, n);
        assert(f4[0] == named("next_auto_id"@, id));
    }
    lemma_parsed_indexes(d.indexes, d.indexes.len());
    assert(d.indexes.take(d.indexes.len() as int) =~= d.indexes);
    assert(list.len() == d.indexes.len());
    encode_utf8_decode_utf8(d.name);
    encode_utf8_decode_utf8(d.key_path);
}

/// A key is that of the definition of one of the stores.
pub open spec fn is_key_of_store(schema: Seq<StoreDefView>, key: Seq<u8>) -> bool {
    exists|i: int|
        0 <= i < schema.len() && key == schema_key_of(encode_utf8((#[trigger] schema[i]).name))
}

impl DbView {
    /// The stored definitions are those of the stores, one for one.
    pub open spec fn definitions_stored(self) -> bool {
        &&& forall|i: int, j: int|
            0 <= i < j < self.schema.len() ==> (#[trigger] self.schema[i]).name != (
            #[trigger] self.schema[j]).name
        &&& forall|i: int|
            0 <= i < self.schema.len() ==> self.is_stored(#[trigger] self.schema[i])
        &&& forall|key: Seq<u8>, ts: i64|
            (#[trigger] self.engine.point(key, ts)) is Some && has_prefix(key, schema_prefix_of())
                ==> ts == 0 && is_key_of_store(self.schema, key)
    }

    /// The record of a definition holds it.
    pub open spec fn is_stored(self, d: StoreDefView) -> bool {
        match self.engine.point(schema_key_of(encode_utf8(d.name)), 0) {
            Some(rec) => schema_in(rec.value) == Ok::<StoreDefView, FlowErrorView>(d),
            None => false,
        }
    }
}

/// Where all records are definitions of different stores, loading them gives
/// these.
proof fn lemma_loaded(records: Seq<RecordView>, name: Seq<char>)
    requires
        forall|i: int|
            0 <= i < records.len() ==> schema_in((#[trigger] records[i]).value) is Ok && records[i].key
                == schema_key_of(encode_utf8(schema_in(records[i].value)->Ok_0.name)),
        forall|i: int, j: int|
            0 <= i < j < records.len() ==> (#[trigger] records[i]).key != (
            #[trigger] records[j]).key,
    ensures
        loaded(records) is Ok,
        forall|i: int|
            0 <= i < records.len() && schema_in((#[trigger] records[i]).value)->Ok_0.name == name
                ==> store_named(loaded(records)->Ok_0, name) == Some(
                schema_in(records[i].value)->Ok_0,
            ),
        (forall|i: int|
            0 <= i < records.len() ==> schema_in((#[trigger] records[i]).value)->Ok_0.name != name)
            ==> store_named(loaded(records)->Ok_0, name) is None,
    decreases records.len(),
{
    if records.len() > 0 {
        let t = records.drop_last();
        let last = records.last();
        assert forall|i: int| 0 <= i < t.len() implies schema_in((#[trigger] t[i]).value) is Ok
            && t[i].key == schema_key_of(encode_utf8(schema_in(t[i].value)->Ok_0.name)) by {
            assert(t[i] == records[i]);
        }
        assert forall|i: int, j: int| 0 <= i < j < t.len() implies (#[trigger] t[i]).key != (
        #[trigger] t[j]).key by {
            assert(t[i] == records[i] && t[j] == records[j]);
        }
        lemma_loaded(t, name);
        assert(records[records.len() - 1] == last);
        let d = schema_in(last.value)->Ok_0;
        let s = loaded(t)->Ok_0;
        lemma_store_named_with(s, d);
        assert forall|i: int|
            0 <= i < records.len() && schema_in((#[trigger] records[i]).value)->Ok_0.name
                == name implies store_named(loaded(records)->Ok_0, name) == Some(
            schema_in(records[i].value)->Ok_0,
        ) by {
            if i < t.len() {
                assert(t[i] == records[i]);
                assert(records[i].key != records[records.len() - 1].key);
            }
        }
        if forall|i: int|
            0 <= i < records.len() ==> schema_in((#[trigger] records[i]).value)->Ok_0.name != name {
            assert forall|i: int| 0 <= i < t.len() implies schema_in(
                (#[trigger] t[i]).value,
            )->Ok_0.name != name by {
                assert(t[i] == records[i]);
            }
        }
    }
}

/// A database that is opened again on what was stored has the stores that it
/// had, defined as they were.
pub proof fn law_definitions_survive_reopening(db: DbView, name: Seq<char>)
    requires
        db.engine.in_step(),
        db.definitions_stored(),
    ensures
        loaded(records_under(db.engine, schema_prefix_of())) is Ok,
        store_named(loaded(records_under(db.engine, schema_prefix_of()))->Ok_0, name) == db.store(
            name,
        ),
{
    let v = db.engine;
    let p = schema_prefix_of();
    let range = ScanRangeView::of_prefix(p);
    let recs = records_under(v, p);
    assert(v.scan_agrees(range));
    assert forall|i: int| 0 <= i < recs.len() implies schema_in((#[trigger] recs[i]).value) is Ok
        && recs[i].key == schema_key_of(encode_utf8(schema_in(recs[i].value)->Ok_0.name))
        && exists|k: int|
        0 <= k < db.schema.len() && schema_in(recs[i].value)->Ok_0 == #[trigger] db.schema[k] by {
        let r = recs[i];
        assert(recs.contains(r));
        law_prefix_scan_is_exact(p, r.key, r.ts);
        assert(v.point(r.key, r.ts) == Some(r));
        assert(is_key_of_store(db.schema, r.key));
        let k = choose|k: int|
            0 <= k < db.schema.len() && r.key == schema_key_of(
                encode_utf8((#[trigger] db.schema[k]).name),
            );
        assert(db.is_stored(db.schema[k]));
    }
    assert forall|i: int, j: int| 0 <= i < j < recs.len() implies (#[trigger] recs[i]).key != (
    #[trigger] recs[j]).key by {
        let sc = v.range_scan(range);
        lemma_scan_has_result(sc);
        let out = sc.result();
        law_scan_is_ascending(sc, out, i, j);
        assert(recs[i] == out[i].record() && recs[j] == out[j].record());
        assert(recs.contains(recs[i]) && recs.contains(recs[j]));
        law_prefix_scan_is_exact(p, recs[i].key, recs[i].ts);
        law_prefix_scan_is_exact(p, recs[j].key, recs[j].ts);
        assert(v.point(recs[i].key, recs[i].ts) is Some);
        assert(v.point(recs[j].key, recs[j].ts) is Some);
    }
    lemma_loaded(recs, name);
    let at = store_position(db.schema, name);
    lemma_store_position(db.schema, name);
    if at < db.schema.len() {
        let d = db.schema[at];
        assert(db.is_stored(d));
        let key = schema_key_of(encode_utf8(name));
        let r = v.point(key, 0)->0;
        lemma_point_is_of_key(v, key, 0);
        assert(key.subrange(0, p.len() as int) =~= p);
        law_prefix_scan_is_exact(p, key, 0);
        assert(recs.contains(r));
        let i = choose|i: int| 0 <= i < recs.len() && recs[i] == r;
        assert(schema_in(recs[i].value)->Ok_0.name == name);
    } else {
        assert forall|i: int| 0 <= i < recs.len() implies schema_in(
            (#[trigger] recs[i]).value,
        )->Ok_0.name != name by {
            let k = choose|k: int|
                0 <= k < db.schema.len() && schema_in(recs[i].value)->Ok_0
                    == #[trigger] db.schema[k];
            lemma_no_store_named(db.schema, name, k);
        }
    }
}

/// A schema key has the prefix of schema keys, and tells its store.
proof fn lemma_schema_key(a: Seq<char>, b: Seq<char>)
    ensures
        has_prefix(schema_key_of(encode_utf8(a)), schema_prefix_of()),
        schema_key_of(encode_utf8(a)) == schema_key_of(encode_utf8(b)) <==> a == b,
{
    let p = schema_prefix_of();
    let x = schema_key_of(encode_utf8(a));
    let y = schema_key_of(encode_utf8(b));
    assert(x.subrange(0, p.len() as int) =~= p);
    if x == y {
        assert(x.skip(2) =~= encode_utf8(a));
        assert(y.skip(2) =~= encode_utf8(b));
        lemma_same_bytes(a, b);
    }
}

/// The names stay different where a definition is put among others.
proof fn lemma_names_stay_different(s: Seq<StoreDefView>, def: StoreDefView)
    requires
        forall|i: int, j: int|
            0 <= i < j < s.len() ==> (#[trigger] s[i]).name != (#[trigger] s[j]).name,
    ensures
        forall|i: int, j: int|
            0 <= i < j < stores_with(s, def).len() ==> (#[trigger] stores_with(s, def)[i]).name != (
            #[trigger] stores_with(s, def)[j]).name,
        forall|i: int|
            0 <= i < stores_with(s, def).len() ==> #[trigger] stores_with(s, def)[i] == def || (i
                < s.len() && stores_with(s, def)[i] == s[i] && s[i].name != def.name),
        exists|i: int| 0 <= i < stores_with(s, def).len() && #[trigger] stores_with(s, def)[i] == def,
        forall|i: int|
            0 <= i < s.len() ==> i < stores_with(s, def).len() && stores_with(s, def)[i].name == (
            #[trigger] s[i]).name,
{
    let t = stores_with(s, def);
    let at = store_position(s, def.name);
    lemma_store_position(s, def.name);
    assert forall|i: int, j: int| 0 <= i < j < t.len() implies (#[trigger] t[i]).name != (
    #[trigger] t[j]).name by {
        if at < s.len() {
            assert(t[i].name == s[i].name && t[j].name == s[j].name);
        } else {
            assert(t[i] == s[i]);
            if j < s.len() {
                assert(t[j] == s[j]);
            } else {
                lemma_no_store_named(s, def.name, i);
            }
        }
    }
    assert forall|i: int| 0 <= i < t.len() implies #[trigger] t[i] == def || (i < s.len() && t[i]
        == s[i] && s[i].name != def.name) by {
        if at < s.len() {
            if i < at {
                assert(s[i].name != s[at].name);
            } else if i > at {
                assert(s[at].name != s[i].name);
            }
        } else if i < s.len() {
            lemma_no_store_named(s, def.name, i);
        }
    }
    if at < s.len() {
        assert(t[at] == def);
    } else {
        assert(t[s.len() as int] == def);
    }
}

/// What a batch with one definition says of definitions.
proof fn lemma_definition_batch(e: Entry, more: Seq<Entry>, k: Seq<u8>, ts: i64)
    requires
        forall|j: int|
            0 <= j < more.len() ==> !has_prefix((#[trigger] more[j]).key, schema_prefix_of()),
        has_prefix(k, schema_prefix_of()),
        e.ts == 0,
    ensures
        last_for(seq![e] + more, k, ts) == if k == e.key && ts == 0 {
            Some(e)
        } else {
            None
        },
{
    let es = seq![e] + more;
    let i = lemma_last_for(es, k, ts);
    if last_for(es, k, ts) is Some {
        if i > 0 {
            assert(es[i] == more[i - 1]);
        }
    } else if k == e.key && ts == 0 {
        assert(es[0] == e);
    }
}

/// Storing a definition keeps the stored definitions those of the stores.
pub proof fn law_put_definition_is_stored(db: DbView, def: StoreDefView, more: Seq<Entry>)
    requires
        db.engine.seqs_below(),
        db.definitions_stored(),
        has_paths(def),
        reads_back(store_json(def)),
        plain(more),
        forall|j: int|
            0 <= j < more.len() ==> !has_prefix((#[trigger] more[j]).key, schema_prefix_of()),
        db.put_schema(def, more).1 is None,
    ensures
        db.put_schema(def, more).0.definitions_stored(),
{
    let rec = schema_put(def)->Ok_0;
    let e = Entry::put(rec, 0);
    let es = seq![e] + more;
    let after = db.put_schema(def, more).0;
    let schema = stores_with(db.schema, def);
    let key = schema_key_of(encode_utf8(def.name));
    let p = schema_prefix_of();
    law_store_definition_is_read_back(def);
    assert(plain(es)) by {
        assert forall|i: int| 0 <= i < es.len() implies is_plain_entry(#[trigger] es[i]) by {
            if i > 0 {
                assert(es[i] == more[i - 1]);
            }
        }
    }
    lemma_names_stay_different(db.schema, def);
    assert forall|i: int| 0 <= i < schema.len() implies after.is_stored(#[trigger] schema[i]) by {
        let k = schema_key_of(encode_utf8(schema[i].name));
        lemma_schema_key(schema[i].name, def.name);
        lemma_definition_batch(e, more, k, 0);
        lemma_committed_points(db, es, schema, k, 0);
        if schema[i] != def {
            assert(db.is_stored(db.schema[i]));
        }
    }
    assert forall|k: Seq<u8>, ts: i64|
        (#[trigger] after.engine.point(k, ts)) is Some && has_prefix(k, p) implies ts == 0
        && is_key_of_store(schema, k) by {
        lemma_committed_points(db, es, schema, k, ts);
        lemma_definition_batch(e, more, k, ts);
        if !(k == key && ts == 0) {
            assert(db.engine.point(k, ts) is Some);
            assert(is_key_of_store(db.schema, k));
            let i = choose|i: int|
                0 <= i < db.schema.len() && k == schema_key_of(
                    encode_utf8((#[trigger] db.schema[i]).name),
                );
            assert(schema[i].name == db.schema[i].name);
        } else {
            let i = choose|i: int| 0 <= i < schema.len() && #[trigger] schema[i] == def;
            assert(k == schema_key_of(encode_utf8(schema[i].name)));
        }
    }
}

/// A change that says nothing of definitions leaves them stored.
pub proof fn law_other_changes_leave_definitions(db: DbView, es: Seq<Entry>)
    requires
        db.engine.seqs_below(),
        db.definitions_stored(),
        plain(es),
        forall|j: int| 0 <= j < es.len() ==> !has_prefix((#[trigger] es[j]).key, schema_prefix_of()),
        db.committed(es, db.schema).1 is None,
    ensures
        db.committed(es, db.schema).0.definitions_stored(),
{
    let after = db.committed(es, db.schema).0;
    let p = schema_prefix_of();
    assert forall|k: Seq<u8>, ts: i64| has_prefix(k, p) implies #[trigger] after.engine.point(k, ts)
        == db.engine.point(k, ts) by {
        lemma_committed_points(db, es, db.schema, k, ts);
        let i = lemma_last_for(es, k, ts);
    }
    assert forall|i: int| 0 <= i < db.schema.len() implies after.is_stored(
        #[trigger] db.schema[i],
    ) by {
        lemma_schema_key(db.schema[i].name, db.schema[i].name);
        assert(db.is_stored(db.schema[i]));
    }
    assert forall|k: Seq<u8>, ts: i64|
        (#[trigger] after.engine.point(k, ts)) is Some && has_prefix(k, p) implies ts == 0
        && is_key_of_store(after.schema, k) by {
        assert(db.engine.point(k, ts) is Some);
    }
}

/// A database with nothing in it is consistent, its scans and point reads agree,
/// and so do its stores and their stored definitions.
pub proof fn law_fresh_database_is_consistent()
    ensures
        DbView::fresh().consistent(),
        DbView::fresh().engine.in_step(),
        DbView::fresh().definitions_stored(),
{
    let db = DbView::fresh();
    law_empty_engine_is_in_step(db.engine);
    assert forall|key: Seq<u8>, ts: i64| (#[trigger] db.engine.point(key, ts)) is None by {}
}

} // verus!
