//! Schema definitions for object stores and indexes.

use vstd::prelude::*;
use vstd::utf8::{decode_utf8, encode_utf8, encode_utf8_decode_utf8};

use crate::bytes::bytes_eq;
use crate::error::{string_of, text5, FlowError, FlowErrorView, Result};
use crate::jsondb::encoding::{is_name, name_error, schema_key, schema_key_of, validate_name};
use crate::jsondb::value::{
    decode_doc, decoded_doc, encode_doc, encoded_doc, field_named, field_seq, json_seq,
    lemma_array_view, lemma_object_view, Field, Json, JsonNumber, JsonValue, NumberView,
};
use crate::record::{records_of, Entry, InternalRecord, Record, RecordView};

verus! {

/// Definition of a secondary index.
#[derive(Debug)]
pub struct IndexDef {
    pub key_paths: Vec<String>,
    pub name: String,
    pub unique: bool,
    pub multi_entry: bool,
}

/// An index definition with its texts as character sequences.
pub struct IndexDefView {
    pub key_paths: Seq<Seq<char>>,
    pub name: Seq<char>,
    pub unique: bool,
    pub multi_entry: bool,
}

/// The texts of a sequence.
pub open spec fn texts(s: Seq<String>) -> Seq<Seq<char>> {
    s.map_values(|t: String| t@)
}

impl View for IndexDef {
    type V = IndexDefView;

    open spec fn view(&self) -> IndexDefView {
        IndexDefView {
            key_paths: texts(self.key_paths@),
            name: self.name@,
            unique: self.unique,
            multi_entry: self.multi_entry,
        }
    }
}

/// The index definitions of a sequence.
pub open spec fn index_defs(s: Seq<IndexDef>) -> Seq<IndexDefView> {
    s.map_values(|d: IndexDef| d@)
}

/// Definition of an object store (analogous to a table in SQL or an
/// object store in IndexedDB).
///
/// Construct one via [`StoreDef::new`] and optionally chain builder methods.
#[derive(Debug)]
pub struct StoreDef {
    /// Store name (unique within a JsonDB instance).
    pub name: String,
    /// Dotted path to the primary key field within each document
    /// (e.g. `"id"`, `"user.id"`).
    pub key_path: String,
    /// When true, the primary key is auto-generated as a monotonically
    /// increasing integer by `put_auto`.
    pub auto_increment: bool,
    /// Secondary indexes defined on this store.
    pub indexes: Vec<IndexDef>,
    /// Next auto-increment ID (only meaningful when `auto_increment` is true).
    pub next_auto_id: u64,
}

/// A store definition with its texts as character sequences.
pub struct StoreDefView {
    pub name: Seq<char>,
    pub key_path: Seq<char>,
    pub auto_increment: bool,
    pub indexes: Seq<IndexDefView>,
    pub next_auto_id: u64,
}

impl View for StoreDef {
    type V = StoreDefView;

    open spec fn view(&self) -> StoreDefView {
        StoreDefView {
            name: self.name@,
            key_path: self.key_path@,
            auto_increment: self.auto_increment,
            indexes: index_defs(self.indexes@),
            next_auto_id: self.next_auto_id,
        }
    }
}

/// Copies of all texts.
pub fn copy_texts(v: &Vec<String>) -> (r: Vec<String>)
    ensures
        texts(r@) == texts(v@),
{
    let mut out: Vec<String> = Vec::new();
    let mut i: usize = 0;
    assert(texts(out@) =~= texts(v@).subrange(0, 0));
    while i < v.len()
        invariant
            i <= v.len(),
            texts(out@) == texts(v@).subrange(0, i as int),
        decreases v.len() - i,
    {
        let ghost before = texts(out@);
        out.push(v[i].clone());
        assert(texts(out@) =~= before.push(v@[i as int]@));
        assert(texts(out@) =~= texts(v@).subrange(0, i + 1));
        i = i + 1;
    }
    assert(texts(v@).subrange(0, v@.len() as int) =~= texts(v@));
    out
}

/// Owned copies of borrowed texts.
pub fn own_texts(v: &[&str]) -> (r: Vec<String>)
    ensures
        texts(r@) == v@.map_values(|s: &str| s@),
{
    let ghost want = v@.map_values(|s: &str| s@);
    let mut out: Vec<String> = Vec::new();
    let mut i: usize = 0;
    assert(texts(out@) =~= want.subrange(0, 0));
    while i < v.len()
        invariant
            i <= v.len(),
            want == v@.map_values(|s: &str| s@),
            texts(out@) == want.subrange(0, i as int),
        decreases v.len() - i,
    {
        let ghost before = texts(out@);
        out.push(string_of(v[i]));
        assert(texts(out@) =~= before.push(v@[i as int]@));
        assert(texts(out@) =~= want.subrange(0, i + 1));
        i = i + 1;
    }
    assert(want.subrange(0, want.len() as int) =~= want);
    out
}

impl IndexDef {
    /// An equal definition.
    pub fn copy(&self) -> (r: IndexDef)
        ensures
            r@ == self@,
    {
        IndexDef {
            key_paths: copy_texts(&self.key_paths),
            name: self.name.clone(),
            unique: self.unique,
            multi_entry: self.multi_entry,
        }
    }
}

impl StoreDef {
    /// Creates a new store definition with the given `name` and `key_path`.
    pub fn new(name: &str, key_path: &str) -> (r: StoreDef)
        ensures
            r@ == (StoreDefView {
                name: name@,
                key_path: key_path@,
                auto_increment: false,
                indexes: Seq::empty(),
                next_auto_id: 0,
            }),
    {
        let d = StoreDef {
            name: string_of(name),
            key_path: string_of(key_path),
            auto_increment: false,
            indexes: Vec::new(),
            next_auto_id: 0,
        };
        assert(d@.indexes =~= Seq::<IndexDefView>::empty());
        d
    }

    /// Adds a secondary index to this store definition (builder pattern).
    pub fn with_index(self, name: &str, key_paths: &[&str], unique: bool) -> (r: StoreDef)
        ensures
            r@ == (StoreDefView {
                indexes: self@.indexes.push(
                    IndexDefView {
                        key_paths: key_paths@.map_values(|s: &str| s@),
                        name: name@,
                        unique,
                        multi_entry: false,
                    },
                ),
                ..self@
            }),
    {
        let mut d = self;
        let index = IndexDef {
            name: string_of(name),
            key_paths: own_texts(key_paths),
            unique,
            multi_entry: false,
        };
        let ghost iv = index@;
        let ghost before = d@.indexes;
        d.indexes.push(index);
        assert(d@.indexes =~= before.push(iv));
        d
    }

    /// Enables auto-increment on this store (builder pattern).
    ///
    /// When enabled, the primary key is auto-generated as a monotonically
    /// increasing integer by `put_auto`.
    pub fn with_auto_increment(self) -> (r: StoreDef)
        ensures
            r@ == (StoreDefView { auto_increment: true, ..self@ }),
    {
        let mut d = self;
        d.auto_increment = true;
        d
    }

    /// An equal definition.
    pub fn copy(&self) -> (r: StoreDef)
        ensures
            r@ == self@,
    {
        let mut indexes: Vec<IndexDef> = Vec::new();
        let mut i: usize = 0;
        assert(index_defs(indexes@) =~= index_defs(self.indexes@).subrange(0, 0));
        while i < self.indexes.len()
            invariant
                i <= self.indexes.len(),
                index_defs(indexes@) == index_defs(self.indexes@).subrange(0, i as int),
            decreases self.indexes.len() - i,
        {
            let ghost before = index_defs(indexes@);
            indexes.push(self.indexes[i].copy());
            assert(index_defs(indexes@) =~= before.push(self.indexes@[i as int]@));
            assert(index_defs(indexes@) =~= index_defs(self.indexes@).subrange(0, i + 1));
            i = i + 1;
        }
        assert(index_defs(self.indexes@).subrange(0, self.indexes@.len() as int) =~= index_defs(
            self.indexes@,
        ));
        StoreDef {
            name: self.name.clone(),
            key_path: self.key_path.clone(),
            auto_increment: self.auto_increment,
            indexes,
            next_auto_id: self.next_auto_id,
        }
    }

    /// The position of the index with a name; the number of indexes where there is none.
    pub fn find_index(&self, name: &str) -> (r: usize)
        ensures
            r as int == index_position(self@.indexes, name@),
            0 <= r <= self@.indexes.len(),
            r < self@.indexes.len() ==> self@.indexes[r as int].name == name@,
    {
        let ghost all = self@.indexes;
        let mut i: usize = 0;
        assert(all.subrange(0, all.len() as int) =~= all);
        while i < self.indexes.len()
            invariant
                i <= self.indexes.len(),
                all == self@.indexes,
                index_position(all, name@) == i + index_position(
                    all.subrange(i as int, all.len() as int),
                    name@,
                ),
            decreases self.indexes.len() - i,
        {
            let ghost rest = all.subrange(i as int, all.len() as int);
            assert(rest.first() == self.indexes@[i as int]@);
            assert(rest.drop_first() =~= all.subrange(i + 1, all.len() as int));
            if texts_eq(self.indexes[i].name.as_str(), name) {
                return i;
            }
            i = i + 1;
        }
        i
    }
}

/// Whether two texts are the same.
pub fn texts_eq(a: &str, b: &str) -> (r: bool)
    ensures
        r == (a@ == b@),
{
    proof {
        encode_utf8_decode_utf8(a@);
        encode_utf8_decode_utf8(b@);
    }
    bytes_eq(a.as_bytes(), b.as_bytes())
}

/// The position of the first index with a name; the number of indexes where
/// there is none.
pub open spec fn index_position(s: Seq<IndexDefView>, name: Seq<char>) -> int
    decreases s.len(),
{
    if s.len() == 0 || s.first().name == name {
        0
    } else {
        1 + index_position(s.drop_first(), name)
    }
}

/// The index with a name, if there is one.
pub open spec fn index_named(s: Seq<IndexDefView>, name: Seq<char>) -> Option<IndexDefView> {
    let i = index_position(s, name);
    if 0 <= i < s.len() {
        Some(s[i])
    } else {
        None
    }
}

/// The position of the first store with a name; the number of stores where
/// there is none.
pub open spec fn store_position(s: Seq<StoreDefView>, name: Seq<char>) -> int
    decreases s.len(),
{
    if s.len() == 0 || s.first().name == name {
        0
    } else {
        1 + store_position(s.drop_first(), name)
    }
}

/// The store with a name, if there is one.
pub open spec fn store_named(s: Seq<StoreDefView>, name: Seq<char>) -> Option<StoreDefView> {
    let i = store_position(s, name);
    if 0 <= i < s.len() {
        Some(s[i])
    } else {
        None
    }
}

/// The stores with one in place of that of its name, or at the end.
pub open spec fn stores_with(s: Seq<StoreDefView>, def: StoreDefView) -> Seq<StoreDefView> {
    let i = store_position(s, def.name);
    if 0 <= i < s.len() {
        s.update(i, def)
    } else {
        s.push(def)
    }
}

/// The stores without that of a name.
pub open spec fn stores_without(s: Seq<StoreDefView>, name: Seq<char>) -> Seq<StoreDefView> {
    let i = store_position(s, name);
    if 0 <= i < s.len() {
        s.remove(i)
    } else {
        s
    }
}

/// The store that was put in is found under its name.
pub proof fn lemma_store_named_with(s: Seq<StoreDefView>, def: StoreDefView)
    ensures
        store_named(stores_with(s, def), def.name) == Some(def),
        forall|other: Seq<char>|
            other != def.name ==> #[trigger] store_named(stores_with(s, def), other) == store_named(
                s,
                other,
            ),
    decreases s.len(),
{
    lemma_store_position(s, def.name);
    if s.len() > 0 && s.first().name != def.name {
        let rest = s.drop_first();
        lemma_store_named_with(rest, def);
        lemma_store_position(rest, def.name);
        assert(stores_with(s, def).drop_first() =~= stores_with(rest, def));
        assert(stores_with(s, def).first() == s.first());
        assert forall|other: Seq<char>| other != def.name implies #[trigger] store_named(
            stores_with(s, def),
            other,
        ) == store_named(s, other) by {
            lemma_store_position(stores_with(s, def), other);
            lemma_store_position(s, other);
            lemma_store_position(rest, other);
            lemma_store_position(stores_with(rest, def), other);
            assert(store_named(stores_with(rest, def), other) == store_named(rest, other));
        }
        lemma_store_position(stores_with(s, def), def.name);
        lemma_store_position(stores_with(rest, def), def.name);
    } else if s.len() > 0 {
        assert(stores_with(s, def).drop_first() =~= s.drop_first());
        assert forall|other: Seq<char>| other != def.name implies #[trigger] store_named(
            stores_with(s, def),
            other,
        ) == store_named(s, other) by {
            lemma_store_position(s.drop_first(), other);
        }
    } else {
        assert(stores_with(s, def) =~= seq![def]);
        assert(seq![def].drop_first() =~= s);
    }
}

/// A position is one of a store with the name, or the end.
pub proof fn lemma_store_position(s: Seq<StoreDefView>, name: Seq<char>)
    ensures
        0 <= store_position(s, name) <= s.len(),
        store_position(s, name) < s.len() ==> s[store_position(s, name)].name == name,
    decreases s.len(),
{
    if s.len() > 0 && s.first().name != name {
        lemma_store_position(s.drop_first(), name);
    }
}

/// The store definitions of a sequence.
pub open spec fn store_defs(s: Seq<StoreDef>) -> Seq<StoreDefView> {
    s.map_values(|d: StoreDef| d@)
}

/// The schemas of all stores, in memory.
#[derive(Debug)]
pub struct Schema {
    stores: Vec<StoreDef>,
}

impl View for Schema {
    type V = Seq<StoreDefView>;

    closed spec fn view(&self) -> Seq<StoreDefView> {
        store_defs(self.stores@)
    }
}

impl Default for Schema {
    fn default() -> (r: Schema)
        ensures
            r@ == Seq::<StoreDefView>::empty(),
    {
        Schema::new()
    }
}

impl Schema {
    pub fn new() -> (r: Schema)
        ensures
            r@ == Seq::<StoreDefView>::empty(),
    {
        let s = Schema { stores: Vec::new() };
        assert(s@ =~= Seq::<StoreDefView>::empty());
        s
    }

    fn position(&self, name: &str) -> (r: usize)
        ensures
            r as int == store_position(self@, name@),
            0 <= r <= self.stores@.len(),
    {
        let ghost all = self@;
        let mut i: usize = 0;
        assert(all.subrange(0, all.len() as int) =~= all);
        while i < self.stores.len()
            invariant
                i <= self.stores.len(),
                all == self@,
                store_position(all, name@) == i + store_position(
                    all.subrange(i as int, all.len() as int),
                    name@,
                ),
            decreases self.stores.len() - i,
        {
            let ghost rest = all.subrange(i as int, all.len() as int);
            assert(rest.first() == self.stores@[i as int]@);
            assert(rest.drop_first() =~= all.subrange(i + 1, all.len() as int));
            if texts_eq(self.stores[i].name.as_str(), name) {
                return i;
            }
            i = i + 1;
        }
        i
    }

    /// The definition of a store.
    pub fn find(&self, name: &str) -> (r: Option<&StoreDef>)
        ensures
            match r {
                Some(d) => store_named(self@, name@) == Some(d@),
                None => store_named(self@, name@) is None,
            },
    {
        let i: usize = self.position(name);
        if i < self.stores.len() {
            Some(&self.stores[i])
        } else {
            None
        }
    }

    /// A copy of the definition of a store.
    pub fn get(&self, name: &str) -> (r: Option<StoreDef>)
        ensures
            match r {
                Some(d) => store_named(self@, name@) == Some(d@),
                None => store_named(self@, name@) is None,
            },
    {
        match self.find(name) {
            Some(d) => Some(d.copy()),
            None => None,
        }
    }

    /// Puts a definition in place of that of its name, or adds it.
    pub fn insert(&mut self, def: StoreDef)
        ensures
            final(self)@ == stores_with(old(self)@, def@),
    {
        let ghost before = self@;
        let ghost dv = def@;
        let i: usize = self.position(def.name.as_str());
        if i < self.stores.len() {
            self.stores.set(i, def);
            assert(self@ =~= before.update(i as int, dv));
        } else {
            self.stores.push(def);
            assert(self@ =~= before.push(dv));
        }
    }

    /// Removes the definition of a store.
    pub fn remove(&mut self, name: &str) -> (r: Option<StoreDef>)
        ensures
            final(self)@ == stores_without(old(self)@, name@),
            match r {
                Some(d) => store_named(old(self)@, name@) == Some(d@),
                None => store_named(old(self)@, name@) is None,
            },
    {
        let ghost before = self@;
        let i: usize = self.position(name);
        if i < self.stores.len() {
            let d = self.stores.remove(i);
            assert(self@ =~= before.remove(i as int));
            Some(d)
        } else {
            None
        }
    }

    /// Copies of all definitions.
    pub fn list(&self) -> (r: Vec<StoreDef>)
        ensures
            store_defs(r@) == self@,
    {
        let mut out: Vec<StoreDef> = Vec::new();
        let mut i: usize = 0;
        assert(store_defs(out@) =~= self@.subrange(0, 0));
        while i < self.stores.len()
            invariant
                i <= self.stores.len(),
                store_defs(out@) == self@.subrange(0, i as int),
            decreases self.stores.len() - i,
        {
            let ghost before = store_defs(out@);
            out.push(self.stores[i].copy());
            assert(store_defs(out@) =~= before.push(self.stores@[i as int]@));
            assert(store_defs(out@) =~= self@.subrange(0, i + 1));
            i = i + 1;
        }
        assert(self@.subrange(0, self@.len() as int) =~= self@);
        out
    }
}

/// Checks the name and the key path of a new store.
pub fn validate_store_def(name: &str, key_path: &str) -> (r: Result<()>)
    ensures
        r is Ok <==> is_name(encode_utf8(name@)) && encode_utf8(key_path@).len() > 0,
        r is Err ==> r->Err_0@ == if !is_name(encode_utf8(name@)) {
            name_error(name@)
        } else {
            FlowErrorView::JsonDb("key_path cannot be empty"@)
        },
{
    match validate_name(name) {
        Ok(_) => {},
        Err(e) => {
            return Err(e);
        },
    }
    if key_path.as_bytes().len() == 0 {
        return Err(FlowError::JsonDb(string_of("key_path cannot be empty")));
    }
    Ok(())
}

/// There is at least one path, and none is empty.
pub open spec fn paths_ok(paths: Seq<Seq<char>>) -> bool {
    paths.len() > 0 && forall|i: int|
        0 <= i < paths.len() ==> encode_utf8(#[trigger] paths[i]).len() > 0
}

/// Checks a new index of a store.
pub fn validate_index_def(store: &StoreDef, name: &str, key_paths: &[&str]) -> (r: Result<()>)
    ensures
        r is Ok <==> is_name(encode_utf8(name@)) && paths_ok(key_paths@.map_values(|s: &str| s@))
            && index_named(store@.indexes, name@) is None,
        r is Err ==> r->Err_0@ == if !is_name(encode_utf8(name@)) {
            name_error(name@)
        } else if !paths_ok(key_paths@.map_values(|s: &str| s@)) {
            FlowErrorView::JsonDb("index key_paths cannot be empty"@)
        } else {
            FlowErrorView::JsonDb(
                "index '"@ + name@ + "' already exists in store '"@ + store@.name + "'"@,
            )
        },
{
    match validate_name(name) {
        Ok(_) => {},
        Err(e) => {
            return Err(e);
        },
    }
    let ghost paths = key_paths@.map_values(|s: &str| s@);
    if key_paths.len() == 0 {
        return Err(FlowError::JsonDb(string_of("index key_paths cannot be empty")));
    }
    let mut i: usize = 0;
    while i < key_paths.len()
        invariant
            i <= key_paths.len(),
            paths == key_paths@.map_values(|s: &str| s@),
            is_name(encode_utf8(name@)),
            forall|j: int| 0 <= j < i ==> encode_utf8(#[trigger] paths[j]).len() > 0,
        decreases key_paths.len() - i,
    {
        if key_paths[i].as_bytes().len() == 0 {
            assert(encode_utf8(paths[i as int]).len() == 0);
            return Err(FlowError::JsonDb(string_of("index key_paths cannot be empty")));
        }
        assert(paths[i as int] == key_paths@[i as int]@);
        i = i + 1;
    }
    if store.find_index(name) < store.indexes.len() {
        return Err(
            FlowError::JsonDb(
                text5("index '", name, "' already exists in store '", store.name.as_str(), "'"),
            ),
        );
    }
    Ok(())
}

/// The record that deletes a store's schema.
pub fn schema_delete_record(store: &str) -> (r: InternalRecord)
    ensures
        r@ == Entry::deletion(schema_key_of(encode_utf8(store@)), 0, 0),
{
    InternalRecord::delete(schema_key(store), 0, 0)
}

/// A named field.
pub open spec fn named(name: Seq<char>, v: Json) -> (Seq<u8>, Json) {
    (encode_utf8(name), v)
}

pub open spec fn text_json(s: Seq<char>) -> Json {
    Json::Text(encode_utf8(s))
}

/// An index definition as it is stored.
pub open spec fn index_json(d: IndexDefView) -> Json {
    Json::Object(
        seq![
            named("key_paths"@, Json::Array(d.key_paths.map_values(|p: Seq<char>| text_json(p)))),
            named("multi_entry"@, Json::Bool(d.multi_entry)),
            named("name"@, text_json(d.name)),
            named("unique"@, Json::Bool(d.unique)),
        ],
    )
}

/// A store definition as it is stored.
pub open spec fn store_json(d: StoreDefView) -> Json {
    Json::Object(
        seq![
            named("auto_increment"@, Json::Bool(d.auto_increment)),
            named(
                "indexes"@,
                Json::Array(d.indexes.map_values(|i: IndexDefView| index_json(i))),
            ),
            named("key_path"@, text_json(d.key_path)),
            named("name"@, text_json(d.name)),
            named("next_auto_id"@, Json::Number(NumberView::PosInt(d.next_auto_id))),
        ],
    )
}

fn field(name: &str, value: JsonValue) -> (r: Field)
    ensures
        (encode_utf8(r.name@), r.value@) == named(name@, value@),
{
    Field { name: string_of(name), value }
}

impl IndexDef {
    /// The definition as a JSON value.
    pub fn to_json(&self) -> (r: JsonValue)
        ensures
            r@ == index_json(self@),
    {
        let ghost want = self@.key_paths.map_values(|p: Seq<char>| text_json(p));
        let mut paths: Vec<JsonValue> = Vec::new();
        let mut i: usize = 0;
        assert(json_seq(paths@) =~= want.subrange(0, 0));
        while i < self.key_paths.len()
            invariant
                i <= self.key_paths.len(),
                want == self@.key_paths.map_values(|p: Seq<char>| text_json(p)),
                json_seq(paths@) == want.subrange(0, i as int),
            decreases self.key_paths.len() - i,
        {
            let ghost before = json_seq(paths@);
            let v = JsonValue::String(self.key_paths[i].clone());
            let ghost j = v@;
            paths.push(v);
            assert(json_seq(paths@) =~= before.push(j));
            assert(json_seq(paths@) =~= want.subrange(0, i + 1));
            i = i + 1;
        }
        assert(want.subrange(0, want.len() as int) =~= want);
        let mut fs: Vec<Field> = Vec::new();
        proof {
            lemma_array_view(paths);
        }
        fs.push(field("key_paths", JsonValue::Array(paths)));
        fs.push(field("multi_entry", JsonValue::Bool(self.multi_entry)));
        fs.push(field("name", JsonValue::String(self.name.clone())));
        fs.push(field("unique", JsonValue::Bool(self.unique)));
        proof {
            lemma_object_view(fs);
            assert(field_seq(fs@) =~= index_json(self@)->Object_0);
        }
        JsonValue::Object(fs)
    }
}

impl StoreDef {
    /// The definition as a JSON value.
    pub fn to_json(&self) -> (r: JsonValue)
        ensures
            r@ == store_json(self@),
    {
        let ghost want = self@.indexes.map_values(|d: IndexDefView| index_json(d));
        let mut list: Vec<JsonValue> = Vec::new();
        let mut i: usize = 0;
        assert(json_seq(list@) =~= want.subrange(0, 0));
        while i < self.indexes.len()
            invariant
                i <= self.indexes.len(),
                want == self@.indexes.map_values(|d: IndexDefView| index_json(d)),
                json_seq(list@) == want.subrange(0, i as int),
            decreases self.indexes.len() - i,
        {
            let ghost before = json_seq(list@);
            let v = self.indexes[i].to_json();
            let ghost j = v@;
            list.push(v);
            assert(json_seq(list@) =~= before.push(j));
            assert(json_seq(list@) =~= want.subrange(0, i + 1));
            i = i + 1;
        }
        assert(want.subrange(0, want.len() as int) =~= want);
        let mut fs: Vec<Field> = Vec::new();
        proof {
            lemma_array_view(list);
        }
        fs.push(field("auto_increment", JsonValue::Bool(self.auto_increment)));
        fs.push(field("indexes", JsonValue::Array(list)));
        fs.push(field("key_path", JsonValue::String(self.key_path.clone())));
        fs.push(field("name", JsonValue::String(self.name.clone())));
        fs.push(field("next_auto_id", JsonValue::Number(JsonNumber::PosInt(self.next_auto_id))));
        proof {
            lemma_object_view(fs);
            assert(field_seq(fs@) =~= store_json(self@)->Object_0);
        }
        JsonValue::Object(fs)
    }
}

/// The field of an object; nothing where the value is no object.
pub open spec fn member(j: Json, name: Seq<char>) -> Option<Json> {
    match j {
        Json::Object(fs) => field_named(fs, encode_utf8(name)),
        _ => None,
    }
}

pub open spec fn bad_index() -> FlowErrorView {
    FlowErrorView::Json("invalid index definition"@)
}

pub open spec fn bad_store() -> FlowErrorView {
    FlowErrorView::Json("invalid store definition"@)
}

/// A flag that may be left out or null.
pub open spec fn flag(j: Option<Json>) -> Option<bool> {
    match j {
        None => Some(false),
        Some(Json::Null) => Some(false),
        Some(Json::Bool(b)) => Some(b),
        Some(_) => None,
    }
}

/// The texts among the values of a list.
pub open spec fn texts_in(a: Seq<Json>) -> Seq<Seq<char>>
    decreases a.len(),
{
    if a.len() == 0 {
        Seq::empty()
    } else {
        match a.last() {
            Json::Text(s) => texts_in(a.drop_last()).push(decode_utf8(s)),
            _ => texts_in(a.drop_last()),
        }
    }
}

/// The paths that an index definition gives: one path, or a list of them. An
/// older form calls the list `key_path`.
pub open spec fn stored_paths(j: Json) -> core::result::Result<Seq<Seq<char>>, FlowErrorView> {
    match (member(j, "key_path"@), member(j, "key_paths"@)) {
        (Some(v), None) => paths_in(v),
        (None, Some(v)) => paths_in(v),
        _ => Err(bad_index()),
    }
}

pub open spec fn paths_in(v: Json) -> core::result::Result<Seq<Seq<char>>, FlowErrorView> {
    match v {
        Json::Text(s) => Ok(seq![decode_utf8(s)]),
        Json::Array(a) => if texts_in(a).len() == 0 {
            Err(FlowErrorView::Json("key_paths must not be empty"@))
        } else {
            Ok(texts_in(a))
        },
        _ => Err(FlowErrorView::Json("key_paths must be a string or array of strings"@)),
    }
}

/// The index definition that a value stands for.
pub open spec fn parsed_index(j: Json) -> core::result::Result<IndexDefView, FlowErrorView> {
    match (member(j, "name"@), flag(member(j, "unique"@)), flag(member(j, "multi_entry"@))) {
        (Some(Json::Text(name)), Some(unique), Some(multi_entry)) => match stored_paths(j) {
            Ok(key_paths) => Ok(
                IndexDefView { key_paths, name: decode_utf8(name), unique, multi_entry },
            ),
            Err(e) => Err(e),
        },
        _ => Err(bad_index()),
    }
}

/// The index definitions that the first `n` values of a list stand for.
pub open spec fn parsed_indexes(a: Seq<Json>, n: nat) -> core::result::Result<
    Seq<IndexDefView>,
    FlowErrorView,
>
    decreases n,
{
    if n == 0 || n > a.len() {
        Ok(Seq::empty())
    } else {
        match parsed_indexes(a, (n - 1) as nat) {
            Err(e) => Err(e),
            Ok(s) => match parsed_index(a[n - 1]) {
                Ok(d) => Ok(s.push(d)),
                Err(e) => Err(e),
            },
        }
    }
}

/// The store definition that a value stands for.
pub open spec fn parsed_store(j: Json) -> core::result::Result<StoreDefView, FlowErrorView> {
    match (
        member(j, "name"@),
        member(j, "key_path"@),
        member(j, "auto_increment"@),
        member(j, "indexes"@),
        member(j, "next_auto_id"@),
    ) {
        (
            Some(Json::Text(name)),
            Some(Json::Text(key_path)),
            Some(Json::Bool(auto_increment)),
            Some(Json::Array(list)),
            Some(Json::Number(NumberView::PosInt(next_auto_id))),
        ) => match parsed_indexes(list, list.len()) {
            Ok(indexes) => Ok(
                StoreDefView {
                    name: decode_utf8(name),
                    key_path: decode_utf8(key_path),
                    auto_increment,
                    indexes,
                    next_auto_id,
                },
            ),
            Err(e) => Err(e),
        },
        _ => Err(bad_store()),
    }
}

/// Finds the member of an object.
fn get_member<'a>(j: &'a JsonValue, name: &str) -> (r: Option<&'a JsonValue>)
    ensures
        match r {
            Some(v) => member(j@, name@) == Some(v@),
            None => member(j@, name@) is None,
        },
{
    match j {
        JsonValue::Object(fs) => {
            proof {
                lemma_object_view(*fs);
            }
            let ghost all = field_seq(fs@);
            let mut i: usize = 0;
            assert(all.subrange(0, all.len() as int) =~= all);
            while i < fs.len()
                invariant
                    i <= fs.len(),
                    j@ == Json::Object(all),
                    all == field_seq(fs@),
                    field_named(all, encode_utf8(name@)) == field_named(
                        all.subrange(i as int, all.len() as int),
                        encode_utf8(name@),
                    ),
                decreases fs.len() - i,
            {
                let ghost rest = all.subrange(i as int, all.len() as int);
                assert(rest.first() == (encode_utf8(fs@[i as int].name@), fs@[i as int].value@));
                assert(rest.drop_first() =~= all.subrange(i + 1, all.len() as int));
                if bytes_eq(fs[i].name.as_str().as_bytes(), name.as_bytes()) {
                    return Some(&fs[i].value);
                }
                i = i + 1;
            }
            None
        },
        _ => None,
    }
}

fn read_flag(j: Option<&JsonValue>) -> (r: Option<bool>)
    ensures
        r == flag(
            match j {
                Some(v) => Some(v@),
                None => None,
            },
        ),
{
    match j {
        None => Some(false),
        Some(v) => match v {
            JsonValue::Null => Some(false),
            JsonValue::Bool(b) => Some(*b),
            _ => None,
        },
    }
}

fn read_paths(v: &JsonValue) -> (r: Result<Vec<String>>)
    ensures
        r is Ok <==> paths_in(v@) is Ok,
        match r {
            Ok(p) => texts(p@) == paths_in(v@)->Ok_0,
            Err(e) => e@ == paths_in(v@)->Err_0,
        },
{
    let mut out: Vec<String> = Vec::new();
    match v {
        JsonValue::String(s) => {
            proof {
                encode_utf8_decode_utf8(s@);
            }
            out.push(s.clone());
            assert(texts(out@) =~= seq![s@]);
            Ok(out)
        },
        JsonValue::Array(a) => {
            proof {
                lemma_array_view(*a);
            }
            let ghost all = json_seq(a@);
            let mut i: usize = 0;
            assert(all.subrange(0, 0) =~= Seq::<Json>::empty());
            assert(texts(out@) =~= Seq::<Seq<char>>::empty());
            while i < a.len()
                invariant
                    i <= a.len(),
                    all == json_seq(a@),
                    texts(out@) == texts_in(all.subrange(0, i as int)),
                decreases a.len() - i,
            {
                let ghost before = texts(out@);
                proof {
                    assert(all.subrange(0, i + 1).drop_last() =~= all.subrange(0, i as int));
                    assert(all.subrange(0, i + 1).last() == a@[i as int]@);
                }
                if let JsonValue::String(s) = &a[i] {
                    proof {
                        encode_utf8_decode_utf8(s@);
                    }
                    out.push(s.clone());
                    assert(texts(out@) =~= before.push(s@));
                }
                i = i + 1;
            }
            assert(all.subrange(0, all.len() as int) =~= all);
            assert(texts(out@).len() == out@.len());
            if out.len() == 0 {
                return Err(FlowError::Json(string_of("key_paths must not be empty")));
            }
            Ok(out)
        },
        _ => Err(FlowError::Json(string_of("key_paths must be a string or array of strings"))),
    }
}

impl IndexDef {
    /// Reads a definition. Accepts one path under `key_path`, or a list of
    /// paths under `key_paths` or `key_path`.
    pub fn from_json(j: &JsonValue) -> (r: Result<IndexDef>)
        ensures
            r is Ok <==> parsed_index(j@) is Ok,
            match r {
                Ok(d) => d@ == parsed_index(j@)->Ok_0,
                Err(e) => e@ == parsed_index(j@)->Err_0,
            },
    {
        let unique = read_flag(get_member(j, "unique"));
        let multi_entry = read_flag(get_member(j, "multi_entry"));
        let one = get_member(j, "key_path");
        let many = get_member(j, "key_paths");
        if let Some(JsonValue::String(name)) = get_member(j, "name") {
            if let (Some(unique), Some(multi_entry)) = (unique, multi_entry) {
                let paths = match (one, many) {
                    (Some(v), None) => read_paths(v),
                    (None, Some(v)) => read_paths(v),
                    _ => Err(FlowError::Json(string_of("invalid index definition"))),
                };
                proof {
                    encode_utf8_decode_utf8(name@);
                }
                return match paths {
                    Ok(key_paths) => Ok(
                        IndexDef { key_paths, name: name.clone(), unique, multi_entry },
                    ),
                    Err(e) => Err(e),
                };
            }
        }
        Err(FlowError::Json(string_of("invalid index definition")))
    }
}

impl StoreDef {
    /// Reads a definition.
    pub fn from_json(j: &JsonValue) -> (r: Result<StoreDef>)
        ensures
            r is Ok <==> parsed_store(j@) is Ok,
            match r {
                Ok(d) => d@ == parsed_store(j@)->Ok_0,
                Err(e) => e@ == parsed_store(j@)->Err_0,
            },
    {
        match (
            get_member(j, "name"),
            get_member(j, "key_path"),
            get_member(j, "auto_increment"),
            get_member(j, "indexes"),
            get_member(j, "next_auto_id"),
        ) {
            (
                Some(JsonValue::String(name)),
                Some(JsonValue::String(key_path)),
                Some(JsonValue::Bool(auto_increment)),
                Some(JsonValue::Array(list)),
                Some(JsonValue::Number(JsonNumber::PosInt(next_auto_id))),
            ) => {
                proof {
                    lemma_array_view(*list);
                    encode_utf8_decode_utf8(name@);
                    encode_utf8_decode_utf8(key_path@);
                }
                let ghost all = json_seq(list@);
                let mut indexes: Vec<IndexDef> = Vec::new();
                let mut i: usize = 0;
                assert(index_defs(indexes@) =~= Seq::<IndexDefView>::empty());
                while i < list.len()
                    invariant
                        i <= list.len(),
                        all == json_seq(list@),
                        parsed_indexes(all, i as nat) == Ok::<Seq<IndexDefView>, FlowErrorView>(
                            index_defs(indexes@),
                        ),
                        parsed_store(j@) == match parsed_indexes(all, all.len()) {
                            Ok(ix) => Ok::<StoreDefView, FlowErrorView>(
                                StoreDefView {
                                    name: name@,
                                    key_path: key_path@,
                                    auto_increment: *auto_increment,
                                    indexes: ix,
                                    next_auto_id: *next_auto_id,
                                },
                            ),
                            Err(e) => Err::<StoreDefView, FlowErrorView>(e),
                        },
                    decreases list.len() - i,
                {
                    let ghost before = index_defs(indexes@);
                    assert(all[i as int] == list@[i as int]@);
                    match IndexDef::from_json(&list[i]) {
                        Ok(d) => {
                            let ghost dv = d@;
                            indexes.push(d);
                            assert(index_defs(indexes@) =~= before.push(dv));
                        },
                        Err(e) => {
                            proof {
                                lemma_bad_index(all, i as nat, all.len());
                            }
                            return Err(e);
                        },
                    }
                    i = i + 1;
                }
                Ok(
                    StoreDef {
                        name: name.clone(),
                        key_path: key_path.clone(),
                        auto_increment: *auto_increment,
                        indexes,
                        next_auto_id: *next_auto_id,
                    },
                )
            },
            _ => Err(FlowError::Json(string_of("invalid store definition"))),
        }
    }
}

/// The first index that is none decides.
proof fn lemma_bad_index(a: Seq<Json>, k: nat, n: nat)
    requires
        k < n <= a.len(),
        parsed_indexes(a, k) is Ok,
        parsed_index(a[k as int]) is Err,
    ensures
        parsed_indexes(a, n) is Err,
        parsed_indexes(a, n)->Err_0 == parsed_index(a[k as int])->Err_0,
    decreases n,
{
    if n > k + 1 {
        lemma_bad_index(a, k, (n - 1) as nat);
    }
}

/// The record that stores a definition.
pub open spec fn schema_put(d: StoreDefView) -> core::result::Result<RecordView, FlowErrorView> {
    match encoded_doc(store_json(d)) {
        Ok(bytes) => Ok(
            RecordView {
                key: schema_key_of(encode_utf8(d.name)),
                ts: 0,
                expire_at: i64::MAX,
                value: bytes,
            },
        ),
        Err(e) => Err(e),
    }
}

/// The definition that a stored record holds.
pub open spec fn schema_in(value: Seq<u8>) -> core::result::Result<StoreDefView, FlowErrorView> {
    match decoded_doc(value) {
        Ok(j) => parsed_store(j),
        Err(e) => Err(e),
    }
}

/// Serializes a definition to a put record for its store.
pub fn schema_record(def: &StoreDef) -> (r: Result<Record>)
    ensures
        r is Ok <==> schema_put(def@) is Ok,
        match r {
            Ok(rec) => rec@ == schema_put(def@)->Ok_0,
            Err(e) => e@ == schema_put(def@)->Err_0,
        },
{
    let j = def.to_json();
    match encode_doc(&j) {
        Ok(bytes) => Ok(Record::new(schema_key(def.name.as_str()), 0, bytes)),
        Err(e) => Err(e),
    }
}

/// The stores that a list of stored definitions adds up to.
pub open spec fn loaded(records: Seq<RecordView>) -> core::result::Result<
    Seq<StoreDefView>,
    FlowErrorView,
>
    decreases records.len(),
{
    if records.len() == 0 {
        Ok(Seq::empty())
    } else {
        match loaded(records.drop_last()) {
            Err(e) => Err(e),
            Ok(s) => match schema_in(records.last().value) {
                Ok(d) => Ok(stores_with(s, d)),
                Err(e) => Err(e),
            },
        }
    }
}

/// Loads the schemas from their records.
pub fn load_schemas(records: &Vec<Record>) -> (r: Result<Schema>)
    ensures
        r is Ok <==> loaded(records_of(records@)) is Ok,
        match r {
            Ok(s) => s@ == loaded(records_of(records@))->Ok_0,
            Err(e) => e@ == loaded(records_of(records@))->Err_0,
        },
{
    let ghost all = records_of(records@);
    let mut schema = Schema::new();
    let mut i: usize = 0;
    assert(all.subrange(0, 0) =~= Seq::<RecordView>::empty());
    while i < records.len()
        invariant
            i <= records.len(),
            all == records_of(records@),
            loaded(all.subrange(0, i as int)) == Ok::<Seq<StoreDefView>, FlowErrorView>(schema@),
        decreases records.len() - i,
    {
        proof {
            assert(all.subrange(0, i + 1).drop_last() =~= all.subrange(0, i as int));
            assert(all.subrange(0, i + 1).last() == records@[i as int]@);
        }
        let parsed = match decode_doc(&records[i].value) {
            Ok(j) => StoreDef::from_json(&j),
            Err(e) => Err(e),
        };
        match parsed {
            Ok(def) => {
                schema.insert(def);
            },
            Err(e) => {
                proof {
                    lemma_bad_schema(all, i as int);
                }
                return Err(e);
            },
        }
        i = i + 1;
    }
    assert(all.subrange(0, all.len() as int) =~= all);
    Ok(schema)
}

/// The first record that holds no definition decides.
proof fn lemma_bad_schema(records: Seq<RecordView>, i: int)
    requires
        0 <= i < records.len(),
        loaded(records.subrange(0, i)) is Ok,
        schema_in(records[i].value) is Err,
    ensures
        loaded(records) is Err,
        loaded(records)->Err_0 == schema_in(records[i].value)->Err_0,
    decreases records.len(),
{
    if i == records.len() - 1 {
        assert(records.drop_last() =~= records.subrange(0, i));
    } else {
        let t = records.drop_last();
        assert(t.subrange(0, i) =~= records.subrange(0, i));
        assert(t[i] == records[i]);
        lemma_bad_schema(t, i);
    }
}

} // verus!
