//! What is there, and what is not, once stores and indexes were created,
//! deleted and cleared.

use vstd::prelude::*;
use vstd::utf8::encode_utf8;

use crate::bytes::has_prefix;
use crate::engine_laws::last_for;
use crate::error::FlowErrorView;
use crate::jsondb::apply::{conflicts, first_conflict};
use crate::jsondb::apply_laws::{
    law_apply_keeps_sound, law_applying_schemas_keeps_sound, law_create_store_keeps_sound,
    lemma_create_missing, lemma_delete_extra, lemma_redefined, same_documents,
};
use crate::jsondb::db::{content_deletions, DbView};
use crate::jsondb::definition_laws::{
    lemma_content_deletions, lemma_delete_store_batch, lemma_document_prefix, under_some,
};
use crate::jsondb::document_laws::{
    lemma_committed_points, lemma_index_position, lemma_same_bytes, lemma_store_names,
};
use crate::jsondb::encoding::{doc_key_of, doc_prefix_of, idx_prefix_of, is_name};
use crate::jsondb::helpers::{records_under, stored_doc};
use crate::jsondb::key_laws::law_document_keys_differ;
use crate::jsondb::listing_laws::law_listing_gives_the_documents_in_range;
use crate::jsondb::query_laws::{lemma_docs_in, lemma_store_is_readable};
use crate::jsondb::schema::{
    index_named, index_position, lemma_store_named_with, lemma_store_position, store_named,
    store_position, stores_without, IndexDefView, StoreDefView,
};

verus! {

/// A store that was created is there with its key path, without an index where
/// it is new, and all other stores are as they were.
pub proof fn law_created_store_is_there(db: DbView, name: Seq<char>, key_path: Seq<char>)
    requires
        db.create_store(name, key_path).1 is None,
    ensures
        ({
            let after = db.create_store(name, key_path).0;
            &&& after.store(name) is Some
            &&& after.store(name)->0.key_path == key_path
            &&& db.store(name) is None ==> after.store(name)->0.name == name && after.store(
                name,
            )->0.indexes.len() == 0 && !after.store(name)->0.auto_increment
            &&& db.store(name) is Some ==> after == db
            &&& forall|other: Seq<char>|
                other != name ==> #[trigger] after.store(other) == db.store(other)
        }),
{
    if db.store(name) is None {
        let def = StoreDefView {
            name,
            key_path,
            auto_increment: false,
            indexes: Seq::empty(),
            next_auto_id: 0,
        };
        lemma_store_named_with(db.schema, def);
    }
}

/// A store is not created under a name that is no name, without a key path, or
/// where one of its name has another key path; what is refused changes nothing.
pub proof fn law_store_is_refused(db: DbView, name: Seq<char>, key_path: Seq<char>)
    ensures
        !is_name(encode_utf8(name)) ==> db.create_store(name, key_path).1 is Some,
        encode_utf8(key_path).len() == 0 ==> db.create_store(name, key_path).1 is Some,
        db.store(name) is Some && db.store(name)->0.key_path != key_path ==> db.create_store(
            name,
            key_path,
        ).1 is Some,
        db.create_store(name, key_path).1 is Some ==> db.create_store(name, key_path).0 == db,
        is_name(encode_utf8(name)) && encode_utf8(key_path).len() > 0 && db.store(name) is Some
            && db.store(name)->0.key_path == key_path ==> db.create_store(name, key_path).1 is None,
{
}

/// The bytes of names: letters and digits of ASCII, `_` and `-`.
pub proof fn law_names_are_made_of(s: Seq<u8>)
    ensures
        is_name(s) <==> s.len() > 0 && forall|i: int|
            0 <= i < s.len() ==> 0x30 <= (#[trigger] s[i]) <= 0x39 || 0x41 <= s[i] <= 0x5a || 0x61
                <= s[i] <= 0x7a || s[i] == 0x5f || s[i] == 0x2d,
{
}

/// The first index with a name is the one that the name stands for.
proof fn lemma_first_index(s: Seq<IndexDefView>, name: Seq<char>, i: int)
    requires
        0 <= i < s.len(),
        s[i].name == name,
        forall|j: int| 0 <= j < i ==> (#[trigger] s[j]).name != name,
    ensures
        index_position(s, name) == i,
    decreases s.len(),
{
    if i > 0 {
        let t = s.drop_first();
        assert(s[0].name != name);
        assert forall|j: int| 0 <= j < i - 1 implies (#[trigger] t[j]).name != name by {
            assert(t[j] == s[j + 1]);
        }
        lemma_first_index(t, name, i - 1);
    }
}

/// No index with a name is found exactly where none has it.
proof fn lemma_no_index(s: Seq<IndexDefView>, name: Seq<char>)
    requires
        forall|j: int| 0 <= j < s.len() ==> (#[trigger] s[j]).name != name,
    ensures
        index_named(s, name) is None,
{
    lemma_index_position(s, name);
}

/// The indexes with one more at the end.
proof fn lemma_index_added(s: Seq<IndexDefView>, d: IndexDefView, name: Seq<char>)
    ensures
        index_named(s.push(d), name) == match index_named(s, name) {
            Some(x) => Some(x),
            None => if name == d.name {
                Some(d)
            } else {
                None
            },
        },
{
    let t = s.push(d);
    lemma_index_position(s, name);
    lemma_index_position(t, name);
    let i = index_position(s, name);
    if i < s.len() {
        assert forall|j: int| 0 <= j < i implies (#[trigger] t[j]).name != name by {
            lemma_before_first(s, name, j);
        }
        lemma_first_index(t, name, i);
    } else if name == d.name {
        assert forall|j: int| 0 <= j < s.len() implies (#[trigger] t[j]).name != name by {
            assert(t[j] == s[j]);
        }
        lemma_first_index(t, name, s.len() as int);
    } else {
        assert forall|j: int| 0 <= j < t.len() implies (#[trigger] t[j]).name != name by {
            if j < s.len() {
                assert(t[j] == s[j]);
            }
        }
        lemma_no_index(t, name);
    }
}

/// No index before the first with a name has the name.
proof fn lemma_before_first(s: Seq<IndexDefView>, name: Seq<char>, j: int)
    requires
        0 <= j < index_position(s, name),
        j < s.len(),
    ensures
        s[j].name != name,
    decreases s.len(),
{
    if j > 0 {
        lemma_before_first(s.drop_first(), name, j - 1);
    }
}

/// The indexes without one.
proof fn lemma_index_removed(s: Seq<IndexDefView>, i: int, name: Seq<char>)
    requires
        0 <= i < s.len(),
        forall|a: int, b: int|
            0 <= a < b < s.len() ==> (#[trigger] s[a]).name != (#[trigger] s[b]).name,
    ensures
        index_named(s.remove(i), name) == if name == s[i].name {
            None
        } else {
            index_named(s, name)
        },
{
    let t = s.remove(i);
    lemma_index_position(s, name);
    lemma_index_position(t, name);
    let k = index_position(s, name);
    if name == s[i].name {
        assert forall|j: int| 0 <= j < t.len() implies (#[trigger] t[j]).name != name by {
            if j < i {
                assert(t[j] == s[j]);
            } else {
                assert(t[j] == s[j + 1]);
            }
        }
        lemma_no_index(t, name);
    } else if k < s.len() {
        let at = if k < i {
            k
        } else {
            k - 1
        };
        assert(t[at] == s[k]);
        assert forall|j: int| 0 <= j < at implies (#[trigger] t[j]).name != name by {
            if j < i {
                assert(t[j] == s[j]);
            } else {
                assert(t[j] == s[j + 1]);
            }
        }
        lemma_first_index(t, name, at);
    } else {
        assert forall|j: int| 0 <= j < t.len() implies (#[trigger] t[j]).name != name by {
            if j < i {
                assert(t[j] == s[j]);
            } else {
                assert(t[j] == s[j + 1]);
            }
        }
        lemma_no_index(t, name);
    }
}

/// An index that was created is there as it was asked for, and all other indexes
/// and stores are as they were.
pub proof fn law_created_index_is_there(db: DbView, store: Seq<char>, index: IndexDefView)
    requires
        db.names_valid(),
        db.create_idx(store, index).1 is None,
    ensures
        ({
            let after = db.create_idx(store, index).0;
            &&& after.index(store, index.name) == Ok::<IndexDefView, FlowErrorView>(index)
            &&& db.index(store, index.name) is Err
            &&& forall|name: Seq<char>|
                name != index.name ==> #[trigger] after.index(store, name) == db.index(store, name)
            &&& forall|other: Seq<char>|
                other != store ==> #[trigger] after.store(other) == db.store(other)
            &&& after.store(store) is Some
            &&& after.store(store)->0.key_path == db.store(store)->0.key_path
            &&& after.store(store)->0.auto_increment == db.store(store)->0.auto_increment
        }),
{
    let def = db.store(store)->0;
    let more = StoreDefView { indexes: def.indexes.push(index), ..def };
    lemma_store_names(db, store);
    lemma_store_named_with(db.schema, more);
    let after = db.create_idx(store, index).0;
    assert(after.store(store) == Some(more));
    assert forall|name: Seq<char>| index_named(more.indexes, name) == if name == index.name {
        Some(index)
    } else {
        #[trigger] index_named(def.indexes, name)
    } by {
        lemma_index_added(def.indexes, index, name);
    }
    assert(index_named(def.indexes, index.name) is None);
    assert forall|name: Seq<char>| name != index.name implies #[trigger] after.index(store, name)
        == db.index(store, name) by {
        assert(index_named(more.indexes, name) == index_named(def.indexes, name));
    }
}

/// An index that was deleted is not there any more, and all other indexes and
/// stores are as they were. One that is not there cannot be deleted.
pub proof fn law_deleted_index_is_gone(db: DbView, store: Seq<char>, name: Seq<char>)
    requires
        db.names_valid(),
    ensures
        db.index(store, name) is Err ==> db.delete_idx(store, name).1 is Some,
        db.delete_idx(store, name).1 is None ==> {
            let after = db.delete_idx(store, name).0;
            &&& after.index(store, name) is Err
            &&& forall|other: Seq<char>|
                other != name ==> #[trigger] after.index(store, other) == db.index(store, other)
            &&& forall|other: Seq<char>|
                other != store ==> #[trigger] after.store(other) == db.store(other)
            &&& after.store(store) is Some
            &&& after.store(store)->0.key_path == db.store(store)->0.key_path
            &&& after.store(store)->0.auto_increment == db.store(store)->0.auto_increment
        },
{
    if db.delete_idx(store, name).1 is None {
        let def = db.store(store)->0;
        let i = index_position(def.indexes, name);
        let less = StoreDefView { indexes: def.indexes.remove(i), ..def };
        lemma_store_names(db, store);
        lemma_index_position(def.indexes, name);
        lemma_store_named_with(db.schema, less);
        let after = db.delete_idx(store, name).0;
        assert(after.store(store) == Some(less));
        lemma_index_removed(def.indexes, i, name);
        assert forall|other: Seq<char>| other != name implies #[trigger] after.index(store, other)
            == db.index(store, other) by {
            lemma_index_removed(def.indexes, i, other);
        }
    }
}

/// The indexes of a store once missing ones were created: those that were there,
/// and the wanted ones.
proof fn lemma_missing_created(
    db: DbView,
    store: Seq<char>,
    have: Seq<IndexDefView>,
    want: Seq<IndexDefView>,
    n: nat,
    name: Seq<char>,
)
    requires
        db.sound(),
        db.store(store) is Some,
        n <= want.len(),
        have == db.store(store)->0.indexes,
        db.create_missing(store, have, want, n).1 is None,
    ensures
        ({
            let v = db.create_missing(store, have, want, n).0;
            &&& v.sound()
            &&& v.store(store) is Some
            &&& v.store(store)->0.key_path == db.store(store)->0.key_path
            &&& v.store(store)->0.auto_increment == db.store(store)->0.auto_increment
            &&& index_named(v.store(store)->0.indexes, name) == match index_named(have, name) {
                Some(d) => Some(d),
                None => index_named(want.take(n as int), name),
            }
            &&& name != store ==> v.store(name) == db.store(name)
        }),
    decreases n,
{
    lemma_create_missing(db, store, have, want, n);
    if n == 0 {
        assert(want.take(0) =~= Seq::<IndexDefView>::empty());
        lemma_no_index(want.take(0), name);
    } else {
        let d = want[n - 1];
        let before = db.create_missing(store, have, want, (n - 1) as nat).0;
        lemma_missing_created(db, store, have, want, (n - 1) as nat, name);
        lemma_create_missing(db, store, have, want, (n - 1) as nat);
        assert(want.take(n as int) =~= want.take(n - 1).push(d));
        lemma_index_added(want.take(n - 1), d, name);
        if index_named(have, d.name) is None {
            law_created_index_is_there(before, store, d);
            let after = before.create_idx(store, d).0;
            if name == d.name {
                assert(after.index(store, name) == Ok::<IndexDefView, FlowErrorView>(d));
            } else {
                assert(after.index(store, name) == before.index(store, name));
            }
            if name != store {
                assert(after.store(name) == before.store(name));
            }
        }
    }
}

/// The indexes of a store once those were deleted that are not wanted.
proof fn lemma_extra_deleted(
    db: DbView,
    store: Seq<char>,
    have: Seq<IndexDefView>,
    want: Seq<IndexDefView>,
    n: nat,
    name: Seq<char>,
)
    requires
        db.sound(),
        db.store(store) is Some,
        n <= have.len(),
        db.delete_extra(store, have, want, n).1 is None,
    ensures
        ({
            let v = db.delete_extra(store, have, want, n).0;
            &&& v.sound()
            &&& v.store(store) is Some
            &&& v.store(store)->0.key_path == db.store(store)->0.key_path
            &&& v.store(store)->0.auto_increment == db.store(store)->0.auto_increment
            &&& index_named(v.store(store)->0.indexes, name) == if index_named(
                have.take(n as int),
                name,
            ) is Some && index_named(want, name) is None {
                None
            } else {
                index_named(db.store(store)->0.indexes, name)
            }
            &&& name != store ==> v.store(name) == db.store(name)
        }),
    decreases n,
{
    lemma_delete_extra(db, store, have, want, n);
    if n == 0 {
        assert(have.take(0) =~= Seq::<IndexDefView>::empty());
        lemma_no_index(have.take(0), name);
    } else {
        let d = have[n - 1];
        let before = db.delete_extra(store, have, want, (n - 1) as nat).0;
        lemma_extra_deleted(db, store, have, want, (n - 1) as nat, name);
        lemma_delete_extra(db, store, have, want, (n - 1) as nat);
        assert(have.take(n as int) =~= have.take(n - 1).push(d));
        lemma_index_added(have.take(n - 1), d, name);
        if index_named(want, d.name) is None {
            law_deleted_index_is_gone(before, store, d.name);
            let after = before.delete_idx(store, d.name).0;
            if name == d.name {
                assert(after.index(store, name) is Err);
            } else {
                assert(after.index(store, name) == before.index(store, name));
            }
            if name != store {
                assert(after.store(name) == before.store(name));
            }
        }
    }
}

/// Where no wanted index conflicts, none does that a name stands for.
proof fn lemma_no_conflict(have: Seq<IndexDefView>, want: Seq<IndexDefView>, from: int, i: int)
    requires
        0 <= from <= i < want.len(),
        first_conflict(have, want, from) >= want.len(),
    ensures
        !conflicts(have, want[i]),
    decreases want.len() - from,
{
    if from < i {
        lemma_no_conflict(have, want, from + 1, i);
    }
}

/// A store that was brought in line with a definition has its key path and
/// exactly its indexes, each with the fields and the uniqueness of the
/// definition; all other stores, and all documents, are as they were.
pub proof fn law_applied_definition_is_there(db: DbView, def: StoreDefView, name: Seq<char>)
    requires
        db.sound(),
        db.apply(def).1 is None,
    ensures
        ({
            let after = db.apply(def).0;
            let there = index_named(after.store(def.name)->0.indexes, name);
            let wanted = index_named(def.indexes, name);
            &&& after.store(def.name) is Some
            &&& after.store(def.name)->0.key_path == def.key_path
            &&& there is Some <==> wanted is Some
            &&& there is Some ==> there->0.key_paths == wanted->0.key_paths && there->0.unique
                == wanted->0.unique
            &&& there is Some && db.store(def.name) is None ==> there == wanted
            &&& db.store(def.name) is None ==> after.store(def.name)->0.auto_increment
                == def.auto_increment
            &&& db.store(def.name) is Some ==> after.store(def.name)->0.auto_increment == db.store(
                def.name,
            )->0.auto_increment
            &&& name != def.name ==> after.store(name) == db.store(name)
            &&& same_documents(after, db)
        }),
{
    law_apply_keeps_sound(db, def);
    let want = def.indexes;
    assert(want.take(want.len() as int) =~= want);
    match db.store(def.name) {
        None => {
            let bare = StoreDefView {
                name: def.name,
                key_path: def.key_path,
                auto_increment: false,
                indexes: Seq::empty(),
                next_auto_id: 0,
            };
            let v = db.create_store(def.name, def.key_path).0;
            law_create_store_keeps_sound(db, def.name, def.key_path);
            lemma_store_named_with(db.schema, bare);
            assert(v.store(def.name) == Some(bare));
            let auto = StoreDefView { auto_increment: true, ..bare };
            lemma_redefined(v, bare, auto);
            lemma_store_named_with(v.schema, auto);
            let w = db.create_as(def).0;
            assert(w.store(def.name)->0.indexes =~= Seq::<IndexDefView>::empty());
            lemma_no_index(Seq::<IndexDefView>::empty(), name);
            lemma_missing_created(w, def.name, Seq::empty(), want, want.len(), name);
            if name != def.name {
                assert(v.store(name) == db.store(name));
                assert(w.store(name) == v.store(name));
            }
        },
        Some(there) => {
            let have = there.indexes;
            lemma_missing_created(db, def.name, have, want, want.len(), name);
            let v = db.create_missing(def.name, have, want, want.len()).0;
            lemma_extra_deleted(v, def.name, have, want, have.len(), name);
            assert(have.take(have.len() as int) =~= have);
            if index_named(want, name) is Some {
                let i = index_position(want, name);
                lemma_index_position(want, name);
                lemma_no_conflict(have, want, 0, i);
            }
        },
    }
}

/// A definition with another key path than that of the store that is there, or
/// with an index that is there with other fields or another uniqueness, is
/// refused, and changes nothing.
pub proof fn law_other_definition_is_refused(db: DbView, def: StoreDefView, i: int)
    requires
        db.store(def.name) is Some,
        0 <= i < def.indexes.len(),
    ensures
        db.store(def.name)->0.key_path != def.key_path ==> db.apply(def).1 is Some && db.apply(
            def,
        ).0 == db,
        ({
            let there = index_named(db.store(def.name)->0.indexes, def.indexes[i].name);
            there is Some && (there->0.key_paths != def.indexes[i].key_paths || there->0.unique
                != def.indexes[i].unique) ==> db.apply(def).1 is Some && db.apply(def).0 == db
        }),
{
    let have = db.store(def.name)->0.indexes;
    if conflicts(have, def.indexes[i]) {
        if first_conflict(have, def.indexes, 0) >= def.indexes.len() {
            lemma_no_conflict(have, def.indexes, 0, i);
        }
    }
}

/// The stores without one.
proof fn lemma_store_removed(s: Seq<StoreDefView>, name: Seq<char>, other: Seq<char>)
    requires
        forall|a: int, b: int|
            0 <= a < b < s.len() ==> (#[trigger] s[a]).name != (#[trigger] s[b]).name,
    ensures
        store_named(stores_without(s, name), other) == if other == name {
            None
        } else {
            store_named(s, other)
        },
    decreases s.len(),
{
    lemma_store_position(s, name);
    lemma_store_position(s, other);
    if s.len() > 0 {
        let t = s.drop_first();
        assert forall|a: int, b: int| 0 <= a < b < t.len() implies (#[trigger] t[a]).name != (
        #[trigger] t[b]).name by {
            assert(t[a] == s[a + 1] && t[b] == s[b + 1]);
        }
        lemma_store_removed(t, name, other);
        lemma_store_position(t, name);
        lemma_store_position(t, other);
        let out = stores_without(s, name);
        lemma_store_position(out, other);
        if s.first().name == name {
            assert(out =~= t);
            if other == name {
                let k = store_position(t, name);
                if k < t.len() {
                    assert(s[0].name != s[k + 1].name);
                }
            }
        } else {
            let less = stores_without(t, name);
            lemma_store_position(less, other);
            assert(out =~= seq![s.first()] + less);
            assert(out.drop_first() =~= less);
            assert(out.first() == s.first());
        }
    }
}

/// A store that was deleted is not there any more, nor is any document of it.
/// All other stores are as they were, with their documents.
pub proof fn law_deleted_store_is_gone(db: DbView, name: Seq<char>)
    requires
        db.consistent(),
        db.engine.in_step(),
    ensures
        db.store(name) is None ==> db.delete_store(name).1 is Some,
        db.delete_store(name).1 is None ==> {
            let after = db.delete_store(name).0;
            &&& after.store(name) is None
            &&& forall|other: Seq<char>|
                other != name ==> #[trigger] after.store(other) == db.store(other)
            &&& forall|pk: Seq<u8>|
                (#[trigger] stored_doc(after.engine, encode_utf8(name), pk)) is None
            &&& forall|other: Seq<char>, pk: Seq<u8>|
                other != name && db.store(other) is Some ==> #[trigger] stored_doc(
                    after.engine,
                    encode_utf8(other),
                    pk,
                ) == stored_doc(db.engine, encode_utf8(other), pk)
        },
{
    if db.delete_store(name).1 is None {
        let after = db.delete_store(name).0;
        let sb = encode_utf8(name);
        let def = db.store(name)->0;
        lemma_store_names(db, name);
        assert forall|other: Seq<char>| #[trigger] after.store(other) == if other == name {
            None
        } else {
            db.store(other)
        } by {
            lemma_store_removed(db.schema, name, other);
        }
        assert(after.store(name) is None);
        let es = lemma_delete_store_batch(db, name);
        assert forall|pk: Seq<u8>| (#[trigger] stored_doc(after.engine, sb, pk)) is None by {
            let key = doc_key_of(sb, pk);
            lemma_document_prefix(sb, pk);
            lemma_committed_points(db, es, after.schema, key, 0);
            lemma_content_deletions(db.engine, def, sb, key);
        }
        assert forall|other: Seq<char>, pk: Seq<u8>|
            other != name && db.store(other) is Some implies #[trigger] stored_doc(
            after.engine,
            encode_utf8(other),
            pk,
        ) == stored_doc(db.engine, encode_utf8(other), pk) by {
            lemma_other_document_stays(db, name, other, pk);
            lemma_committed_points(db, es, after.schema, doc_key_of(encode_utf8(other), pk), 0);
        }
    }
}

/// The removal of a store's content says nothing of a document of another one.
proof fn lemma_other_document_stays(db: DbView, name: Seq<char>, other: Seq<char>, pk: Seq<u8>)
    requires
        db.consistent(),
        db.engine.in_step(),
        db.store(name) is Some,
        db.store(other) is Some,
        other != name,
    ensures
        last_for(
            content_deletions(db.engine, db.store(name)->0, encode_utf8(name)),
            doc_key_of(encode_utf8(other), pk),
            0,
        ) is None,
{
    let sb = encode_utf8(name);
    let ob = encode_utf8(other);
    let def = db.store(name)->0;
    let key = doc_key_of(ob, pk);
    let p = doc_prefix_of(sb);
    lemma_store_names(db, name);
    lemma_store_names(db, other);
    lemma_document_prefix(ob, pk);
    lemma_content_deletions(db.engine, def, sb, key);
    if has_prefix(key, p) {
        let own = key.skip(p.len() as int);
        assert(key =~= doc_key_of(sb, own));
        law_document_keys_differ(ob, pk, sb, own);
        lemma_same_bytes(name, other);
    }
    if under_some(def.indexes, def.indexes.len(), sb, key) {
        let k = choose|k: int|
            0 <= k < def.indexes.len() && has_prefix(
                key,
                idx_prefix_of(sb, encode_utf8((#[trigger] def.indexes[k]).name)),
            );
        let ip = idx_prefix_of(sb, encode_utf8(def.indexes[k].name));
        assert(ip[0] == 73);
        assert(key.subrange(0, ip.len() as int)[0] == key[0]);
    }
}

/// A store that was cleared has no document any more; the count is that of the
/// documents that it had. The documents of other stores, and all definitions,
/// are as they were.
pub proof fn law_cleared_store_has_no_documents(db: DbView, store: Seq<char>)
    requires
        db.consistent(),
        db.engine.in_step(),
        db.clear(store).1 is Ok,
    ensures
        ({
            let after = db.clear(store).0;
            &&& db.listed(store, None, None) is Ok
            &&& db.clear(store).1->Ok_0 == db.listed(store, None, None)->Ok_0.len()
            &&& after.schema == db.schema
            &&& forall|pk: Seq<u8>|
                (#[trigger] stored_doc(after.engine, encode_utf8(store), pk)) is None
            &&& forall|other: Seq<char>, pk: Seq<u8>|
                other != store && db.store(other) is Some ==> #[trigger] stored_doc(
                    after.engine,
                    encode_utf8(other),
                    pk,
                ) == stored_doc(db.engine, encode_utf8(other), pk)
        }),
{
    let after = db.clear(store).0;
    let sb = encode_utf8(store);
    let def = db.store(store)->0;
    let es = content_deletions(db.engine, def, sb);
    lemma_store_names(db, store);
    let pks = law_listing_gives_the_documents_in_range(db, store, None);
    let recs = records_under(db.engine, doc_prefix_of(sb));
    lemma_store_is_readable(db, store);
    lemma_docs_in(recs);
    lemma_content_deletions(db.engine, def, sb, sb);
    assert forall|pk: Seq<u8>| (#[trigger] stored_doc(after.engine, sb, pk)) is None by {
        let key = doc_key_of(sb, pk);
        lemma_document_prefix(sb, pk);
        lemma_committed_points(db, es, db.schema, key, 0);
        lemma_content_deletions(db.engine, def, sb, key);
    }
    assert forall|other: Seq<char>, pk: Seq<u8>|
        other != store && db.store(other) is Some implies #[trigger] stored_doc(
        after.engine,
        encode_utf8(other),
        pk,
    ) == stored_doc(db.engine, encode_utf8(other), pk) by {
        lemma_other_document_stays(db, store, other, pk);
        lemma_committed_points(db, es, db.schema, doc_key_of(encode_utf8(other), pk), 0);
    }
}

/// Applying definitions of different stores brings each of them about: the store
/// is there with the key path and with the indexes that its definition names, and
/// a store that none of them names is as it was.
pub proof fn law_every_applied_definition_is_there(
    db: DbView,
    defs: Seq<StoreDefView>,
    n: nat,
    k: int,
    name: Seq<char>,
)
    requires
        db.sound(),
        n <= defs.len(),
        0 <= k < n,
        forall|i: int, j: int|
            0 <= i < j < defs.len() ==> (#[trigger] defs[i]).name != (#[trigger] defs[j]).name,
        db.apply_all(defs, n).1 is None,
    ensures
        ({
            let after = db.apply_all(defs, n).0;
            let def = defs[k];
            let there = index_named(after.store(def.name)->0.indexes, name);
            let wanted = index_named(def.indexes, name);
            &&& after.store(def.name) is Some
            &&& after.store(def.name)->0.key_path == def.key_path
            &&& there is Some <==> wanted is Some
            &&& there is Some ==> there->0.key_paths == wanted->0.key_paths && there->0.unique
                == wanted->0.unique
            &&& (forall|i: int| 0 <= i < n ==> (#[trigger] defs[i]).name != name) ==> after.store(
                name,
            ) == db.store(name)
        }),
    decreases n,
{
    let m = (n - 1) as nat;
    let v = db.apply_all(defs, m).0;
    let last = defs[n - 1];
    law_applying_schemas_keeps_sound(db, defs, m);
    law_applied_definition_is_there(v, last, name);
    if k == n - 1 {
        if forall|i: int| 0 <= i < n ==> (#[trigger] defs[i]).name != name {
            lemma_unnamed_store_stays(db, defs, m, name);
        }
    } else {
        law_every_applied_definition_is_there(db, defs, m, k, name);
        assert(defs[k].name != defs[n - 1].name);
        law_applied_definition_is_there(v, last, defs[k].name);
    }
}

proof fn lemma_unnamed_store_stays(db: DbView, defs: Seq<StoreDefView>, n: nat, name: Seq<char>)
    requires
        db.sound(),
        n <= defs.len(),
        db.apply_all(defs, n).1 is None,
        forall|i: int| 0 <= i < n ==> (#[trigger] defs[i]).name != name,
    ensures
        db.apply_all(defs, n).0.store(name) == db.store(name),
    decreases n,
{
    if n > 0 {
        let m = (n - 1) as nat;
        lemma_unnamed_store_stays(db, defs, m, name);
        law_applying_schemas_keeps_sound(db, defs, m);
        assert(defs[n - 1].name != name);
        law_applied_definition_is_there(db.apply_all(defs, m).0, defs[n - 1], name);
    }
}

} // verus!
