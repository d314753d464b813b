//! Bringing the stores in line with definitions.

use vstd::prelude::*;

use crate::error::{
    bracketed, bracketed_text, quoted, quoted_text, text4, text5, FlowError, FlowErrorView, Result,
};
use crate::jsondb::db::{comes_to, DbView, JsonDB};
use crate::jsondb::schema::{
    index_named, lemma_store_named_with, texts, texts_eq, IndexDef, IndexDefView, StoreDef,
    StoreDefView,
};

verus! {

pub open spec fn other_key_path(name: Seq<char>, have: Seq<char>, want: Seq<char>) -> FlowErrorView {
    FlowErrorView::JsonDb(
        "store '"@ + name + "' already exists with a different key_path ('"@ + have + "' vs '"@
            + want + "')"@,
    )
}

/// The fields and the uniqueness of an index, as error texts show them.
pub open spec fn shown_index(d: IndexDefView) -> Seq<char> {
    "(key_paths="@ + bracketed(d.key_paths.map_values(|t: Seq<char>| quoted(t))) + ", unique="@ + (
    if d.unique {
        "true)"@
    } else {
        "false)"@
    })
}

fn shown_index_text(d: &IndexDef) -> (r: String)
    ensures
        r@ == shown_index(d@),
{
    let ghost all = d@.key_paths.map_values(|t: Seq<char>| quoted(t));
    let mut parts: Vec<String> = Vec::new();
    let mut i: usize = 0;
    while i < d.key_paths.len()
        invariant
            i <= d.key_paths.len(),
            all == d@.key_paths.map_values(|t: Seq<char>| quoted(t)),
            parts@.len() == i,
            forall|j: int| 0 <= j < i ==> (#[trigger] parts@[j])@ == all[j],
        decreases d.key_paths.len() - i,
    {
        assert(all[i as int] == quoted(d.key_paths@[i as int]@));
        parts.push(quoted_text(d.key_paths[i].as_str()));
        i = i + 1;
    }
    assert(parts@.map_values(|t: String| t@) =~= all);
    text4(
        "(key_paths=",
        &bracketed_text(&parts),
        ", unique=",
        if d.unique {
            "true)"
        } else {
            "false)"
        },
    )
}

pub open spec fn other_index(store: Seq<char>, have: IndexDefView, want: IndexDefView) -> FlowErrorView {
    FlowErrorView::JsonDb(
        "index '"@ + want.name + "' on store '"@ + store
            + "' already exists with different definition "@ + shown_index(have)
            + " vs requested "@ + shown_index(want),
    )
}

/// An index of the same name is there with other fields or another uniqueness.
pub open spec fn conflicts(have: Seq<IndexDefView>, want: IndexDefView) -> bool {
    match index_named(have, want.name) {
        Some(d) => d.key_paths != want.key_paths || d.unique != want.unique,
        None => false,
    }
}

/// The position of the first of the wanted indexes that conflicts with those
/// that are there; their number where none does.
pub open spec fn first_conflict(have: Seq<IndexDefView>, want: Seq<IndexDefView>, from: int) -> int
    decreases want.len() - from,
{
    if from < 0 || from >= want.len() || conflicts(have, want[from]) {
        from
    } else {
        first_conflict(have, want, from + 1)
    }
}

impl DbView {
    /// What creating those of the first `n` indexes that are not there comes to.
    pub open spec fn create_missing(
        self,
        store: Seq<char>,
        have: Seq<IndexDefView>,
        want: Seq<IndexDefView>,
        n: nat,
    ) -> (DbView, Option<FlowErrorView>)
        decreases n,
    {
        if n == 0 || n > want.len() {
            (self, None)
        } else {
            match self.create_missing(store, have, want, (n - 1) as nat) {
                (v, Some(e)) => (v, Some(e)),
                (v, None) => if index_named(have, want[n - 1].name) is Some {
                    (v, None)
                } else {
                    v.create_idx(store, want[n - 1])
                },
            }
        }
    }

    /// What deleting those of the first `n` indexes that are not wanted comes to.
    pub open spec fn delete_extra(
        self,
        store: Seq<char>,
        have: Seq<IndexDefView>,
        want: Seq<IndexDefView>,
        n: nat,
    ) -> (DbView, Option<FlowErrorView>)
        decreases n,
    {
        if n == 0 || n > have.len() {
            (self, None)
        } else {
            match self.delete_extra(store, have, want, (n - 1) as nat) {
                (v, Some(e)) => (v, Some(e)),
                (v, None) => if index_named(want, have[n - 1].name) is Some {
                    (v, None)
                } else {
                    v.delete_idx(store, have[n - 1].name)
                },
            }
        }
    }

    /// What creating a store as it is defined, but for its indexes, comes to.
    pub open spec fn create_as(self, def: StoreDefView) -> (DbView, Option<FlowErrorView>) {
        match self.create_store(def.name, def.key_path) {
            (v, Some(e)) => (v, Some(e)),
            (v, None) => if def.auto_increment {
                v.put_schema(
                    StoreDefView { auto_increment: true, ..v.store(def.name)->0 },
                    Seq::empty(),
                )
            } else {
                (v, None)
            },
        }
    }

    /// What bringing a store in line with a definition comes to.
    pub open spec fn apply(self, def: StoreDefView) -> (DbView, Option<FlowErrorView>) {
        match self.store(def.name) {
            None => match self.create_as(def) {
                (v, Some(e)) => (v, Some(e)),
                (v, None) => v.create_missing(
                    def.name,
                    Seq::empty(),
                    def.indexes,
                    def.indexes.len(),
                ),
            },
            Some(there) => if there.key_path != def.key_path {
                (self, Some(other_key_path(def.name, there.key_path, def.key_path)))
            } else {
                let k = first_conflict(there.indexes, def.indexes, 0);
                if k < def.indexes.len() {
                    (
                        self,
                        Some(
                            other_index(
                                def.name,
                                index_named(there.indexes, def.indexes[k].name)->0,
                                def.indexes[k],
                            ),
                        ),
                    )
                } else {
                    match self.create_missing(
                        def.name,
                        there.indexes,
                        def.indexes,
                        def.indexes.len(),
                    ) {
                        (v, Some(e)) => (v, Some(e)),
                        (v, None) => v.delete_extra(
                            def.name,
                            there.indexes,
                            def.indexes,
                            there.indexes.len(),
                        ),
                    }
                }
            },
        }
    }

    /// What bringing the stores in line with the first `n` definitions comes to.
    pub open spec fn apply_all(self, defs: Seq<StoreDefView>, n: nat) -> (
        DbView,
        Option<FlowErrorView>,
    )
        decreases n,
    {
        if n == 0 || n > defs.len() {
            (self, None)
        } else {
            match self.apply_all(defs, (n - 1) as nat) {
                (v, Some(e)) => (v, Some(e)),
                (v, None) => v.apply(defs[n - 1]),
            }
        }
    }
}

/// Once one creation has failed, nothing more is done.
proof fn lemma_create_stops(
    v: DbView,
    store: Seq<char>,
    have: Seq<IndexDefView>,
    want: Seq<IndexDefView>,
    k: nat,
    n: nat,
)
    requires
        k <= n <= want.len(),
        v.create_missing(store, have, want, k).1 is Some,
    ensures
        v.create_missing(store, have, want, n) == v.create_missing(store, have, want, k),
    decreases n,
{
    if n > k {
        lemma_create_stops(v, store, have, want, k, (n - 1) as nat);
    }
}

/// Once one deletion has failed, nothing more is done.
proof fn lemma_delete_stops(
    v: DbView,
    store: Seq<char>,
    have: Seq<IndexDefView>,
    want: Seq<IndexDefView>,
    k: nat,
    n: nat,
)
    requires
        k <= n <= have.len(),
        v.delete_extra(store, have, want, k).1 is Some,
    ensures
        v.delete_extra(store, have, want, n) == v.delete_extra(store, have, want, k),
    decreases n,
{
    if n > k {
        lemma_delete_stops(v, store, have, want, k, (n - 1) as nat);
    }
}

/// Once one definition has failed, nothing more is done.
proof fn lemma_apply_stops(v: DbView, defs: Seq<StoreDefView>, k: nat, n: nat)
    requires
        k <= n <= defs.len(),
        v.apply_all(defs, k).1 is Some,
    ensures
        v.apply_all(defs, n) == v.apply_all(defs, k),
    decreases n,
{
    if n > k {
        lemma_apply_stops(v, defs, k, (n - 1) as nat);
    }
}

/// The texts, borrowed.
fn borrowed(v: &Vec<String>) -> (r: Vec<&str>)
    ensures
        r@.map_values(|s: &str| s@) == texts(v@),
{
    let mut out: Vec<&str> = Vec::new();
    let mut i: usize = 0;
    while i < v.len()
        invariant
            i <= v.len(),
            out@.len() == i,
            forall|j: int| 0 <= j < i ==> (#[trigger] out@[j])@ == v@[j]@,
        decreases v.len() - i,
    {
        out.push(v[i].as_str());
        i = i + 1;
    }
    assert(out@.map_values(|s: &str| s@) =~= texts(v@));
    out
}

/// Whether two lists hold the same texts.
fn same_texts(a: &Vec<String>, b: &Vec<String>) -> (r: bool)
    ensures
        r == (texts(a@) == texts(b@)),
{
    if a.len() != b.len() {
        assert(texts(a@).len() != texts(b@).len());
        return false;
    }
    let mut i: usize = 0;
    while i < a.len()
        invariant
            i <= a.len(),
            a.len() == b.len(),
            forall|j: int| 0 <= j < i ==> (#[trigger] a@[j])@ == b@[j]@,
        decreases a.len() - i,
    {
        if !texts_eq(a[i].as_str(), b[i].as_str()) {
            assert(texts(a@)[i as int] != texts(b@)[i as int]);
            return false;
        }
        i = i + 1;
    }
    assert(texts(a@) =~= texts(b@));
    true
}

/// Finds the first wanted index that conflicts with those that are there.
fn find_conflict(have: &StoreDef, want: &StoreDef) -> (r: usize)
    ensures
        r as int == first_conflict(have@.indexes, want@.indexes, 0),
        r <= want@.indexes.len(),
        r < want@.indexes.len() ==> conflicts(have@.indexes, want@.indexes[r as int]),
{
    let mut i: usize = 0;
    while i < want.indexes.len()
        invariant
            i <= want.indexes.len(),
            first_conflict(have@.indexes, want@.indexes, 0) == first_conflict(
                have@.indexes,
                want@.indexes,
                i as int,
            ),
        decreases want.indexes.len() - i,
    {
        let idx = &want.indexes[i];
        assert(want@.indexes[i as int] == idx@);
        let pos: usize = have.find_index(idx.name.as_str());
        if pos < have.indexes.len() {
            let there = &have.indexes[pos];
            assert(have@.indexes[pos as int] == there@);
            if !same_texts(&there.key_paths, &idx.key_paths) || there.unique != idx.unique {
                return i;
            }
        }
        i = i + 1;
    }
    i
}

impl JsonDB {
    /// Creates the wanted indexes that are not there.
    fn create_indexes(&mut self, have: &StoreDef, want: &StoreDef) -> (r: Result<()>)
        requires
            old(self).well_formed(),
        ensures
            final(self).well_formed(),
            final(self).settings() == old(self).settings(),
            comes_to(
                old(self)@.create_missing(
                    want@.name,
                    have@.indexes,
                    want@.indexes,
                    want@.indexes.len(),
                ),
                final(self)@,
                r,
            ),
    {
        let ghost start = self@;
        let mut i: usize = 0;
        while i < want.indexes.len()
            invariant
                i <= want.indexes.len(),
                self.well_formed(),
                self.settings() == old(self).settings(),
                start == old(self)@,
                start.create_missing(want@.name, have@.indexes, want@.indexes, i as nat) == (
                    self@,
                    None::<FlowErrorView>,
                ),
            decreases want.indexes.len() - i,
        {
            let idx = &want.indexes[i];
            assert(want@.indexes[i as int] == idx@);
            if have.find_index(idx.name.as_str()) >= have.indexes.len() {
                let paths = borrowed(&idx.key_paths);
                match self.create_index(
                    want.name.as_str(),
                    idx.name.as_str(),
                    paths.as_slice(),
                    idx.unique,
                    idx.multi_entry,
                ) {
                    Ok(_) => {},
                    Err(e) => {
                        proof {
                            lemma_create_stops(
                                start,
                                want@.name,
                                have@.indexes,
                                want@.indexes,
                                (i + 1) as nat,
                                want@.indexes.len(),
                            );
                        }
                        return Err(e);
                    },
                }
            }
            i = i + 1;
        }
        Ok(())
    }

    /// Deletes the indexes that are not wanted.
    fn delete_indexes(&mut self, have: &StoreDef, want: &StoreDef) -> (r: Result<()>)
        requires
            old(self).well_formed(),
        ensures
            final(self).well_formed(),
            final(self).settings() == old(self).settings(),
            comes_to(
                old(self)@.delete_extra(
                    want@.name,
                    have@.indexes,
                    want@.indexes,
                    have@.indexes.len(),
                ),
                final(self)@,
                r,
            ),
    {
        let ghost start = self@;
        let mut i: usize = 0;
        while i < have.indexes.len()
            invariant
                i <= have.indexes.len(),
                self.well_formed(),
                self.settings() == old(self).settings(),
                start == old(self)@,
                start.delete_extra(want@.name, have@.indexes, want@.indexes, i as nat) == (
                    self@,
                    None::<FlowErrorView>,
                ),
            decreases have.indexes.len() - i,
        {
            let idx = &have.indexes[i];
            assert(have@.indexes[i as int] == idx@);
            if want.find_index(idx.name.as_str()) >= want.indexes.len() {
                match self.delete_index(want.name.as_str(), idx.name.as_str()) {
                    Ok(_) => {},
                    Err(e) => {
                        proof {
                            lemma_delete_stops(
                                start,
                                want@.name,
                                have@.indexes,
                                want@.indexes,
                                (i + 1) as nat,
                                have@.indexes.len(),
                            );
                        }
                        return Err(e);
                    },
                }
            }
            i = i + 1;
        }
        Ok(())
    }

    /// Applies a full store definition — creates the store and all its indexes,
    /// or adds and removes indexes where the store is there.
    ///
    /// - If the store does not exist, it is created with all specified indexes.
    /// - If the store exists with the same `key_path`, missing indexes are
    ///   created (with backfill for existing documents) and extra indexes
    ///   (present but not in `def`) are removed.
    /// - If the store exists with a different `key_path`, an error is returned.
    /// - If an index with the same name but different `key_paths` or `unique`
    ///   exists, an error is returned.
    pub fn apply_store(&mut self, def: &StoreDef) -> (r: Result<()>)
        requires
            old(self).well_formed(),
        ensures
            final(self).well_formed(),
            final(self).settings() == old(self).settings(),
            comes_to(old(self)@.apply(def@), final(self)@, r),
    {
        match self.get_store(def.name.as_str()) {
            None => {
                match self.create_object_store(def.name.as_str(), def.key_path.as_str()) {
                    Ok(_) => {},
                    Err(e) => {
                        return Err(e);
                    },
                }
                proof {
                    lemma_store_named_with(
                        old(self)@.schema,
                        StoreDefView {
                            name: def@.name,
                            key_path: def@.key_path,
                            auto_increment: false,
                            indexes: Seq::empty(),
                            next_auto_id: 0,
                        },
                    );
                }
                if def.auto_increment {
                    match self.get_store(def.name.as_str()) {
                        Some(current) => {
                            let mut current = current;
                            current.auto_increment = true;
                            match self.store_definition(current) {
                                Ok(_) => {},
                                Err(e) => {
                                    return Err(e);
                                },
                            }
                        },
                        None => {},
                    }
                }
                let bare = StoreDef::new(def.name.as_str(), def.key_path.as_str());
                self.create_indexes(&bare, def)
            },
            Some(there) => {
                if !texts_eq(there.key_path.as_str(), def.key_path.as_str()) {
                    let mut msg = text5(
                        "store '",
                        def.name.as_str(),
                        "' already exists with a different key_path ('",
                        there.key_path.as_str(),
                        "' vs '",
                    );
                    msg.append(def.key_path.as_str());
                    msg.append("')");
                    return Err(FlowError::JsonDb(msg));
                }
                let k: usize = find_conflict(&there, def);
                if k < def.indexes.len() {
                    assert(def@.indexes[k as int] == def.indexes@[k as int]@);
                    let pos: usize = there.find_index(def.indexes[k].name.as_str());
                    assert(there@.indexes[pos as int] == there.indexes@[pos as int]@);
                    let mut msg = text5(
                        "index '",
                        def.indexes[k].name.as_str(),
                        "' on store '",
                        def.name.as_str(),
                        "' already exists with different definition ",
                    );
                    msg.append(&shown_index_text(&there.indexes[pos]));
                    msg.append(" vs requested ");
                    msg.append(&shown_index_text(&def.indexes[k]));
                    return Err(FlowError::JsonDb(msg));
                }
                match self.create_indexes(&there, def) {
                    Ok(_) => self.delete_indexes(&there, def),
                    Err(e) => Err(e),
                }
            },
        }
    }

    /// Applies multiple store definitions at once.
    ///
    /// Calls [`JsonDB::apply_store`] for each definition.
    pub fn apply_schemas(&mut self, stores: &[StoreDef]) -> (r: Result<()>)
        requires
            old(self).well_formed(),
        ensures
            final(self).well_formed(),
            final(self).settings() == old(self).settings(),
            comes_to(
                old(self)@.apply_all(stores@.map_values(|d: StoreDef| d@), stores@.len()),
                final(self)@,
                r,
            ),
    {
        let ghost start = self@;
        let ghost defs = stores@.map_values(|d: StoreDef| d@);
        let mut i: usize = 0;
        while i < stores.len()
            invariant
                i <= stores.len(),
                self.well_formed(),
                self.settings() == old(self).settings(),
                start == old(self)@,
                defs == stores@.map_values(|d: StoreDef| d@),
                start.apply_all(defs, i as nat) == (self@, None::<FlowErrorView>),
            decreases stores.len() - i,
        {
            assert(defs[i as int] == stores@[i as int]@);
            match self.apply_store(&stores[i]) {
                Ok(_) => {},
                Err(e) => {
                    proof {
                        lemma_apply_stops(start, defs, (i + 1) as nat, defs.len());
                    }
                    return Err(e);
                },
            }
            i = i + 1;
        }
        Ok(())
    }

    /// Applies the schema defined by a typed [`ObjectStore`] implementor.
    pub fn apply_schema<T: ObjectStore>(&mut self) -> (r: Result<()>)
        requires
            old(self).well_formed(),
        ensures
            final(self).well_formed(),
            final(self).settings() == old(self).settings(),
            exists|def: StoreDef| #[trigger]
                call_ensures(T::store_def, (), def) && comes_to(
                    old(self)@.apply(def@),
                    final(self)@,
                    r,
                ),
    {
        let def = T::store_def();
        self.apply_store(&def)
    }
}

/// Types that describe the object store their values are kept in.
pub trait ObjectStore {
    /// The definition of the store, including all indexes.
    fn store_def() -> StoreDef;
}

} // verus!
