//! Transactions: reads from a snapshot, and writes that are kept back until
//! they are committed together.

use vstd::prelude::*;
use vstd::utf8::encode_utf8;

use crate::bytes::{
    bytes_eq, bytes_le, bytes_lt, bytes_start_with, copy_bytes, has_prefix, lex_le, lex_lt,
    push_bytes, str_bytes,
};
use crate::engine::EngineView;
use crate::error::{
    decimal, decimal_text, string_of, text3, text5, FlowError, FlowErrorView, Result,
};
use crate::jsondb::db::{comes_to, no_key, no_store, DbView, JsonDB};
use crate::jsondb::documents::{
    encode_lookup, entry_range, followed_by, gives_list, id_json, index_stretch, inject_id,
    looked_up, missing_key, not_auto, with_id,
};
use crate::jsondb::encoding::{
    composite_value, doc_key, doc_key_of, doc_prefix, doc_prefix_of, encode_composite_value,
    encode_primary_key, idx_value_prefix, idx_value_prefix_of, json_lists, prefix_range,
    primary_key, SEP,
};
use crate::jsondb::helpers::{
    all_puts, counter_full, counter_put, counter_record, delete_old_entries, entered_under,
    extract_index_values, is_taken, next_id, old_entries, plain_record, prepare_counter,
    push_doc_puts, records_under, taken_by_other, unique_error,
};
use crate::jsondb::keyrange::bound_view;
use crate::jsondb::schema::{texts_eq, IndexDef, IndexDefView, StoreDef};
use crate::jsondb::value::{
    decode_doc, decoded_doc, encode_doc, encoded_doc, extract_field, field_at, json_seq, list_debug,
    list_debug_text, Json, JsonNumber, JsonValue,
};
use crate::record::{entries, records_of, Entry, InternalRecord, Record, RecordView};

verus! {

/// Transaction mode (read-only vs read-write).
#[derive(Debug, Clone, Copy, PartialEq, Eq, Structural)]
pub enum TransactionMode {
    /// Read-only — queries only.
    ReadOnly,
    /// Read-write — queries, puts, deletes, and index updates.
    ReadWrite,
}

/// What a transaction holds of one document: its bytes, or that there is none.
#[derive(Debug)]
pub struct Slot {
    pub store: String,
    pub key: Vec<u8>,
    pub value: Option<Vec<u8>>,
}

/// A slot with its texts and bytes as sequences.
pub struct SlotView {
    pub store: Seq<char>,
    pub key: Seq<u8>,
    pub value: Option<Seq<u8>>,
}

/// The bytes, where there are any.
pub open spec fn bytes_of(v: Option<Vec<u8>>) -> Option<Seq<u8>> {
    match v {
        Some(b) => Some(b@),
        None => None,
    }
}

impl View for Slot {
    type V = SlotView;

    open spec fn view(&self) -> SlotView {
        SlotView { store: self.store@, key: self.key@, value: bytes_of(self.value) }
    }
}

/// The slots of a sequence.
pub open spec fn slots(s: Seq<Slot>) -> Seq<SlotView> {
    s.map_values(|t: Slot| t@)
}

/// The position of the slot for a document; the number of slots where there is
/// none.
pub open spec fn slot_position(s: Seq<SlotView>, store: Seq<char>, key: Seq<u8>) -> int
    decreases s.len(),
{
    if s.len() == 0 || (s.first().store == store && s.first().key == key) {
        0
    } else {
        1 + slot_position(s.drop_first(), store, key)
    }
}

/// What is held of a document, if anything is.
pub open spec fn held(s: Seq<SlotView>, store: Seq<char>, key: Seq<u8>) -> Option<Option<Seq<u8>>> {
    let i = slot_position(s, store, key);
    if 0 <= i < s.len() {
        Some(s[i].value)
    } else {
        None
    }
}

/// The slots with one in place of that for the same document, or at the end.
pub open spec fn with_slot(s: Seq<SlotView>, slot: SlotView) -> Seq<SlotView> {
    let i = slot_position(s, slot.store, slot.key);
    if 0 <= i < s.len() {
        s.update(i, slot)
    } else {
        s.push(slot)
    }
}

pub proof fn lemma_slot_position(s: Seq<SlotView>, store: Seq<char>, key: Seq<u8>)
    ensures
        0 <= slot_position(s, store, key) <= s.len(),
        slot_position(s, store, key) < s.len() ==> s[slot_position(s, store, key)].store == store
            && s[slot_position(s, store, key)].key == key,
    decreases s.len(),
{
    if s.len() > 0 && !(s.first().store == store && s.first().key == key) {
        lemma_slot_position(s.drop_first(), store, key);
    }
}

/// What was put in a slot is held; what is held of other documents stays.
pub proof fn lemma_with_slot(s: Seq<SlotView>, slot: SlotView, store: Seq<char>, key: Seq<u8>)
    ensures
        held(with_slot(s, slot), store, key) == if store == slot.store && key == slot.key {
            Some(slot.value)
        } else {
            held(s, store, key)
        },
    decreases s.len(),
{
    let t = with_slot(s, slot);
    lemma_slot_position(s, slot.store, slot.key);
    lemma_slot_position(s, store, key);
    lemma_slot_position(t, store, key);
    if s.len() == 0 {
        assert(t =~= seq![slot]);
        assert(t.drop_first() =~= s);
        assert(slot_position(t.drop_first(), store, key) == 0);
    } else if s.first().store == slot.store && s.first().key == slot.key {
        assert(t.drop_first() =~= s.drop_first());
        lemma_slot_position(s.drop_first(), store, key);
    } else {
        let rest = s.drop_first();
        assert(t.drop_first() =~= with_slot(rest, slot)) by {
            lemma_slot_position(rest, slot.store, slot.key);
        }
        assert(t.first() == s.first());
        lemma_with_slot(rest, slot, store, key);
        lemma_slot_position(rest, store, key);
        lemma_slot_position(with_slot(rest, slot), store, key);
    }
}

/// Finds the slot for a document.
fn find_slot(v: &Vec<Slot>, store: &str, key: &[u8]) -> (r: usize)
    ensures
        r as int == slot_position(slots(v@), store@, key@),
        r <= v@.len(),
{
    let ghost all = slots(v@);
    let mut i: usize = 0;
    assert(all.subrange(0, all.len() as int) =~= all);
    while i < v.len()
        invariant
            i <= v.len(),
            all == slots(v@),
            slot_position(all, store@, key@) == i + slot_position(
                all.subrange(i as int, all.len() as int),
                store@,
                key@,
            ),
        decreases v.len() - i,
    {
        let ghost rest = all.subrange(i as int, all.len() as int);
        assert(rest.first() == v@[i as int]@);
        assert(rest.drop_first() =~= all.subrange(i + 1, all.len() as int));
        if texts_eq(v[i].store.as_str(), store) && bytes_eq(&v[i].key, key) {
            return i;
        }
        i = i + 1;
    }
    i
}

/// Fills the slot for a document.
fn set_slot(v: &mut Vec<Slot>, slot: Slot)
    ensures
        slots(final(v)@) == with_slot(slots(old(v)@), slot@),
{
    let ghost before = slots(v@);
    let ghost sv = slot@;
    let i: usize = find_slot(v, slot.store.as_str(), &slot.key);
    if i < v.len() {
        v.set(i, slot);
        assert(slots(v@) =~= before.update(i as int, sv));
    } else {
        v.push(slot);
        assert(slots(v@) =~= before.push(sv));
    }
}

/// The state of a transaction.
pub struct TxView {
    pub mode: TransactionMode,
    /// The number of the last write that the transaction sees.
    pub snapshot_seq: u64,
    /// The writes that are kept back.
    pub writes: Seq<SlotView>,
    /// What was read.
    pub reads: Seq<SlotView>,
    /// The last id of each store that got ids.
    pub ids: Seq<(Seq<char>, u64)>,
}

pub open spec fn read_only_error() -> FlowErrorView {
    FlowErrorView::JsonDb("cannot write in a read-only transaction"@)
}

pub open spec fn tx_key_exists(store: Seq<char>) -> FlowErrorView {
    FlowErrorView::JsonDb("key already exists in store '"@ + store + "'"@)
}

pub open spec fn tx_unique_error(index: Seq<char>, vals: Seq<Json>) -> FlowErrorView {
    FlowErrorView::JsonDb(
        "unique constraint violation in transaction: index '"@ + index + "' value '"@ + list_debug(
            vals,
        ) + "'"@,
    )
}

pub open spec fn conflict_error(store: Seq<char>) -> FlowErrorView {
    FlowErrorView::JsonDb(
        "transaction conflict: a document read from store '"@ + store
            + "' was changed by another writer"@,
    )
}

/// The last id that was given out in a store, where one was.
pub open spec fn id_in(ids: Seq<(Seq<char>, u64)>, store: Seq<char>) -> Option<u64>
    decreases ids.len(),
{
    if ids.len() == 0 {
        None
    } else if ids.first().0 == store {
        Some(ids.first().1)
    } else {
        id_in(ids.drop_first(), store)
    }
}

/// The last ids with that of a store set.
pub open spec fn with_last_id(ids: Seq<(Seq<char>, u64)>, store: Seq<char>, id: u64) -> Seq<
    (Seq<char>, u64),
>
    decreases ids.len(),
{
    if ids.len() == 0 {
        seq![(store, id)]
    } else if ids.first().0 == store {
        ids.update(0, (store, id))
    } else {
        seq![ids.first()] + with_last_id(ids.drop_first(), store, id)
    }
}

/// What a change of a transaction comes to: its new state and the value to
/// give back, or a complaint that leaves it as it was.
pub type Change = core::result::Result<(TxView, Json), FlowErrorView>;

/// `r` and `after` are what a change comes to.
pub open spec fn changed(spec: Change, before: TxView, after: TxView, r: Result<JsonValue>) -> bool {
    match spec {
        Ok((v, key)) => after == v && r is Ok && r->Ok_0@ == key,
        Err(e) => after == before && r is Err && r->Err_0@ == e,
    }
}

impl TxView {
    /// The transaction with a document put.
    pub open spec fn holding(self, store: Seq<char>, key: Seq<u8>, value: Option<Seq<u8>>) -> TxView {
        TxView { writes: with_slot(self.writes, SlotView { store, key, value }), ..self }
    }

    /// The definition of a store that may be written, and the key of a document.
    pub open spec fn keyed(self, db: DbView, store: Seq<char>, doc: Json) -> core::result::Result<
        (Json, Seq<u8>),
        FlowErrorView,
    > {
        if self.mode is ReadOnly {
            Err(read_only_error())
        } else {
            match db.store(store) {
                None => Err(no_store(store)),
                Some(def) => match field_at(doc, encode_utf8(def.key_path)) {
                    None => Err(no_key(def.key_path, store)),
                    Some(key) => match primary_key(key) {
                        Err(e) => Err(e),
                        Ok(pk) => Ok((key, pk)),
                    },
                },
            }
        }
    }

    /// What putting a document comes to.
    pub open spec fn put(self, db: DbView, store: Seq<char>, doc: Json) -> Change {
        match self.keyed(db, store, doc) {
            Err(e) => Err(e),
            Ok((key, pk)) => match encoded_doc(doc) {
                Err(e) => Err(e),
                Ok(bytes) => Ok((self.holding(store, pk, Some(bytes)), key)),
            },
        }
    }

    /// A document is there, as far as the transaction knows.
    pub open spec fn has(self, db: DbView, store: Seq<char>, pk: Seq<u8>) -> bool {
        match held(self.writes, store, pk) {
            Some(v) => v is Some,
            None => db.engine.point(doc_key_of(encode_utf8(store), pk), 0) is Some,
        }
    }

    /// What adding a document comes to.
    pub open spec fn add(self, db: DbView, store: Seq<char>, doc: Json) -> Change {
        match self.keyed(db, store, doc) {
            Err(e) => Err(e),
            Ok((key, pk)) => if self.has(db, store, pk) {
                Err(tx_key_exists(store))
            } else {
                match encoded_doc(doc) {
                    Err(e) => Err(e),
                    Ok(bytes) => Ok((self.holding(store, pk, Some(bytes)), key)),
                }
            },
        }
    }

    /// The id that comes next in a store.
    pub open spec fn next_id(self, db: DbView, store: Seq<char>) -> core::result::Result<
        u64,
        FlowErrorView,
    > {
        match id_in(self.ids, store) {
            Some(n) => if n == u64::MAX {
                Err(counter_full())
            } else {
                Ok((n + 1) as u64)
            },
            None => next_id(db.engine, encode_utf8(store)),
        }
    }

    /// What putting a document under the next id comes to.
    pub open spec fn put_auto(self, db: DbView, store: Seq<char>, doc: Json) -> Change {
        if self.mode is ReadOnly {
            Err(read_only_error())
        } else {
            match db.store(store) {
                None => Err(no_store(store)),
                Some(def) => if !def.auto_increment {
                    Err(not_auto(store))
                } else {
                    match self.next_id(db, store) {
                        Err(e) => Err(e),
                        Ok(id) => match encoded_doc(with_id(doc, def.key_path, id)) {
                            Err(e) => Err(e),
                            Ok(bytes) => Ok(
                                (
                                    TxView {
                                        ids: with_last_id(self.ids, store, id),
                                        ..self.holding(
                                            store,
                                            encode_utf8(decimal(id as nat)),
                                            Some(bytes),
                                        )
                                    },
                                    id_json(id),
                                ),
                            ),
                        },
                    }
                },
            }
        }
    }

    /// What deleting a document comes to.
    pub open spec fn delete(self, db: DbView, store: Seq<char>, key: Json) -> (
        TxView,
        Option<FlowErrorView>,
    ) {
        if self.mode is ReadOnly {
            (self, Some(read_only_error()))
        } else {
            match db.store(store) {
                None => (self, Some(no_store(store))),
                Some(_) => match primary_key(key) {
                    Err(e) => (self, Some(e)),
                    Ok(pk) => (self.holding(store, pk, None), None),
                },
            }
        }
    }

    /// What removing all documents of a store comes to.
    pub open spec fn clear(self, db: DbView, store: Seq<char>) -> (TxView, Option<FlowErrorView>) {
        if self.mode is ReadOnly {
            (self, Some(read_only_error()))
        } else {
            match db.store(store) {
                None => (self, Some(no_store(store))),
                Some(_) => (
                    TxView {
                        writes: emptied(
                            removing(
                                self.writes,
                                store,
                                stored_keys(db.engine, encode_utf8(store)),
                            ),
                            store,
                        ),
                        ..self
                    },
                    None,
                ),
            }
        }
    }

    /// What reading a document comes to: what is kept back shows first, then
    /// what an earlier read found, then what the snapshot holds. What was read
    /// from there is noted.
    pub open spec fn get(self, db: DbView, store: Seq<char>, key: Json) -> (
        TxView,
        core::result::Result<Option<Json>, FlowErrorView>,
    ) {
        match db.store(store) {
            None => (self, Err(no_store(store))),
            Some(_) => match primary_key(key) {
                Err(e) => (self, Err(e)),
                Ok(pk) => match held(self.writes, store, pk) {
                    Some(v) => (self, decoded_value(v)),
                    None => match held(self.reads, store, pk) {
                        Some(v) => (self, decoded_value(v)),
                        None => {
                            let v = snapshot_value(
                                db.engine,
                                encode_utf8(store),
                                pk,
                                self.snapshot_seq,
                            );
                            (self.noting(store, pk, v), decoded_value(v))
                        },
                    },
                },
            },
        }
    }

    /// The transaction once a read was noted. The first read of a document counts.
    pub open spec fn noting(self, store: Seq<char>, key: Seq<u8>, value: Option<Seq<u8>>) -> TxView {
        if held(self.reads, store, key) is Some {
            self
        } else {
            TxView { reads: self.reads.push(SlotView { store, key, value }), ..self }
        }
    }
}

/// The document in bytes, where there are any.
pub open spec fn decoded_value(v: Option<Seq<u8>>) -> core::result::Result<
    Option<Json>,
    FlowErrorView,
> {
    match v {
        None => Ok(None),
        Some(bytes) => match decoded_doc(bytes) {
            Ok(doc) => Ok(Some(doc)),
            Err(e) => Err(e),
        },
    }
}

/// The bytes that are stored for a document, as of the write numbered `seq`.
pub open spec fn snapshot_value(v: EngineView, store: Seq<u8>, pk: Seq<u8>, seq: u64) -> Option<
    Seq<u8>,
> {
    match v.point_at(doc_key_of(store, pk), 0, seq) {
        Some(rec) => Some(rec.value),
        None => None,
    }
}

/// `s` from the position `n` on.
pub open spec fn tail_from(s: Seq<u8>, n: nat) -> Seq<u8> {
    if n <= s.len() {
        s.skip(n as int)
    } else {
        Seq::empty()
    }
}

/// The primary keys of the stored documents of a store.
pub open spec fn stored_keys(v: EngineView, store: Seq<u8>) -> Seq<Seq<u8>> {
    records_under(v, doc_prefix_of(store)).map_values(
        |r: RecordView| tail_from(r.key, doc_prefix_of(store).len()),
    )
}

/// The slots with the deletion of each of the keys.
pub open spec fn removing(s: Seq<SlotView>, store: Seq<char>, keys: Seq<Seq<u8>>) -> Seq<SlotView>
    decreases keys.len(),
{
    if keys.len() == 0 {
        s
    } else {
        with_slot(
            removing(s, store, keys.drop_last()),
            SlotView { store, key: keys.last(), value: None },
        )
    }
}

/// The slots with nothing put in a store.
pub open spec fn emptied(s: Seq<SlotView>, store: Seq<char>) -> Seq<SlotView> {
    s.map_values(
        |t: SlotView|
            if t.store == store {
                SlotView { value: None, ..t }
            } else {
                t
            },
    )
}

/// An explicit transaction.
///
/// All writes are buffered in memory until [`Transaction::commit`] is called,
/// which applies them atomically in a single batch. Dropping the transaction
/// without calling `commit` discards all buffered writes.
///
/// Within a transaction, subsequent reads (including index lookups) see the
/// effects of prior buffered writes. Point reads see no write that came after
/// the transaction began, as long as it is in memory: SSTs keep no sequence
/// numbers, so a document that was changed and flushed before the transaction
/// first read it is seen as it was flushed. What was read once reads the same
/// from then on. The commit is refused where a document that was read has been
/// changed since.
///
/// A transaction holds no reference to the database: each operation is given
/// the one that it belongs to.
#[derive(Debug)]
pub struct Transaction {
    mode: TransactionMode,
    snapshot_seq: u64,
    writes: Vec<Slot>,
    reads: Vec<Slot>,
    ids: Vec<(String, u64)>,
}

/// The ids of a sequence.
pub open spec fn id_views(s: Seq<(String, u64)>) -> Seq<(Seq<char>, u64)> {
    s.map_values(|t: (String, u64)| (t.0@, t.1))
}

impl View for Transaction {
    type V = TxView;

    closed spec fn view(&self) -> TxView {
        TxView {
            mode: self.mode,
            snapshot_seq: self.snapshot_seq,
            writes: slots(self.writes@),
            reads: slots(self.reads@),
            ids: id_views(self.ids@),
        }
    }
}

/// Decodes a document from bytes, where there are any.
fn decode_value(v: &Option<Vec<u8>>) -> (r: Result<Option<JsonValue>>)
    ensures
        match r {
            Ok(Some(doc)) => decoded_value(bytes_of(*v)) is Ok && decoded_value(
                bytes_of(*v),
            )->Ok_0 == Some(doc@),
            Ok(None) => decoded_value(bytes_of(*v)) is Ok && decoded_value(
                bytes_of(*v),
            )->Ok_0 is None,
            Err(e) => decoded_value(bytes_of(*v)) is Err && decoded_value(bytes_of(*v))->Err_0
                == e@,
        },
{
    match v {
        None => Ok(None),
        Some(b) => match decode_doc(b) {
            Ok(doc) => Ok(Some(doc)),
            Err(e) => Err(e),
        },
    }
}

/// `key` from the position `n` on.
fn copy_tail(key: &[u8], n: usize) -> (r: Vec<u8>)
    ensures
        r@ == tail_from(key@, n as nat),
{
    let mut out: Vec<u8> = Vec::new();
    let mut i: usize = n;
    while i < key.len()
        invariant
            n <= i,
            n <= key@.len() ==> i <= key@.len() && out@ == key@.subrange(n as int, i as int),
            n > key@.len() ==> out@.len() == 0,
        decreases key.len() - i,
    {
        out.push(key[i]);
        i = i + 1;
    }
    proof {
        if n <= key@.len() {
            assert(out@ =~= key@.skip(n as int));
        } else {
            assert(out@ =~= Seq::<u8>::empty());
        }
    }
    out
}

/// `r` is the outcome of a read in a transaction.
pub open spec fn tx_reads(
    spec: core::result::Result<Option<Json>, FlowErrorView>,
    r: Result<Option<JsonValue>>,
) -> bool {
    match r {
        Ok(Some(doc)) => spec is Ok && spec->Ok_0 == Some(doc@),
        Ok(None) => spec is Ok && spec->Ok_0 is None,
        Err(e) => spec is Err && e@ == spec->Err_0,
    }
}

impl Transaction {
    /// A transaction that sees the writes up to the one numbered `snapshot_seq`
    /// and, of later ones, those that were flushed before it first read what
    /// they wrote.
    fn begin(mode: TransactionMode, snapshot_seq: u64) -> (r: Transaction)
        ensures
            r@ == (TxView {
                mode,
                snapshot_seq,
                writes: Seq::empty(),
                reads: Seq::empty(),
                ids: Seq::empty(),
            }),
    {
        let writes: Vec<Slot> = Vec::new();
        let reads: Vec<Slot> = Vec::new();
        let ids: Vec<(String, u64)> = Vec::new();
        assert(slots(writes@) =~= Seq::<SlotView>::empty());
        assert(slots(reads@) =~= Seq::<SlotView>::empty());
        assert(id_views(ids@) =~= Seq::<(Seq<char>, u64)>::empty());
        Transaction { mode, snapshot_seq, writes, reads, ids }
    }

    /// Sets the last write that the transaction sees.
    pub fn set_snapshot_seq(&mut self, seq: u64)
        ensures
            final(self)@ == (TxView { snapshot_seq: seq, ..old(self)@ }),
    {
        self.snapshot_seq = seq;
    }

    /// Notes a read that was made elsewhere: the bytes that were found for a
    /// document, or that there were none.
    pub fn add_read_entry(&mut self, store: &str, key: Vec<u8>, value: Option<Vec<u8>>)
        ensures
            final(self)@ == old(self)@.noting(store@, key@, bytes_of(value)),
    {
        let ghost before = slots(self.reads@);
        proof {
            lemma_slot_position(before, store@, key@);
        }
        if find_slot(&self.reads, store, &key) >= self.reads.len() {
            let slot = Slot { store: string_of(store), key, value };
            let ghost sv = slot@;
            self.reads.push(slot);
            assert(slots(self.reads@) =~= before.push(sv));
        }
    }

    fn require_read_write(&self) -> (r: Result<()>)
        ensures
            match r {
                Ok(_) => !(self@.mode is ReadOnly),
                Err(e) => self@.mode is ReadOnly && e@ == read_only_error(),
            },
    {
        match self.mode {
            TransactionMode::ReadOnly => Err(
                FlowError::JsonDb(string_of("cannot write in a read-only transaction")),
            ),
            TransactionMode::ReadWrite => Ok(()),
        }
    }

    /// The key of a document that may be written.
    fn require_key(&self, db: &JsonDB, store: &str, doc: &JsonValue) -> (r: Result<
        (JsonValue, Vec<u8>),
    >)
        ensures
            match r {
                Ok((key, pk)) => self@.keyed(db@, store@, doc@) is Ok && self@.keyed(
                    db@,
                    store@,
                    doc@,
                )->Ok_0 == (key@, pk@),
                Err(e) => self@.keyed(db@, store@, doc@) is Err && self@.keyed(
                    db@,
                    store@,
                    doc@,
                )->Err_0 == e@,
            },
    {
        match self.require_read_write() {
            Ok(_) => {},
            Err(e) => {
                return Err(e);
            },
        }
        let def = match db.require_store(store) {
            Ok(d) => d,
            Err(e) => {
                return Err(e);
            },
        };
        match extract_field(doc, def.key_path.as_str()) {
            None => Err(missing_key(&def, store)),
            Some(key) => match encode_primary_key(&key) {
                Err(e) => Err(e),
                Ok(pk) => Ok((key, pk)),
            },
        }
    }

    /// Keeps back what is to be written for a document.
    fn hold(&mut self, store: &str, key: Vec<u8>, value: Option<Vec<u8>>)
        ensures
            final(self)@ == old(self)@.holding(store@, key@, bytes_of(value)),
    {
        set_slot(&mut self.writes, Slot { store: string_of(store), key, value });
    }

    /// Inserts or updates a document within this transaction.
    pub fn put(&mut self, db: &JsonDB, store: &str, doc: JsonValue) -> (r: Result<JsonValue>)
        ensures
            changed(old(self)@.put(db@, store@, doc@), old(self)@, final(self)@, r),
    {
        let (key, pk) = match self.require_key(db, store, &doc) {
            Ok(t) => t,
            Err(e) => {
                return Err(e);
            },
        };
        match encode_doc(&doc) {
            Ok(bytes) => {
                self.hold(store, pk, Some(bytes));
                Ok(key)
            },
            Err(e) => Err(e),
        }
    }

    /// Inserts a document only if the key does not already exist
    /// (IndexedDB `add` semantics). Returns an error if the key exists.
    pub fn add(&mut self, db: &JsonDB, store: &str, doc: JsonValue) -> (r: Result<JsonValue>)
        requires
            db.well_formed(),
        ensures
            changed(old(self)@.add(db@, store@, doc@), old(self)@, final(self)@, r),
    {
        let (key, pk) = match self.require_key(db, store, &doc) {
            Ok(t) => t,
            Err(e) => {
                return Err(e);
            },
        };
        let i: usize = find_slot(&self.writes, store, &pk);
        let there = if i < self.writes.len() {
            assert(slots(self.writes@)[i as int] == self.writes@[i as int]@);
            self.writes[i].value.is_some()
        } else {
            db.engine().get_bytes(&doc_key(store, &pk), 0).is_some()
        };
        if there {
            return Err(FlowError::JsonDb(text3("key already exists in store '", store, "'")));
        }
        match encode_doc(&doc) {
            Ok(bytes) => {
                self.hold(store, pk, Some(bytes));
                Ok(key)
            },
            Err(e) => Err(e),
        }
    }

    /// Inserts a document with auto-generated key (for auto-increment stores).
    pub fn put_auto(&mut self, db: &JsonDB, store: &str, doc: JsonValue) -> (r: Result<JsonValue>)
        requires
            db.well_formed(),
        ensures
            changed(old(self)@.put_auto(db@, store@, doc@), old(self)@, final(self)@, r),
    {
        match self.require_read_write() {
            Ok(_) => {},
            Err(e) => {
                return Err(e);
            },
        }
        let def = match db.require_store(store) {
            Ok(d) => d,
            Err(e) => {
                return Err(e);
            },
        };
        if !def.auto_increment {
            return Err(FlowError::JsonDb(text3("store '", store, "' is not auto-increment")));
        }
        let id: u64 = match self.last_id(store) {
            Some(n) => {
                if n == u64::MAX {
                    return Err(
                        FlowError::JsonDb(string_of("auto-increment counter exhausted")),
                    );
                }
                n + 1
            },
            None => match prepare_counter(db.engine(), store) {
                Ok((id, _)) => id,
                Err(e) => {
                    return Err(e);
                },
            },
        };
        let doc = inject_id(doc, def.key_path.as_str(), id);
        match encode_doc(&doc) {
            Ok(bytes) => {
                self.hold(store, str_bytes(decimal_text(id).as_str()), Some(bytes));
                self.set_last_id(store, id);
                Ok(JsonValue::Number(JsonNumber::PosInt(id)))
            },
            Err(e) => Err(e),
        }
    }

    /// The last id that was given out in a store.
    fn last_id(&self, store: &str) -> (r: Option<u64>)
        ensures
            r == id_in(self@.ids, store@),
    {
        let ghost all = id_views(self.ids@);
        let mut i: usize = 0;
        assert(all.subrange(0, all.len() as int) =~= all);
        while i < self.ids.len()
            invariant
                i <= self.ids.len(),
                all == id_views(self.ids@),
                id_in(all, store@) == id_in(all.subrange(i as int, all.len() as int), store@),
            decreases self.ids.len() - i,
        {
            let ghost rest = all.subrange(i as int, all.len() as int);
            assert(rest.first() == all[i as int]);
            assert(rest.drop_first() =~= all.subrange(i + 1, all.len() as int));
            if texts_eq(self.ids[i].0.as_str(), store) {
                return Some(self.ids[i].1);
            }
            i = i + 1;
        }
        None
    }

    /// Sets the last id that was given out in a store.
    fn set_last_id(&mut self, store: &str, id: u64)
        ensures
            final(self)@ == (TxView {
                ids: with_last_id(old(self)@.ids, store@, id),
                ..old(self)@
            }),
    {
        let ghost all = id_views(self.ids@);
        let mut i: usize = 0;
        assert(all.subrange(0, all.len() as int) =~= all);
        assert(all.subrange(0, 0) + with_last_id(all, store@, id) =~= with_last_id(
            all,
            store@,
            id,
        ));
        while i < self.ids.len()
            invariant
                i <= self.ids.len(),
                *self == *old(self),
                all == id_views(self.ids@),
                with_last_id(all, store@, id) == all.subrange(0, i as int) + with_last_id(
                    all.subrange(i as int, all.len() as int),
                    store@,
                    id,
                ),
            decreases self.ids.len() - i,
        {
            let ghost rest = all.subrange(i as int, all.len() as int);
            assert(rest.first() == all[i as int]);
            assert(rest.drop_first() =~= all.subrange(i + 1, all.len() as int));
            if texts_eq(self.ids[i].0.as_str(), store) {
                self.ids.set(i, (string_of(store), id));
                proof {
                    assert(all.subrange(0, i as int) + rest.update(0, (store@, id)) =~= all.update(
                        i as int,
                        (store@, id),
                    ));
                    assert(id_views(self.ids@) =~= all.update(i as int, (store@, id)));
                }
                return ;
            }
            proof {
                let more = with_last_id(rest.drop_first(), store@, id);
                assert(all.subrange(0, i as int) + (seq![rest.first()] + more) =~= all.subrange(
                    0,
                    i + 1,
                ) + more);
            }
            i = i + 1;
        }
        self.ids.push((string_of(store), id));
        proof {
            assert(all.subrange(i as int, all.len() as int) =~= Seq::<(Seq<char>, u64)>::empty());
            assert(id_views(self.ids@) =~= all.push((store@, id)));
            assert(all.subrange(0, i as int) + seq![(store@, id)] =~= all.push((store@, id)));
        }
    }

    /// Deletes a document by primary key.
    pub fn delete(&mut self, db: &JsonDB, store: &str, key: &JsonValue) -> (r: Result<()>)
        ensures
            final(self)@ == old(self)@.delete(db@, store@, key@).0,
            match r {
                Ok(_) => old(self)@.delete(db@, store@, key@).1 is None,
                Err(e) => old(self)@.delete(db@, store@, key@).1 == Some(e@),
            },
    {
        match self.require_read_write() {
            Ok(_) => {},
            Err(e) => {
                return Err(e);
            },
        }
        match db.require_store(store) {
            Ok(_) => {},
            Err(e) => {
                return Err(e);
            },
        }
        match encode_primary_key(key) {
            Ok(pk) => {
                self.hold(store, pk, None);
                Ok(())
            },
            Err(e) => Err(e),
        }
    }

    /// Removes all documents from a store within this transaction.
    pub fn clear(&mut self, db: &JsonDB, store: &str) -> (r: Result<()>)
        requires
            db.well_formed(),
        ensures
            final(self)@ == old(self)@.clear(db@, store@).0,
            match r {
                Ok(_) => old(self)@.clear(db@, store@).1 is None,
                Err(e) => old(self)@.clear(db@, store@).1 == Some(e@),
            },
    {
        match self.require_read_write() {
            Ok(_) => {},
            Err(e) => {
                return Err(e);
            },
        }
        match db.require_store(store) {
            Ok(_) => {},
            Err(e) => {
                return Err(e);
            },
        }
        let keys = find_stored_keys(db, store);
        let ghost all = byte_lists(keys@);
        let ghost start = slots(self.writes@);
        let mut i: usize = 0;
        assert(all.subrange(0, 0) =~= Seq::<Seq<u8>>::empty());
        while i < keys.len()
            invariant
                i <= keys.len(),
                all == byte_lists(keys@),
                start == slots(old(self).writes@),
                *self == (Transaction { writes: self.writes, ..*old(self) }),
                slots(self.writes@) == removing(start, store@, all.subrange(0, i as int)),
            decreases keys.len() - i,
        {
            proof {
                assert(all.subrange(0, i + 1).drop_last() =~= all.subrange(0, i as int));
                assert(all.subrange(0, i + 1).last() == keys@[i as int]@);
            }
            set_slot(
                &mut self.writes,
                Slot { store: string_of(store), key: copy_bytes(&keys[i]), value: None },
            );
            i = i + 1;
        }
        assert(all.subrange(0, all.len() as int) =~= all);
        let ghost marked = slots(self.writes@);
        let ghost want = emptied(marked, store@);
        let mut k: usize = 0;
        while k < self.writes.len()
            invariant
                k <= self.writes.len(),
                *self == (Transaction { writes: self.writes, ..*old(self) }),
                want == emptied(marked, store@),
                self.writes@.len() == marked.len(),
                forall|j: int| 0 <= j < k ==> (#[trigger] self.writes@[j])@ == want[j],
                forall|j: int|
                    k <= j < self.writes@.len() ==> (#[trigger] self.writes@[j])@ == marked[j],
            decreases self.writes.len() - k,
        {
            if texts_eq(self.writes[k].store.as_str(), store) {
                let slot = Slot {
                    store: string_of(store),
                    key: copy_bytes(&self.writes[k].key),
                    value: None,
                };
                assert(slot@ == want[k as int]);
                self.writes.set(k, slot);
            } else {
                assert(want[k as int] == marked[k as int]);
            }
            k = k + 1;
        }
        assert(slots(self.writes@) =~= want);
        Ok(())
    }

    /// Retrieves a document by primary key.
    ///
    /// Reads from the transaction's write buffer first (read-your-writes), then
    /// from what was read before, falling back to the snapshot. What was read
    /// there is noted, so that a repeated read gives the same, whatever was
    /// flushed meanwhile, and the commit finds out whether it was changed.
    pub fn get(&mut self, db: &JsonDB, store: &str, key: &JsonValue) -> (r: Result<
        Option<JsonValue>,
    >)
        requires
            db.well_formed(),
        ensures
            final(self)@ == old(self)@.get(db@, store@, key@).0,
            tx_reads(old(self)@.get(db@, store@, key@).1, r),
    {
        match db.require_store(store) {
            Ok(_) => {},
            Err(e) => {
                return Err(e);
            },
        }
        let pk = match encode_primary_key(key) {
            Ok(pk) => pk,
            Err(e) => {
                return Err(e);
            },
        };
        let i: usize = find_slot(&self.writes, store, &pk);
        if i < self.writes.len() {
            assert(slots(self.writes@)[i as int] == self.writes@[i as int]@);
            return decode_value(&self.writes[i].value);
        }
        let j: usize = find_slot(&self.reads, store, &pk);
        if j < self.reads.len() {
            assert(slots(self.reads@)[j as int] == self.reads@[j as int]@);
            return decode_value(&self.reads[j].value);
        }
        let value = match db.engine().get_bytes_seq(&doc_key(store, &pk), 0, self.snapshot_seq) {
            Some(rec) => Some(rec.value),
            None => None,
        };
        let r = decode_value(&value);
        self.add_read_entry(store, pk, value);
        r
    }
}

/// The byte strings of a sequence.
pub open spec fn byte_lists(s: Seq<Vec<u8>>) -> Seq<Seq<u8>> {
    s.map_values(|v: Vec<u8>| v@)
}

/// Collects the primary keys of the stored documents of a store.
fn find_stored_keys(db: &JsonDB, store: &str) -> (r: Vec<Vec<u8>>)
    requires
        db.well_formed(),
    ensures
        byte_lists(r@) == stored_keys(db@.engine, encode_utf8(store@)),
{
    let prefix = doc_prefix(store);
    let records = db.engine().scan_all(prefix_range(&prefix));
    let ghost all = records_of(records@);
    let ghost want = stored_keys(db@.engine, encode_utf8(store@));
    let mut out: Vec<Vec<u8>> = Vec::new();
    let mut i: usize = 0;
    assert(byte_lists(out@) =~= want.subrange(0, 0));
    while i < records.len()
        invariant
            i <= records.len(),
            prefix@ == doc_prefix_of(encode_utf8(store@)),
            all == records_of(records@),
            all == records_under(db@.engine, doc_prefix_of(encode_utf8(store@))),
            want == stored_keys(db@.engine, encode_utf8(store@)),
            byte_lists(out@) == want.subrange(0, i as int),
        decreases records.len() - i,
    {
        let ghost before = byte_lists(out@);
        assert(all[i as int] == records@[i as int]@);
        let key = copy_tail(&records[i].key, prefix.len());
        let ghost kv = key@;
        out.push(key);
        assert(byte_lists(out@) =~= before.push(kv));
        assert(byte_lists(out@) =~= want.subrange(0, i + 1));
        i = i + 1;
    }
    assert(want.subrange(0, want.len() as int) =~= want);
    out
}

impl JsonDB {
    /// Begins an explicit transaction over the given stores.
    ///
    /// Call [`Transaction::commit`] to apply buffered writes atomically.
    /// Dropping the transaction without calling `commit` discards all writes.
    pub fn transaction(&self, stores: &[&str], mode: TransactionMode) -> (r: Result<Transaction>)
        ensures
            match r {
                Ok(tx) => {
                    &&& forall|i: int|
                        0 <= i < stores@.len() ==> self@.store((#[trigger] stores@[i])@) is Some
                    &&& tx@ == (TxView {
                        mode,
                        snapshot_seq: self@.last_seq(),
                        writes: Seq::empty(),
                        reads: Seq::empty(),
                        ids: Seq::empty(),
                    })
                },
                Err(e) => exists|i: int|
                    {
                        &&& 0 <= i < stores@.len()
                        &&& self@.store((#[trigger] stores@[i])@) is None
                        &&& forall|j: int|
                            0 <= j < i ==> self@.store((#[trigger] stores@[j])@) is Some
                        &&& e@ == no_store(stores@[i]@)
                    },
            },
    {
        let mut i: usize = 0;
        while i < stores.len()
            invariant
                i <= stores.len(),
                forall|j: int| 0 <= j < i ==> self@.store((#[trigger] stores@[j])@) is Some,
            decreases stores.len() - i,
        {
            match self.require_store(stores[i]) {
                Ok(_) => {},
                Err(e) => {
                    assert(self@.store(stores@[i as int]@) is None);
                    return Err(e);
                },
            }
            i = i + 1;
        }
        Ok(Transaction::begin(mode, self.last_seq()))
    }
}

impl DbView {
    /// The number of the last committed write.
    pub open spec fn last_seq(self) -> u64 {
        if self.engine.next_seq == 0 {
            0
        } else {
            (self.engine.next_seq - 1) as u64
        }
    }
}

/// What is stored of a document that a read comes upon: its key, and its bytes
/// where there are any.
pub struct HitView {
    pub pk: Seq<u8>,
    pub value: Option<Seq<u8>>,
}

/// A stored document that a read comes upon.
struct Hit {
    pk: Vec<u8>,
    value: Option<Vec<u8>>,
}

impl View for Hit {
    type V = HitView;

    closed spec fn view(&self) -> HitView {
        HitView { pk: self.pk@, value: bytes_of(self.value) }
    }
}

/// The hits of a sequence.
spec fn hits_of(s: Seq<Hit>) -> Seq<HitView> {
    s.map_values(|h: Hit| h@)
}

/// What a read looks for among the documents of a store.
pub enum WantView {
    /// All documents.
    Any,
    /// Those entered in an index under an encoded value.
    Exactly(IndexDefView, Seq<u8>),
    /// Those entered in an index between two encoded values.
    Between(IndexDefView, Seq<u8>, Seq<u8>),
}

/// An entry of an index, behind the part that all its entries share.
pub open spec fn entry_tail(vals: Seq<Json>, pk: Seq<u8>) -> Seq<u8> {
    composite_value(vals).push(SEP) + pk
}

impl WantView {
    /// One of the entries of a document is looked for.
    pub open spec fn takes(self, vals: Seq<Json>, pk: Seq<u8>) -> bool {
        match self {
            WantView::Any => true,
            WantView::Exactly(_, enc) => has_prefix(entry_tail(vals, pk), enc.push(SEP)),
            WantView::Between(_, start, end) => lex_le(start, entry_tail(vals, pk)) && lex_lt(
                entry_tail(vals, pk),
                end,
            ),
        }
    }

    /// The entries that a document has where the read looks.
    pub open spec fn entries_of(self, doc: Json) -> Seq<Seq<Json>> {
        match self {
            WantView::Any => seq![Seq::<Json>::empty()],
            WantView::Exactly(d, _) => entered_under(doc, d),
            WantView::Between(d, _, _) => entered_under(doc, d),
        }
    }

    /// A document is looked for.
    pub open spec fn accepts(self, doc: Json, pk: Seq<u8>) -> bool {
        exists|i: int|
            0 <= i < self.entries_of(doc).len() && self.takes(
                #[trigger] self.entries_of(doc)[i],
                pk,
            )
    }
}

enum Want {
    Any,
    Exactly(IndexDef, Vec<u8>),
    Between(IndexDef, Vec<u8>, Vec<u8>),
}

impl View for Want {
    type V = WantView;

    closed spec fn view(&self) -> WantView {
        match self {
            Want::Any => WantView::Any,
            Want::Exactly(d, enc) => WantView::Exactly(d@, enc@),
            Want::Between(d, start, end) => WantView::Between(d@, start@, end@),
        }
    }
}

impl Want {
    /// Whether one of the entries of a document is looked for.
    fn takes(&self, vals: &Vec<JsonValue>, pk: &[u8]) -> (r: bool)
        ensures
            r == self@.takes(json_seq(vals@), pk@),
    {
        let mut tail = encode_composite_value(vals);
        tail.push(SEP);
        push_bytes(&mut tail, pk);
        assert(tail@ =~= entry_tail(json_seq(vals@), pk@));
        match self {
            Want::Any => true,
            Want::Exactly(_, enc) => {
                let mut prefix = copy_bytes(enc);
                prefix.push(SEP);
                bytes_start_with(&tail, &prefix)
            },
            Want::Between(_, start, end) => bytes_le(start, &tail) && bytes_lt(&tail, end),
        }
    }

    /// Whether a document is looked for.
    fn accepts(&self, doc: &JsonValue, pk: &[u8]) -> (r: bool)
        ensures
            r == self@.accepts(doc@, pk@),
    {
        let lists = match self {
            Want::Any => {
                proof {
                    assert(self@.takes(self@.entries_of(doc@)[0], pk@));
                }
                return true;
            },
            Want::Exactly(d, _) => extract_index_values(doc, d),
            Want::Between(d, _, _) => extract_index_values(doc, d),
        };
        let ghost all = json_lists(lists@);
        let mut i: usize = 0;
        while i < lists.len()
            invariant
                i <= lists.len(),
                all == json_lists(lists@),
                all == self@.entries_of(doc@),
                forall|j: int| 0 <= j < i ==> !self@.takes(#[trigger] all[j], pk@),
            decreases lists.len() - i,
        {
            assert(all[i as int] == json_seq(lists@[i as int]@));
            if self.takes(&lists[i], pk) {
                assert(self@.takes(self@.entries_of(doc@)[i as int], pk@));
                return true;
            }
            i = i + 1;
        }
        false
    }
}

/// What one step of a read finds: documents, or a complaint.
pub type Found = core::result::Result<Seq<Json>, FlowErrorView>;

/// What the steps of a read find together. The first complaint decides.
pub open spec fn gathered(steps: Seq<Found>) -> Found
    decreases steps.len(),
{
    if steps.len() == 0 {
        Ok(Seq::empty())
    } else {
        match steps.first() {
            Err(e) => Err(e),
            Ok(docs) => followed_by(docs, gathered(steps.drop_first())),
        }
    }
}

/// The document in bytes, if it is looked for.
pub open spec fn wanted_doc(bytes: Seq<u8>, pk: Seq<u8>, want: WantView) -> Found {
    match decoded_doc(bytes) {
        Err(e) => Err(e),
        Ok(doc) => if want.accepts(doc, pk) {
            Ok(seq![doc])
        } else {
            Ok(Seq::empty())
        },
    }
}

/// `key` is that of one of the hits.
pub open spec fn is_hit_key(hits: Seq<HitView>, key: Seq<u8>) -> bool {
    exists|i: int| 0 <= i < hits.len() && (#[trigger] hits[i]).pk == key
}

impl TxView {
    /// What a stored document comes to: what is kept back shows in its place.
    pub open spec fn hit_docs(self, store: Seq<char>, hit: HitView, want: WantView) -> Found {
        match held(self.writes, store, hit.pk) {
            Some(Some(bytes)) => wanted_doc(bytes, hit.pk, want),
            Some(None) => Ok(Seq::empty()),
            None => match hit.value {
                None => Ok(Seq::empty()),
                Some(bytes) => match decoded_doc(bytes) {
                    Err(e) => Err(e),
                    Ok(doc) => Ok(seq![doc]),
                },
            },
        }
    }

    /// A write puts a document of a store that no hit led to.
    pub open spec fn is_new(self, i: int, store: Seq<char>, hits: Seq<HitView>) -> bool {
        self.writes[i].store == store && self.writes[i].value is Some && !is_hit_key(
            hits,
            self.writes[i].key,
        )
    }

    /// What a write comes to that no hit led to.
    pub open spec fn new_docs(self, i: int, store: Seq<char>, hits: Seq<HitView>, want: WantView) -> Found {
        if self.is_new(i, store, hits) {
            wanted_doc(self.writes[i].value->0, self.writes[i].key, want)
        } else {
            Ok(Seq::empty())
        }
    }

    /// The steps of a read that comes upon stored documents.
    pub open spec fn steps(self, store: Seq<char>, hits: Seq<HitView>, want: WantView) -> Seq<Found> {
        Seq::new(hits.len(), |i: int| self.hit_docs(store, hits[i], want)) + Seq::new(
            self.writes.len(),
            |i: int| self.new_docs(i, store, hits, want),
        )
    }

    /// What a read that comes upon stored documents finds.
    pub open spec fn found(self, store: Seq<char>, hits: Seq<HitView>, want: WantView) -> Found {
        gathered(self.steps(store, hits, want))
    }

    /// How many of the stored documents are not deleted.
    pub open spec fn kept(self, store: Seq<char>, hits: Seq<HitView>, n: nat) -> nat
        decreases n,
    {
        if n == 0 || n > hits.len() {
            0
        } else {
            self.kept(store, hits, (n - 1) as nat) + if held(self.writes, store, hits[n - 1].pk)
                == Some(None::<Seq<u8>>) {
                0nat
            } else {
                1nat
            }
        }
    }

    /// How many of the first `n` writes put a document that is not stored.
    pub open spec fn added(self, store: Seq<char>, hits: Seq<HitView>, n: nat) -> nat
        decreases n,
    {
        if n == 0 || n > self.writes.len() {
            0
        } else {
            self.added(store, hits, (n - 1) as nat) + if self.is_new(n - 1, store, hits) {
                1nat
            } else {
                0nat
            }
        }
    }

    /// What a scan of a store finds.
    pub open spec fn scan(self, db: DbView, store: Seq<char>) -> Found {
        match db.store(store) {
            None => Err(no_store(store)),
            Some(_) => self.found(
                store,
                doc_hits(db.engine, encode_utf8(store)),
                WantView::Any,
            ),
        }
    }

    /// What a count of a store's documents gives.
    pub open spec fn count(self, db: DbView, store: Seq<char>) -> core::result::Result<
        nat,
        FlowErrorView,
    > {
        match db.store(store) {
            None => Err(no_store(store)),
            Some(_) => {
                let hits = doc_hits(db.engine, encode_utf8(store));
                Ok(
                    self.kept(store, hits, hits.len()) + self.added(
                        store,
                        hits,
                        self.writes.len(),
                    ),
                )
            },
        }
    }

    /// What a lookup of an index value finds.
    pub open spec fn indexed(self, db: DbView, store: Seq<char>, index: Seq<char>, value: Json) -> Found {
        match db.index(store, index) {
            Err(e) => Err(e),
            Ok(d) => {
                let sb = encode_utf8(store);
                let enc = looked_up(d, value);
                let part = records_under(
                    db.engine,
                    idx_value_prefix_of(sb, encode_utf8(index), enc),
                );
                self.found(store, entry_hits(db.engine, sb, part), WantView::Exactly(d, enc))
            },
        }
    }

    /// What a lookup of a range of index values finds.
    pub open spec fn indexed_range(
        self,
        db: DbView,
        store: Seq<char>,
        index: Seq<char>,
        start: Json,
        end: Json,
    ) -> Found {
        match db.index(store, index) {
            Err(e) => Err(e),
            Ok(d) => {
                let sb = encode_utf8(store);
                let from = looked_up(d, start);
                let to = looked_up(d, end);
                let part = db.records(entry_range(sb, encode_utf8(index), from, to));
                self.found(
                    store,
                    entry_hits(db.engine, sb, part),
                    WantView::Between(d, from, to),
                )
            },
        }
    }
}

/// The stored documents of a store.
pub open spec fn doc_hits(v: EngineView, store: Seq<u8>) -> Seq<HitView> {
    records_under(v, doc_prefix_of(store)).map_values(
        |r: RecordView|
            HitView {
                pk: tail_from(r.key, doc_prefix_of(store).len()),
                value: Some(r.value),
            },
    )
}

/// The stored documents that index entries lead to.
pub open spec fn entry_hits(v: EngineView, store: Seq<u8>, records: Seq<RecordView>) -> Seq<HitView> {
    records.map_values(
        |r: RecordView|
            HitView { pk: r.value, value: snapshot_value(v, store, r.value, u64::MAX) },
    )
}

/// Finds the stored documents of a store.
fn find_doc_hits(db: &JsonDB, store: &str) -> (r: Vec<Hit>)
    requires
        db.well_formed(),
    ensures
        hits_of(r@) == doc_hits(db@.engine, encode_utf8(store@)),
{
    let prefix = doc_prefix(store);
    let records = db.engine().scan_all(prefix_range(&prefix));
    let ghost all = records_of(records@);
    let ghost want = doc_hits(db@.engine, encode_utf8(store@));
    let mut out: Vec<Hit> = Vec::new();
    let mut i: usize = 0;
    assert(hits_of(out@) =~= want.subrange(0, 0));
    while i < records.len()
        invariant
            i <= records.len(),
            prefix@ == doc_prefix_of(encode_utf8(store@)),
            all == records_of(records@),
            all == records_under(db@.engine, doc_prefix_of(encode_utf8(store@))),
            want == doc_hits(db@.engine, encode_utf8(store@)),
            hits_of(out@) == want.subrange(0, i as int),
        decreases records.len() - i,
    {
        let ghost before = hits_of(out@);
        assert(all[i as int] == records@[i as int]@);
        let hit = Hit {
            pk: copy_tail(&records[i].key, prefix.len()),
            value: Some(copy_bytes(&records[i].value)),
        };
        let ghost hv = hit@;
        out.push(hit);
        assert(hv == want[i as int]);
        assert(hits_of(out@) =~= before.push(hv));
        assert(hits_of(out@) =~= want.subrange(0, i + 1));
        i = i + 1;
    }
    assert(want.subrange(0, want.len() as int) =~= want);
    out
}

/// Finds the stored documents that index entries lead to.
fn find_entry_hits(db: &JsonDB, store: &str, records: &Vec<Record>) -> (r: Vec<Hit>)
    requires
        db.well_formed(),
    ensures
        hits_of(r@) == entry_hits(db@.engine, encode_utf8(store@), records_of(records@)),
{
    let ghost all = records_of(records@);
    let ghost want = entry_hits(db@.engine, encode_utf8(store@), all);
    let mut out: Vec<Hit> = Vec::new();
    let mut i: usize = 0;
    assert(hits_of(out@) =~= want.subrange(0, 0));
    while i < records.len()
        invariant
            i <= records.len(),
            db.well_formed(),
            all == records_of(records@),
            want == entry_hits(db@.engine, encode_utf8(store@), all),
            hits_of(out@) == want.subrange(0, i as int),
        decreases records.len() - i,
    {
        let ghost before = hits_of(out@);
        assert(all[i as int] == records@[i as int]@);
        let value = match db.engine().get_bytes_seq(
            &doc_key(store, &records[i].value),
            0,
            u64::MAX,
        ) {
            Some(rec) => Some(rec.value),
            None => None,
        };
        let hit = Hit { pk: copy_bytes(&records[i].value), value };
        let ghost hv = hit@;
        out.push(hit);
        assert(hv == want[i as int]);
        assert(hits_of(out@) =~= before.push(hv));
        assert(hits_of(out@) =~= want.subrange(0, i + 1));
        i = i + 1;
    }
    assert(want.subrange(0, want.len() as int) =~= want);
    out
}

/// Whether `key` is that of one of the hits.
fn has_hit(hits: &Vec<Hit>, key: &[u8]) -> (r: bool)
    ensures
        r == is_hit_key(hits_of(hits@), key@),
{
    let ghost all = hits_of(hits@);
    let mut i: usize = 0;
    while i < hits.len()
        invariant
            i <= hits.len(),
            all == hits_of(hits@),
            forall|j: int| 0 <= j < i ==> (#[trigger] all[j]).pk != key@,
        decreases hits.len() - i,
    {
        assert(all[i as int] == hits@[i as int]@);
        if bytes_eq(&hits[i].pk, key) {
            assert(all[i as int].pk == key@);
            return true;
        }
        i = i + 1;
    }
    false
}

/// `r` is what a step finds: one document at most.
spec fn gives_step(spec: Found, r: Result<Option<JsonValue>>) -> bool {
    match r {
        Ok(Some(doc)) => spec is Ok && spec->Ok_0 == seq![doc@],
        Ok(None) => spec is Ok && spec->Ok_0 == Seq::<Json>::empty(),
        Err(e) => spec is Err && spec->Err_0 == e@,
    }
}

/// Decodes a document if it is looked for.
fn decode_wanted(bytes: &Vec<u8>, pk: &[u8], want: &Want) -> (r: Result<Option<JsonValue>>)
    ensures
        gives_step(wanted_doc(bytes@, pk@, want@), r),
{
    match decode_doc(bytes) {
        Ok(doc) => if want.accepts(&doc, pk) {
            Ok(Some(doc))
        } else {
            Ok(None)
        },
        Err(e) => Err(e),
    }
}

impl Transaction {
    /// What a stored document comes to.
    fn hit_step(&self, store: &str, hit: &Hit, want: &Want) -> (r: Result<Option<JsonValue>>)
        ensures
            gives_step(self@.hit_docs(store@, hit@, want@), r),
    {
        proof {
            lemma_slot_position(slots(self.writes@), store@, hit.pk@);
        }
        let i: usize = find_slot(&self.writes, store, &hit.pk);
        if i < self.writes.len() {
            assert(slots(self.writes@)[i as int] == self.writes@[i as int]@);
            return match &self.writes[i].value {
                Some(bytes) => decode_wanted(bytes, &hit.pk, want),
                None => Ok(None),
            };
        }
        decode_value(&hit.value)
    }

    /// What a write comes to that no hit led to.
    fn new_step(&self, i: usize, store: &str, hits: &Vec<Hit>, want: &Want) -> (r: Result<
        Option<JsonValue>,
    >)
        requires
            i < self@.writes.len(),
        ensures
            gives_step(self@.new_docs(i as int, store@, hits_of(hits@), want@), r),
    {
        assert(self@.writes[i as int] == self.writes@[i as int]@);
        let slot = &self.writes[i];
        if texts_eq(slot.store.as_str(), store) {
            if let Some(bytes) = &slot.value {
                if !has_hit(hits, &slot.key) {
                    return decode_wanted(bytes, &slot.key, want);
                }
            }
        }
        Ok(None)
    }

    /// Collects what a read finds that comes upon stored documents.
    fn gather(&self, store: &str, hits: &Vec<Hit>, want: &Want) -> (r: Result<Vec<JsonValue>>)
        ensures
            gives_list(self@.found(store@, hits_of(hits@), want@), r),
    {
        let ghost hv = hits_of(hits@);
        let ghost steps = self@.steps(store@, hv, want@);
        let ghost whole = gathered(steps);
        let ghost n = steps.len();
        let mut out: Vec<JsonValue> = Vec::new();
        let mut i: usize = 0;
        proof {
            assert(steps.subrange(0, n as int) =~= steps);
            assert(json_seq(out@) =~= Seq::<Json>::empty());
            if whole is Ok {
                assert(Seq::<Json>::empty() + whole->Ok_0 =~= whole->Ok_0);
            }
        }
        while i < hits.len()
            invariant
                i <= hits.len(),
                hv == hits_of(hits@),
                steps == self@.steps(store@, hv, want@),
                whole == gathered(steps),
                n == steps.len(),
                n == hv.len() + self@.writes.len(),
                whole == followed_by(
                    json_seq(out@),
                    gathered(steps.subrange(i as int, n as int)),
                ),
            decreases hits.len() - i,
        {
            let ghost rest = steps.subrange(i as int, n as int);
            let ghost before = json_seq(out@);
            proof {
                assert(hv[i as int] == hits@[i as int]@);
                assert(rest.first() == self@.hit_docs(store@, hv[i as int], want@));
                assert(rest.drop_first() =~= steps.subrange(i + 1, n as int));
            }
            match self.hit_step(store, &hits[i], want) {
                Ok(step) => {
                    proof {
                        lemma_step_done(
                            before,
                            rest.first()->Ok_0,
                            gathered(rest.drop_first()),
                        );
                    }
                    if let Some(doc) = step {
                        let ghost d = doc@;
                        out.push(doc);
                        assert(json_seq(out@) =~= before + seq![d]);
                    } else {
                        assert(before + Seq::<Json>::empty() =~= before);
                    }
                },
                Err(e) => {
                    return Err(e);
                },
            }
            i = i + 1;
        }
        let mut k: usize = 0;
        while k < self.writes.len()
            invariant
                k <= self.writes.len(),
                self@.writes.len() == self.writes@.len(),
                i == hits.len(),
                hv == hits_of(hits@),
                steps == self@.steps(store@, hv, want@),
                whole == gathered(steps),
                n == steps.len(),
                n == hv.len() + self@.writes.len(),
                whole == followed_by(
                    json_seq(out@),
                    gathered(steps.subrange(i + k, n as int)),
                ),
            decreases self.writes.len() - k,
        {
            let ghost rest = steps.subrange(i + k, n as int);
            let ghost before = json_seq(out@);
            proof {
                assert(rest.first() == self@.new_docs(k as int, store@, hv, want@));
                assert(rest.drop_first() =~= steps.subrange(i + k + 1, n as int));
            }
            match self.new_step(k, store, hits, want) {
                Ok(step) => {
                    proof {
                        lemma_step_done(
                            before,
                            rest.first()->Ok_0,
                            gathered(rest.drop_first()),
                        );
                    }
                    if let Some(doc) = step {
                        let ghost d = doc@;
                        out.push(doc);
                        assert(json_seq(out@) =~= before + seq![d]);
                    } else {
                        assert(before + Seq::<Json>::empty() =~= before);
                    }
                },
                Err(e) => {
                    return Err(e);
                },
            }
            k = k + 1;
        }
        assert(json_seq(out@) + Seq::<Json>::empty() =~= json_seq(out@));
        Ok(out)
    }

    /// Retrieves all documents in a store (visible within this transaction).
    pub fn scan(&self, db: &JsonDB, store: &str) -> (r: Result<Vec<JsonValue>>)
        requires
            db.well_formed(),
        ensures
            gives_list(self@.scan(db@, store@), r),
    {
        match db.require_store(store) {
            Ok(_) => {
                let hits = find_doc_hits(db, store);
                self.gather(store, &hits, &Want::Any)
            },
            Err(e) => Err(e),
        }
    }

    /// Counts documents (visible within this transaction).
    pub fn count(&self, db: &JsonDB, store: &str) -> (r: Result<usize>)
        requires
            db.well_formed(),
        ensures
            match self@.count(db@, store@) {
                Ok(n) => match r {
                    Ok(k) => k == n,
                    Err(e) => n > usize::MAX && e@ == too_many(),
                },
                Err(e) => r is Err && r->Err_0@ == e,
            },
    {
        match db.require_store(store) {
            Ok(_) => {},
            Err(e) => {
                return Err(e);
            },
        }
        let hits = find_doc_hits(db, store);
        let ghost hv = hits_of(hits@);
        let mut count: usize = 0;
        let mut i: usize = 0;
        while i < hits.len()
            invariant
                i <= hits.len(),
                hv == hits_of(hits@),
                count <= i,
                count == self@.kept(store@, hv, i as nat),
            decreases hits.len() - i,
        {
            assert(hv[i as int] == hits@[i as int]@);
            proof {
                lemma_slot_position(slots(self.writes@), store@, hv[i as int].pk);
            }
            let k: usize = find_slot(&self.writes, store, &hits[i].pk);
            let deleted = if k < self.writes.len() {
                assert(slots(self.writes@)[k as int] == self.writes@[k as int]@);
                self.writes[k].value.is_none()
            } else {
                false
            };
            if !deleted {
                count = count + 1;
            }
            i = i + 1;
        }
        let mut k: usize = 0;
        while k < self.writes.len()
            invariant
                k <= self.writes.len(),
                self@.writes.len() == self.writes@.len(),
                hv == hits_of(hits@),
                count == self@.kept(store@, hv, hv.len()) + self@.added(store@, hv, k as nat),
                self@.count(db@, store@) is Ok,
                self@.count(db@, store@)->Ok_0 == self@.kept(store@, hv, hv.len())
                    + self@.added(store@, hv, self@.writes.len()),
            decreases self.writes.len() - k,
        {
            assert(self@.writes[k as int] == self.writes@[k as int]@);
            let slot = &self.writes[k];
            if texts_eq(slot.store.as_str(), store) && slot.value.is_some() && !has_hit(
                &hits,
                &slot.key,
            ) {
                if count == usize::MAX {
                    proof {
                        lemma_added_grows(self@, store@, hv, (k + 1) as nat, self@.writes.len());
                    }
                    return Err(FlowError::Other(string_of("too many documents to count")));
                }
                count = count + 1;
            }
            k = k + 1;
        }
        Ok(count)
    }

    /// Looks up documents by exact index value within this transaction.
    pub fn get_by_index(&self, db: &JsonDB, store: &str, index: &str, value: &JsonValue) -> (r:
        Result<Vec<JsonValue>>)
        requires
            db.well_formed(),
        ensures
            gives_list(self@.indexed(db@, store@, index@, value@), r),
    {
        let idx = match db.require_index(store, index) {
            Ok(d) => d,
            Err(e) => {
                return Err(e);
            },
        };
        let enc = encode_lookup(&idx, value);
        let prefix = idx_value_prefix(store, index, &enc);
        let records = db.engine().scan_all(prefix_range(&prefix));
        let hits = find_entry_hits(db, store, &records);
        self.gather(store, &hits, &Want::Exactly(idx, enc))
    }

    /// Looks up documents by index value range within this transaction.
    pub fn range_by_index(
        &self,
        db: &JsonDB,
        store: &str,
        index: &str,
        start: &JsonValue,
        end: &JsonValue,
    ) -> (r: Result<Vec<JsonValue>>)
        requires
            db.well_formed(),
        ensures
            gives_list(self@.indexed_range(db@, store@, index@, start@, end@), r),
    {
        let idx = match db.require_index(store, index) {
            Ok(d) => d,
            Err(e) => {
                return Err(e);
            },
        };
        let from = encode_lookup(&idx, start);
        let to = encode_lookup(&idx, end);
        let range = index_stretch(store, index, &from, &to);
        let records = db.engine().scan_all(range);
        let hits = find_entry_hits(db, store, &records);
        self.gather(store, &hits, &Want::Between(idx, from, to))
    }

    /// Aborts the transaction (discards all buffered writes).
    pub fn abort(self) {
    }
}

pub open spec fn too_many() -> FlowErrorView {
    FlowErrorView::Other("too many documents to count"@)
}

/// More writes put no fewer documents.
proof fn lemma_added_grows(tx: TxView, store: Seq<char>, hits: Seq<HitView>, k: nat, n: nat)
    requires
        k <= n <= tx.writes.len(),
    ensures
        tx.added(store, hits, k) <= tx.added(store, hits, n),
    decreases n,
{
    if k < n {
        lemma_added_grows(tx, store, hits, k, (n - 1) as nat);
    }
}

/// A step's documents go behind those that were found before.
proof fn lemma_step_done(before: Seq<Json>, docs: Seq<Json>, rest: Found)
    ensures
        followed_by(before, followed_by(docs, rest)) == followed_by(before + docs, rest),
{
    if rest is Ok {
        assert(before + (docs + rest->Ok_0) =~= (before + docs) + rest->Ok_0);
    }
}

/// The position of the first read, from one on, of a document that is not as
/// it was read; the number of reads where all are.
pub open spec fn first_changed(reads: Seq<SlotView>, v: EngineView, from: int) -> int
    decreases reads.len() - from,
{
    if from < 0 || from >= reads.len() || snapshot_value(
        v,
        encode_utf8(reads[from].store),
        reads[from].key,
        u64::MAX,
    ) != reads[from].value {
        from
    } else {
        first_changed(reads, v, from + 1)
    }
}

/// The documents of the first `n` writes.
pub open spec fn written_docs(writes: Seq<SlotView>, n: nat) -> core::result::Result<
    Seq<Option<Json>>,
    FlowErrorView,
>
    decreases n,
{
    if n == 0 || n > writes.len() {
        Ok(Seq::empty())
    } else {
        match written_docs(writes, (n - 1) as nat) {
            Err(e) => Err(e),
            Ok(docs) => match decoded_value(writes[n - 1].value) {
                Err(e) => Err(e),
                Ok(doc) => Ok(docs.push(doc)),
            },
        }
    }
}

/// A document is entered in an index under an encoded value.
pub open spec fn entered_as(doc: Json, d: IndexDefView, enc: Seq<u8>) -> bool {
    exists|i: int|
        0 <= i < entered_under(doc, d).len() && composite_value(
            #[trigger] entered_under(doc, d)[i],
        ) == enc
}

/// Another write of the transaction takes an index value.
pub open spec fn taken_in_tx(
    writes: Seq<SlotView>,
    docs: Seq<Option<Json>>,
    k: int,
    d: IndexDefView,
    enc: Seq<u8>,
) -> bool {
    exists|j: int|
        #![trigger docs[j]]
        0 <= j < docs.len() && docs[j] is Some && writes[j].store == writes[k].store
            && writes[j].key != writes[k].key && entered_as(docs[j]->0, d, enc)
}

/// The complaint about the first of the first `n` entries of the document of a
/// write whose value another document has, stored or written with it.
pub open spec fn entry_complaint(
    v: EngineView,
    writes: Seq<SlotView>,
    docs: Seq<Option<Json>>,
    k: int,
    d: IndexDefView,
    lists: Seq<Seq<Json>>,
    n: nat,
) -> Option<FlowErrorView>
    decreases n,
{
    if n == 0 || n > lists.len() {
        None
    } else {
        match entry_complaint(v, writes, docs, k, d, lists, (n - 1) as nat) {
            Some(e) => Some(e),
            None => if taken_by_other(
                v,
                encode_utf8(writes[k].store),
                encode_utf8(d.name),
                lists[n - 1],
                writes[k].key,
            ) {
                Some(unique_error(d.name, lists[n - 1]))
            } else if taken_in_tx(writes, docs, k, d, composite_value(lists[n - 1])) {
                Some(tx_unique_error(d.name, lists[n - 1]))
            } else {
                None
            },
        }
    }
}

/// The complaint about the first of the first `n` indexes that is unique and
/// does not take the document of a write.
pub open spec fn write_complaint(
    v: EngineView,
    writes: Seq<SlotView>,
    docs: Seq<Option<Json>>,
    k: int,
    indexes: Seq<IndexDefView>,
    n: nat,
) -> Option<FlowErrorView>
    decreases n,
{
    if n == 0 || n > indexes.len() {
        None
    } else {
        match write_complaint(v, writes, docs, k, indexes, (n - 1) as nat) {
            Some(e) => Some(e),
            None => {
                let d = indexes[n - 1];
                if d.unique {
                    let lists = entered_under(docs[k]->0, d);
                    entry_complaint(v, writes, docs, k, d, lists, lists.len())
                } else {
                    None
                }
            },
        }
    }
}

/// The entries that a write comes to.
pub open spec fn write_entries(
    db: DbView,
    writes: Seq<SlotView>,
    docs: Seq<Option<Json>>,
    k: int,
) -> core::result::Result<Seq<Entry>, FlowErrorView> {
    match db.store(writes[k].store) {
        None => Err(no_store(writes[k].store)),
        Some(def) => {
            let sb = encode_utf8(writes[k].store);
            let pk = writes[k].key;
            let old_gone = old_entries(db.engine, def, sb, pk);
            match docs[k] {
                None => Ok(old_gone.push(Entry::deletion(doc_key_of(sb, pk), 0, 0))),
                Some(doc) => match write_complaint(
                    db.engine,
                    writes,
                    docs,
                    k,
                    def.indexes,
                    def.indexes.len(),
                ) {
                    Some(e) => Err(e),
                    None => Ok(
                        old_gone.push(
                            Entry::put(
                                plain_record(doc_key_of(sb, pk), writes[k].value->0),
                                0,
                            ),
                        ) + all_puts(def.indexes, def.indexes.len(), doc, sb, pk),
                    ),
                },
            }
        },
    }
}

/// The entries that the first `n` writes come to.
pub open spec fn all_entries(
    db: DbView,
    writes: Seq<SlotView>,
    docs: Seq<Option<Json>>,
    n: nat,
) -> core::result::Result<Seq<Entry>, FlowErrorView>
    decreases n,
{
    if n == 0 || n > writes.len() {
        Ok(Seq::empty())
    } else {
        match all_entries(db, writes, docs, (n - 1) as nat) {
            Err(e) => Err(e),
            Ok(s) => match write_entries(db, writes, docs, n - 1) {
                Err(e) => Err(e),
                Ok(t) => Ok(s + t),
            },
        }
    }
}

impl TxView {
    /// The puts of the last ids.
    pub open spec fn id_puts(self) -> Seq<Entry> {
        self.ids.map_values(|t: (Seq<char>, u64)| counter_put(encode_utf8(t.0), t.1))
    }

    /// The entries that a commit comes to, or the complaint that refuses it.
    pub open spec fn commit_plan(self, db: DbView) -> core::result::Result<
        Seq<Entry>,
        FlowErrorView,
    > {
        let c = first_changed(self.reads, db.engine, 0);
        if c < self.reads.len() {
            Err(conflict_error(self.reads[c].store))
        } else {
            match written_docs(self.writes, self.writes.len()) {
                Err(e) => Err(e),
                Ok(docs) => match all_entries(db, self.writes, docs, self.writes.len()) {
                    Err(e) => Err(e),
                    Ok(es) => Ok(self.id_puts() + es),
                },
            }
        }
    }

    /// What a commit comes to: all entries are written, or nothing is.
    pub open spec fn commit(self, db: DbView) -> (DbView, Option<FlowErrorView>) {
        match self.commit_plan(db) {
            Err(e) => (db, Some(e)),
            Ok(es) => if es.len() == 0 {
                (db, None)
            } else {
                db.committed(es, db.schema)
            },
        }
    }
}

/// The documents of a sequence, where there are any.
spec fn docs_of(s: Seq<Option<JsonValue>>) -> Seq<Option<Json>> {
    s.map_values(|v: Option<JsonValue>| bound_view(v))
}

/// Once one document could not be decoded, none of more are.
proof fn lemma_written_docs_fail(writes: Seq<SlotView>, k: nat, n: nat)
    requires
        k < n <= writes.len(),
        written_docs(writes, k) is Ok,
        decoded_value(writes[k as int].value) is Err,
    ensures
        written_docs(writes, n) is Err,
        written_docs(writes, n)->Err_0 == decoded_value(writes[k as int].value)->Err_0,
    decreases n,
{
    if n > k + 1 {
        lemma_written_docs_fail(writes, k, (n - 1) as nat);
    }
}

/// Once one write is refused, all are.
proof fn lemma_all_entries_fail(
    db: DbView,
    writes: Seq<SlotView>,
    docs: Seq<Option<Json>>,
    k: nat,
    n: nat,
)
    requires
        k < n <= writes.len(),
        all_entries(db, writes, docs, k) is Ok,
        write_entries(db, writes, docs, k as int) is Err,
    ensures
        all_entries(db, writes, docs, n) is Err,
        all_entries(db, writes, docs, n)->Err_0 == write_entries(
            db,
            writes,
            docs,
            k as int,
        )->Err_0,
    decreases n,
{
    if n > k + 1 {
        lemma_all_entries_fail(db, writes, docs, k, (n - 1) as nat);
    }
}

/// The first complaint about an entry decides.
proof fn lemma_entry_complaint_stays(
    v: EngineView,
    writes: Seq<SlotView>,
    docs: Seq<Option<Json>>,
    k: int,
    d: IndexDefView,
    lists: Seq<Seq<Json>>,
    m: nat,
    n: nat,
)
    requires
        m <= n <= lists.len(),
        entry_complaint(v, writes, docs, k, d, lists, m) is Some,
    ensures
        entry_complaint(v, writes, docs, k, d, lists, n) == entry_complaint(
            v,
            writes,
            docs,
            k,
            d,
            lists,
            m,
        ),
    decreases n,
{
    if n > m {
        lemma_entry_complaint_stays(v, writes, docs, k, d, lists, m, (n - 1) as nat);
    }
}

/// The first complaint about an index decides.
proof fn lemma_write_complaint_stays(
    v: EngineView,
    writes: Seq<SlotView>,
    docs: Seq<Option<Json>>,
    k: int,
    indexes: Seq<IndexDefView>,
    m: nat,
    n: nat,
)
    requires
        m <= n <= indexes.len(),
        write_complaint(v, writes, docs, k, indexes, m) is Some,
    ensures
        write_complaint(v, writes, docs, k, indexes, n) == write_complaint(
            v,
            writes,
            docs,
            k,
            indexes,
            m,
        ),
    decreases n,
{
    if n > m {
        lemma_write_complaint_stays(v, writes, docs, k, indexes, m, (n - 1) as nat);
    }
}

/// Whether a document is entered in an index under an encoded value.
fn is_entered_as(doc: &JsonValue, d: &IndexDef, enc: &[u8]) -> (r: bool)
    ensures
        r == entered_as(doc@, d@, enc@),
{
    let lists = extract_index_values(doc, d);
    let ghost all = json_lists(lists@);
    let mut i: usize = 0;
    while i < lists.len()
        invariant
            i <= lists.len(),
            all == json_lists(lists@),
            all == entered_under(doc@, d@),
            forall|j: int| 0 <= j < i ==> composite_value(#[trigger] all[j]) != enc@,
        decreases lists.len() - i,
    {
        assert(all[i as int] == json_seq(lists@[i as int]@));
        if bytes_eq(&encode_composite_value(&lists[i]), enc) {
            assert(composite_value(entered_under(doc@, d@)[i as int]) == enc@);
            return true;
        }
        i = i + 1;
    }
    false
}

impl Transaction {
    /// Decodes the documents that are to be written.
    fn decode_writes(&self) -> (r: Result<Vec<Option<JsonValue>>>)
        ensures
            ({
                let spec = written_docs(self@.writes, self@.writes.len());
                match r {
                    Ok(docs) => spec is Ok && docs_of(docs@) == spec->Ok_0 && docs@.len()
                        == self@.writes.len(),
                    Err(e) => spec is Err && e@ == spec->Err_0,
                }
            }),
    {
        let ghost ws = self@.writes;
        let mut out: Vec<Option<JsonValue>> = Vec::new();
        let mut i: usize = 0;
        assert(docs_of(out@) =~= Seq::<Option<Json>>::empty());
        while i < self.writes.len()
            invariant
                i <= self.writes.len(),
                ws == self@.writes,
                ws.len() == self.writes@.len(),
                out@.len() == i,
                written_docs(ws, i as nat) is Ok,
                written_docs(ws, i as nat)->Ok_0 == docs_of(out@),
            decreases self.writes.len() - i,
        {
            assert(ws[i as int] == self.writes@[i as int]@);
            let ghost before = docs_of(out@);
            match decode_value(&self.writes[i].value) {
                Ok(doc) => {
                    let ghost dv = bound_view(doc);
                    out.push(doc);
                    assert(docs_of(out@) =~= before.push(dv));
                },
                Err(e) => {
                    proof {
                        lemma_written_docs_fail(ws, i as nat, ws.len());
                    }
                    return Err(e);
                },
            }
            i = i + 1;
        }
        Ok(out)
    }

    /// Whether another write of the transaction takes an index value.
    fn is_taken_here(&self, docs: &Vec<Option<JsonValue>>, k: usize, d: &IndexDef, enc: &[u8]) -> (r:
        bool)
        requires
            k < self@.writes.len(),
            docs@.len() == self@.writes.len(),
        ensures
            r == taken_in_tx(self@.writes, docs_of(docs@), k as int, d@, enc@),
    {
        let ghost ws = self@.writes;
        let ghost ds = docs_of(docs@);
        let mut j: usize = 0;
        while j < docs.len()
            invariant
                j <= docs.len(),
                k < ws.len(),
                ws == self@.writes,
                ws.len() == self.writes@.len(),
                ds == docs_of(docs@),
                docs@.len() == ws.len(),
                forall|l: int|
                    #![trigger ds[l]]
                    0 <= l < j ==> !(ds[l] is Some && ws[l].store == ws[k as int].store && ws[l].key
                        != ws[k as int].key && entered_as(ds[l]->0, d@, enc@)),
            decreases docs.len() - j,
        {
            assert(ws[j as int] == self.writes@[j as int]@);
            assert(ws[k as int] == self.writes@[k as int]@);
            if let Some(doc) = &docs[j] {
                assert(ds[j as int] == Some(doc@));
                if texts_eq(self.writes[j].store.as_str(), self.writes[k].store.as_str())
                    && !bytes_eq(&self.writes[j].key, &self.writes[k].key) && is_entered_as(
                    doc,
                    d,
                    enc,
                ) {
                    return true;
                }
            } else {
                assert(ds[j as int] is None);
            }
            j = j + 1;
        }
        false
    }

    /// Looks for a unique index that does not take the document of a write.
    fn check_write(
        &self,
        db: &JsonDB,
        def: &StoreDef,
        docs: &Vec<Option<JsonValue>>,
        k: usize,
        doc: &JsonValue,
    ) -> (r: Result<()>)
        requires
            db.well_formed(),
            k < self@.writes.len(),
            docs@.len() == self@.writes.len(),
            docs_of(docs@)[k as int] == Some(doc@),
        ensures
            ({
                let c = write_complaint(
                    db@.engine,
                    self@.writes,
                    docs_of(docs@),
                    k as int,
                    def@.indexes,
                    def@.indexes.len(),
                );
                match r {
                    Ok(_) => c is None,
                    Err(e) => c == Some(e@),
                }
            }),
    {
        let ghost ws = self@.writes;
        let ghost ds = docs_of(docs@);
        let ghost all = def@.indexes;
        let ghost ev = db@.engine;
        assert(ws[k as int] == self.writes@[k as int]@);
        let store = self.writes[k].store.as_str();
        let mut i: usize = 0;
        while i < def.indexes.len()
            invariant
                i <= def.indexes.len(),
                db.well_formed(),
                ev == db@.engine,
                ws == self@.writes,
                ds == docs_of(docs@),
                all == def@.indexes,
                k < ws.len(),
                ws.len() == self.writes@.len(),
                docs@.len() == ws.len(),
                ds[k as int] == Some(doc@),
                ws[k as int] == self.writes@[k as int]@,
                store@ == ws[k as int].store,
                write_complaint(ev, ws, ds, k as int, all, i as nat) is None,
            decreases def.indexes.len() - i,
        {
            let idx = &def.indexes[i];
            assert(all[i as int] == idx@);
            if idx.unique {
                let lists = extract_index_values(doc, idx);
                let ghost ls = json_lists(lists@);
                let mut m: usize = 0;
                while m < lists.len()
                    invariant
                        m <= lists.len(),
                        db.well_formed(),
                        ev == db@.engine,
                        ws == self@.writes,
                        ds == docs_of(docs@),
                        all == def@.indexes,
                        i < def.indexes.len(),
                        all[i as int] == idx@,
                        idx.unique,
                        k < ws.len(),
                        ws.len() == self.writes@.len(),
                        docs@.len() == ws.len(),
                        ds[k as int] == Some(doc@),
                        ws[k as int] == self.writes@[k as int]@,
                        store@ == ws[k as int].store,
                        ls == json_lists(lists@),
                        ls == entered_under(doc@, idx@),
                        write_complaint(ev, ws, ds, k as int, all, i as nat) is None,
                        entry_complaint(ev, ws, ds, k as int, idx@, ls, m as nat) is None,
                    decreases lists.len() - m,
                {
                    assert(ls[m as int] == json_seq(lists@[m as int]@));
                    let key = &self.writes[k].key;
                    if is_taken(db.engine(), store, idx.name.as_str(), &lists[m], key) {
                        proof {
                            lemma_entry_complaint_stays(
                                ev,
                                ws,
                                ds,
                                k as int,
                                idx@,
                                ls,
                                (m + 1) as nat,
                                ls.len(),
                            );
                            lemma_write_complaint_stays(
                                ev,
                                ws,
                                ds,
                                k as int,
                                all,
                                (i + 1) as nat,
                                all.len(),
                            );
                        }
                        return Err(
                            FlowError::JsonDb(
                                text5(
                                    "unique constraint violation: index '",
                                    idx.name.as_str(),
                                    "' value '",
                                    &list_debug_text(&lists[m]),
                                    "' already exists",
                                ),
                            ),
                        );
                    }
                    let enc = encode_composite_value(&lists[m]);
                    if self.is_taken_here(docs, k, idx, &enc) {
                        proof {
                            lemma_entry_complaint_stays(
                                ev,
                                ws,
                                ds,
                                k as int,
                                idx@,
                                ls,
                                (m + 1) as nat,
                                ls.len(),
                            );
                            lemma_write_complaint_stays(
                                ev,
                                ws,
                                ds,
                                k as int,
                                all,
                                (i + 1) as nat,
                                all.len(),
                            );
                        }
                        return Err(
                            FlowError::JsonDb(
                                text5(
                                    "unique constraint violation in transaction: index '",
                                    idx.name.as_str(),
                                    "' value '",
                                    &list_debug_text(&lists[m]),
                                    "'",
                                ),
                            ),
                        );
                    }
                    m = m + 1;
                }
            }
            i = i + 1;
        }
        Ok(())
    }

    /// The records that a write comes to.
    fn build_write(&self, db: &JsonDB, docs: &Vec<Option<JsonValue>>, k: usize) -> (r: Result<
        Vec<InternalRecord>,
    >)
        requires
            db.well_formed(),
            k < self@.writes.len(),
            docs@.len() == self@.writes.len(),
            written_docs(self@.writes, self@.writes.len()) is Ok,
            written_docs(self@.writes, self@.writes.len())->Ok_0 == docs_of(docs@),
        ensures
            ({
                let spec = write_entries(db@, self@.writes, docs_of(docs@), k as int);
                match r {
                    Ok(v) => spec is Ok && entries(v@) == spec->Ok_0,
                    Err(e) => spec is Err && e@ == spec->Err_0,
                }
            }),
    {
        let ghost ws = self@.writes;
        let ghost ds = docs_of(docs@);
        proof {
            assert(ws[k as int] == self.writes@[k as int]@);
            lemma_written_doc(ws, ws.len(), k as int);
        }
        let slot = &self.writes[k];
        let store = slot.store.as_str();
        let def = match db.require_store(store) {
            Ok(d) => d,
            Err(e) => {
                return Err(e);
            },
        };
        let mut out = delete_old_entries(&def, store, &slot.key, db.engine());
        let ghost gone = entries(out@);
        match (&docs[k], &slot.value) {
            (Some(doc), Some(bytes)) => {
                assert(ds[k as int] == Some(doc@));
                match self.check_write(db, &def, docs, k, doc) {
                    Ok(_) => {},
                    Err(e) => {
                        return Err(e);
                    },
                }
                push_doc_puts(&mut out, &def, store, &slot.key, bytes, doc);
                Ok(out)
            },
            _ => {
                assert(ds[k as int] is None);
                let rec = InternalRecord::delete(doc_key(store, &slot.key), 0, 0);
                let ghost e = rec@;
                out.push(rec);
                assert(entries(out@) =~= gone.push(e));
                Ok(out)
            },
        }
    }

    /// Looks for a document that is not as it was read.
    fn check_reads(&self, db: &JsonDB) -> (r: Result<()>)
        requires
            db.well_formed(),
        ensures
            ({
                let c = first_changed(self@.reads, db@.engine, 0);
                match r {
                    Ok(_) => c >= self@.reads.len(),
                    Err(e) => 0 <= c < self@.reads.len() && e@ == conflict_error(
                        self@.reads[c].store,
                    ),
                }
            }),
    {
        let ghost rs = self@.reads;
        let mut i: usize = 0;
        while i < self.reads.len()
            invariant
                i <= self.reads.len(),
                db.well_formed(),
                rs == self@.reads,
                rs.len() == self.reads@.len(),
                first_changed(rs, db@.engine, 0) == first_changed(rs, db@.engine, i as int),
            decreases self.reads.len() - i,
        {
            assert(rs[i as int] == self.reads@[i as int]@);
            let slot = &self.reads[i];
            let now = db.engine().get_bytes_seq(
                &doc_key(slot.store.as_str(), &slot.key),
                0,
                u64::MAX,
            );
            let same = match (&now, &slot.value) {
                (Some(rec), Some(bytes)) => bytes_eq(&rec.value, bytes),
                (None, None) => true,
                _ => false,
            };
            if !same {
                return Err(
                    FlowError::JsonDb(
                        text3(
                            "transaction conflict: a document read from store '",
                            slot.store.as_str(),
                            "' was changed by another writer",
                        ),
                    ),
                );
            }
            i = i + 1;
        }
        Ok(())
    }

    /// The records that a commit comes to.
    fn build_commit(&self, db: &JsonDB) -> (r: Result<Vec<InternalRecord>>)
        requires
            db.well_formed(),
        ensures
            ({
                let spec = self@.commit_plan(db@);
                match r {
                    Ok(v) => spec is Ok && entries(v@) == spec->Ok_0,
                    Err(e) => spec is Err && e@ == spec->Err_0,
                }
            }),
    {
        match self.check_reads(db) {
            Ok(_) => {},
            Err(e) => {
                return Err(e);
            },
        }
        let docs = match self.decode_writes() {
            Ok(d) => d,
            Err(e) => {
                return Err(e);
            },
        };
        let ghost ws = self@.writes;
        let ghost ds = docs_of(docs@);
        let ghost puts = self@.id_puts();
        let mut out: Vec<InternalRecord> = Vec::new();
        let mut i: usize = 0;
        assert(entries(out@) =~= puts.subrange(0, 0));
        while i < self.ids.len()
            invariant
                i <= self.ids.len(),
                puts == self@.id_puts(),
                puts.len() == self.ids@.len(),
                entries(out@) == puts.subrange(0, i as int),
            decreases self.ids.len() - i,
        {
            let ghost before = entries(out@);
            assert(self@.ids[i as int] == (self.ids@[i as int].0@, self.ids@[i as int].1));
            let rec = counter_record(self.ids[i].0.as_str(), self.ids[i].1);
            let ghost e = rec@;
            out.push(rec);
            assert(e == puts[i as int]);
            assert(entries(out@) =~= before.push(e));
            assert(entries(out@) =~= puts.subrange(0, i + 1));
            i = i + 1;
        }
        assert(puts.subrange(0, puts.len() as int) =~= puts);
        let mut k: usize = 0;
        assert(puts + Seq::<Entry>::empty() =~= puts);
        while k < self.writes.len()
            invariant
                k <= self.writes.len(),
                db.well_formed(),
                ws == self@.writes,
                ws.len() == self.writes@.len(),
                ds == docs_of(docs@),
                docs@.len() == ws.len(),
                first_changed(self@.reads, db@.engine, 0) >= self@.reads.len(),
                written_docs(ws, ws.len()) is Ok,
                written_docs(ws, ws.len())->Ok_0 == ds,
                all_entries(db@, ws, ds, k as nat) is Ok,
                entries(out@) == puts + all_entries(db@, ws, ds, k as nat)->Ok_0,
            decreases self.writes.len() - k,
        {
            let ghost before = entries(out@);
            let ghost so_far = all_entries(db@, ws, ds, k as nat)->Ok_0;
            match self.build_write(db, &docs, k) {
                Ok(more) => {
                    let mut more = more;
                    let ghost m = entries(more@);
                    out.append(&mut more);
                    assert(entries(out@) =~= before + m);
                    assert((puts + so_far) + m =~= puts + (so_far + m));
                },
                Err(e) => {
                    proof {
                        lemma_all_entries_fail(db@, ws, ds, k as nat, ws.len());
                    }
                    return Err(e);
                },
            }
            k = k + 1;
        }
        Ok(out)
    }

    /// Commits all buffered writes atomically.
    ///
    /// The commit is refused, and nothing is written, where a document that
    /// was read has been changed since, or where a unique index holds a value
    /// for another document.
    pub fn commit(self, db: &mut JsonDB) -> (r: Result<()>)
        requires
            old(db).well_formed(),
        ensures
            final(db).well_formed(),
            final(db).settings() == old(db).settings(),
            comes_to(self@.commit(old(db)@), final(db)@, r),
    {
        match self.build_commit(db) {
            Ok(records) => {
                assert(entries(records@).len() == records@.len());
                if records.len() == 0 {
                    return Ok(());
                }
                db.write_records(records)
            },
            Err(e) => Err(e),
        }
    }
}

/// Each write has a document where it puts one.
proof fn lemma_written_doc(writes: Seq<SlotView>, n: nat, k: int)
    requires
        0 <= k < n <= writes.len(),
        written_docs(writes, n) is Ok,
    ensures
        written_docs(writes, n)->Ok_0.len() == n,
        decoded_value(writes[k].value) is Ok,
        written_docs(writes, n)->Ok_0[k] == decoded_value(writes[k].value)->Ok_0,
    decreases n,
{
    reveal_with_fuel(written_docs, 2);
    if n > 1 {
        if k < n - 1 {
            lemma_written_doc(writes, (n - 1) as nat, k);
        } else {
            lemma_written_doc(writes, (n - 1) as nat, 0);
        }
    }
}

} // verus!
