//! The manifest: which SSTs exist, and what is known of them.

use std::collections::HashMap;

use vstd::prelude::*;

use crate::bloom::{BloomFilter, BloomView};
use crate::bytes::copy_bytes;
use crate::error::{
    decimal, decimal_text, string_of, text2, text3, FlowError, FlowErrorView, Result,
};
use crate::order::lemma_filter_contains;
use crate::ranges::{copy_spans, masked, span_views, KeySpan};

verus! {

broadcast use vstd::std_specs::hash::group_hash_axioms;

/// What is known of one block of an SST.
#[derive(Debug)]
pub struct BlockInfo {
    pub block_idx: u32,
    pub min_key: Vec<u8>,
    pub max_key: Vec<u8>,
    pub min_ts: i64,
    pub max_ts: i64,
    pub min_expire: i64,
    pub max_expire: i64,
}

/// A block's description with its keys as sequences.
pub struct BlockInfoView {
    pub block_idx: u32,
    pub min_key: Seq<u8>,
    pub max_key: Seq<u8>,
    pub min_ts: i64,
    pub max_ts: i64,
    pub min_expire: i64,
    pub max_expire: i64,
}

impl View for BlockInfo {
    type V = BlockInfoView;

    open spec fn view(&self) -> BlockInfoView {
        BlockInfoView {
            block_idx: self.block_idx,
            min_key: self.min_key@,
            max_key: self.max_key@,
            min_ts: self.min_ts,
            max_ts: self.max_ts,
            min_expire: self.min_expire,
            max_expire: self.max_expire,
        }
    }
}

/// The descriptions in a sequence of blocks.
pub open spec fn infos(s: Seq<BlockInfo>) -> Seq<BlockInfoView> {
    s.map_values(|b: BlockInfo| b@)
}

impl BlockInfo {
    /// An equal description.
    pub fn copy(&self) -> (r: BlockInfo)
        ensures
            r@ == self@,
    {
        BlockInfo {
            block_idx: self.block_idx,
            min_key: copy_bytes(&self.min_key),
            max_key: copy_bytes(&self.max_key),
            min_ts: self.min_ts,
            max_ts: self.max_ts,
            min_expire: self.min_expire,
            max_expire: self.max_expire,
        }
    }
}

/// Equal descriptions of all blocks.
pub fn copy_infos(blocks: &Vec<BlockInfo>) -> (r: Vec<BlockInfo>)
    ensures
        infos(r@) == infos(blocks@),
{
    let mut r: Vec<BlockInfo> = Vec::new();
    let mut i: usize = 0;
    assert(infos(r@) =~= infos(blocks@).subrange(0, 0));
    while i < blocks.len()
        invariant
            i <= blocks.len(),
            infos(r@) == infos(blocks@).subrange(0, i as int),
        decreases blocks.len() - i,
    {
        let ghost before = infos(r@);
        r.push(blocks[i].copy());
        assert(infos(r@) =~= before.push(blocks@[i as int]@));
        assert(infos(r@) =~= infos(blocks@).subrange(0, i + 1));
        i = i + 1;
    }
    assert(infos(r@) =~= infos(blocks@));
    r
}

/// What is known of an SST as a whole.
#[derive(Debug)]
pub struct SstInfo {
    pub id: u32,
    pub records: u64,
    pub bytes: u64,
    pub min_ts: i64,
    pub max_ts: i64,
    pub min_expire: i64,
    pub max_expire: i64,
    pub bloom: Option<BloomFilter>,
    /// The key ranges that were deleted when the SST was written: what older
    /// SSTs have of them is gone.
    pub ranges: Vec<KeySpan>,
}

/// An SST's description with its filter as a value.
pub struct SstInfoView {
    pub id: u32,
    pub records: u64,
    pub bytes: u64,
    pub min_ts: i64,
    pub max_ts: i64,
    pub min_expire: i64,
    pub max_expire: i64,
    pub bloom: Option<BloomView>,
    pub ranges: Seq<(Seq<u8>, Seq<u8>)>,
}

impl View for SstInfo {
    type V = SstInfoView;

    open spec fn view(&self) -> SstInfoView {
        SstInfoView {
            id: self.id,
            records: self.records,
            bytes: self.bytes,
            min_ts: self.min_ts,
            max_ts: self.max_ts,
            min_expire: self.min_expire,
            max_expire: self.max_expire,
            bloom: match self.bloom {
                Some(b) => Some(b@),
                None => None,
            },
            ranges: span_views(self.ranges@),
        }
    }
}

impl SstInfo {
    /// An equal description.
    pub fn copy(&self) -> (r: SstInfo)
        ensures
            r@ == self@,
    {
        SstInfo {
            id: self.id,
            records: self.records,
            bytes: self.bytes,
            min_ts: self.min_ts,
            max_ts: self.max_ts,
            min_expire: self.min_expire,
            max_expire: self.max_expire,
            bloom: match &self.bloom {
                Some(b) => Some(b.copy()),
                None => None,
            },
            ranges: copy_spans(&self.ranges),
        }
    }
}

/// One change of the set of SSTs.
#[derive(Debug)]
#[allow(inconsistent_fields)]
pub enum ManifestEntry {
    Flush { seq: u64, sst: SstInfo, blocks: Vec<BlockInfo> },
    DeleteSst { sst_id: u32 },
    Compaction { removed: Vec<u32>, added: Vec<SstInfo>, blocks: Vec<(u32, Vec<BlockInfo>)> },
    Checkpoint { last_flushed_seq: u64 },
    GcDeleteSst { sst_id: u32 },
    /// Replaces an SST's bloom filter in-place. Emitted when the engine
    /// rebuilds stale (legacy-hash) blooms after a hasher upgrade.
    /// Applying this entry does NOT change the active SST set; it only
    /// refreshes the bloom cached in `SstInfo.bloom`.
    UpdateBloom { sst_id: u32, bloom: BloomFilter },
}

/// A change with everything in it as values.
#[allow(inconsistent_fields)]
pub enum EntryView {
    Flush { seq: u64, sst: SstInfoView, blocks: Seq<BlockInfoView> },
    DeleteSst { sst_id: u32 },
    Compaction {
        removed: Seq<u32>,
        added: Seq<SstInfoView>,
        blocks: Seq<(u32, Seq<BlockInfoView>)>,
    },
    Checkpoint { last_flushed_seq: u64 },
    GcDeleteSst { sst_id: u32 },
    UpdateBloom { sst_id: u32, bloom: BloomView },
}

pub open spec fn sst_infos(s: Seq<SstInfo>) -> Seq<SstInfoView> {
    s.map_values(|i: SstInfo| i@)
}

pub open spec fn block_lists(s: Seq<(u32, Vec<BlockInfo>)>) -> Seq<(u32, Seq<BlockInfoView>)> {
    s.map_values(|p: (u32, Vec<BlockInfo>)| (p.0, infos(p.1@)))
}

impl View for ManifestEntry {
    type V = EntryView;

    open spec fn view(&self) -> EntryView {
        match self {
            ManifestEntry::Flush { seq, sst, blocks } => EntryView::Flush {
                seq: *seq,
                sst: sst@,
                blocks: infos(blocks@),
            },
            ManifestEntry::DeleteSst { sst_id } => EntryView::DeleteSst { sst_id: *sst_id },
            ManifestEntry::Compaction { removed, added, blocks } => EntryView::Compaction {
                removed: removed@,
                added: sst_infos(added@),
                blocks: block_lists(blocks@),
            },
            ManifestEntry::Checkpoint { last_flushed_seq } => EntryView::Checkpoint {
                last_flushed_seq: *last_flushed_seq,
            },
            ManifestEntry::GcDeleteSst { sst_id } => EntryView::GcDeleteSst { sst_id: *sst_id },
            ManifestEntry::UpdateBloom { sst_id, bloom } => EntryView::UpdateBloom {
                sst_id: *sst_id,
                bloom: bloom@,
            },
        }
    }
}

/// The set of SSTs that a manifest describes.
pub struct ManifestView {
    pub last_flushed_seq: u64,
    pub sstables: Map<u32, SstInfoView>,
    pub block_infos: Map<u32, Seq<BlockInfoView>>,
    pub active: Seq<u32>,
}

/// The larger of two sequence numbers.
pub open spec fn later_seq(a: u64, b: u64) -> u64 {
    if a < b {
        b
    } else {
        a
    }
}

/// Holds of every id but one.
pub open spec fn other_than(id: u32) -> spec_fn(u32) -> bool {
    |x: u32| x != id
}

impl ManifestView {
    pub open spec fn empty() -> ManifestView {
        ManifestView {
            last_flushed_seq: 0,
            sstables: Map::empty(),
            block_infos: Map::empty(),
            active: Seq::empty(),
        }
    }

    /// The highest number of an SST; 0 where there is none.
    pub open spec fn max_id(self) -> u32 {
        max_of(self.active)
    }

    /// The active ids are those of the known SSTs, each once, and every SST is
    /// known under its own id.
    pub open spec fn well_formed(self) -> bool {
        &&& self.active.no_duplicates()
        &&& forall|id: u32| self.active.contains(id) <==> #[trigger] self.sstables.contains_key(id)
        &&& forall|id: u32| #[trigger]
            self.sstables.contains_key(id) ==> self.sstables[id].id == id
    }

    /// SST `j` deletes `key` from older SSTs.
    pub open spec fn deletes(self, j: u32, key: Seq<u8>) -> bool {
        self.sstables.contains_key(j) && masked(self.sstables[j].ranges, key)
    }

    /// An SST with a higher number than `id` deletes `key`.
    pub open spec fn covers_above(self, id: u32, key: Seq<u8>) -> bool {
        exists|j: u32| j > id && #[trigger] self.deletes(j, key)
    }

    pub open spec fn without(self, id: u32) -> ManifestView {
        ManifestView {
            last_flushed_seq: self.last_flushed_seq,
            sstables: self.sstables.remove(id),
            block_infos: self.block_infos.remove(id),
            active: self.active.filter(other_than(id)),
        }
    }

    pub open spec fn without_all(self, ids: Seq<u32>) -> ManifestView
        decreases ids.len(),
    {
        if ids.len() == 0 {
            self
        } else {
            self.without_all(ids.drop_last()).without(ids.last())
        }
    }

    pub open spec fn with_sst(self, sst: SstInfoView) -> ManifestView {
        ManifestView {
            sstables: self.sstables.insert(sst.id, sst),
            active: if self.active.contains(sst.id) {
                self.active
            } else {
                self.active.push(sst.id)
            },
            ..self
        }
    }

    pub open spec fn with_ssts(self, ssts: Seq<SstInfoView>) -> ManifestView
        decreases ssts.len(),
    {
        if ssts.len() == 0 {
            self
        } else {
            self.with_ssts(ssts.drop_last()).with_sst(ssts.last())
        }
    }

    pub open spec fn with_blocks(self, id: u32, blocks: Seq<BlockInfoView>) -> ManifestView {
        ManifestView { block_infos: self.block_infos.insert(id, blocks), ..self }
    }

    pub open spec fn with_block_lists(self, lists: Seq<(u32, Seq<BlockInfoView>)>) -> ManifestView
        decreases lists.len(),
    {
        if lists.len() == 0 {
            self
        } else {
            self.with_block_lists(lists.drop_last()).with_blocks(lists.last().0, lists.last().1)
        }
    }

    pub open spec fn with_seq(self, seq: u64) -> ManifestView {
        ManifestView { last_flushed_seq: later_seq(self.last_flushed_seq, seq), ..self }
    }

    /// The state after a change.
    pub open spec fn applied(self, e: EntryView) -> ManifestView {
        match e {
            EntryView::Flush { seq, sst, blocks } => self.with_seq(seq).with_sst(sst).with_blocks(
                sst.id,
                blocks,
            ),
            EntryView::DeleteSst { sst_id } => self.without(sst_id),
            EntryView::GcDeleteSst { sst_id } => self.without(sst_id),
            EntryView::Compaction { removed, added, blocks } => self.without_all(removed).with_ssts(
                added,
            ).with_block_lists(blocks),
            EntryView::Checkpoint { last_flushed_seq } => self.with_seq(last_flushed_seq),
            EntryView::UpdateBloom { sst_id, bloom } => if self.sstables.contains_key(sst_id) {
                ManifestView {
                    sstables: self.sstables.insert(
                        sst_id,
                        SstInfoView { bloom: Some(bloom), ..self.sstables[sst_id] },
                    ),
                    ..self
                }
            } else {
                self
            },
        }
    }

    /// The state after several changes.
    pub open spec fn applied_all(self, es: Seq<EntryView>) -> ManifestView
        decreases es.len(),
    {
        if es.len() == 0 {
            self
        } else {
            self.applied_all(es.drop_last()).applied(es.last())
        }
    }
}

proof fn lemma_without_well_formed(m: ManifestView, id: u32)
    requires
        m.well_formed(),
    ensures
        m.without(id).well_formed(),
{
    let p = other_than(id);
    let w = m.without(id);
    lemma_filter_no_duplicates(m.active, p);
    assert forall|x: u32| w.active.contains(x) <==> #[trigger] w.sstables.contains_key(x) by {
        lemma_filter_contains(m.active, p, x);
        assert(m.active.contains(x) <==> m.sstables.contains_key(x));
    }
    assert forall|x: u32| #[trigger] w.sstables.contains_key(x) implies w.sstables[x].id == x by {
        assert(m.sstables.contains_key(x));
    }
}

proof fn lemma_filter_no_duplicates(s: Seq<u32>, p: spec_fn(u32) -> bool)
    requires
        s.no_duplicates(),
    ensures
        s.filter(p).no_duplicates(),
    decreases s.len(),
{
    reveal_with_fuel(Seq::filter, 1);
    if s.len() > 0 {
        let t = s.drop_last();
        lemma_filter_no_duplicates(t, p);
        if p(s.last()) {
            lemma_filter_contains(t, p, s.last());
            if t.contains(s.last()) {
                let i = choose|i: int| 0 <= i < t.len() && t[i] == s.last();
                assert(s[i] == s[s.len() - 1]);
            }
            assert(!t.filter(p).contains(s.last()));
            let f = s.filter(p);
            assert(f == t.filter(p).push(s.last()));
            assert forall|i: int, j: int| 0 <= i < f.len() && 0 <= j < f.len() && i != j implies f[i]
                != f[j] by {
                if i == f.len() - 1 {
                    assert(t.filter(p)[j] == f[j]);
                    assert(t.filter(p).contains(f[j]));
                } else if j == f.len() - 1 {
                    assert(t.filter(p)[i] == f[i]);
                    assert(t.filter(p).contains(f[i]));
                } else {
                    assert(t.filter(p)[i] == f[i] && t.filter(p)[j] == f[j]);
                }
            }
        }
    }
}

proof fn lemma_with_sst_well_formed(m: ManifestView, sst: SstInfoView)
    requires
        m.well_formed(),
    ensures
        m.with_sst(sst).well_formed(),
{
    let w = m.with_sst(sst);
    assert forall|x: u32| w.active.contains(x) <==> #[trigger] w.sstables.contains_key(x) by {
        assert(m.active.contains(x) <==> m.sstables.contains_key(x));
        if !m.active.contains(sst.id) {
            if m.active.contains(x) {
                let i = choose|i: int| 0 <= i < m.active.len() && m.active[i] == x;
                assert(w.active[i] == x);
            }
            assert(w.active[m.active.len() as int] == sst.id);
        }
    }
    assert forall|x: u32| #[trigger] w.sstables.contains_key(x) implies w.sstables[x].id == x by {
        if x != sst.id {
            assert(m.sstables.contains_key(x));
        }
    }
}

proof fn lemma_without_all_well_formed(m: ManifestView, ids: Seq<u32>)
    requires
        m.well_formed(),
    ensures
        m.without_all(ids).well_formed(),
    decreases ids.len(),
{
    if ids.len() > 0 {
        lemma_without_all_well_formed(m, ids.drop_last());
        lemma_without_well_formed(m.without_all(ids.drop_last()), ids.last());
    }
}

proof fn lemma_with_ssts_well_formed(m: ManifestView, ssts: Seq<SstInfoView>)
    requires
        m.well_formed(),
    ensures
        m.with_ssts(ssts).well_formed(),
    decreases ssts.len(),
{
    if ssts.len() > 0 {
        lemma_with_ssts_well_formed(m, ssts.drop_last());
        lemma_with_sst_well_formed(m.with_ssts(ssts.drop_last()), ssts.last());
    }
}

proof fn lemma_with_lists_well_formed(m: ManifestView, lists: Seq<(u32, Seq<BlockInfoView>)>)
    requires
        m.well_formed(),
    ensures
        m.with_block_lists(lists).well_formed(),
    decreases lists.len(),
{
    if lists.len() > 0 {
        lemma_with_lists_well_formed(m, lists.drop_last());
        let w = m.with_block_lists(lists.drop_last());
        let v = w.with_blocks(lists.last().0, lists.last().1);
        assert(v.active == w.active && v.sstables == w.sstables);
        assert forall|x: u32| v.active.contains(x) <==> #[trigger] v.sstables.contains_key(x) by {
            assert(w.active.contains(x) <==> w.sstables.contains_key(x));
        }
        assert forall|x: u32| #[trigger] v.sstables.contains_key(x) implies v.sstables[x].id == x by {
            assert(w.sstables.contains_key(x));
        }
    }
}

/// The largest of the ids; 0 where there is none.
pub open spec fn max_of(ids: Seq<u32>) -> u32
    decreases ids.len(),
{
    if ids.len() == 0 {
        0
    } else {
        let rest = max_of(ids.drop_last());
        if ids.last() > rest {
            ids.last()
        } else {
            rest
        }
    }
}

pub proof fn lemma_max_of(ids: Seq<u32>)
    ensures
        forall|id: u32| ids.contains(id) ==> id <= max_of(ids),
        max_of(ids) > 0 ==> ids.contains(max_of(ids)),
    decreases ids.len(),
{
    if ids.len() > 0 {
        let t = ids.drop_last();
        lemma_max_of(t);
        assert(ids =~= t.push(ids.last()));
        assert forall|id: u32| ids.contains(id) implies id <= max_of(ids) by {
            let i = choose|i: int| 0 <= i < ids.len() && ids[i] == id;
            if i < t.len() {
                assert(t[i] == id);
                assert(t.contains(id));
            }
        }
        if max_of(t) > 0 {
            let i = choose|i: int| 0 <= i < t.len() && t[i] == max_of(t);
            assert(ids[i] == max_of(t));
        }
    }
}

/// Every change keeps the active ids in step with the known SSTs.
pub proof fn law_changes_keep_manifest_consistent(m: ManifestView, e: EntryView)
    requires
        m.well_formed(),
    ensures
        m.applied(e).well_formed(),
{
    match e {
        EntryView::Flush { seq, sst, blocks } => {
            let a = m.with_seq(seq);
            lemma_same_ssts(m, a);
            lemma_with_sst_well_formed(a, sst);
            lemma_same_ssts(a.with_sst(sst), m.applied(e));
        },
        EntryView::DeleteSst { sst_id } => {
            lemma_without_well_formed(m, sst_id);
        },
        EntryView::GcDeleteSst { sst_id } => {
            lemma_without_well_formed(m, sst_id);
        },
        EntryView::Compaction { removed, added, blocks } => {
            lemma_without_all_well_formed(m, removed);
            lemma_with_ssts_well_formed(m.without_all(removed), added);
            lemma_with_lists_well_formed(m.without_all(removed).with_ssts(added), blocks);
        },
        EntryView::Checkpoint { last_flushed_seq } => {
            lemma_same_ssts(m, m.with_seq(last_flushed_seq));
        },
        EntryView::UpdateBloom { sst_id, bloom } => {
            let w = m.applied(e);
            assert forall|x: u32| w.active.contains(x) <==> #[trigger] w.sstables.contains_key(x) by {
                assert(m.active.contains(x) <==> m.sstables.contains_key(x));
            }
            assert forall|x: u32| #[trigger] w.sstables.contains_key(x) implies w.sstables[x].id
                == x by {
                assert(m.sstables.contains_key(x));
            }
        },
    }
}

proof fn lemma_same_ssts(a: ManifestView, b: ManifestView)
    requires
        a.well_formed(),
        a.active == b.active,
        a.sstables == b.sstables,
    ensures
        b.well_formed(),
{
    assert forall|x: u32| b.active.contains(x) <==> #[trigger] b.sstables.contains_key(x) by {
        assert(a.active.contains(x) <==> a.sstables.contains_key(x));
    }
    assert forall|x: u32| #[trigger] b.sstables.contains_key(x) implies b.sstables[x].id == x by {
        assert(a.sstables.contains_key(x));
    }
}

/// The state that a manifest's entries add up to.
#[derive(Debug)]
pub struct ManifestState {
    pub last_flushed_seq: u64,
    pub sstables: HashMap<u32, SstInfo>,
    pub block_infos: HashMap<u32, Vec<BlockInfo>>,
    pub active_sst_ids: Vec<u32>,
}

impl View for ManifestState {
    type V = ManifestView;

    open spec fn view(&self) -> ManifestView {
        ManifestView {
            last_flushed_seq: self.last_flushed_seq,
            sstables: self.sstables@.map_values(|i: SstInfo| i@),
            block_infos: self.block_infos@.map_values(|b: Vec<BlockInfo>| infos(b@)),
            active: self.active_sst_ids@,
        }
    }
}

impl Default for ManifestState {
    fn default() -> (r: ManifestState)
        ensures
            r@ == ManifestView::empty(),
            r@.well_formed(),
    {
        let s = ManifestState {
            last_flushed_seq: 0,
            sstables: HashMap::new(),
            block_infos: HashMap::new(),
            active_sst_ids: Vec::new(),
        };
        proof {
            assert(s@.sstables =~= Map::<u32, SstInfoView>::empty());
            assert(s@.block_infos =~= Map::<u32, Seq<BlockInfoView>>::empty());
        }
        s
    }
}

/// The ids other than one.
fn retain_ids(ids: &Vec<u32>, id: u32) -> (r: Vec<u32>)
    ensures
        r@ == ids@.filter(other_than(id)),
{
    let mut out: Vec<u32> = Vec::new();
    let mut i: usize = 0;
    assert(ids@.subrange(0, 0).filter(other_than(id)) =~= Seq::<u32>::empty());
    while i < ids.len()
        invariant
            i <= ids.len(),
            out@ == ids@.subrange(0, i as int).filter(other_than(id)),
        decreases ids.len() - i,
    {
        proof {
            assert(ids@.subrange(0, i + 1) =~= ids@.subrange(0, i as int).push(ids@[i as int]));
            ids@.subrange(0, i as int).lemma_filter_push(ids@[i as int], other_than(id));
        }
        if ids[i] != id {
            out.push(ids[i]);
        }
        i = i + 1;
    }
    assert(ids@.subrange(0, ids@.len() as int) =~= ids@);
    out
}

/// Whether `id` is among `ids`.
pub fn has_id(ids: &Vec<u32>, id: u32) -> (r: bool)
    ensures
        r == ids@.contains(id),
{
    let mut i: usize = 0;
    while i < ids.len()
        invariant
            i <= ids.len(),
            forall|j: int| 0 <= j < i ==> ids@[j] != id,
        decreases ids.len() - i,
    {
        if ids[i] == id {
            return true;
        }
        i = i + 1;
    }
    false
}

impl ManifestState {
    fn remove(&mut self, id: u32)
        ensures
            final(self)@ == old(self)@.without(id),
    {
        let ghost before = self@;
        self.sstables.remove(&id);
        self.block_infos.remove(&id);
        self.active_sst_ids = retain_ids(&self.active_sst_ids, id);
        proof {
            assert(self@.sstables =~= before.sstables.remove(id));
            assert(self@.block_infos =~= before.block_infos.remove(id));
        }
    }

    fn put_sst(&mut self, sst: &SstInfo)
        ensures
            final(self)@ == old(self)@.with_sst(sst@),
    {
        let ghost before = self@;
        let copy = sst.copy();
        self.sstables.insert(sst.id, copy);
        if !has_id(&self.active_sst_ids, sst.id) {
            self.active_sst_ids.push(sst.id);
        }
        proof {
            assert(self@.sstables =~= before.sstables.insert(sst.id, sst@));
            assert(self@.block_infos =~= before.block_infos);
        }
    }

    fn put_blocks(&mut self, id: u32, blocks: &Vec<BlockInfo>)
        ensures
            final(self)@ == old(self)@.with_blocks(id, infos(blocks@)),
    {
        let ghost before = self@;
        self.block_infos.insert(id, copy_infos(blocks));
        proof {
            assert(self@.sstables =~= before.sstables);
            assert(self@.block_infos =~= before.block_infos.insert(id, infos(blocks@)));
        }
    }

    /// The highest number of a known SST; 0 where there is none.
    pub fn max_sst_id(&self) -> (r: u32)
        requires
            self@.well_formed(),
        ensures
            r == self@.max_id(),
            forall|id: u32| #[trigger] self@.sstables.contains_key(id) ==> id <= r,
            r > 0 ==> self@.sstables.contains_key(r),
    {
        let mut max: u32 = 0;
        let mut i: usize = 0;
        assert(self@.active.subrange(0, 0) =~= Seq::<u32>::empty());
        while i < self.active_sst_ids.len()
            invariant
                i <= self.active_sst_ids.len(),
                max == max_of(self@.active.subrange(0, i as int)),
            decreases self.active_sst_ids.len() - i,
        {
            assert(self@.active.subrange(0, i + 1).drop_last() =~= self@.active.subrange(
                0,
                i as int,
            ));
            if self.active_sst_ids[i] > max {
                max = self.active_sst_ids[i];
            }
            i = i + 1;
        }
        proof {
            assert(self@.active.subrange(0, i as int) =~= self@.active);
            lemma_max_of(self@.active);
            assert forall|id: u32| #[trigger] self@.sstables.contains_key(id) implies id
                <= max by {
                assert(self@.active.contains(id));
            }
        }
        max
    }

    /// The number above every known SST's; 1 where there is none.
    pub fn next_sst_id(&self) -> (r: u32)
        requires
            self@.well_formed(),
            forall|id: u32| #[trigger] self@.sstables.contains_key(id) ==> id < u32::MAX,
        ensures
            r == self@.max_id() + 1,
            forall|id: u32| #[trigger] self@.sstables.contains_key(id) ==> id < r,
    {
        self.max_sst_id() + 1
    }
}

/// Applies a change to the state.
pub fn apply_entry(state: &mut ManifestState, entry: &ManifestEntry)
    requires
        old(state)@.well_formed(),
    ensures
        final(state)@ == old(state)@.applied(entry@),
        final(state)@.well_formed(),
{
    let ghost before = state@;
    proof {
        law_changes_keep_manifest_consistent(before, entry@);
    }
    match entry {
        ManifestEntry::Flush { seq, sst, blocks } => {
            if state.last_flushed_seq < *seq {
                state.last_flushed_seq = *seq;
            }
            assert(state@ == before.with_seq(*seq));
            state.put_sst(sst);
            state.put_blocks(sst.id, blocks);
        },
        ManifestEntry::DeleteSst { sst_id } => {
            state.remove(*sst_id);
        },
        ManifestEntry::GcDeleteSst { sst_id } => {
            state.remove(*sst_id);
        },
        ManifestEntry::Compaction { removed, added, blocks } => {
            let mut i: usize = 0;
            assert(removed@.subrange(0, 0) =~= Seq::<u32>::empty());
            while i < removed.len()
                invariant
                    i <= removed.len(),
                    state@ == before.without_all(removed@.subrange(0, i as int)),
                decreases removed.len() - i,
            {
                state.remove(removed[i]);
                assert(removed@.subrange(0, i + 1).drop_last() =~= removed@.subrange(0, i as int));
                i = i + 1;
            }
            assert(removed@.subrange(0, removed@.len() as int) =~= removed@);
            let ghost cleared = before.without_all(removed@);
            let ghost all = sst_infos(added@);
            i = 0;
            assert(all.subrange(0, 0) =~= Seq::<SstInfoView>::empty());
            while i < added.len()
                invariant
                    i <= added.len(),
                    all == sst_infos(added@),
                    state@ == cleared.with_ssts(all.subrange(0, i as int)),
                decreases added.len() - i,
            {
                state.put_sst(&added[i]);
                assert(all.subrange(0, i + 1).drop_last() =~= all.subrange(0, i as int));
                i = i + 1;
            }
            assert(all.subrange(0, all.len() as int) =~= all);
            let ghost grown = cleared.with_ssts(all);
            let ghost lists = block_lists(blocks@);
            i = 0;
            assert(lists.subrange(0, 0) =~= Seq::<(u32, Seq<BlockInfoView>)>::empty());
            while i < blocks.len()
                invariant
                    i <= blocks.len(),
                    lists == block_lists(blocks@),
                    state@ == grown.with_block_lists(lists.subrange(0, i as int)),
                decreases blocks.len() - i,
            {
                state.put_blocks(blocks[i].0, &blocks[i].1);
                assert(lists.subrange(0, i + 1).drop_last() =~= lists.subrange(0, i as int));
                i = i + 1;
            }
            assert(lists.subrange(0, lists.len() as int) =~= lists);
        },
        ManifestEntry::Checkpoint { last_flushed_seq } => {
            if state.last_flushed_seq < *last_flushed_seq {
                state.last_flushed_seq = *last_flushed_seq;
            }
        },
        ManifestEntry::UpdateBloom { sst_id, bloom } => {
            if let Some(info) = state.sstables.remove(sst_id) {
                let mut info = info;
                let ghost old_info = info@;
                info.bloom = Some(bloom.copy());
                state.sstables.insert(*sst_id, info);
                proof {
                    assert(before.sstables[*sst_id] == old_info);
                    assert(state@.sstables =~= before.applied(entry@).sstables);
                    assert(state@.block_infos =~= before.block_infos);
                }
            } else {
                assert(state@.sstables =~= before.sstables);
            }
        },
    }
}

/// What a line of the manifest file holds: a change, or the text of why it is none.
pub open spec fn line_view(l: core::result::Result<ManifestEntry, String>) -> core::result::Result<
    EntryView,
    Seq<char>,
> {
    match l {
        Ok(e) => Ok(e@),
        Err(t) => Err(t@),
    }
}

/// The changes on lines that hold one.
pub open spec fn good_lines(s: Seq<core::result::Result<ManifestEntry, String>>) -> Seq<EntryView>
    decreases s.len(),
{
    if s.len() == 0 {
        Seq::empty()
    } else {
        match line_view(s.last()) {
            Ok(e) => good_lines(s.drop_last()).push(e),
            Err(_) => good_lines(s.drop_last()),
        }
    }
}

/// The position of the first line that holds no change, or the number of lines.
pub open spec fn first_bad_line(s: Seq<core::result::Result<ManifestEntry, String>>, i: int) -> bool {
    &&& 0 <= i <= s.len()
    &&& forall|j: int| 0 <= j < i ==> (#[trigger] s[j]) is Ok
    &&& i < s.len() ==> s[i] is Err
}

/// Adds up the lines of a manifest file. A last line that holds no change was
/// torn by a crash and does not count; any other such line is corruption.
pub fn replay(lines: &Vec<core::result::Result<ManifestEntry, String>>, file: &str) -> (r: Result<
    ManifestState,
>)
    ensures
        match r {
            Ok(state) => {
                &&& forall|j: int| 0 <= j < lines@.len() - 1 ==> (#[trigger] lines@[j]) is Ok
                &&& state@ == ManifestView::empty().applied_all(good_lines(lines@))
                &&& state@.well_formed()
            },
            Err(e) => exists|i: int| #[trigger]
                first_bad_line(lines@, i) && i < lines@.len() - 1 && e@
                    == (FlowErrorView::Corruption {
                    file: file@,
                    msg: "Corrupted manifest entry at line "@ + decimal((i + 1) as nat) + ": "@
                        + line_view(lines@[i])->Err_0,
                }),
        },
{
    let mut state = ManifestState::default();
    let mut i: usize = 0;
    assert(lines@.subrange(0, 0) =~= Seq::<core::result::Result<ManifestEntry, String>>::empty());
    while i < lines.len()
        invariant
            i <= lines.len(),
            state@.well_formed(),
            state@ == ManifestView::empty().applied_all(good_lines(lines@.subrange(0, i as int))),
            forall|j: int| 0 <= j < i && j < lines@.len() - 1 ==> (#[trigger] lines@[j]) is Ok,
        decreases lines.len() - i,
    {
        let ghost seen = lines@.subrange(0, i + 1);
        assert(seen.drop_last() =~= lines@.subrange(0, i as int));
        assert(seen.last() == lines@[i as int]);
        match &lines[i] {
            Ok(entry) => {
                let ghost done = good_lines(lines@.subrange(0, i as int));
                apply_entry(&mut state, entry);
                assert(done.push(entry@).drop_last() =~= done);
            },
            Err(text) => {
                if i < lines.len() - 1 {
                    assert(first_bad_line(lines@, i as int));
                    let at = text3(
                        "Corrupted manifest entry at line ",
                        &decimal_text(i as u64 + 1),
                        ": ",
                    );
                    return Err(
                        FlowError::Corruption { file: string_of(file), msg: text2(&at, text) },
                    );
                }
            },
        }
        i = i + 1;
    }
    assert(lines@.subrange(0, lines@.len() as int) =~= lines@);
    Ok(state)
}

/// Once more than this many entries have been appended, the log is rewritten
/// as a snapshot of the current state.
pub const SNAPSHOT_THRESHOLD: usize = 500;

/// The entries of a sequence as values.
pub open spec fn entry_views(s: Seq<ManifestEntry>) -> Seq<EntryView> {
    s.map_values(|e: ManifestEntry| e@)
}

impl ManifestView {
    /// The entry that restores one SST.
    pub open spec fn flush_entry(self, id: u32) -> EntryView {
        EntryView::Flush {
            seq: self.last_flushed_seq,
            sst: self.sstables[id],
            blocks: if self.block_infos.contains_key(id) {
                self.block_infos[id]
            } else {
                Seq::empty()
            },
        }
    }

    /// The entries of a snapshot: every active SST as a flush, and a
    /// checkpoint at the end.
    pub open spec fn snapshot(self) -> Seq<EntryView> {
        self.active.map_values(|id: u32| self.flush_entry(id)).push(
            EntryView::Checkpoint { last_flushed_seq: self.last_flushed_seq },
        )
    }
}

/// The manifest of an open engine.
pub struct Manifest {
    state: ManifestState,
    entry_count: usize,
}

impl Manifest {
    pub closed spec fn view(&self) -> ManifestView {
        self.state@
    }

    /// The number of entries appended since the last snapshot (or since open).
    pub closed spec fn appended(&self) -> usize {
        self.entry_count
    }

    pub fn new(state: ManifestState) -> (r: Manifest)
        ensures
            r@ == state@,
            r.appended() == 0,
    {
        Manifest { state, entry_count: 0 }
    }

    pub fn state(&self) -> (r: &ManifestState)
        ensures
            r@ == self@,
    {
        &self.state
    }

    pub fn entry_count(&self) -> (r: usize)
        ensures
            r == self.appended(),
    {
        self.entry_count
    }

    /// Records a change that has been written to the log.
    pub fn append(&mut self, entry: &ManifestEntry)
        requires
            old(self)@.well_formed(),
        ensures
            final(self)@ == old(self)@.applied(entry@),
            final(self)@.well_formed(),
            final(self).appended() == if old(self).appended() == usize::MAX {
                usize::MAX
            } else {
                (old(self).appended() + 1) as usize
            },
    {
        apply_entry(&mut self.state, entry);
        self.entry_count = self.entry_count.saturating_add(1);
    }

    /// The number for the next SST.
    pub fn next_sst_id(&self) -> (r: u32)
        requires
            self@.well_formed(),
            forall|id: u32| #[trigger] self@.sstables.contains_key(id) ==> id < u32::MAX,
        ensures
            r == self@.max_id() + 1,
            forall|id: u32| #[trigger] self@.sstables.contains_key(id) ==> id < r,
    {
        self.state.next_sst_id()
    }

    /// If the manifest log has grown past [`SNAPSHOT_THRESHOLD`] entries,
    /// gives the entries of a compact snapshot that is to replace it.
    pub fn maybe_snapshot(&mut self) -> (r: Option<Vec<ManifestEntry>>)
        requires
            old(self)@.well_formed(),
        ensures
            final(self)@ == old(self)@,
            match r {
                Some(es) => old(self).appended() > SNAPSHOT_THRESHOLD && entry_views(es@) == old(
                    self,
                )@.snapshot() && final(self).appended() == es@.len(),
                None => old(self).appended() <= SNAPSHOT_THRESHOLD && final(self).appended()
                    == old(self).appended(),
            },
    {
        if self.entry_count <= SNAPSHOT_THRESHOLD {
            return None;
        }
        Some(self.snapshot())
    }

    /// The entries of a compact snapshot of the current state.  Each active
    /// SST is emitted as a `Flush` entry, followed by a `Checkpoint` with the
    /// current `last_flushed_seq`.
    pub fn snapshot(&mut self) -> (r: Vec<ManifestEntry>)
        requires
            old(self)@.well_formed(),
        ensures
            final(self)@ == old(self)@,
            entry_views(r@) == old(self)@.snapshot(),
            final(self).appended() == r@.len(),
    {
        let ghost v = self@;
        let mut out: Vec<ManifestEntry> = Vec::new();
        let mut i: usize = 0;
        let ghost want = v.snapshot();
        assert(entry_views(out@) =~= want.subrange(0, 0));
        while i < self.state.active_sst_ids.len()
            invariant
                i <= self.state.active_sst_ids.len(),
                v == self@,
                v.well_formed(),
                want == v.snapshot(),
                entry_views(out@) == want.subrange(0, i as int),
            decreases self.state.active_sst_ids.len() - i,
        {
            let id: u32 = self.state.active_sst_ids[i];
            assert(v.active[i as int] == id);
            assert(v.active.contains(id));
            assert(v.sstables.contains_key(id));
            let ghost before = entry_views(out@);
            if let Some(info) = self.state.sstables.get(&id) {
                let blocks = match self.state.block_infos.get(&id) {
                    Some(b) => copy_infos(b),
                    None => {
                        let none: Vec<BlockInfo> = Vec::new();
                        assert(infos(none@) =~= Seq::<BlockInfoView>::empty());
                        none
                    },
                };
                let entry = ManifestEntry::Flush {
                    seq: self.state.last_flushed_seq,
                    sst: info.copy(),
                    blocks,
                };
                assert(entry@ == v.flush_entry(id));
                out.push(entry);
                assert(entry_views(out@) =~= before.push(entry@));
            }
            assert(want[i as int] == v.flush_entry(id));
            assert(entry_views(out@) =~= want.subrange(0, i + 1));
            i = i + 1;
        }
        let ghost before = entry_views(out@);
        let last = ManifestEntry::Checkpoint { last_flushed_seq: self.state.last_flushed_seq };
        out.push(last);
        assert(entry_views(out@) =~= before.push(last@));
        assert(entry_views(out@) =~= want);
        self.entry_count = out.len();
        out
    }
}

proof fn lemma_replay_snapshot(v: ManifestView, k: int)
    requires
        v.well_formed(),
        0 <= k <= v.active.len(),
    ensures
        ({
            let m = ManifestView::empty().applied_all(v.snapshot().subrange(0, k));
            &&& m.active == v.active.subrange(0, k)
            &&& forall|id: u32| #[trigger]
                m.sstables.contains_key(id) <==> v.active.subrange(0, k).contains(id)
            &&& forall|id: u32| #[trigger]
                m.sstables.contains_key(id) ==> m.sstables[id] == v.sstables[id]
            &&& forall|id: u32| #[trigger]
                m.block_infos.contains_key(id) <==> v.active.subrange(0, k).contains(id)
            &&& forall|id: u32| #[trigger]
                m.block_infos.contains_key(id) && v.block_infos.contains_key(id)
                    ==> m.block_infos[id] == v.block_infos[id]
            &&& m.last_flushed_seq == if k == 0 {
                0
            } else {
                v.last_flushed_seq
            }
        }),
    decreases k,
{
    let s = v.snapshot();
    if k == 0 {
        assert(s.subrange(0, 0) =~= Seq::<EntryView>::empty());
        assert(v.active.subrange(0, 0) =~= Seq::<u32>::empty());
    } else {
        lemma_replay_snapshot(v, k - 1);
        assert(s.subrange(0, k).drop_last() =~= s.subrange(0, k - 1));
        let id = v.active[k - 1];
        assert(s[k - 1] == v.flush_entry(id));
        assert(v.active.contains(id));
        assert(v.sstables.contains_key(id));
        let a = v.active.subrange(0, k - 1);
        let b = v.active.subrange(0, k);
        assert(b =~= a.push(id));
        assert(!a.contains(id)) by {
            if a.contains(id) {
                let j = choose|j: int| 0 <= j < a.len() && a[j] == id;
                assert(v.active[j] == v.active[k - 1]);
            }
        }
        assert forall|x: u32| b.contains(x) <==> a.contains(x) || x == id by {
            if a.contains(x) {
                let j = choose|j: int| 0 <= j < a.len() && a[j] == x;
                assert(b[j] == x);
            }
            assert(b[k - 1] == id);
        }
    }
}

/// Replaying a snapshot gives back the state it was taken of.
pub proof fn law_snapshot_restores_state(v: ManifestView)
    requires
        v.well_formed(),
        forall|id: u32| #[trigger]
            v.block_infos.contains_key(id) <==> v.sstables.contains_key(id),
    ensures
        ManifestView::empty().applied_all(v.snapshot()) == v,
{
    let n = v.active.len() as int;
    let s = v.snapshot();
    lemma_replay_snapshot(v, n);
    assert(s.drop_last() =~= s.subrange(0, n));
    let m = ManifestView::empty().applied_all(s);
    assert(v.active.subrange(0, n) =~= v.active);
    assert(m.sstables =~= v.sstables);
    assert(m.block_infos =~= v.block_infos);
}

} // verus!
