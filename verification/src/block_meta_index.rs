//! The index over the blocks of all SSTs: by key, by time, and per SST.

use std::collections::{HashMap, HashSet};

use vstd::prelude::*;

use crate::bloom::{BloomFilter, BloomView};
use crate::bytes::{
    bytes_le, bytes_lt, copy_bytes, lemma_lex_le_transitive, lemma_lex_not_le, lemma_prefix_le,
    lemma_prefix_range, lex_le, lex_lt, prefix_successor, successor_of_prefix,
};
use crate::manifest::{infos, BlockInfo, BlockInfoView, SstInfoView};
use crate::memtable::passes;
use crate::order::lemma_filter_contains;
use crate::ranges::{is_masked, masked, span_views, KeySpan};
use crate::record::{Entry, KeyFilter, KeyFilterView, Record};
use crate::sstable::describes;

verus! {

broadcast use vstd::std_specs::hash::group_hash_axioms;

/// What the index keeps of a block.
#[derive(Debug)]
pub struct BlockMeta {
    pub sst_id: u32,
    pub block_idx: u32,
    pub min_key: Vec<u8>,
    pub max_key: Vec<u8>,
    pub min_ts: i64,
    pub max_ts: i64,
    pub max_expire: i64,
}

/// A block's index entry with its keys as sequences.
pub struct MetaView {
    pub sst_id: u32,
    pub block_idx: u32,
    pub min_key: Seq<u8>,
    pub max_key: Seq<u8>,
    pub min_ts: i64,
    pub max_ts: i64,
    pub max_expire: i64,
}

impl View for BlockMeta {
    type V = MetaView;

    open spec fn view(&self) -> MetaView {
        MetaView {
            sst_id: self.sst_id,
            block_idx: self.block_idx,
            min_key: self.min_key@,
            max_key: self.max_key@,
            min_ts: self.min_ts,
            max_ts: self.max_ts,
            max_expire: self.max_expire,
        }
    }
}

/// The index entries of a sequence.
pub open spec fn metas(s: Seq<BlockMeta>) -> Seq<MetaView> {
    s.map_values(|m: BlockMeta| m@)
}

/// The index entry of a block that `info` describes.
pub open spec fn meta_of(sst_id: u32, info: BlockInfoView) -> MetaView {
    MetaView {
        sst_id,
        block_idx: info.block_idx,
        min_key: info.min_key,
        max_key: info.max_key,
        min_ts: info.min_ts,
        max_ts: info.max_ts,
        max_expire: info.max_expire,
    }
}

impl MetaView {
    /// The block may hold a key with the prefix.
    pub open spec fn meets_prefix(self, prefix: Seq<u8>) -> bool {
        &&& lex_le(prefix, self.max_key)
        &&& match prefix_successor(prefix) {
            Some(end) => lex_lt(self.min_key, end),
            None => true,
        }
    }

    /// The block may hold a key in `[start, end]`.
    pub open spec fn meets_range(self, start: Seq<u8>, end: Seq<u8>) -> bool {
        lex_le(self.min_key, end) && lex_le(start, self.max_key)
    }

    /// The block may hold a key that the filter lets through.
    pub open spec fn meets(self, filter: KeyFilterView) -> bool {
        match filter {
            KeyFilterView::Prefix(p) => self.meets_prefix(p),
            KeyFilterView::Range { start, end } => self.meets_range(start, end),
            KeyFilterView::All => true,
        }
    }

    /// The block may hold a time in `[start, end]`.
    pub open spec fn meets_time(self, start: i64, end: i64) -> bool {
        self.min_ts <= end && self.max_ts >= start
    }

    /// Everything in the block has expired.
    pub open spec fn expired(self, now: i64) -> bool {
        self.max_expire < now
    }

    /// `key` lies between the block's first and last key.
    pub open spec fn covers(self, key: Seq<u8>) -> bool {
        lex_le(self.min_key, key) && lex_le(key, self.max_key)
    }

    /// Names the block.
    pub open spec fn same_block(self, other: MetaView) -> bool {
        self.sst_id == other.sst_id && self.block_idx == other.block_idx
    }
}

impl BlockMeta {
    pub fn from_block_info(sst_id: u32, bi: &BlockInfo) -> (r: BlockMeta)
        ensures
            r@ == meta_of(sst_id, bi@),
    {
        BlockMeta {
            sst_id,
            block_idx: bi.block_idx,
            min_key: copy_bytes(&bi.min_key),
            max_key: copy_bytes(&bi.max_key),
            min_ts: bi.min_ts,
            max_ts: bi.max_ts,
            max_expire: bi.max_expire,
        }
    }

    /// An equal index entry.
    pub fn copy(&self) -> (r: BlockMeta)
        ensures
            r@ == self@,
    {
        BlockMeta {
            sst_id: self.sst_id,
            block_idx: self.block_idx,
            min_key: copy_bytes(&self.min_key),
            max_key: copy_bytes(&self.max_key),
            min_ts: self.min_ts,
            max_ts: self.max_ts,
            max_expire: self.max_expire,
        }
    }

    pub fn overlaps_key_prefix(&self, prefix: &[u8]) -> (r: bool)
        ensures
            r == self@.meets_prefix(prefix@),
    {
        if !bytes_le(prefix, &self.max_key) {
            return false;
        }
        match successor_of_prefix(prefix) {
            Some(end) => bytes_lt(&self.min_key, &end),
            None => true,
        }
    }

    pub fn overlaps_key_range(&self, start: &[u8], end: &[u8]) -> (r: bool)
        ensures
            r == self@.meets_range(start@, end@),
    {
        bytes_le(&self.min_key, end) && bytes_le(start, &self.max_key)
    }

    pub fn overlaps_filter(&self, filter: &KeyFilter) -> (r: bool)
        ensures
            r == self@.meets(filter@),
    {
        match filter {
            KeyFilter::Prefix(p) => self.overlaps_key_prefix(p),
            KeyFilter::Range { start, end } => self.overlaps_key_range(start, end),
            KeyFilter::All => true,
        }
    }

    pub fn overlaps_time(&self, ts_start: i64, ts_end: i64) -> (r: bool)
        ensures
            r == self@.meets_time(ts_start, ts_end),
    {
        self.min_ts <= ts_end && self.max_ts >= ts_start
    }

    pub fn is_expired(&self, now_us: i64) -> (r: bool)
        ensures
            r == self@.expired(now_us),
    {
        self.max_expire < now_us
    }

    fn covers_key(&self, key: &[u8]) -> (r: bool)
        ensures
            r == self@.covers(key@),
    {
        bytes_le(&self.min_key, key) && bytes_le(key, &self.max_key)
    }
}

/// A block that holds a live entry which the filters let through is neither
/// expired nor outside the filters.
pub proof fn lemma_block_is_not_pruned(
    sst_id: u32,
    info: BlockInfoView,
    chunk: Seq<Entry>,
    i: int,
    filter: KeyFilterView,
    times: Option<(i64, i64)>,
    now: i64,
)
    requires
        describes(info, chunk),
        0 <= i < chunk.len(),
        passes(chunk[i], filter, times, now),
    ensures
        !meta_of(sst_id, info).expired(now),
        meta_of(sst_id, info).meets(filter),
        match times {
            Some((start, end)) => meta_of(sst_id, info).meets_time(start, end),
            None => true,
        },
{
    let e = chunk[i];
    match filter {
        KeyFilterView::Prefix(p) => {
            lemma_prefix_le(e.key, p);
            lemma_lex_le_transitive(p, e.key, info.max_key);
            if prefix_successor(p) is Some {
                lemma_prefix_range(p, e.key);
                lemma_lex_le_transitive(info.min_key, e.key, prefix_successor(p)->0);
            }
        },
        KeyFilterView::Range { start, end } => {
            lemma_lex_le_transitive(info.min_key, e.key, end);
            lemma_lex_le_transitive(start, e.key, info.max_key);
        },
        KeyFilterView::All => {},
    }
}

/// `a / b` rounded toward zero.
pub open spec fn truncated_div(a: int, b: int) -> int {
    if a >= 0 {
        a / b
    } else {
        -((-a) / b)
    }
}

fn bucket_of_time(ts: i64, width: i64) -> (r: i64)
    requires
        width > 0,
    ensures
        r as int == truncated_div(ts as int, width as int),
{
    if ts >= 0 {
        proof {
            lemma_quotient_bounds(ts as int, width as int);
        }
        let q: u64 = ts as u64 / width as u64;
        q as i64
    } else {
        proof {
            lemma_quotient_bounds(-ts, width as int);
        }
        let n: u64 = ((-(ts + 1)) as u64 + 1) / width as u64;
        if n == 0x8000_0000_0000_0000 {
            i64::MIN
        } else {
            -(n as i64)
        }
    }
}

proof fn lemma_quotient_bounds(a: int, b: int)
    requires
        a >= 0,
        b > 0,
    ensures
        0 <= a / b <= a,
{
    vstd::arithmetic::div_mod::lemma_div_pos_is_pos(a, b);
    vstd::arithmetic::div_mod::lemma_div_nonincreasing(a, b);
}

pub proof fn lemma_truncated_div_monotone(a: int, c: int, b: int)
    requires
        a <= c,
        b > 0,
    ensures
        truncated_div(a, b) <= truncated_div(c, b),
{
    if a >= 0 {
        vstd::arithmetic::div_mod::lemma_div_is_ordered(a, c, b);
    } else if c < 0 {
        vstd::arithmetic::div_mod::lemma_div_is_ordered(-c, -a, b);
    } else {
        lemma_quotient_bounds(-a, b);
        lemma_quotient_bounds(c, b);
    }
}

/// The blocks of one SST, in file order.
struct SstBlocks {
    sst_id: u32,
    blocks: Vec<BlockMeta>,
    ordered: bool,
}

/// The blocks whose earliest time falls into one bucket.
struct TimeBucket {
    bucket: i64,
    blocks: Vec<BlockMeta>,
}

/// The blocks of one SST, in file order.
pub struct SstView {
    pub sst_id: u32,
    pub blocks: Seq<MetaView>,
}

/// The state of the index: the blocks in key order, the SSTs by falling
/// number, and the filters over their keys.
pub struct IndexView {
    pub blocks: Seq<MetaView>,
    pub ssts: Seq<SstView>,
    pub blooms: Map<u32, BloomView>,
    pub ranges: Map<u32, Seq<(Seq<u8>, Seq<u8>)>>,
}

/// No block starts before an earlier one ends.
pub open spec fn blocks_ordered(s: Seq<MetaView>) -> bool {
    &&& forall|i: int| 0 <= i < s.len() ==> lex_le((#[trigger] s[i]).min_key, s[i].max_key)
    &&& forall|i: int, j: int|
        0 <= i < j < s.len() ==> lex_le((#[trigger] s[i]).max_key, (#[trigger] s[j]).min_key)
}

/// In the order of their first keys.
pub open spec fn by_min_key(s: Seq<MetaView>) -> bool {
    forall|i: int, j: int|
        0 <= i < j < s.len() ==> lex_le((#[trigger] s[i]).min_key, (#[trigger] s[j]).min_key)
}

/// How many blocks of `s`, from the front, start at `key` or before.
pub open spec fn rank_of(s: Seq<MetaView>, key: Seq<u8>) -> int
    decreases s.len(),
{
    if s.len() == 0 || lex_lt(key, s[0].min_key) {
        0
    } else {
        1 + rank_of(s.drop_first(), key)
    }
}

/// `s` with `m` behind the blocks that start at its first key or before.
pub open spec fn inserted(s: Seq<MetaView>, m: MetaView) -> Seq<MetaView> {
    s.insert(rank_of(s, m.min_key), m)
}

/// `s` with the blocks of an SST inserted in turn.
pub open spec fn with_blocks(
    s: Seq<MetaView>,
    sst_id: u32,
    blocks: Seq<BlockInfoView>,
) -> Seq<MetaView>
    decreases blocks.len(),
{
    if blocks.len() == 0 {
        s
    } else {
        inserted(with_blocks(s, sst_id, blocks.drop_last()), meta_of(sst_id, blocks.last()))
    }
}

/// `ssts` without the one numbered `id`.
pub open spec fn without_sst(ssts: Seq<SstView>, id: u32) -> Seq<SstView> {
    ssts.filter(|t: SstView| t.sst_id != id)
}

/// `ssts` with `t` in its place; it replaces one with the same number.
pub open spec fn with_sst(ssts: Seq<SstView>, t: SstView) -> Seq<SstView>
    decreases ssts.len(),
{
    if ssts.len() == 0 || ssts[0].sst_id < t.sst_id {
        seq![t] + ssts
    } else if ssts[0].sst_id == t.sst_id {
        seq![t] + ssts.drop_first()
    } else {
        seq![ssts[0]] + with_sst(ssts.drop_first(), t)
    }
}

/// The index entries of an SST's blocks.
pub open spec fn metas_of(sst_id: u32, blocks: Seq<BlockInfoView>) -> Seq<MetaView> {
    blocks.map_values(|b: BlockInfoView| meta_of(sst_id, b))
}

/// In strictly falling order of their numbers.
pub open spec fn falling_ids(ssts: Seq<SstView>) -> bool {
    forall|i: int, j: int|
        0 <= i < j < ssts.len() ==> (#[trigger] ssts[i]).sst_id > (#[trigger] ssts[j]).sst_id
}

impl IndexView {
    pub open spec fn empty() -> IndexView {
        IndexView {
            blocks: Seq::empty(),
            ssts: Seq::empty(),
            blooms: Map::empty(),
            ranges: Map::empty(),
        }
    }

    /// The index with the key ranges that an SST deletes from older ones.
    pub open spec fn with_ranges(self, id: u32, spans: Seq<(Seq<u8>, Seq<u8>)>) -> IndexView {
        if spans.len() == 0 {
            self
        } else {
            IndexView { ranges: self.ranges.insert(id, spans), ..self }
        }
    }

    /// The index with an SST added: its blocks, its filter and its key ranges.
    pub open spec fn with_sst(self, id: u32, blocks: Seq<BlockInfoView>, info: SstInfoView) -> IndexView {
        let with = self.with(id, blocks);
        (match info.bloom {
            Some(b) => IndexView { blooms: with.blooms.insert(id, b), ..with },
            None => with,
        }).with_ranges(id, info.ranges)
    }

    /// SST `j` deletes `key` from older SSTs.
    pub open spec fn deletes(self, j: u32, key: Seq<u8>) -> bool {
        self.ranges.contains_key(j) && masked(self.ranges[j], key)
    }

    /// An SST with a higher number than `id` deletes `key`.
    pub open spec fn covers_above(self, id: u32, key: Seq<u8>) -> bool {
        exists|j: u32| j > id && #[trigger] self.deletes(j, key)
    }

    /// Holds of the blocks of those SSTs from which no later one deletes `key`.
    pub open spec fn bares(self, key: Seq<u8>) -> spec_fn(MetaView) -> bool {
        |m: MetaView| !self.covers_above(m.sst_id, key)
    }

    /// The index with the blocks of an SST added.
    pub open spec fn with(self, sst_id: u32, blocks: Seq<BlockInfoView>) -> IndexView {
        IndexView {
            blocks: with_blocks(self.blocks, sst_id, blocks),
            ssts: with_sst(
                self.ssts,
                SstView { sst_id, blocks: metas_of(sst_id, blocks) },
            ),
            blooms: self.blooms,
            ranges: self.ranges,
        }
    }

    /// The index without any block, filter or key range of an SST.
    pub open spec fn without(self, id: u32) -> IndexView {
        IndexView {
            blocks: self.blocks.filter(|m: MetaView| m.sst_id != id),
            ssts: without_sst(self.ssts, id),
            blooms: self.blooms.remove(id),
            ranges: self.ranges.remove(id),
        }
    }

    /// Some unexpired block named like `m` meets the time range.
    pub open spec fn timely(self, m: MetaView, times: Option<(i64, i64)>, now: i64) -> bool {
        match times {
            Some((start, end)) => exists|i: int|
                0 <= i < self.blocks.len() && m.same_block(#[trigger] self.blocks[i])
                    && !self.blocks[i].expired(now) && self.blocks[i].meets_time(start, end),
            None => true,
        }
    }

    /// The blocks that a query has to read, in key order.
    pub open spec fn candidates(
        self,
        filter: KeyFilterView,
        times: Option<(i64, i64)>,
        now: i64,
    ) -> Seq<MetaView> {
        self.blocks.filter(
            |m: MetaView| !m.expired(now) && m.meets(filter) && self.timely(m, times, now),
        )
    }

    /// The filter of an SST does not exclude `key`; an SST without a filter
    /// may hold any key.
    pub open spec fn may_hold(self, sst_id: u32, key: Seq<u8>) -> bool {
        self.blooms.contains_key(sst_id) ==> self.blooms[sst_id].reports(key)
    }

    /// The blocks of the SST at position `i` that may hold `key`.
    pub open spec fn point_blocks(self, i: int, key: Seq<u8>, now: i64) -> Seq<MetaView> {
        if self.may_hold(self.ssts[i].sst_id, key) {
            self.ssts[i].blocks.filter(|m: MetaView| m.covers(key) && !m.expired(now))
        } else {
            Seq::empty()
        }
    }

    /// The blocks that a point lookup has to read, those of the SST with the
    /// highest number first.
    pub open spec fn point_candidates(self, key: Seq<u8>, now: i64) -> Seq<MetaView> {
        Seq::new(self.ssts.len(), |i: int| self.point_blocks(i, key, now)).flatten()
    }
}

spec fn sst_view(t: SstBlocks) -> SstView {
    SstView { sst_id: t.sst_id, blocks: metas(t.blocks@) }
}

/// Index over the blocks of all SSTs.
pub struct BlockMetaIndex {
    by_key: Vec<BlockMeta>,
    by_time: Vec<TimeBucket>,
    time_bucket_us: i64,
    blooms: HashMap<u32, BloomFilter>,
    sst_blocks: Vec<SstBlocks>,
    ranges: HashMap<u32, Vec<KeySpan>>,
    ranged: Vec<u32>,
}

/// The block `m` is filed in the bucket at `b`.
spec fn filed(by_time: Seq<TimeBucket>, m: MetaView, b: int) -> bool {
    0 <= b < by_time.len() && metas(by_time[b].blocks@).contains(m)
}

/// The bucket that a block belongs in.
pub open spec fn bucket_of(m: MetaView, width: int) -> int {
    truncated_div(m.min_ts as int, width)
}

/// The buckets are in rising order, none is empty, and together they file
/// exactly the blocks of the index.
spec fn buckets_match(by_time: Seq<TimeBucket>, blocks: Seq<MetaView>, width: int) -> bool {
    &&& rising_buckets(by_time)
    &&& forall|b: int| 0 <= b < by_time.len() ==> (#[trigger] by_time[b]).blocks@.len() > 0
    &&& forall|b: int, k: int|
        0 <= b < by_time.len() && 0 <= k < by_time[b].blocks@.len() ==> belongs(
            (#[trigger] by_time[b].blocks@[k])@,
            by_time[b].bucket,
            blocks,
            width,
        )
    &&& forall|i: int| 0 <= i < blocks.len() ==> is_filed(by_time, #[trigger] blocks[i])
}

/// The block `m` is one of `blocks` and belongs in the bucket.
spec fn belongs(m: MetaView, bucket: i64, blocks: Seq<MetaView>, width: int) -> bool {
    bucket_of(m, width) == bucket && blocks.contains(m)
}

/// The block `m` is filed in some bucket.
spec fn is_filed(by_time: Seq<TimeBucket>, m: MetaView) -> bool {
    exists|b: int| filed(by_time, m, b)
}

spec fn rising_buckets(by_time: Seq<TimeBucket>) -> bool {
    forall|i: int, j: int|
        0 <= i < j < by_time.len() ==> (#[trigger] by_time[i]).bucket < (
        #[trigger] by_time[j]).bucket
}

impl View for BlockMetaIndex {
    type V = IndexView;

    closed spec fn view(&self) -> IndexView {
        IndexView {
            blocks: metas(self.by_key@),
            ssts: self.sst_blocks@.map_values(|t: SstBlocks| sst_view(t)),
            blooms: self.blooms@.map_values(|f: BloomFilter| f@),
            ranges: self.ranges@.map_values(|t: Vec<KeySpan>| span_views(t@)),
        }
    }
}

/// The numbers but for one.
fn other_ids(ids: &Vec<u32>, id: u32) -> (r: Vec<u32>)
    ensures
        forall|x: u32| #[trigger] r@.contains(x) <==> ids@.contains(x) && x != id,
{
    let mut out: Vec<u32> = Vec::new();
    let mut i: usize = 0;
    while i < ids.len()
        invariant
            i <= ids.len(),
            forall|x: u32| #[trigger]
                out@.contains(x) <==> x != id && exists|k: int| 0 <= k < i && ids@[k] == x,
        decreases ids.len() - i,
    {
        let ghost before = out@;
        if ids[i] != id {
            out.push(ids[i]);
        }
        proof {
            assert forall|x: u32| #[trigger] out@.contains(x) <==> x != id && exists|k: int|
                0 <= k < i + 1 && ids@[k] == x by {
                if before.contains(x) {
                    let k = choose|k: int| 0 <= k < before.len() && before[k] == x;
                    assert(out@[k] == x);
                }
                if x == ids@[i as int] && x != id {
                    assert(out@[before.len() as int] == x);
                }
            }
        }
        i = i + 1;
    }
    out
}

impl BlockMetaIndex {
    /// The width of a time bucket.
    pub closed spec fn bucket_width(self) -> int {
        self.time_bucket_us as int
    }

    pub closed spec fn well_formed(self) -> bool {
        &&& self.time_bucket_us > 0
        &&& by_min_key(self@.blocks)
        &&& falling_ids(self@.ssts)
        &&& forall|i: int|
            0 <= i < self.sst_blocks@.len() && (#[trigger] self.sst_blocks@[i]).ordered
                ==> blocks_ordered(metas(self.sst_blocks@[i].blocks@))
        &&& buckets_match(self.by_time@, self@.blocks, self.time_bucket_us as int)
        &&& forall|id: u32| #[trigger] self.ranges@.contains_key(id) <==> self.ranged@.contains(id)
    }

    /// The blocks stand in the order of their first keys, and the SSTs from the
    /// highest number down.
    pub proof fn lemma_order(self)
        requires
            self.well_formed(),
        ensures
            by_min_key(self@.blocks),
            falling_ids(self@.ssts),
    {
    }

    pub fn new(time_bucket_secs: u64) -> (r: BlockMetaIndex)
        requires
            0 < time_bucket_secs,
            time_bucket_secs * 1_000_000 <= i64::MAX,
        ensures
            r.well_formed(),
            r@ == IndexView::empty(),
            r.bucket_width() == time_bucket_secs * 1_000_000,
    {
        let index = BlockMetaIndex {
            by_key: Vec::new(),
            by_time: Vec::new(),
            time_bucket_us: time_bucket_secs as i64 * 1_000_000,
            blooms: HashMap::new(),
            sst_blocks: Vec::new(),
            ranges: HashMap::new(),
            ranged: Vec::new(),
        };
        proof {
            assert(index@.ranges =~= Map::<u32, Seq<(Seq<u8>, Seq<u8>)>>::empty());
            assert(index@.blocks =~= Seq::<MetaView>::empty());
            assert(index@.ssts =~= Seq::<SstView>::empty());
            assert(index@.blooms =~= Map::<u32, BloomView>::empty());
        }
        index
    }

    pub fn set_bloom(&mut self, sst_id: u32, bloom: BloomFilter)
        requires
            old(self).well_formed(),
        ensures
            final(self).well_formed(),
            final(self).bucket_width() == old(self).bucket_width(),
            final(self)@ == (IndexView {
                blooms: old(self)@.blooms.insert(sst_id, bloom@),
                ..old(self)@
            }),
    {
        let ghost before = *self;
        self.blooms.insert(sst_id, bloom);
        proof {
            assert(self@.blooms =~= before@.blooms.insert(sst_id, bloom@));
            assert(self@.blocks =~= before@.blocks);
        }
    }

    /// Drops the cached bloom for `sst_id`. Subsequent point lookups will
    /// treat the SST as "always potentially matching" (i.e. fall back to a
    /// real block read). Used when a persisted bloom is known to be stale
    /// and cannot be rebuilt immediately.
    pub fn remove_bloom(&mut self, sst_id: u32)
        requires
            old(self).well_formed(),
        ensures
            final(self).well_formed(),
            final(self).bucket_width() == old(self).bucket_width(),
            final(self)@ == (IndexView {
                blooms: old(self)@.blooms.remove(sst_id),
                ..old(self)@
            }),
    {
        let ghost before = *self;
        self.blooms.remove(&sst_id);
        proof {
            assert(self@.blooms =~= before@.blooms.remove(sst_id));
            assert(self@.blocks =~= before@.blocks);
        }
    }

    /// Notes the key ranges that an SST deletes from older ones.
    pub fn set_ranges(&mut self, sst_id: u32, spans: Vec<KeySpan>)
        requires
            old(self).well_formed(),
        ensures
            final(self).well_formed(),
            final(self).bucket_width() == old(self).bucket_width(),
            final(self)@ == old(self)@.with_ranges(sst_id, span_views(spans@)),
    {
        let ghost before = *self;
        if spans.len() == 0 {
            return;
        }
        let ghost all = span_views(spans@);
        if !self.ranges.contains_key(&sst_id) {
            self.ranged.push(sst_id);
        }
        self.ranges.insert(sst_id, spans);
        proof {
            assert(self@.ranges =~= before@.ranges.insert(sst_id, all));
            assert(self@.blooms =~= before@.blooms);
            assert(self@.blocks =~= before@.blocks);
            assert forall|id: u32| #[trigger] self.ranges@.contains_key(id)
                <==> self.ranged@.contains(id) by {
                assert(before.ranges@.contains_key(id) <==> before.ranged@.contains(id));
                if before.ranged@.contains(id) {
                    let k = choose|k: int| 0 <= k < before.ranged@.len() && before.ranged@[k] == id;
                    assert(self.ranged@[k] == id);
                }
                if id == sst_id && !before.ranges@.contains_key(id) {
                    assert(self.ranged@[before.ranged@.len() as int] == id);
                }
            }
        }
    }

    /// Whether an SST with a higher number than `sst_id` deletes the key.
    pub fn covers_above(&self, sst_id: u32, key: &[u8]) -> (r: bool)
        requires
            self.well_formed(),
        ensures
            r == self@.covers_above(sst_id, key@),
    {
        let mut i: usize = 0;
        while i < self.ranged.len()
            invariant
                i <= self.ranged.len(),
                self.well_formed(),
                forall|k: int|
                    0 <= k < i && #[trigger] self.ranged@[k] > sst_id ==> !self@.deletes(
                        self.ranged@[k],
                        key@,
                    ),
            decreases self.ranged.len() - i,
        {
            let id: u32 = self.ranged[i];
            if id > sst_id {
                if let Some(spans) = self.ranges.get(&id) {
                    assert(self@.ranges[id] == span_views(spans@));
                    if is_masked(spans, key) {
                        assert(self@.deletes(id, key@));
                        return true;
                    }
                }
            }
            i = i + 1;
        }
        proof {
            assert forall|j: u32| j > sst_id implies !#[trigger] self@.deletes(j, key@) by {
                if self@.deletes(j, key@) {
                    assert(self.ranges@.contains_key(j));
                    let k = choose|k: int| 0 <= k < self.ranged@.len() && self.ranged@[k] == j;
                    assert(self.ranged@[k] > sst_id);
                }
            }
        }
        false
    }

    fn bloom_may_contain(&self, sst_id: u32, key: &[u8]) -> (r: bool)
        ensures
            r == self@.may_hold(sst_id, key@),
    {
        match self.blooms.get(&sst_id) {
            Some(filter) => filter.may_contain(key),
            None => true,
        }
    }

    pub fn total_entries(&self) -> (r: usize)
        ensures
            r == self@.blocks.len(),
    {
        self.by_key.len()
    }
}

proof fn lemma_rank(s: Seq<MetaView>, key: Seq<u8>, p: int)
    requires
        0 <= p <= s.len(),
        forall|i: int| 0 <= i < p ==> lex_le((#[trigger] s[i]).min_key, key),
        p < s.len() ==> lex_lt(key, s[p].min_key),
    ensures
        rank_of(s, key) == p,
    decreases s.len(),
{
    if s.len() > 0 {
        lemma_lex_not_le(s[0].min_key, key);
        if p > 0 {
            let t = s.drop_first();
            assert forall|i: int| 0 <= i < p - 1 implies lex_le((#[trigger] t[i]).min_key, key) by {
                assert(t[i] == s[i + 1]);
            }
            lemma_rank(t, key, p - 1);
        }
    }
}

/// Inserts a block into a list in the order of first keys.
fn insert_by_key(v: &mut Vec<BlockMeta>, m: BlockMeta)
    requires
        by_min_key(metas(old(v)@)),
    ensures
        metas(final(v)@) == inserted(metas(old(v)@), m@),
        by_min_key(metas(final(v)@)),
{
    let ghost s = metas(v@);
    let ghost key = m.min_key@;
    let mut lo: usize = 0;
    let mut hi: usize = v.len();
    while lo < hi
        invariant
            lo <= hi <= v.len(),
            v@ == old(v)@,
            s == metas(v@),
            key == m.min_key@,
            by_min_key(s),
            forall|i: int| 0 <= i < lo ==> lex_le((#[trigger] s[i]).min_key, key),
            forall|i: int| hi <= i < s.len() ==> lex_lt(key, (#[trigger] s[i]).min_key),
        decreases hi - lo,
    {
        let mid: usize = lo + (hi - lo) / 2;
        let ghost pivot = s[mid as int].min_key;
        assert(pivot == v@[mid as int].min_key@);
        if bytes_le(&v[mid].min_key, &m.min_key) {
            assert forall|i: int| 0 <= i < mid + 1 implies lex_le((#[trigger] s[i]).min_key, key) by {
                if lo <= i < mid {
                    assert(lex_le(s[i].min_key, s[mid as int].min_key));
                    lemma_lex_le_transitive(s[i].min_key, pivot, key);
                }
            }
            lo = mid + 1;
        } else {
            proof {
                lemma_lex_not_le(pivot, key);
            }
            assert forall|i: int| mid <= i < s.len() implies lex_lt(
                key,
                (#[trigger] s[i]).min_key,
            ) by {
                if mid < i {
                    assert(lex_le(s[mid as int].min_key, s[i].min_key));
                    lemma_lex_le_transitive(key, pivot, s[i].min_key);
                }
            }
            hi = mid;
        }
    }
    proof {
        lemma_rank(s, key, lo as int);
    }
    let ghost mv = m@;
    v.insert(lo, m);
    proof {
        let t = s.insert(lo as int, mv);
        assert(metas(v@) =~= t);
        assert forall|i: int, j: int| 0 <= i < j < t.len() implies lex_le(
            (#[trigger] t[i]).min_key,
            (#[trigger] t[j]).min_key,
        ) by {
            if i < lo && j < lo {
                assert(t[i] == s[i] && t[j] == s[j]);
            } else if i < lo && j == lo {
                assert(t[i] == s[i]);
            } else if i < lo {
                assert(t[i] == s[i] && t[j] == s[j - 1]);
            } else if i == lo {
                assert(t[j] == s[j - 1]);
            } else {
                assert(t[i] == s[i - 1] && t[j] == s[j - 1]);
            }
        }
    }
}

/// The block `m` is filed in a bucket numbered `bucket`.
spec fn filed_under(by_time: Seq<TimeBucket>, m: MetaView, bucket: i64) -> bool {
    exists|c: int| #[trigger] filed(by_time, m, c) && by_time[c].bucket == bucket
}

/// Files a block in its time bucket.
fn file_block(by_time: &mut Vec<TimeBucket>, m: BlockMeta, bucket: i64)
    requires
        rising_buckets(old(by_time)@),
    ensures
        rising_buckets(final(by_time)@),
        forall|b: int|
            0 <= b < final(by_time)@.len() ==> (#[trigger] final(by_time)@[b]).blocks@.len() > 0
                || old(by_time)@.contains(final(by_time)@[b]),
        forall|b: int, k: int|
            0 <= b < final(by_time)@.len() && 0 <= k < final(by_time)@[b].blocks@.len() ==> {
                let x = (#[trigger] final(by_time)@[b].blocks@[k])@;
                ||| x == m@ && final(by_time)@[b].bucket == bucket
                ||| filed_under(old(by_time)@, x, final(by_time)@[b].bucket)
            },
        forall|x: MetaView, c: int| #[trigger]
            filed(old(by_time)@, x, c) ==> exists|b: int| filed(final(by_time)@, x, b),
        exists|b: int| filed(final(by_time)@, m@, b),
{
    let ghost t0 = by_time@;
    let ghost mv = m@;
    let mut i: usize = 0;
    while i < by_time.len() && by_time[i].bucket < bucket
        invariant
            i <= by_time.len(),
            by_time@ == t0,
            forall|j: int| 0 <= j < i ==> (#[trigger] t0[j]).bucket < bucket,
        decreases by_time.len() - i,
    {
        i = i + 1;
    }
    if i < by_time.len() && by_time[i].bucket == bucket {
        let mut slot = by_time.remove(i);
        let ghost old_blocks = slot.blocks@;
        slot.blocks.push(m);
        let ghost new_blocks = slot.blocks@;
        by_time.insert(i, slot);
        let ghost t1 = by_time@;
        proof {
            assert forall|j: int| 0 <= j < t0.len() && j != i implies t1[j] == #[trigger] t0[j] by {}
            assert(t1[i as int].blocks@ == old_blocks.push(m));
            assert(t1[i as int].bucket == t0[i as int].bucket);
            assert forall|b: int, k: int|
                0 <= b < t1.len() && 0 <= k < t1[b].blocks@.len() implies {
                let x = (#[trigger] t1[b].blocks@[k])@;
                ||| x == mv && t1[b].bucket == bucket
                ||| filed_under(t0, x, t1[b].bucket)
            } by {
                let x = t1[b].blocks@[k]@;
                if b != i || k < old_blocks.len() {
                    assert(metas(t0[b].blocks@)[k] == x);
                    assert(filed(t0, x, b));
                }
            }
            assert forall|x: MetaView, c: int| #[trigger] filed(t0, x, c) implies exists|b: int|
                filed(t1, x, b) by {
                let k = choose|k: int|
                    0 <= k < metas(t0[c].blocks@).len() && metas(t0[c].blocks@)[k] == x;
                assert(metas(t1[c].blocks@)[k] == x);
                assert(filed(t1, x, c));
            }
            assert(metas(t1[i as int].blocks@)[old_blocks.len() as int] == mv);
            assert(filed(t1, mv, i as int));
        }
    } else {
        let mut blocks: Vec<BlockMeta> = Vec::new();
        blocks.push(m);
        by_time.insert(i, TimeBucket { bucket, blocks });
        let ghost t1 = by_time@;
        proof {
            assert forall|j: int| 0 <= j < i implies t1[j] == #[trigger] t0[j] by {}
            assert forall|j: int| i <= j < t0.len() implies t1[j + 1] == #[trigger] t0[j] by {}
            assert forall|a: int, b: int| 0 <= a < b < t1.len() implies (#[trigger] t1[a]).bucket < (
            #[trigger] t1[b]).bucket by {
                if a < i && b > i {
                    assert(t1[a] == t0[a] && t1[b] == t0[b - 1]);
                } else if a < i && b < i {
                    assert(t1[a] == t0[a] && t1[b] == t0[b]);
                } else if a < i {
                    assert(t1[a] == t0[a]);
                } else if a == i {
                    assert(t1[b] == t0[b - 1]);
                    if b - 1 > i {
                        assert(t0[i as int].bucket < t0[b - 1].bucket);
                    }
                } else {
                    assert(t1[a] == t0[a - 1] && t1[b] == t0[b - 1]);
                }
            }
            assert forall|b: int| 0 <= b < t1.len() implies (#[trigger] t1[b]).blocks@.len() > 0
                || t0.contains(t1[b]) by {
                if b < i {
                    assert(t1[b] == t0[b]);
                } else if b > i {
                    assert(t1[b] == t0[b - 1]);
                }
            }
            assert forall|b: int, k: int|
                0 <= b < t1.len() && 0 <= k < t1[b].blocks@.len() implies {
                let x = (#[trigger] t1[b].blocks@[k])@;
                ||| x == mv && t1[b].bucket == bucket
                ||| filed_under(t0, x, t1[b].bucket)
            } by {
                let x = t1[b].blocks@[k]@;
                if b < i {
                    assert(metas(t0[b].blocks@)[k] == x);
                    assert(filed(t0, x, b));
                } else if b > i {
                    assert(metas(t0[b - 1].blocks@)[k] == x);
                    assert(filed(t0, x, b - 1));
                }
            }
            assert forall|x: MetaView, c: int| #[trigger] filed(t0, x, c) implies exists|b: int|
                filed(t1, x, b) by {
                if c < i {
                    assert(filed(t1, x, c));
                } else {
                    assert(filed(t1, x, c + 1));
                }
            }
            assert(metas(t1[i as int].blocks@)[0] == mv);
            assert(filed(t1, mv, i as int));
        }
    }
}

pub proof fn lemma_insert_contains(s: Seq<MetaView>, p: int, m: MetaView, x: MetaView)
    requires
        0 <= p <= s.len(),
    ensures
        s.insert(p, m).contains(x) <==> s.contains(x) || x == m,
{
    let t = s.insert(p, m);
    if s.contains(x) {
        let i = choose|i: int| 0 <= i < s.len() && s[i] == x;
        if i < p {
            assert(t[i] == x);
        } else {
            assert(t[i + 1] == x);
        }
    }
    assert(t[p] == m);
    if t.contains(x) {
        let i = choose|i: int| 0 <= i < t.len() && t[i] == x;
        if i < p {
            assert(s[i] == x);
        } else if i > p {
            assert(s[i - 1] == x);
        }
    }
}

pub proof fn lemma_rank_bounds(s: Seq<MetaView>, key: Seq<u8>)
    ensures
        0 <= rank_of(s, key) <= s.len(),
    decreases s.len(),
{
    if s.len() > 0 {
        lemma_rank_bounds(s.drop_first(), key);
    }
}

/// Filing a block in the buckets matches inserting it into the key order.
proof fn lemma_filed_matches(
    t0: Seq<TimeBucket>,
    t1: Seq<TimeBucket>,
    s: Seq<MetaView>,
    m: MetaView,
    bucket: i64,
    width: int,
)
    requires
        buckets_match(t0, s, width),
        rising_buckets(t1),
        bucket_of(m, width) == bucket,
        forall|b: int|
            0 <= b < t1.len() ==> (#[trigger] t1[b]).blocks@.len() > 0 || t0.contains(t1[b]),
        forall|b: int, k: int|
            0 <= b < t1.len() && 0 <= k < t1[b].blocks@.len() ==> {
                let x = (#[trigger] t1[b].blocks@[k])@;
                ||| x == m && t1[b].bucket == bucket
                ||| filed_under(t0, x, t1[b].bucket)
            },
        forall|x: MetaView, c: int| #[trigger]
            filed(t0, x, c) ==> exists|b: int| filed(t1, x, b),
        exists|b: int| filed(t1, m, b),
    ensures
        buckets_match(t1, inserted(s, m), width),
{
    let s1 = inserted(s, m);
    lemma_rank_bounds(s, m.min_key);
    assert forall|b: int| 0 <= b < t1.len() implies (#[trigger] t1[b]).blocks@.len() > 0 by {
        if t0.contains(t1[b]) {
            let c = choose|c: int| 0 <= c < t0.len() && t0[c] == t1[b];
            assert(t0[c].blocks@.len() > 0);
        }
    }
    assert forall|b: int, k: int| 0 <= b < t1.len() && 0 <= k < t1[b].blocks@.len() implies belongs(
        (#[trigger] t1[b].blocks@[k])@,
        t1[b].bucket,
        s1,
        width,
    ) by {
        let x = t1[b].blocks@[k]@;
        lemma_insert_contains(s, rank_of(s, m.min_key), m, x);
        if filed_under(t0, x, t1[b].bucket) {
            let c = choose|c: int| #[trigger] filed(t0, x, c) && t0[c].bucket == t1[b].bucket;
            let j = choose|j: int|
                0 <= j < metas(t0[c].blocks@).len() && metas(t0[c].blocks@)[j] == x;
            assert(t0[c].blocks@[j]@ == x);
            assert(belongs(x, t0[c].bucket, s, width));
        }
    }
    assert forall|i: int| 0 <= i < s1.len() implies is_filed(t1, #[trigger] s1[i]) by {
        let x = s1[i];
        assert(s1.contains(x));
        lemma_insert_contains(s, rank_of(s, m.min_key), m, x);
        if s.contains(x) {
            let j = choose|j: int| 0 <= j < s.len() && s[j] == x;
            assert(is_filed(t0, s[j]));
            let c = choose|c: int| filed(t0, s[j], c);
            assert(filed(t0, x, c));
        }
    }
}

/// Whether the blocks follow each other in key order.
fn check_ordered(blocks: &Vec<BlockMeta>) -> (r: bool)
    ensures
        r ==> blocks_ordered(metas(blocks@)),
{
    let ghost s = metas(blocks@);
    let mut i: usize = 0;
    while i < blocks.len()
        invariant
            i <= blocks.len(),
            s == metas(blocks@),
            blocks_ordered(s.subrange(0, i as int)),
        decreases blocks.len() - i,
    {
        if !bytes_le(&blocks[i].min_key, &blocks[i].max_key) {
            return false;
        }
        if i > 0 && !bytes_le(&blocks[i - 1].max_key, &blocks[i].min_key) {
            return false;
        }
        proof {
            let t0 = s.subrange(0, i as int);
            let t = s.subrange(0, i + 1);
            assert(s[i as int] == blocks@[i as int]@);
            assert forall|a: int, b: int| 0 <= a < b < t.len() implies lex_le(
                (#[trigger] t[a]).max_key,
                (#[trigger] t[b]).min_key,
            ) by {
                if b < i {
                    assert(t[a] == t0[a] && t[b] == t0[b]);
                } else {
                    let last = t0[i - 1];
                    assert(last == blocks@[i - 1]@);
                    if a < i - 1 {
                        assert(t[a] == t0[a]);
                        assert(lex_le(t0[a].max_key, t0[i - 1].min_key));
                        assert(lex_le(last.min_key, last.max_key));
                        lemma_lex_le_transitive(t[a].max_key, last.min_key, last.max_key);
                        lemma_lex_le_transitive(t[a].max_key, last.max_key, t[b].min_key);
                    } else {
                        assert(t[a] == last);
                    }
                }
            }
            assert forall|a: int| 0 <= a < t.len() implies lex_le(
                (#[trigger] t[a]).min_key,
                t[a].max_key,
            ) by {
                if a < i {
                    assert(t[a] == t0[a]);
                }
            }
        }
        i = i + 1;
    }
    assert(s.subrange(0, s.len() as int) =~= s);
    true
}

spec fn sst_views(s: Seq<SstBlocks>) -> Seq<SstView> {
    s.map_values(|t: SstBlocks| sst_view(t))
}

proof fn lemma_with_sst_at(ssts: Seq<SstView>, t: SstView, p: int)
    requires
        0 <= p <= ssts.len(),
        forall|i: int| 0 <= i < p ==> (#[trigger] ssts[i]).sst_id > t.sst_id,
        p < ssts.len() ==> ssts[p].sst_id <= t.sst_id,
    ensures
        with_sst(ssts, t) == if p < ssts.len() && ssts[p].sst_id == t.sst_id {
            ssts.update(p, t)
        } else {
            ssts.insert(p, t)
        },
    decreases ssts.len(),
{
    if p == 0 {
        if ssts.len() > 0 && ssts[0].sst_id == t.sst_id {
            assert(seq![t] + ssts.drop_first() =~= ssts.update(0, t));
        } else {
            assert(seq![t] + ssts =~= ssts.insert(0, t));
        }
    } else {
        let rest = ssts.drop_first();
        assert forall|i: int| 0 <= i < p - 1 implies (#[trigger] rest[i]).sst_id > t.sst_id by {
            assert(rest[i] == ssts[i + 1]);
        }
        lemma_with_sst_at(rest, t, p - 1);
        if p < ssts.len() && ssts[p].sst_id == t.sst_id {
            assert(seq![ssts[0]] + rest.update(p - 1, t) =~= ssts.update(p, t));
        } else {
            assert(seq![ssts[0]] + rest.insert(p - 1, t) =~= ssts.insert(p, t));
        }
    }
}

/// Puts the blocks of an SST into the list of SSTs.
fn place_sst(v: &mut Vec<SstBlocks>, t: SstBlocks)
    requires
        falling_ids(sst_views(old(v)@)),
        forall|i: int|
            0 <= i < old(v)@.len() && (#[trigger] old(v)@[i]).ordered ==> blocks_ordered(
                metas(old(v)@[i].blocks@),
            ),
        t.ordered ==> blocks_ordered(metas(t.blocks@)),
    ensures
        sst_views(final(v)@) == with_sst(sst_views(old(v)@), sst_view(t)),
        falling_ids(sst_views(final(v)@)),
        forall|i: int|
            0 <= i < final(v)@.len() && (#[trigger] final(v)@[i]).ordered ==> blocks_ordered(
                metas(final(v)@[i].blocks@),
            ),
{
    let ghost v0 = v@;
    let ghost s = sst_views(v0);
    let ghost tv = sst_view(t);
    let id: u32 = t.sst_id;
    let mut i: usize = 0;
    while i < v.len() && v[i].sst_id > id
        invariant
            i <= v.len(),
            v@ == v0,
            s == sst_views(v0),
            forall|j: int| 0 <= j < i ==> (#[trigger] s[j]).sst_id > id,
        decreases v.len() - i,
    {
        assert(s[i as int].sst_id == v@[i as int].sst_id);
        i = i + 1;
    }
    proof {
        if i < s.len() {
            assert(s[i as int].sst_id == v0[i as int].sst_id);
        }
        lemma_with_sst_at(s, tv, i as int);
    }
    if i < v.len() && v[i].sst_id == id {
        v.set(i, t);
        assert(sst_views(v@) =~= s.update(i as int, tv));
    } else {
        v.insert(i, t);
        assert(sst_views(v@) =~= s.insert(i as int, tv));
        proof {
            let s1 = sst_views(v@);
            assert forall|a: int, b: int| 0 <= a < b < s1.len() implies (#[trigger] s1[a]).sst_id > (
            #[trigger] s1[b]).sst_id by {
                let x = if a < i {
                    a
                } else {
                    a - 1
                };
                let y = if b < i {
                    b
                } else {
                    b - 1
                };
                if a != i {
                    assert(s1[a] == s[x]);
                }
                if b != i {
                    assert(s1[b] == s[y]);
                }
                if a != i && b != i {
                } else if a == i {
                    if y > i {
                        assert(s[i as int].sst_id > s[y].sst_id);
                    }
                }
            }
            assert forall|j: int| 0 <= j < v@.len() && (#[trigger] v@[j]).ordered implies blocks_ordered(
                metas(v@[j].blocks@),
            ) by {
                if j < i {
                    assert(v@[j] == v0[j]);
                } else if j > i {
                    assert(v@[j] == v0[j - 1]);
                }
            }
        }
    }
}

impl BlockMetaIndex {
    pub fn add_sst(&mut self, sst_id: u32, blocks: &[BlockInfo])
        requires
            old(self).well_formed(),
        ensures
            final(self).well_formed(),
            final(self).bucket_width() == old(self).bucket_width(),
            final(self)@ == old(self)@.with(sst_id, infos(blocks@)),
    {
        let ghost before = *self;
        let ghost all = infos(blocks@);
        let mut sorted: Vec<BlockMeta> = Vec::new();
        let mut i: usize = 0;
        assert(all.subrange(0, 0) =~= Seq::<BlockInfoView>::empty());
        while i < blocks.len()
            invariant
                i <= blocks.len(),
                all == infos(blocks@),
                self.sst_blocks@ == before.sst_blocks@,
                self.blooms@ == before.blooms@,
                self.ranges@ == before.ranges@,
                self.ranged@ == before.ranged@,
                self.time_bucket_us == before.time_bucket_us,
                self.time_bucket_us > 0,
                by_min_key(metas(self.by_key@)),
                metas(self.by_key@) == with_blocks(
                    before@.blocks,
                    sst_id,
                    all.subrange(0, i as int),
                ),
                buckets_match(self.by_time@, metas(self.by_key@), self.time_bucket_us as int),
                metas(sorted@) == metas_of(sst_id, all.subrange(0, i as int)),
            decreases blocks.len() - i,
        {
            let meta = BlockMeta::from_block_info(sst_id, &blocks[i]);
            let bucket = bucket_of_time(meta.min_ts, self.time_bucket_us);
            let ghost t0 = self.by_time@;
            let ghost s0 = metas(self.by_key@);
            let ghost sorted0 = metas(sorted@);
            let ghost m = meta@;
            sorted.push(meta.copy());
            insert_by_key(&mut self.by_key, meta.copy());
            file_block(&mut self.by_time, meta, bucket);
            proof {
                let next = all.subrange(0, i + 1);
                assert(next.drop_last() =~= all.subrange(0, i as int));
                assert(next.last() == blocks@[i as int]@);
                lemma_filed_matches(t0, self.by_time@, s0, m, bucket, self.time_bucket_us as int);
                assert(metas(sorted@) =~= sorted0.push(m));
                assert(metas(sorted@) =~= metas_of(sst_id, next));
            }
            i = i + 1;
        }
        assert(all.subrange(0, all.len() as int) =~= all);
        let ordered = check_ordered(&sorted);
        place_sst(&mut self.sst_blocks, SstBlocks { sst_id, blocks: sorted, ordered });
        proof {
            assert(self@.blooms =~= before@.blooms);
            assert(self@.ranges =~= before@.ranges);
            assert(before@.ssts =~= sst_views(before.sst_blocks@));
            assert(self@.ssts =~= sst_views(self.sst_blocks@));
        }
    }
}

/// Copies of the blocks that do not belong to an SST.
fn retain_others(v: &Vec<BlockMeta>, sst_id: u32) -> (r: Vec<BlockMeta>)
    ensures
        metas(r@) == metas(v@).filter(|m: MetaView| m.sst_id != sst_id),
{
    let ghost p = |m: MetaView| m.sst_id != sst_id;
    let ghost s = metas(v@);
    let mut out: Vec<BlockMeta> = Vec::new();
    let mut i: usize = 0;
    assert(metas(out@) =~= s.subrange(0, 0).filter(p));
    while i < v.len()
        invariant
            i <= v.len(),
            s == metas(v@),
            p == (|m: MetaView| m.sst_id != sst_id),
            metas(out@) == s.subrange(0, i as int).filter(p),
        decreases v.len() - i,
    {
        let ghost before = metas(out@);
        proof {
            assert(s.subrange(0, i + 1) =~= s.subrange(0, i as int).push(s[i as int]));
            s.subrange(0, i as int).lemma_filter_push(s[i as int], p);
            assert(s[i as int] == v@[i as int]@);
        }
        if v[i].sst_id != sst_id {
            out.push(v[i].copy());
            assert(metas(out@) =~= before.push(s[i as int]));
        }
        i = i + 1;
    }
    assert(s.subrange(0, s.len() as int) =~= s);
    out
}

/// The buckets without the blocks of an SST.
fn retain_buckets(by_time: &Vec<TimeBucket>, sst_id: u32) -> (r: Vec<TimeBucket>)
    requires
        rising_buckets(by_time@),
    ensures
        rising_buckets(r@),
        forall|b: int| 0 <= b < r@.len() ==> (#[trigger] r@[b]).blocks@.len() > 0,
        forall|b: int, k: int|
            0 <= b < r@.len() && 0 <= k < r@[b].blocks@.len() ==> stays(
                by_time@,
                (#[trigger] r@[b].blocks@[k])@,
                r@[b].bucket,
                sst_id,
            ),
        forall|x: MetaView, c: int| #[trigger]
            filed(by_time@, x, c) && x.sst_id != sst_id ==> is_filed(r@, x),
{
    let ghost p = |m: MetaView| m.sst_id != sst_id;
    let mut out: Vec<TimeBucket> = Vec::new();
    let mut i: usize = 0;
    while i < by_time.len()
        invariant
            i <= by_time.len(),
            p == (|m: MetaView| m.sst_id != sst_id),
            rising_buckets(by_time@),
            rising_buckets(out@),
            forall|b: int|
                0 <= b < out@.len() && i < by_time@.len() ==> (#[trigger] out@[b]).bucket
                    < by_time@[i as int].bucket,
            forall|b: int| 0 <= b < out@.len() ==> (#[trigger] out@[b]).blocks@.len() > 0,
            forall|b: int, k: int|
                0 <= b < out@.len() && 0 <= k < out@[b].blocks@.len() ==> stays(
                    by_time@,
                    (#[trigger] out@[b].blocks@[k])@,
                    out@[b].bucket,
                    sst_id,
                ),
            forall|x: MetaView, c: int| #[trigger]
                filed(by_time@, x, c) && c < i && x.sst_id != sst_id ==> is_filed(out@, x),
        decreases by_time.len() - i,
    {
        let blocks = retain_others(&by_time[i].blocks, sst_id);
        let ghost out0 = out@;
        let ghost kept = metas(blocks@);
        let ghost whole = metas(by_time@[i as int].blocks@);
        if blocks.len() > 0 {
            out.push(TimeBucket { bucket: by_time[i].bucket, blocks });
        }
        proof {
            assert forall|b: int, k: int| 0 <= b < out@.len() && 0 <= k < out@[b].blocks@.len() implies stays(
                by_time@,
                (#[trigger] out@[b].blocks@[k])@,
                out@[b].bucket,
                sst_id,
            ) by {
                if b < out0.len() {
                    assert(out@[b] == out0[b]);
                } else {
                    let x = out@[b].blocks@[k]@;
                    assert(kept[k] == x);
                    lemma_filter_contains(whole, p, x);
                    assert(kept.contains(x));
                    assert(filed(by_time@, x, i as int));
                }
            }
            assert forall|x: MetaView, c: int| #[trigger]
                filed(by_time@, x, c) && c < i + 1 && x.sst_id != sst_id implies is_filed(
                out@,
                x,
            ) by {
                if c < i {
                    assert(is_filed(out0, x));
                    let b = choose|b: int| filed(out0, x, b);
                    assert(filed(out@, x, b));
                } else {
                    lemma_filter_contains(whole, p, x);
                    assert(kept.contains(x));
                    assert(filed(out@, x, out0.len() as int));
                }
            }
            assert forall|b: int| 0 <= b < out@.len() && i + 1 < by_time@.len() implies (
            #[trigger] out@[b]).bucket < by_time@[i + 1].bucket by {
                if b < out0.len() {
                    assert(out0[b].bucket < by_time@[i as int].bucket);
                }
                assert(by_time@[i as int].bucket < by_time@[i + 1].bucket);
            }
        }
        i = i + 1;
    }
    out
}

/// The block `x` was filed under `bucket` and is none of SST `sst_id`.
spec fn stays(by_time: Seq<TimeBucket>, x: MetaView, bucket: i64, sst_id: u32) -> bool {
    x.sst_id != sst_id && filed_under(by_time, x, bucket)
}

/// Removing an SST from the buckets matches removing it from the key order.
proof fn lemma_retained_matches(
    t0: Seq<TimeBucket>,
    t1: Seq<TimeBucket>,
    s: Seq<MetaView>,
    sst_id: u32,
    width: int,
)
    requires
        buckets_match(t0, s, width),
        rising_buckets(t1),
        forall|b: int| 0 <= b < t1.len() ==> (#[trigger] t1[b]).blocks@.len() > 0,
        forall|b: int, k: int|
            0 <= b < t1.len() && 0 <= k < t1[b].blocks@.len() ==> stays(
                t0,
                (#[trigger] t1[b].blocks@[k])@,
                t1[b].bucket,
                sst_id,
            ),
        forall|x: MetaView, c: int| #[trigger]
            filed(t0, x, c) && x.sst_id != sst_id ==> is_filed(t1, x),
    ensures
        buckets_match(t1, s.filter(|m: MetaView| m.sst_id != sst_id), width),
{
    let p = |m: MetaView| m.sst_id != sst_id;
    let s1 = s.filter(p);
    assert forall|b: int, k: int| 0 <= b < t1.len() && 0 <= k < t1[b].blocks@.len() implies belongs(
        (#[trigger] t1[b].blocks@[k])@,
        t1[b].bucket,
        s1,
        width,
    ) by {
        let x = t1[b].blocks@[k]@;
        assert(stays(t0, x, t1[b].bucket, sst_id));
        let c = choose|c: int| #[trigger] filed(t0, x, c) && t0[c].bucket == t1[b].bucket;
        let j = choose|j: int|
            0 <= j < metas(t0[c].blocks@).len() && metas(t0[c].blocks@)[j] == x;
        assert(t0[c].blocks@[j]@ == x);
        assert(belongs(x, t0[c].bucket, s, width));
        lemma_filter_contains(s, p, x);
    }
    assert forall|i: int| 0 <= i < s1.len() implies is_filed(t1, #[trigger] s1[i]) by {
        let x = s1[i];
        assert(s1.contains(x));
        lemma_filter_contains(s, p, x);
        let j = choose|j: int| 0 <= j < s.len() && s[j] == x;
        assert(is_filed(t0, s[j]));
        let c = choose|c: int| filed(t0, s[j], c);
        assert(filed(t0, x, c));
    }
}

/// A filtered list keeps the order of first keys.
proof fn lemma_filter_by_min_key(s: Seq<MetaView>, p: spec_fn(MetaView) -> bool)
    requires
        by_min_key(s),
    ensures
        by_min_key(s.filter(p)),
    decreases s.len(),
{
    reveal_with_fuel(Seq::filter, 1);
    if s.len() > 0 {
        let t = s.drop_last();
        lemma_filter_by_min_key(t, p);
        let f = s.filter(p);
        if p(s.last()) {
            assert(f == t.filter(p).push(s.last()));
            assert forall|i: int, j: int| 0 <= i < j < f.len() implies lex_le(
                (#[trigger] f[i]).min_key,
                (#[trigger] f[j]).min_key,
            ) by {
                if j == f.len() - 1 {
                    let x = t.filter(p)[i];
                    assert(t.filter(p).contains(x));
                    lemma_filter_contains(t, p, x);
                    let k = choose|k: int| 0 <= k < t.len() && t[k] == x;
                    assert(s[k] == x);
                    assert(lex_le(s[k].min_key, s[s.len() - 1].min_key));
                } else {
                    assert(f[i] == t.filter(p)[i] && f[j] == t.filter(p)[j]);
                }
            }
        }
    }
}

/// In a falling list, the SST numbered `id` is the only one with its number.
proof fn lemma_without_at(ssts: Seq<SstView>, id: u32, p: int)
    requires
        falling_ids(ssts),
        0 <= p <= ssts.len(),
        forall|i: int| 0 <= i < p ==> (#[trigger] ssts[i]).sst_id > id,
        p < ssts.len() ==> ssts[p].sst_id <= id,
    ensures
        without_sst(ssts, id) == if p < ssts.len() && ssts[p].sst_id == id {
            ssts.remove(p)
        } else {
            ssts
        },
    decreases ssts.len(),
{
    let pred = |t: SstView| t.sst_id != id;
    let want = if p < ssts.len() && ssts[p].sst_id == id {
        ssts.remove(p)
    } else {
        ssts
    };
    reveal_with_fuel(Seq::filter, 1);
    if ssts.len() == 0 {
        assert(without_sst(ssts, id) =~= want);
    } else {
        let t = ssts.drop_last();
        let n = ssts.len() - 1;
        assert forall|i: int, j: int| 0 <= i < j < t.len() implies (#[trigger] t[i]).sst_id > (
        #[trigger] t[j]).sst_id by {
            assert(t[i] == ssts[i] && t[j] == ssts[j]);
        }
        if p <= n {
            if p < n {
                assert(ssts[p].sst_id > ssts[n].sst_id);
            }
            lemma_without_at(t, id, p);
        } else {
            assert(ssts[n].sst_id > id);
            lemma_without_at(t, id, p - 1);
        }
        assert(without_sst(ssts, id) =~= want);
    }
}

impl BlockMetaIndex {
    pub fn remove_sst(&mut self, sst_id: u32)
        requires
            old(self).well_formed(),
        ensures
            final(self).well_formed(),
            final(self).bucket_width() == old(self).bucket_width(),
            final(self)@ == old(self)@.without(sst_id),
    {
        let ghost before = *self;
        self.by_key = retain_others(&self.by_key, sst_id);
        self.by_time = retain_buckets(&self.by_time, sst_id);
        self.blooms.remove(&sst_id);
        self.ranges.remove(&sst_id);
        self.ranged = other_ids(&self.ranged, sst_id);
        proof {
            assert(self@.ranges =~= before@.ranges.remove(sst_id));
            assert forall|id: u32| #[trigger] self.ranges@.contains_key(id)
                <==> self.ranged@.contains(id) by {
                assert(before.ranges@.contains_key(id) <==> before.ranged@.contains(id));
            }
        }
        let ghost s = before@.ssts;
        let mut i: usize = 0;
        while i < self.sst_blocks.len() && self.sst_blocks[i].sst_id > sst_id
            invariant
                i <= self.sst_blocks.len(),
                self.sst_blocks@ == before.sst_blocks@,
                s == before@.ssts,
                forall|j: int| 0 <= j < i ==> (#[trigger] s[j]).sst_id > sst_id,
            decreases self.sst_blocks.len() - i,
        {
            assert(s[i as int].sst_id == self.sst_blocks@[i as int].sst_id);
            i = i + 1;
        }
        proof {
            if i < s.len() {
                assert(s[i as int].sst_id == before.sst_blocks@[i as int].sst_id);
            }
            lemma_without_at(s, sst_id, i as int);
            lemma_filter_by_min_key(before@.blocks, |m: MetaView| m.sst_id != sst_id);
            lemma_retained_matches(
                before.by_time@,
                self.by_time@,
                before@.blocks,
                sst_id,
                self.time_bucket_us as int,
            );
        }
        if i < self.sst_blocks.len() && self.sst_blocks[i].sst_id == sst_id {
            let _gone = self.sst_blocks.remove(i);
            assert(self@.ssts =~= s.remove(i as int));
        }
        proof {
            assert(self@.blooms =~= before@.blooms.remove(sst_id));
            assert forall|a: int, b: int| 0 <= a < b < self@.ssts.len() implies (
            #[trigger] self@.ssts[a]).sst_id > (#[trigger] self@.ssts[b]).sst_id by {
                let x = if self@.ssts.len() < s.len() && a >= i {
                    a + 1
                } else {
                    a
                };
                let y = if self@.ssts.len() < s.len() && b >= i {
                    b + 1
                } else {
                    b
                };
                assert(self@.ssts[a] == s[x] && self@.ssts[b] == s[y]);
            }
            assert forall|j: int|
                0 <= j < self.sst_blocks@.len() && (#[trigger] self.sst_blocks@[j]).ordered implies blocks_ordered(
                metas(self.sst_blocks@[j].blocks@),
            ) by {
                let x = if self@.ssts.len() < s.len() && j >= i {
                    j + 1
                } else {
                    j
                };
                assert(self.sst_blocks@[j] == before.sst_blocks@[x]);
            }
        }
    }
}

/// One number for a block's SST and index.
spec fn block_code(m: MetaView) -> u64 {
    (m.sst_id * 0x1_0000_0000 + m.block_idx) as u64
}

proof fn lemma_block_code(a: MetaView, b: MetaView)
    ensures
        block_code(a) == block_code(b) <==> a.same_block(b),
{
}

impl BlockMeta {
    fn code(&self) -> (r: u64)
        ensures
            r == block_code(self@),
    {
        (self.sst_id as u64) * 0x1_0000_0000 + self.block_idx as u64
    }
}

impl IndexView {
    /// Some unexpired block with this code meets the time range.
    spec fn timely_code(self, code: u64, start: i64, end: i64, now: i64) -> bool {
        exists|i: int|
            0 <= i < self.blocks.len() && block_code(#[trigger] self.blocks[i]) == code
                && !self.blocks[i].expired(now) && self.blocks[i].meets_time(start, end)
    }
}

impl BlockMetaIndex {
    /// The blocks that a query has to read: not expired, and overlapping the
    /// key filter and the time range.
    pub fn query(&self, key_filter: &KeyFilter, time_range: Option<(i64, i64)>, now_us: i64) -> (r:
        Vec<BlockMeta>)
        requires
            self.well_formed(),
        ensures
            metas(r@) == self@.candidates(key_filter@, time_range, now_us),
    {
        let time_set = match time_range {
            Some((ts_start, ts_end)) => self.collect_time_set(ts_start, ts_end, now_us),
            None => HashSet::new(),
        };
        let ghost s = self@.blocks;
        let ghost p = |m: MetaView|
            !m.expired(now_us) && m.meets(key_filter@) && self@.timely(m, time_range, now_us);
        let mut out: Vec<BlockMeta> = Vec::new();
        let mut i: usize = 0;
        assert(metas(out@) =~= s.subrange(0, 0).filter(p));
        while i < self.by_key.len()
            invariant
                i <= self.by_key.len(),
                s == self@.blocks,
                p == (|m: MetaView|
                    !m.expired(now_us) && m.meets(key_filter@) && self@.timely(
                        m,
                        time_range,
                        now_us,
                    )),
                match time_range {
                    Some((start, end)) => forall|c: u64| #[trigger]
                        time_set@.contains(c) <==> self@.timely_code(c, start, end, now_us),
                    None => true,
                },
                metas(out@) == s.subrange(0, i as int).filter(p),
            decreases self.by_key.len() - i,
        {
            let m = &self.by_key[i];
            let ghost before = metas(out@);
            proof {
                assert(s.subrange(0, i + 1) =~= s.subrange(0, i as int).push(s[i as int]));
                s.subrange(0, i as int).lemma_filter_push(s[i as int], p);
                assert(s[i as int] == m@);
            }
            let timely = match time_range {
                Some(_) => time_set.contains(&m.code()),
                None => true,
            };
            proof {
                if let Some((start, end)) = time_range {
                    assert(time_set@.contains(block_code(m@)) <==> self@.timely_code(
                        block_code(m@),
                        start,
                        end,
                        now_us,
                    ));
                    if self@.timely(m@, time_range, now_us) {
                        let j = choose|j: int|
                            0 <= j < self@.blocks.len() && m@.same_block(
                                #[trigger] self@.blocks[j],
                            ) && !self@.blocks[j].expired(now_us) && self@.blocks[j].meets_time(
                                start,
                                end,
                            );
                        lemma_block_code(m@, self@.blocks[j]);
                    }
                    if self@.timely_code(block_code(m@), start, end, now_us) {
                        let j = choose|j: int|
                            0 <= j < self@.blocks.len() && block_code(#[trigger] self@.blocks[j])
                                == block_code(m@) && !self@.blocks[j].expired(now_us)
                                && self@.blocks[j].meets_time(start, end);
                        lemma_block_code(m@, self@.blocks[j]);
                    }
                }
            }
            if !m.is_expired(now_us) && m.overlaps_filter(key_filter) && timely {
                out.push(m.copy());
                assert(metas(out@) =~= before.push(s[i as int]));
            }
            i = i + 1;
        }
        assert(s.subrange(0, s.len() as int) =~= s);
        out
    }

    /// The codes of the unexpired blocks that meet a time range. A block that
    /// meets it starts no later than the range ends, so the buckets after that
    /// one need not be looked at.
    fn collect_time_set(&self, ts_start: i64, ts_end: i64, now_us: i64) -> (r: HashSet<u64>)
        requires
            self.well_formed(),
        ensures
            forall|c: u64| #[trigger]
                r@.contains(c) <==> self@.timely_code(c, ts_start, ts_end, now_us),
    {
        let last = bucket_of_time(ts_end, self.time_bucket_us);
        let ghost width = self.time_bucket_us as int;
        let mut set: HashSet<u64> = HashSet::new();
        let mut b: usize = 0;
        while b < self.by_time.len() && self.by_time[b].bucket <= last
            invariant
                b <= self.by_time.len(),
                self.well_formed(),
                width == self.time_bucket_us,
                forall|c: u64| #[trigger]
                    set@.contains(c) ==> self@.timely_code(c, ts_start, ts_end, now_us),
                forall|a: int, k: int|
                    0 <= a < b && 0 <= k < self.by_time@[a].blocks@.len() && {
                        let m = (#[trigger] self.by_time@[a].blocks@[k])@;
                        !m.expired(now_us) && m.meets_time(ts_start, ts_end)
                    } ==> set@.contains(block_code(self.by_time@[a].blocks@[k]@)),
            decreases self.by_time.len() - b,
        {
            let mut k: usize = 0;
            while k < self.by_time[b].blocks.len()
                invariant
                    b < self.by_time.len(),
                    k <= self.by_time@[b as int].blocks@.len(),
                    self.well_formed(),
                    forall|c: u64| #[trigger]
                        set@.contains(c) ==> self@.timely_code(c, ts_start, ts_end, now_us),
                    forall|a: int, j: int|
                        0 <= a < b && 0 <= j < self.by_time@[a].blocks@.len() && {
                            let m = (#[trigger] self.by_time@[a].blocks@[j])@;
                            !m.expired(now_us) && m.meets_time(ts_start, ts_end)
                        } ==> set@.contains(block_code(self.by_time@[a].blocks@[j]@)),
                    forall|j: int|
                        0 <= j < k && {
                            let m = (#[trigger] self.by_time@[b as int].blocks@[j])@;
                            !m.expired(now_us) && m.meets_time(ts_start, ts_end)
                        } ==> set@.contains(block_code(self.by_time@[b as int].blocks@[j]@)),
                decreases self.by_time@[b as int].blocks@.len() - k,
            {
                let m = &self.by_time[b].blocks[k];
                if !m.is_expired(now_us) && m.overlaps_time(ts_start, ts_end) {
                    set.insert(m.code());
                    proof {
                        assert(belongs(
                            self.by_time@[b as int].blocks@[k as int]@,
                            self.by_time@[b as int].bucket,
                            self@.blocks,
                            self.time_bucket_us as int,
                        ));
                        let i = choose|i: int| 0 <= i < self@.blocks.len() && self@.blocks[i] == m@;
                        assert(block_code(self@.blocks[i]) == block_code(m@));
                        assert(self@.timely_code(block_code(m@), ts_start, ts_end, now_us));
                    }
                }
                k = k + 1;
            }
            b = b + 1;
        }
        proof {
            assert forall|c: u64| self@.timely_code(c, ts_start, ts_end, now_us) implies #[trigger] set@.contains(
                c,
            ) by {
                let i = choose|i: int|
                    0 <= i < self@.blocks.len() && block_code(#[trigger] self@.blocks[i]) == c
                        && !self@.blocks[i].expired(now_us) && self@.blocks[i].meets_time(
                        ts_start,
                        ts_end,
                    );
                let m = self@.blocks[i];
                assert(is_filed(self.by_time@, self@.blocks[i]));
                let a = choose|a: int| filed(self.by_time@, m, a);
                let j = choose|j: int|
                    0 <= j < metas(self.by_time@[a].blocks@).len() && metas(
                        self.by_time@[a].blocks@,
                    )[j] == m;
                assert(self.by_time@[a].blocks@[j]@ == m);
                assert(belongs(m, self.by_time@[a].bucket, self@.blocks, width));
                lemma_truncated_div_monotone(m.min_ts as int, ts_end as int, width);
                if a >= b {
                    if a > b {
                        assert(self.by_time@[b as int].bucket < self.by_time@[a].bucket);
                    }
                }
            }
        }
        set
    }

    /// The number of time buckets in use.
    pub fn bucket_count(&self) -> (r: usize)
        requires
            self.well_formed(),
        ensures
            r == self@.blocks.map_values(
                |m: MetaView| bucket_of(m, self.bucket_width()),
            ).to_set().len(),
    {
        proof {
            let width = self.time_bucket_us as int;
            let ids = self.by_time@.map_values(|t: TimeBucket| t.bucket as int);
            let all = self@.blocks.map_values(|m: MetaView| bucket_of(m, self.bucket_width()));
            assert(ids.no_duplicates());
            ids.unique_seq_to_set();
            assert(ids.to_set() =~= all.to_set()) by {
                assert forall|x: int| ids.to_set().contains(x) <==> all.to_set().contains(x) by {
                    if ids.contains(x) {
                        let b = choose|b: int| 0 <= b < ids.len() && ids[b] == x;
                        assert(self.by_time@[b].blocks@.len() > 0);
                        let m = self.by_time@[b].blocks@[0]@;
                        assert(belongs(m, self.by_time@[b].bucket, self@.blocks, width));
                        let i = choose|i: int| 0 <= i < self@.blocks.len() && self@.blocks[i] == m;
                        assert(all[i] == x);
                    }
                    if all.contains(x) {
                        let i = choose|i: int| 0 <= i < all.len() && all[i] == x;
                        let m = self@.blocks[i];
                        assert(is_filed(self.by_time@, self@.blocks[i]));
                        let a = choose|a: int| filed(self.by_time@, m, a);
                        let j = choose|j: int|
                            0 <= j < metas(self.by_time@[a].blocks@).len() && metas(
                                self.by_time@[a].blocks@,
                            )[j] == m;
                        assert(self.by_time@[a].blocks@[j]@ == m);
                        assert(belongs(m, self.by_time@[a].bucket, self@.blocks, width));
                        assert(ids[a] == x);
                    }
                }
            }
        }
        self.by_time.len()
    }
}

/// `r` is the position of the first block that covers `key`, or the number of
/// blocks where none does.
pub open spec fn first_covering(s: Seq<MetaView>, key: Seq<u8>, r: int) -> bool {
    &&& 0 <= r <= s.len()
    &&& forall|i: int| 0 <= i < r ==> !(#[trigger] s[i]).covers(key)
    &&& r < s.len() ==> s[r].covers(key)
}

/// Finds the first block that covers `key` among blocks that follow each other
/// in key order. Returns the number of blocks where none does.
fn search_blocks(blocks: &Vec<BlockMeta>, key: &[u8]) -> (r: usize)
    requires
        blocks_ordered(metas(blocks@)),
    ensures
        first_covering(metas(blocks@), key@, r as int),
{
    let ghost s = metas(blocks@);
    let mut lo: usize = 0;
    let mut hi: usize = blocks.len();
    while lo < hi
        invariant
            lo <= hi <= blocks.len(),
            s == metas(blocks@),
            blocks_ordered(s),
            forall|i: int| 0 <= i < lo ==> lex_lt((#[trigger] s[i]).max_key, key@),
            forall|i: int| hi <= i < s.len() ==> lex_le(key@, (#[trigger] s[i]).max_key),
        decreases hi - lo,
    {
        let mid: usize = lo + (hi - lo) / 2;
        let ghost pivot = s[mid as int];
        assert(pivot == blocks@[mid as int]@);
        if bytes_lt(&blocks[mid].max_key, key) {
            assert forall|i: int| 0 <= i < mid + 1 implies lex_lt((#[trigger] s[i]).max_key, key@) by {
                if lo <= i < mid {
                    assert(lex_le(s[i].max_key, s[mid as int].min_key));
                    assert(lex_le(pivot.min_key, pivot.max_key));
                    lemma_lex_le_transitive(s[i].max_key, pivot.min_key, pivot.max_key);
                    lemma_lex_le_transitive(s[i].max_key, pivot.max_key, key@);
                }
            }
            lo = mid + 1;
        } else {
            proof {
                lemma_lex_not_le(key@, pivot.max_key);
            }
            assert forall|i: int| mid <= i < s.len() implies lex_le(
                key@,
                (#[trigger] s[i]).max_key,
            ) by {
                if mid < i {
                    assert(lex_le(s[mid as int].max_key, s[i].min_key));
                    assert(lex_le(s[i].min_key, s[i].max_key));
                    lemma_lex_le_transitive(key@, pivot.max_key, s[i].min_key);
                    lemma_lex_le_transitive(key@, s[i].min_key, s[i].max_key);
                }
            }
            hi = mid;
        }
    }
    proof {
        assert forall|i: int| 0 <= i < lo implies !(#[trigger] s[i]).covers(key@) by {
            lemma_lex_not_le(key@, s[i].max_key);
        }
    }
    if lo < blocks.len() && bytes_le(&blocks[lo].min_key, key) {
        assert(s[lo as int] == blocks@[lo as int]@);
        return lo;
    }
    proof {
        assert forall|i: int| 0 <= i < s.len() implies !(#[trigger] s[i]).covers(key@) by {
            if i >= lo {
                assert(s[lo as int] == blocks@[lo as int]@);
                lemma_lex_not_le(s[lo as int].min_key, key@);
                if i > lo {
                    assert(lex_le(s[lo as int].max_key, s[i].min_key));
                    lemma_lex_le_transitive(
                        s[lo as int].min_key,
                        s[lo as int].max_key,
                        s[i].min_key,
                    );
                    lemma_lex_le_transitive(key@, s[lo as int].min_key, s[i].min_key);
                }
                lemma_lex_not_le(s[i].min_key, key@);
            }
        }
    }
    blocks.len()
}

/// The first block that covers `key`, whatever the order of the blocks.
fn scan_blocks(blocks: &Vec<BlockMeta>, key: &[u8]) -> (r: usize)
    ensures
        first_covering(metas(blocks@), key@, r as int),
{
    let mut i: usize = 0;
    while i < blocks.len()
        invariant
            i <= blocks.len(),
            forall|j: int| 0 <= j < i ==> !(#[trigger] metas(blocks@)[j]).covers(key@),
        decreases blocks.len() - i,
    {
        assert(metas(blocks@)[i as int] == blocks@[i as int]@);
        if blocks[i].covers_key(key) {
            return i;
        }
        i = i + 1;
    }
    i
}

impl SstBlocks {
    fn binary_search_block(&self, key: &[u8]) -> (r: usize)
        requires
            self.ordered ==> blocks_ordered(metas(self.blocks@)),
        ensures
            first_covering(metas(self.blocks@), key@, r as int),
    {
        if self.ordered {
            search_blocks(&self.blocks, key)
        } else {
            scan_blocks(&self.blocks, key)
        }
    }

    /// Appends copies of the unexpired blocks that cover `key`.
    fn push_covering(&self, key: &[u8], now_us: i64, out: &mut Vec<BlockMeta>)
        requires
            self.ordered ==> blocks_ordered(metas(self.blocks@)),
        ensures
            metas(final(out)@) == metas(old(out)@) + metas(self.blocks@).filter(
                |m: MetaView| m.covers(key@) && !m.expired(now_us),
            ),
    {
        let ghost s = metas(self.blocks@);
        let ghost p = |m: MetaView| m.covers(key@) && !m.expired(now_us);
        let ghost start = metas(out@);
        let mut i: usize = self.binary_search_block(key);
        proof {
            s.subrange(0, i as int).lemma_all_neg_filter_empty(p);
            assert(s.subrange(0, i as int).filter(p) =~= Seq::<MetaView>::empty());
            assert(metas(out@) =~= start + s.subrange(0, i as int).filter(p));
        }
        let mut more: bool = true;
        while more && i < self.blocks.len()
            invariant
                i <= self.blocks.len(),
                self.ordered ==> blocks_ordered(s),
                s == metas(self.blocks@),
                start == metas(old(out)@),
                p == (|m: MetaView| m.covers(key@) && !m.expired(now_us)),
                metas(out@) == start + s.subrange(0, i as int).filter(p),
                !more ==> forall|j: int| i <= j < s.len() ==> !(#[trigger] s[j]).covers(key@),
            decreases self.blocks.len() - i,
        {
            let m = &self.blocks[i];
            let ghost before = metas(out@);
            proof {
                assert(s[i as int] == m@);
                assert(s.subrange(0, i + 1) =~= s.subrange(0, i as int).push(s[i as int]));
                s.subrange(0, i as int).lemma_filter_push(s[i as int], p);
            }
            if m.covers_key(key) {
                if !m.is_expired(now_us) {
                    out.push(m.copy());
                    assert(metas(out@) =~= before.push(m@));
                    assert(metas(out@) =~= start + s.subrange(0, i + 1).filter(p));
                }
            } else if self.ordered && bytes_lt(key, &m.min_key) {
                more = false;
                proof {
                    assert forall|j: int| i < j < s.len() implies !(#[trigger] s[j]).covers(key@) by {
                        assert(lex_le(s[i as int].max_key, s[j].min_key));
                        assert(lex_le(s[i as int].min_key, s[i as int].max_key));
                        lemma_lex_le_transitive(
                            s[i as int].min_key,
                            s[i as int].max_key,
                            s[j].min_key,
                        );
                        lemma_lex_le_transitive(key@, s[i as int].min_key, s[j].min_key);
                        lemma_lex_not_le(s[j].min_key, key@);
                    }
                }
            }
            i = i + 1;
        }
        proof {
            let head = s.subrange(0, i as int);
            let tail = s.subrange(i as int, s.len() as int);
            assert(s =~= head + tail);
            Seq::filter_distributes_over_add(head, tail, p);
            tail.lemma_all_neg_filter_empty(p);
            assert(tail.filter(p) =~= Seq::<MetaView>::empty());
            assert(head.filter(p) + tail.filter(p) =~= head.filter(p));
        }
    }
}

/// `f` was called on the blocks in turn until it gave a record: `r` is the
/// record it gave on the first block where it gave one.
pub open spec fn first_answer<F: Fn(&BlockMeta) -> Option<Record>>(
    f: F,
    blocks: Seq<MetaView>,
    r: Option<Record>,
) -> bool {
    match r {
        Some(rec) => exists|k: int| #[trigger] answers_at(f, blocks, k, rec),
        None => silent_before(f, blocks, blocks.len() as int),
    }
}

/// `f` gave no record on the first `k` blocks.
pub open spec fn silent_before<F: Fn(&BlockMeta) -> Option<Record>>(
    f: F,
    blocks: Seq<MetaView>,
    k: int,
) -> bool {
    forall|j: int|
        0 <= j < k ==> exists|m: BlockMeta|
            m@ == #[trigger] blocks[j] && call_ensures(f, (&m,), None)
}

/// `f` gave `rec` on block `k` and nothing on those before.
pub open spec fn answers_at<F: Fn(&BlockMeta) -> Option<Record>>(
    f: F,
    blocks: Seq<MetaView>,
    k: int,
    rec: Record,
) -> bool {
    &&& 0 <= k < blocks.len()
    &&& silent_before(f, blocks, k)
    &&& exists|m: BlockMeta| m@ == blocks[k] && call_ensures(f, (&m,), Some(rec))
}

impl BlockMetaIndex {
    /// The unexpired blocks that may hold `key`, those of the SST with the
    /// highest number first.
    pub fn query_point(&self, key: &[u8], now_us: i64) -> (r: Vec<BlockMeta>)
        requires
            self.well_formed(),
        ensures
            metas(r@) == self@.point_candidates(key@, now_us),
    {
        let ghost parts = Seq::new(
            self@.ssts.len(),
            |i: int| self@.point_blocks(i, key@, now_us),
        );
        let mut out: Vec<BlockMeta> = Vec::new();
        let mut i: usize = 0;
        assert(metas(out@) =~= parts.subrange(0, 0).flatten());
        while i < self.sst_blocks.len()
            invariant
                i <= self.sst_blocks.len(),
                self.well_formed(),
                parts == Seq::new(
                    self@.ssts.len(),
                    |i: int| self@.point_blocks(i, key@, now_us),
                ),
                metas(out@) == parts.subrange(0, i as int).flatten(),
            decreases self.sst_blocks.len() - i,
        {
            let t = &self.sst_blocks[i];
            let ghost before = metas(out@);
            assert(self@.ssts[i as int] == sst_view(*t));
            if self.bloom_may_contain(t.sst_id, key) {
                t.push_covering(key, now_us, &mut out);
            }
            proof {
                assert(metas(out@) =~= before + parts[i as int]);
                assert(parts.subrange(0, i + 1) =~= parts.subrange(0, i as int).push(
                    parts[i as int],
                ));
                parts.subrange(0, i as int).lemma_flatten_push(parts[i as int]);
            }
            i = i + 1;
        }
        assert(parts.subrange(0, parts.len() as int) =~= parts);
        out
    }

    /// Calls `f` on the blocks that may hold `key`, those of the SST with the
    /// highest number first, until it gives a record.
    pub fn query_point_inline<F: Fn(&BlockMeta) -> Option<Record>>(
        &self,
        key: &[u8],
        now_us: i64,
        f: F,
    ) -> (r: Option<Record>)
        requires
            self.well_formed(),
            forall|m: &BlockMeta| #[trigger] call_requires(f, (m,)),
        ensures
            first_answer(f, self@.point_candidates(key@, now_us), r),
    {
        let candidates = self.query_point(key, now_us);
        let ghost s = metas(candidates@);
        let mut i: usize = 0;
        while i < candidates.len()
            invariant
                i <= candidates.len(),
                s == metas(candidates@),
                s == self@.point_candidates(key@, now_us),
                forall|m: &BlockMeta| #[trigger] call_requires(f, (m,)),
                silent_before(f, s, i as int),
            decreases candidates.len() - i,
        {
            let m = &candidates[i];
            assert(s[i as int] == m@);
            let answer = f(m);
            match answer {
                Some(rec) => {
                    assert(answers_at(f, s, i as int, rec));
                    return Some(rec);
                },
                None => {
                    proof {
                        assert forall|j: int| 0 <= j < i + 1 implies exists|x: BlockMeta|
                            x@ == #[trigger] s[j] && call_ensures(f, (&x,), None) by {
                            if j == i {
                                assert(m@ == s[j] && call_ensures(f, (m,), None));
                            }
                        }
                    }
                },
            }
            i = i + 1;
        }
        None
    }

    /// Where there is exactly one SST, the block of it that a lookup of `key`
    /// starts with: the first that covers the key, unless it has expired.
    pub fn single_sst_point(&self, key: &[u8], now_us: i64) -> (r: Option<(u32, u32)>)
        requires
            self.well_formed(),
        ensures
            match r {
                Some((sst_id, block_idx)) => {
                    &&& self@.ssts.len() == 1
                    &&& exists|k: int|
                        first_covering(self@.ssts[0].blocks, key@, k) && k
                            < self@.ssts[0].blocks.len() && {
                            let m = #[trigger] self@.ssts[0].blocks[k];
                            !m.expired(now_us) && m.sst_id == sst_id && m.block_idx == block_idx
                        }
                },
                None => self@.ssts.len() == 1 ==> forall|k: int|
                    first_covering(self@.ssts[0].blocks, key@, k) ==> k
                        >= self@.ssts[0].blocks.len() || (
                    #[trigger] self@.ssts[0].blocks[k]).expired(now_us),
            },
    {
        if self.sst_blocks.len() != 1 {
            return None;
        }
        let t = &self.sst_blocks[0];
        let ghost s = self@.ssts[0].blocks;
        assert(self@.ssts[0] == sst_view(*t));
        let k: usize = t.binary_search_block(key);
        assert(forall|j: int| first_covering(s, key@, j) ==> j == k) by {
            assert forall|j: int| first_covering(s, key@, j) implies j == k by {
                if j < k {
                    assert(!s[j].covers(key@));
                } else if k < j {
                    assert(!s[k as int].covers(key@));
                }
            }
        }
        if k < t.blocks.len() {
            let m = &t.blocks[k];
            assert(s[k as int] == m@);
            if !m.is_expired(now_us) {
                return Some((m.sst_id, m.block_idx));
            }
        }
        None
    }
}

/// A query of the index leaves out no block that holds a live entry which the
/// filters let through.
pub proof fn law_index_query_is_complete(
    index: IndexView,
    sst_id: u32,
    info: BlockInfoView,
    chunk: Seq<Entry>,
    i: int,
    filter: KeyFilterView,
    times: Option<(i64, i64)>,
    now: i64,
)
    requires
        index.blocks.contains(meta_of(sst_id, info)),
        describes(info, chunk),
        0 <= i < chunk.len(),
        passes(chunk[i], filter, times, now),
    ensures
        index.candidates(filter, times, now).contains(meta_of(sst_id, info)),
{
    let m = meta_of(sst_id, info);
    lemma_block_is_not_pruned(sst_id, info, chunk, i, filter, times, now);
    let k = choose|k: int| 0 <= k < index.blocks.len() && index.blocks[k] == m;
    assert(m.same_block(index.blocks[k]));
    lemma_filter_contains(
        index.blocks,
        |m: MetaView| !m.expired(now) && m.meets(filter) && index.timely(m, times, now),
        m,
    );
}

proof fn lemma_filter_insert(
    s: Seq<MetaView>,
    p: int,
    m: MetaView,
    f: spec_fn(MetaView) -> bool,
)
    requires
        0 <= p <= s.len(),
        !f(m),
    ensures
        s.insert(p, m).filter(f) == s.filter(f),
{
    let a = s.subrange(0, p);
    let b = s.subrange(p, s.len() as int);
    assert(s =~= a + b);
    assert(s.insert(p, m) =~= a.push(m) + b);
    Seq::filter_distributes_over_add(a, b, f);
    Seq::filter_distributes_over_add(a.push(m), b, f);
    a.lemma_filter_push(m, f);
}

pub proof fn lemma_with_blocks_filter(
    s: Seq<MetaView>,
    sst_id: u32,
    blocks: Seq<BlockInfoView>,
    f: spec_fn(MetaView) -> bool,
)
    requires
        forall|b: BlockInfoView| !f(#[trigger] meta_of(sst_id, b)),
    ensures
        with_blocks(s, sst_id, blocks).filter(f) == s.filter(f),
    decreases blocks.len(),
{
    if blocks.len() > 0 {
        let t = with_blocks(s, sst_id, blocks.drop_last());
        let m = meta_of(sst_id, blocks.last());
        lemma_with_blocks_filter(s, sst_id, blocks.drop_last(), f);
        lemma_rank_bounds(t, m.min_key);
        lemma_filter_insert(t, rank_of(t, m.min_key), m, f);
    }
}

proof fn lemma_with_then_without(ssts: Seq<SstView>, t: SstView)
    requires
        falling_ids(ssts),
        forall|i: int| 0 <= i < ssts.len() ==> (#[trigger] ssts[i]).sst_id != t.sst_id,
    ensures
        without_sst(with_sst(ssts, t), t.sst_id) == ssts,
    decreases ssts.len(),
{
    let pred = |x: SstView| x.sst_id != t.sst_id;
    if ssts.len() == 0 || ssts[0].sst_id < t.sst_id {
        Seq::filter_distributes_over_add(seq![t], ssts, pred);
        assert(seq![t].filter(pred) =~= Seq::<SstView>::empty()) by {
            seq![t].lemma_all_neg_filter_empty(pred);
        }
        lemma_filter_all(ssts, pred);
        assert(without_sst(with_sst(ssts, t), t.sst_id) =~= ssts);
    } else {
        let rest = ssts.drop_first();
        assert forall|i: int, j: int| 0 <= i < j < rest.len() implies (#[trigger] rest[i]).sst_id > (
        #[trigger] rest[j]).sst_id by {
            assert(rest[i] == ssts[i + 1] && rest[j] == ssts[j + 1]);
        }
        assert forall|i: int| 0 <= i < rest.len() implies (#[trigger] rest[i]).sst_id
            != t.sst_id by {
            assert(rest[i] == ssts[i + 1]);
        }
        lemma_with_then_without(rest, t);
        let one = seq![ssts[0]];
        let more = with_sst(rest, t);
        assert(with_sst(ssts, t) =~= one + more);
        Seq::filter_distributes_over_add(one, more, pred);
        assert(forall|i: int| 0 <= i < one.len() ==> pred(#[trigger] one[i]));
        lemma_filter_all(one, pred);
        assert(more.filter(pred) == rest);
        assert(one + rest =~= ssts);
    }
}

pub proof fn lemma_filter_all<T>(s: Seq<T>, p: spec_fn(T) -> bool)
    requires
        forall|i: int| 0 <= i < s.len() ==> p(#[trigger] s[i]),
    ensures
        s.filter(p) == s,
    decreases s.len(),
{
    reveal_with_fuel(Seq::filter, 1);
    if s.len() > 0 {
        lemma_filter_all(s.drop_last(), p);
        assert(s.filter(p) =~= s);
    } else {
        assert(s.filter(p) =~= s);
    }
}

/// Removing an SST undoes adding it.
pub proof fn law_remove_undoes_add(index: IndexView, sst_id: u32, blocks: Seq<BlockInfoView>)
    requires
        falling_ids(index.ssts),
        forall|i: int| 0 <= i < index.blocks.len() ==> (#[trigger] index.blocks[i]).sst_id != sst_id,
        forall|i: int| 0 <= i < index.ssts.len() ==> (#[trigger] index.ssts[i]).sst_id != sst_id,
        !index.blooms.contains_key(sst_id),
        !index.ranges.contains_key(sst_id),
    ensures
        index.with(sst_id, blocks).without(sst_id) == index,
{
    assert(index.ranges.remove(sst_id) =~= index.ranges);
    let f = |m: MetaView| m.sst_id != sst_id;
    lemma_with_blocks_filter(index.blocks, sst_id, blocks, f);
    lemma_filter_all(index.blocks, f);
    lemma_with_then_without(
        index.ssts,
        SstView { sst_id, blocks: metas_of(sst_id, blocks) },
    );
    assert(index.blooms.remove(sst_id) =~= index.blooms);
}

/// Once an SST was added and removed again, the index is as it was: every query
/// and lookup finds the same blocks in the same order, and the numbers of entries
/// and of time buckets are the same.
pub proof fn law_removed_sst_leaves_no_trace(
    before: BlockMetaIndex,
    after: BlockMetaIndex,
    sst_id: u32,
    blocks: Seq<BlockInfoView>,
    info: SstInfoView,
)
    requires
        before.well_formed(),
        after@ == before@.with_sst(sst_id, blocks, info).without(sst_id),
        forall|i: int|
            0 <= i < before@.blocks.len() ==> (#[trigger] before@.blocks[i]).sst_id != sst_id,
        forall|i: int|
            0 <= i < before@.ssts.len() ==> (#[trigger] before@.ssts[i]).sst_id != sst_id,
        !before@.blooms.contains_key(sst_id),
        !before@.ranges.contains_key(sst_id),
    ensures
        after@ == before@,
        by_min_key(after@.blocks),
        falling_ids(after@.ssts),
        forall|filter: KeyFilterView, times: Option<(i64, i64)>, now: i64| #[trigger]
            after@.candidates(filter, times, now) == before@.candidates(filter, times, now),
        forall|key: Seq<u8>, now: i64| #[trigger]
            after@.point_candidates(key, now) == before@.point_candidates(key, now),
{
    law_remove_undoes_add(before@, sst_id, blocks);
    let plain = before@.with(sst_id, blocks).without(sst_id);
    let full = before@.with_sst(sst_id, blocks, info).without(sst_id);
    assert(full.blooms =~= plain.blooms);
    assert(full.ranges =~= plain.ranges);
    assert(full == plain);
    before.lemma_order();
}

} // verus!
