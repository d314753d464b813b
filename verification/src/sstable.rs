//! Sorted string tables: blocks of compressed records, one after the other.

use vstd::prelude::*;
use vstd::slice::slice_subrange;

use crate::bloom::{
    at_least_one, holds_keys, key_views, law_no_false_negatives, BloomFilter, BloomView,
};
use crate::bytes::{
    bytes_eq, bytes_lt, copy_bytes, lemma_lex_asymmetric, lemma_lex_le_transitive, lemma_lex_not_le,
    lex_le, push_bytes,
};
use crate::codec::{
    decode_records, decoded, encode_records, encoded, fits_format, header_bytes,
    law_decode_inverts_encode, law_header_round_trip, lemma_encoded_len, lemma_header_len,
    parsed_header, unsequenced, BlockHeader, HEADER_SIZE,
};
use crate::error::{
    decimal, decimal_text, string_of, text2, text3, FlowError, FlowErrorView, Result,
};
use crate::lz4::{
    can_unpack, decompress, is_unpackable, lz4_decompressed, pack, packs, SURE_BLOCK_BYTES,
};
use crate::manifest::{infos, BlockInfo, BlockInfoView};
use crate::ranges::{
    collect_spans, is_masked, is_span, masked, push_spans, span_views, spans_in, KeySpan,
};
use crate::record::{entries, Entry, InternalRecord};

verus! {

/// `info` describes the records of `chunk`: each bound holds of every record
/// and is reached by one.
pub open spec fn describes(info: BlockInfoView, chunk: Seq<Entry>) -> bool {
    &&& forall|i: int|
        0 <= i < chunk.len() ==> {
            let e = #[trigger] chunk[i];
            &&& info.min_ts <= e.ts <= info.max_ts
            &&& info.min_expire <= e.expire_at <= info.max_expire
            &&& lex_le(info.min_key, e.key)
            &&& lex_le(e.key, info.max_key)
        }
    &&& exists|i: int| 0 <= i < chunk.len() && (#[trigger] chunk[i]).ts == info.min_ts
    &&& exists|i: int| 0 <= i < chunk.len() && (#[trigger] chunk[i]).ts == info.max_ts
    &&& exists|i: int| 0 <= i < chunk.len() && (#[trigger] chunk[i]).expire_at == info.min_expire
    &&& exists|i: int| 0 <= i < chunk.len() && (#[trigger] chunk[i]).expire_at == info.max_expire
    &&& exists|i: int| 0 <= i < chunk.len() && (#[trigger] chunk[i]).key == info.min_key
    &&& exists|i: int| 0 <= i < chunk.len() && (#[trigger] chunk[i]).key == info.max_key
}

/// The header of the block that holds `chunk`, compressed to `body`.
pub open spec fn block_header(
    chunk: Seq<Entry>,
    info: BlockInfoView,
    body: Seq<u8>,
) -> BlockHeader {
    BlockHeader {
        num_records: chunk.len() as u32,
        min_ts: info.min_ts,
        max_ts: info.max_ts,
        min_expire: info.min_expire,
        max_expire: info.max_expire,
        data_len: encoded(chunk).len() as u32,
        compressed_len: body.len() as u32,
    }
}

/// The bytes of the block that holds `chunk`: a header, and the compressed records.
pub open spec fn block_bytes(chunk: Seq<Entry>, info: BlockInfoView, body: Seq<u8>) -> Seq<u8> {
    header_bytes(block_header(chunk, info, body)) + body
}

/// The bytes of an SST: its blocks, one after the other.
pub open spec fn sst_bytes(
    blocks: Seq<Seq<Entry>>,
    infos: Seq<BlockInfoView>,
    bodies: Seq<Seq<u8>>,
) -> Seq<u8>
    decreases blocks.len(),
{
    if blocks.len() == 0 {
        Seq::empty()
    } else {
        sst_bytes(blocks.drop_last(), infos.drop_last(), bodies.drop_last()) + block_bytes(
            blocks.last(),
            infos.last(),
            bodies.last(),
        )
    }
}

/// `bodies` are the compressed forms of the blocks, one by one.
pub open spec fn pack_all(blocks: Seq<Seq<Entry>>, bodies: Seq<Seq<u8>>) -> bool {
    &&& bodies.len() == blocks.len()
    &&& forall|i: int|
        0 <= i < blocks.len() ==> packs(encoded(#[trigger] blocks[i]), bodies[i])
}

/// `data` holds the blocks with the compressed forms `bodies`.
pub open spec fn laid_out(
    blocks: Seq<Seq<Entry>>,
    infos: Seq<BlockInfoView>,
    bodies: Seq<Seq<u8>>,
    data: Seq<u8>,
) -> bool {
    pack_all(blocks, bodies) && data == sst_bytes(blocks, infos, bodies)
}

/// `data` holds the blocks: each with a header, and compressed so that it
/// decompresses to its encoded records.
pub open spec fn holds_blocks(
    blocks: Seq<Seq<Entry>>,
    infos: Seq<BlockInfoView>,
    data: Seq<u8>,
) -> bool {
    exists|bodies: Seq<Seq<u8>>| #[trigger] laid_out(blocks, infos, bodies, data)
}

/// Every block is described by the info of its position, which carries the
/// block's index.
pub open spec fn describe_all(infos: Seq<BlockInfoView>, blocks: Seq<Seq<Entry>>) -> bool {
    &&& infos.len() == blocks.len()
    &&& forall|i: int|
        0 <= i < blocks.len() ==> describes(infos[i], #[trigger] blocks[i]) && infos[i].block_idx
            == i as u32
}

/// `s` cut into pieces of `n` entries, of which only the last may be shorter.
pub open spec fn chunks(s: Seq<Entry>, n: int) -> Seq<Seq<Entry>>
    decreases s.len(),
{
    if s.len() == 0 || n <= 0 {
        Seq::empty()
    } else if s.len() <= n {
        seq![s]
    } else {
        seq![s.subrange(0, n)] + chunks(s.subrange(n, s.len() as int), n)
    }
}

/// The number of entries in a full block.
pub open spec fn block_capacity(block_size: usize) -> int {
    at_least_one(block_size as int)
}

/// Every block is small enough to be sure to be written.
pub open spec fn blocks_fit(blocks: Seq<Seq<Entry>>) -> bool {
    forall|i: int| 0 <= i < blocks.len() ==> encoded(#[trigger] blocks[i]).len() <= SURE_BLOCK_BYTES
}

/// A block and its description, ready to be appended to an SST.
struct EncodedBlock {
    data: Vec<u8>,
    info: BlockInfo,
}

pub open spec fn too_large() -> FlowErrorView {
    FlowErrorView::Other("sst block exceeds 32-bit length"@)
}

/// Collects what a block's description says of its records.
fn describe(chunk: &[InternalRecord], block_idx: u32) -> (info: BlockInfo)
    requires
        chunk@.len() > 0,
    ensures
        describes(info@, entries(chunk@)),
        info.block_idx == block_idx,
{
    let first = &chunk[0];
    let mut min_ts: i64 = first.ts;
    let mut max_ts: i64 = first.ts;
    let mut min_expire: i64 = first.expire_at;
    let mut max_expire: i64 = first.expire_at;
    let mut min_at: usize = 0;
    let mut max_at: usize = 0;
    let mut i: usize = 1;
    let ghost all = entries(chunk@);
    assert(all[0] == first@);
    let ghost mut w: (int, int, int, int) = (0, 0, 0, 0);
    while i < chunk.len()
        invariant
            1 <= i <= chunk.len(),
            all == entries(chunk@),
            min_at < i,
            max_at < i,
            0 <= w.0 < i,
            0 <= w.1 < i,
            0 <= w.2 < i,
            0 <= w.3 < i,
            all[w.0].ts == min_ts,
            all[w.1].ts == max_ts,
            all[w.2].expire_at == min_expire,
            all[w.3].expire_at == max_expire,
            forall|j: int|
                0 <= j < i ==> {
                    let e = #[trigger] all[j];
                    &&& min_ts <= e.ts <= max_ts
                    &&& min_expire <= e.expire_at <= max_expire
                    &&& lex_le(all[min_at as int].key, e.key)
                    &&& lex_le(e.key, all[max_at as int].key)
                },
        decreases chunk.len() - i,
    {
        let rec = &chunk[i];
        let ghost old_min = all[min_at as int].key;
        let ghost old_max = all[max_at as int].key;
        assert(rec@ == all[i as int]);
        if rec.ts < min_ts {
            min_ts = rec.ts;
            proof {
                w.0 = i as int;
            }
        }
        if rec.ts > max_ts {
            max_ts = rec.ts;
            proof {
                w.1 = i as int;
            }
        }
        if rec.expire_at < min_expire {
            min_expire = rec.expire_at;
            proof {
                w.2 = i as int;
            }
        }
        if rec.expire_at > max_expire {
            max_expire = rec.expire_at;
            proof {
                w.3 = i as int;
            }
        }
        proof {
            lemma_lex_not_le(old_min, rec.key@);
            lemma_lex_not_le(rec.key@, old_max);
        }
        if bytes_lt(&rec.key, &chunk[min_at].key) {
            min_at = i;
        }
        if bytes_lt(&chunk[max_at].key, &rec.key) {
            max_at = i;
        }
        proof {
            assert forall|j: int| 0 <= j < i + 1 implies {
                let e = #[trigger] all[j];
                &&& lex_le(all[min_at as int].key, e.key)
                &&& lex_le(e.key, all[max_at as int].key)
            } by {
                if j < i {
                    let k = all[j].key;
                    assert(lex_le(old_min, k) && lex_le(k, old_max));
                    assert(lex_le(all[min_at as int].key, old_min));
                    assert(lex_le(old_max, all[max_at as int].key));
                    lemma_lex_le_transitive(all[min_at as int].key, old_min, k);
                    lemma_lex_le_transitive(k, old_max, all[max_at as int].key);
                }
            }
        }
        i = i + 1;
    }
    let info = BlockInfo {
        block_idx,
        min_key: copy_bytes(&chunk[min_at].key),
        max_key: copy_bytes(&chunk[max_at].key),
        min_ts,
        max_ts,
        min_expire,
        max_expire,
    };
    proof {
        assert(all[min_at as int].key == info@.min_key);
        assert(all[max_at as int].key == info@.max_key);
        assert(all[w.0].ts == info@.min_ts);
    }
    info
}

/// Encodes and compresses the records of one block. A block that is too large
/// for its header, or that could not be read back, is refused.
fn encode_block(chunk: &[InternalRecord], block_idx: u32) -> (r: Result<EncodedBlock>)
    requires
        chunk@.len() > 0,
    ensures
        match r {
            Ok(b) => describes(b.info@, entries(chunk@)) && b.info.block_idx == block_idx && exists|
                body: Seq<u8>,
            |
                packs(encoded(entries(chunk@)), body) && b.data@ == #[trigger] block_bytes(
                    entries(chunk@),
                    b.info@,
                    body,
                ),
            Err(e) => e@ == too_large() && encoded(entries(chunk@)).len() > SURE_BLOCK_BYTES,
        },
{
    let raw_data = encode_records(chunk);
    let compressed = match pack(&raw_data) {
        Some(c) => c,
        None => {
            return Err(FlowError::Other(string_of("sst block exceeds 32-bit length")));
        },
    };
    let info = describe(chunk, block_idx);
    proof {
        lemma_encoded_len(entries(chunk@));
    }
    let header = BlockHeader {
        num_records: chunk.len() as u32,
        min_ts: info.min_ts,
        max_ts: info.max_ts,
        min_expire: info.min_expire,
        max_expire: info.max_expire,
        data_len: raw_data.len() as u32,
        compressed_len: compressed.len() as u32,
    };
    let mut data = header.to_bytes();
    push_bytes(&mut data, &compressed);
    assert(data@ == block_bytes(entries(chunk@), info@, compressed@));
    Ok(EncodedBlock { data, info })
}

/// `data` is an SST of `s` with blocks of `cap` entries, which `infos` describes.
pub open spec fn is_sst(
    s: Seq<Entry>,
    cap: int,
    infos: Seq<BlockInfoView>,
    data: Seq<u8>,
) -> bool {
    &&& describe_all(infos, chunks(s, cap))
    &&& holds_blocks(chunks(s, cap), infos, data)
}

/// A full first piece is cut off as it is.
proof fn lemma_chunks_first(c: Seq<Entry>, rest: Seq<Entry>, n: int)
    requires
        c.len() == n,
        n > 0,
    ensures
        chunks(c + rest, n) == seq![c] + chunks(rest, n),
{
    let s = c + rest;
    if rest.len() == 0 {
        assert(s =~= c);
        assert(chunks(s, n) =~= seq![c] + chunks(rest, n));
    } else {
        assert(s.subrange(0, n) =~= c);
        assert(s.subrange(n, s.len() as int) =~= rest);
    }
}

/// Full pieces in front are cut off as they are.
pub proof fn lemma_chunks_prefix(full: Seq<Seq<Entry>>, rest: Seq<Entry>, n: int)
    requires
        n > 0,
        forall|i: int| 0 <= i < full.len() ==> (#[trigger] full[i]).len() == n,
    ensures
        chunks(full.flatten() + rest, n) == full + chunks(rest, n),
    decreases full.len(),
{
    if full.len() == 0 {
        assert(full.flatten() + rest =~= rest);
        assert(full + chunks(rest, n) =~= chunks(rest, n));
    } else {
        let c = full.first();
        let more = full.drop_first();
        assert forall|i: int| 0 <= i < more.len() implies (#[trigger] more[i]).len() == n by {
            assert(more[i] == full[i + 1]);
        }
        lemma_chunks_prefix(more, rest, n);
        assert(full.flatten() + rest =~= c + (more.flatten() + rest));
        lemma_chunks_first(c, more.flatten() + rest, n);
        assert(seq![c] + (more + chunks(rest, n)) =~= full + chunks(rest, n));
    }
}

/// Full pieces followed by a shorter one are what their concatenation is cut into.
proof fn lemma_chunks_of_pieces(full: Seq<Seq<Entry>>, last: Seq<Entry>, n: int)
    requires
        n > 0,
        forall|i: int| 0 <= i < full.len() ==> (#[trigger] full[i]).len() == n,
        last.len() <= n,
    ensures
        chunks(full.flatten() + last, n) == if last.len() == 0 {
            full
        } else {
            full.push(last)
        },
    decreases full.len(),
{
    if full.len() == 0 {
        assert(full.flatten() + last =~= last);
        if last.len() == 0 {
            assert(chunks(last, n) =~= full);
        } else {
            assert(chunks(last, n) =~= full.push(last));
        }
    } else {
        let c = full.first();
        let more = full.drop_first();
        assert forall|i: int| 0 <= i < more.len() implies (#[trigger] more[i]).len() == n by {
            assert(more[i] == full[i + 1]);
        }
        lemma_chunks_of_pieces(more, last, n);
        assert(full.flatten() + last =~= c + (more.flatten() + last));
        lemma_chunks_first(c, more.flatten() + last, n);
        if last.len() == 0 {
            assert(seq![c] + more =~= full);
        } else {
            assert(seq![c] + more.push(last) =~= full.push(last));
        }
    }
}

/// The keys of `s`, each run of equal keys once.
pub open spec fn key_runs(s: Seq<Entry>) -> Seq<Seq<u8>>
    decreases s.len(),
{
    if s.len() == 0 {
        Seq::empty()
    } else if s.len() > 1 && s[s.len() - 2].key == s.last().key {
        key_runs(s.drop_last())
    } else {
        key_runs(s.drop_last()).push(s.last().key)
    }
}

/// Every key of `s` is among its runs.
pub proof fn lemma_key_runs_complete(s: Seq<Entry>, i: int)
    requires
        0 <= i < s.len(),
    ensures
        key_runs(s).contains(s[i].key),
    decreases s.len(),
{
    if i < s.len() - 1 {
        lemma_key_runs_complete(s.drop_last(), i);
        assert(s.drop_last()[i] == s[i]);
        let runs = key_runs(s.drop_last());
        let j = choose|j: int| 0 <= j < runs.len() && runs[j] == s[i].key;
        assert(key_runs(s)[j] == s[i].key);
    } else if s.len() > 1 && s[s.len() - 2].key == s.last().key {
        lemma_key_runs_complete(s.drop_last(), s.len() - 2);
        assert(s.drop_last()[s.len() - 2] == s[s.len() - 2]);
    } else {
        let n = key_runs(s.drop_last()).len() as int;
        assert(key_runs(s)[n] == s[i].key);
    }
}

/// One more block at the end of an SST.
proof fn lemma_sst_push(
    blocks: Seq<Seq<Entry>>,
    infos: Seq<BlockInfoView>,
    data: Seq<u8>,
    chunk: Seq<Entry>,
    info: BlockInfoView,
    more: Seq<u8>,
)
    requires
        describe_all(infos, blocks),
        holds_blocks(blocks, infos, data),
        describes(info, chunk),
        info.block_idx == blocks.len() as u32,
        exists|body: Seq<u8>|
            packs(encoded(chunk), body) && more == #[trigger] block_bytes(chunk, info, body),
    ensures
        describe_all(infos.push(info), blocks.push(chunk)),
        holds_blocks(blocks.push(chunk), infos.push(info), data + more),
{
    let bodies = choose|bodies: Seq<Seq<u8>>| #[trigger] laid_out(blocks, infos, bodies, data);
    let body = choose|body: Seq<u8>|
        packs(encoded(chunk), body) && more == #[trigger] block_bytes(chunk, info, body);
    assert(blocks.push(chunk).drop_last() =~= blocks);
    assert(infos.push(info).drop_last() =~= infos);
    assert(bodies.push(body).drop_last() =~= bodies);
    assert(laid_out(blocks.push(chunk), infos.push(info), bodies.push(body), data + more));
}

/// Nothing holds no blocks.
proof fn lemma_no_blocks()
    ensures
        holds_blocks(Seq::empty(), Seq::empty(), Seq::empty()),
{
    assert(laid_out(Seq::empty(), Seq::empty(), Seq::empty(), Seq::empty()));
}

/// The low 32 bits of a count, as a block index is stored.
fn low_u32(n: usize) -> (r: u32)
    ensures
        r == n as u32,
{
    #[verifier::truncate]
    (n as u32)
}

/// What encoding an SST gives: the bytes, their number, the blocks'
/// descriptions and the filter over the keys.
pub type SstParts = (Vec<u8>, u64, Vec<BlockInfo>, BloomFilter);

pub struct SstWriter;

impl SstWriter {
    /// Encodes an SST into an in-memory buffer.
    ///
    /// Returns `(data, total_bytes, block_infos, bloom)`.
    /// The caller is responsible for persisting `data`.
    pub fn write_to_buf(
        records: &[InternalRecord],
        block_size: usize,
        bloom_bits_per_key: usize,
    ) -> (r: Result<SstParts>)
        ensures
            match r {
                Ok((data, total, block_infos, bloom)) => {
                    &&& is_sst(
                        entries(records@),
                        block_capacity(block_size),
                        infos(block_infos@),
                        data@,
                    )
                    &&& total == data@.len()
                    &&& bloom.well_formed()
                    &&& holds_keys(
                        BloomView::blank(
                            at_least_one(key_runs(entries(records@)).len() as int),
                            bloom_bits_per_key as int,
                        ),
                        key_runs(entries(records@)),
                        bloom@,
                    )
                },
                Err(e) => e@ == too_large() && !blocks_fit(
                    chunks(entries(records@), block_capacity(block_size)),
                ),
            },
    {
        let ghost all = entries(records@);
        let cap: usize = if block_size == 0 {
            1
        } else {
            block_size
        };
        let mut unique_keys: Vec<Vec<u8>> = Vec::new();
        let mut k: usize = 0;
        while k < records.len()
            invariant
                k <= records.len(),
                all == entries(records@),
                key_views(unique_keys@) == key_runs(all.subrange(0, k as int)),
            decreases records.len() - k,
        {
            let ghost s = all.subrange(0, k + 1);
            proof {
                assert(s.drop_last() =~= all.subrange(0, k as int));
                assert(s.last() == records@[k as int]@);
            }
            let repeated = k > 0 && bytes_eq(&records[k - 1].key, &records[k].key);
            if !repeated {
                unique_keys.push(copy_bytes(&records[k].key));
            }
            assert(key_views(unique_keys@) =~= key_runs(s));
            k = k + 1;
        }
        assert(all.subrange(0, all.len() as int) =~= all);
        let bloom = BloomFilter::from_keys_with_bits(&unique_keys, bloom_bits_per_key);

        let mut buf: Vec<u8> = Vec::new();
        let mut block_infos: Vec<BlockInfo> = Vec::new();
        let ghost mut blocks: Seq<Seq<Entry>> = Seq::empty();
        let mut i: usize = 0;
        proof {
            lemma_no_blocks();
            assert(infos(block_infos@) =~= Seq::<BlockInfoView>::empty());
            assert(buf@ =~= Seq::<u8>::empty());
        }
        assert(all.subrange(0, all.len() as int) =~= all);
        assert(blocks + chunks(all, cap as int) =~= chunks(all, cap as int));
        while i < records.len()
            invariant
                i <= records.len(),
                all == entries(records@),
                cap == block_capacity(block_size),
                blocks + chunks(all.subrange(i as int, all.len() as int), cap as int) == chunks(
                    all,
                    cap as int,
                ),
                describe_all(infos(block_infos@), blocks),
                holds_blocks(blocks, infos(block_infos@), buf@),
            decreases records.len() - i,
        {
            let end: usize = if records.len() - i < cap {
                records.len()
            } else {
                i + cap
            };
            let chunk = slice_subrange(records, i, end);
            let ghost c = entries(chunk@);
            let ghost before = infos(block_infos@);
            let idx: u32 = low_u32(block_infos.len());
            proof {
                let rest = all.subrange(i as int, all.len() as int);
                let more = all.subrange(end as int, all.len() as int);
                assert(c =~= all.subrange(i as int, end as int));
                assert(chunks(rest, cap as int) =~= seq![c] + chunks(more, cap as int)) by {
                    if rest.len() <= cap {
                        assert(c =~= rest);
                    } else {
                        assert(rest.subrange(0, cap as int) =~= c);
                        assert(rest.subrange(cap as int, rest.len() as int) =~= more);
                    }
                }
                assert(blocks + chunks(rest, cap as int) =~= blocks.push(c) + chunks(
                    more,
                    cap as int,
                ));
            }
            match encode_block(chunk, idx) {
                Ok(block) => {
                    proof {
                        lemma_sst_push(blocks, before, buf@, c, block.info@, block.data@);
                    }
                    push_bytes(&mut buf, &block.data);
                    proof {
                        blocks = blocks.push(c);
                    }
                    let ghost info = block.info@;
                    block_infos.push(block.info);
                    assert(infos(block_infos@) =~= before.push(info));
                },
                Err(e) => {
                    assert(chunks(all, cap as int)[blocks.len() as int] == c);
                    return Err(e);
                },
            }
            i = end;
        }
        assert(blocks + chunks(all.subrange(all.len() as int, all.len() as int), cap as int)
            =~= blocks);
        let total: u64 = buf.len() as u64;
        Ok((buf, total, block_infos, bloom))
    }
}

/// The keys of the entries, in order.
pub open spec fn keys_of(s: Seq<Entry>) -> Seq<Seq<u8>> {
    s.map_values(|e: Entry| e.key)
}

/// Streaming SST writer: takes records one at a time without materialising
/// the full record set in memory.
///
/// Construction takes an *estimated* unique-key count for the bloom
/// filter pre-allocation. An over-estimate is harmless (lower FPR).
/// Records are buffered until a block is full, then compressed and
/// appended to the internal buffer. Call [`SstStreamWriter::finish`] to
/// flush the last block and obtain the serialized bytes + metadata.
pub struct SstStreamWriter {
    buf: Vec<u8>,
    block_size: usize,
    bloom: BloomFilter,
    current_block: Vec<InternalRecord>,
    block_infos: Vec<BlockInfo>,
    total_bytes: u64,
    written: Ghost<Seq<Seq<Entry>>>,
    blank: Ghost<BloomView>,
}

impl SstStreamWriter {
    /// The entries written so far.
    pub closed spec fn contents(self) -> Seq<Entry> {
        self.written@.flatten() + entries(self.current_block@)
    }

    /// The entries that wait for their block to fill up.
    pub closed spec fn pending(self) -> Seq<Entry> {
        entries(self.current_block@)
    }

    pub closed spec fn capacity(self) -> int {
        block_capacity(self.block_size)
    }

    /// The blocks that are complete.
    pub closed spec fn complete(self) -> Seq<Seq<Entry>> {
        self.written@
    }

    /// What was written is in complete blocks, and in the entries that wait for
    /// theirs.
    pub proof fn lemma_shape(self)
        requires
            self.well_formed(),
        ensures
            self.contents() == self.complete().flatten() + self.pending(),
            forall|i: int|
                0 <= i < self.complete().len() ==> (#[trigger] self.complete()[i]).len()
                    == self.capacity(),
            self.pending().len() < self.capacity(),
            self.capacity() > 0,
    {
    }

    /// The filter before any key was added.
    pub closed spec fn blank_bloom(self) -> BloomView {
        self.blank@
    }

    pub closed spec fn well_formed(self) -> bool {
        &&& self.bloom.well_formed()
        &&& holds_keys(self.blank@, keys_of(self.contents()), self.bloom@)
        &&& describe_all(infos(self.block_infos@), self.written@)
        &&& holds_blocks(self.written@, infos(self.block_infos@), self.buf@)
        &&& self.total_bytes == self.buf@.len()
        &&& forall|i: int|
            0 <= i < self.written@.len() ==> (#[trigger] self.written@[i]).len() == self.capacity()
        &&& self.current_block@.len() < self.capacity()
    }

    pub fn new(block_size: usize, estimated_keys: usize, bloom_bits_per_key: usize) -> (r: Result<
        SstStreamWriter,
    >)
        ensures
            r is Ok,
            r->Ok_0.well_formed(),
            r->Ok_0.contents() == Seq::<Entry>::empty(),
            r->Ok_0.pending() == Seq::<Entry>::empty(),
            r->Ok_0.capacity() == block_capacity(block_size),
            r->Ok_0.blank_bloom() == BloomView::blank(
                at_least_one(estimated_keys as int),
                bloom_bits_per_key as int,
            ),
    {
        let n: usize = if estimated_keys == 0 {
            1
        } else {
            estimated_keys
        };
        let bloom = BloomFilter::with_bits_per_key(n, bloom_bits_per_key);
        let blank = Ghost(bloom@);
        let w = SstStreamWriter {
            buf: Vec::new(),
            block_size,
            bloom,
            current_block: Vec::new(),
            block_infos: Vec::new(),
            total_bytes: 0,
            written: Ghost(Seq::empty()),
            blank,
        };
        proof {
            assert(w.contents() =~= Seq::<Entry>::empty());
            assert(w.pending() =~= Seq::<Entry>::empty());
            assert(keys_of(w.contents()) =~= Seq::<Seq<u8>>::empty());
            lemma_no_blocks();
            assert(infos(w.block_infos@) =~= Seq::<BlockInfoView>::empty());
            assert(w.buf@ =~= Seq::<u8>::empty());
        }
        Ok(w)
    }

    /// Appends a single record. Automatically flushes the current block
    /// when it reaches `block_size` records. A block that is too large to be
    /// written makes the writer unusable.
    pub fn write_record(&mut self, rec: &InternalRecord) -> (r: Result<()>)
        requires
            old(self).well_formed(),
        ensures
            final(self).capacity() == old(self).capacity(),
            final(self).blank_bloom() == old(self).blank_bloom(),
            match r {
                Ok(_) => {
                    &&& final(self).well_formed()
                    &&& final(self).contents() == old(self).contents().push(rec@)
                    &&& final(self).pending() == if old(self).pending().len() + 1 < old(
                        self,
                    ).capacity() {
                        old(self).pending().push(rec@)
                    } else {
                        Seq::empty()
                    }
                },
                Err(e) => e@ == too_large() && old(self).pending().len() + 1 >= old(
                    self,
                ).capacity() && encoded(old(self).pending().push(rec@)).len() > SURE_BLOCK_BYTES,
            },
    {
        let ghost before = *self;
        self.bloom.insert(&rec.key);
        self.current_block.push(rec.copy());
        proof {
            assert(entries(self.current_block@) =~= before.pending().push(rec@));
            let ks = keys_of(before.contents().push(rec@));
            assert(ks.drop_last() =~= keys_of(before.contents()));
            assert(ks.last() == rec@.key);
            assert(before.bloom@.adds(rec@.key, self.bloom@));
            assert(holds_keys(self.blank@, ks, self.bloom@));
            assert(before.written@.flatten() + entries(self.current_block@)
                =~= before.contents().push(rec@));
        }
        if self.current_block.len() >= self.block_size {
            return self.flush_block();
        }
        Ok(())
    }

    /// Writes the current block out.
    fn flush_block(&mut self) -> (r: Result<()>)
        requires
            old(self).bloom.well_formed(),
            holds_keys(old(self).blank@, keys_of(old(self).contents()), old(self).bloom@),
            describe_all(infos(old(self).block_infos@), old(self).written@),
            holds_blocks(old(self).written@, infos(old(self).block_infos@), old(self).buf@),
            old(self).total_bytes == old(self).buf@.len(),
            forall|i: int|
                0 <= i < old(self).written@.len() ==> (#[trigger] old(self).written@[i]).len()
                    == old(self).capacity(),
            0 < old(self).current_block@.len(),
        ensures
            final(self).block_size == old(self).block_size,
            final(self).blank@ == old(self).blank@,
            final(self).bloom@ == old(self).bloom@,
            match r {
                Ok(_) => {
                    &&& final(self).written@ == old(self).written@.push(old(self).pending())
                    &&& final(self).current_block@.len() == 0
                    &&& final(self).contents() == old(self).contents()
                    &&& describe_all(infos(final(self).block_infos@), final(self).written@)
                    &&& holds_blocks(
                        final(self).written@,
                        infos(final(self).block_infos@),
                        final(self).buf@,
                    )
                    &&& final(self).total_bytes == final(self).buf@.len()
                    &&& final(self).bloom.well_formed()
                },
                Err(e) => e@ == too_large() && encoded(old(self).pending()).len()
                    > SURE_BLOCK_BYTES,
            },
    {
        let ghost before = *self;
        let ghost c = self.pending();
        let idx: u32 = low_u32(self.block_infos.len());
        match encode_block(&self.current_block, idx) {
            Ok(block) => {
                let ghost info = block.info@;
                let ghost old_infos = infos(self.block_infos@);
                proof {
                    lemma_sst_push(before.written@, old_infos, self.buf@, c, info, block.data@);
                }
                push_bytes(&mut self.buf, &block.data);
                self.total_bytes = self.buf.len() as u64;
                self.block_infos.push(block.info);
                proof {
                    assert(infos(self.block_infos@) =~= old_infos.push(info));
                    before.written@.lemma_flatten_push(c);
                }
                self.written = Ghost(self.written@.push(c));
                self.current_block.clear();
                proof {
                    assert(entries(self.current_block@) =~= Seq::<Entry>::empty());
                    assert(self.contents() =~= before.contents());
                }
                Ok(())
            },
            Err(e) => Err(e),
        }
    }

    /// Flushes the final block (if any) and returns the serialized bytes
    /// plus accumulated metadata `(data, total_bytes, block_infos, bloom)`.
    pub fn finish(self) -> (r: Result<SstParts>)
        requires
            self.well_formed(),
        ensures
            match r {
                Ok((data, total, block_infos, bloom)) => {
                    &&& is_sst(self.contents(), self.capacity(), infos(block_infos@), data@)
                    &&& total == data@.len()
                    &&& bloom.well_formed()
                    &&& holds_keys(self.blank_bloom(), keys_of(self.contents()), bloom@)
                },
                Err(e) => e@ == too_large() && encoded(self.pending()).len() > SURE_BLOCK_BYTES,
            },
    {
        let mut w = self;
        proof {
            lemma_chunks_of_pieces(self.written@, self.pending(), self.capacity());
        }
        if w.current_block.len() > 0 {
            match w.flush_block() {
                Ok(_) => {},
                Err(e) => {
                    return Err(e);
                },
            }
        }
        Ok((w.buf, w.total_bytes, w.block_infos, w.bloom))
    }
}

/// Where the blocks start that `data` holds from `pos` on, or the complaint
/// about the first header that is not one.
pub open spec fn block_starts(data: Seq<u8>, pos: int) -> core::result::Result<
    Seq<int>,
    FlowErrorView,
>
    decreases
            if pos < data.len() {
                data.len() - pos
            } else {
                0
            },
{
    if pos < 0 || pos + 48 > data.len() {
        Ok(Seq::empty())
    } else {
        match parsed_header(data.subrange(pos, pos + 48)) {
            Err(e) => Err(e),
            Ok(h) => match block_starts(data, pos + 48 + h.compressed_len) {
                Err(e) => Err(e),
                Ok(rest) => Ok(seq![pos] + rest),
            },
        }
    }
}

/// What is read as the block at index `idx` of SST `sst_id`.
pub open spec fn stored_block(
    data: Seq<u8>,
    starts: Seq<int>,
    sst_id: u32,
    idx: u32,
) -> core::result::Result<(BlockHeader, Seq<Entry>), FlowErrorView> {
    if idx >= starts.len() {
        Err(FlowErrorView::BlockNotFound { sst_id, block_idx: idx })
    } else {
        let pos = starts[idx as int];
        match parsed_header(data.subrange(pos, pos + 48)) {
            Err(e) => Err(e),
            Ok(h) => {
                let end = pos + 48 + h.compressed_len;
                if end > data.len() {
                    Err(
                        FlowErrorView::Corruption {
                            file: "sst_"@ + decimal(sst_id as nat),
                            msg: "block "@ + decimal(idx as nat) + " compressed data truncated"@,
                        },
                    )
                } else {
                    match unpacked(data.subrange(pos + 48, end), h.data_len) {
                        Err(e) => Err(e),
                        Ok(raw) => Ok((h, decoded(raw, 0, h.num_records as nat))),
                    }
                }
            },
        }
    }
}

/// The decompressed bytes of a block.
pub open spec fn unpacked(compressed: Seq<u8>, data_len: u32) -> core::result::Result<
    Seq<u8>,
    FlowErrorView,
> {
    if !can_unpack(compressed, data_len as nat) {
        Err(FlowErrorView::Other("lz4 decompress: length out of range"@))
    } else {
        match lz4_decompressed(compressed, data_len as nat) {
            Ok(raw) => Ok(raw),
            Err(text) => Err(FlowErrorView::Other("lz4 decompress: "@ + text)),
        }
    }
}

fn decompress_block(data: &[u8], header: &BlockHeader) -> (r: Result<Vec<u8>>)
    ensures
        r is Ok <==> unpacked(data@, header.data_len) is Ok,
        match r {
            Ok(v) => v@ == unpacked(data@, header.data_len)->Ok_0,
            Err(e) => e@ == unpacked(data@, header.data_len)->Err_0,
        },
{
    if !is_unpackable(data, header.data_len) {
        return Err(FlowError::Other(string_of("lz4 decompress: length out of range")));
    }
    match decompress(data, header.data_len) {
        Ok(v) => Ok(v),
        Err(text) => Err(FlowError::Other(text2("lz4 decompress: ", &text))),
    }
}

/// The bytes of an SST, with the places where its blocks start and the key
/// ranges that were found deleted in them.
pub struct SstReader {
    data: Vec<u8>,
    sst_id: u32,
    block_offsets: Vec<usize>,
    found: Vec<KeySpan>,
}

/// The key ranges of the range deletions that stand in the first `n` blocks, as
/// far as these can be read.
pub open spec fn spans_of_blocks(
    data: Seq<u8>,
    starts: Seq<int>,
    sst_id: u32,
    n: u32,
) -> Seq<(Seq<u8>, Seq<u8>)>
    decreases n,
{
    if n == 0 {
        Seq::empty()
    } else {
        spans_of_blocks(data, starts, sst_id, (n - 1) as u32) + match stored_block(
            data,
            starts,
            sst_id,
            (n - 1) as u32,
        ) {
            Ok((_, s)) => spans_in(s),
            Err(_) => Seq::empty(),
        }
    }
}

/// The key ranges of the range deletions that stand in the blocks of an SST.
pub open spec fn spans_of_sst(data: Seq<u8>, sst_id: u32) -> Seq<(Seq<u8>, Seq<u8>)> {
    let starts = block_starts(data, 0)->Ok_0;
    spans_of_blocks(data, starts, sst_id, starts.len() as u32)
}

/// The positions as integers.
pub open spec fn positions(s: Seq<usize>) -> Seq<int> {
    s.map_values(|p: usize| p as int)
}

impl SstReader {
    pub closed spec fn bytes(self) -> Seq<u8> {
        self.data@
    }

    pub closed spec fn id(self) -> u32 {
        self.sst_id
    }

    pub closed spec fn starts(self) -> Seq<int> {
        positions(self.block_offsets@)
    }

    pub closed spec fn well_formed(self) -> bool {
        &&& block_starts(self.data@, 0) is Ok
        &&& block_starts(self.data@, 0)->Ok_0 == self.starts()
        &&& forall|i: int|
            0 <= i < self.block_offsets@.len() ==> #[trigger] self.block_offsets@[i] + 48
                <= self.data@.len()
    }

    /// The key ranges that were found deleted in the blocks.
    pub closed spec fn found(self) -> Seq<(Seq<u8>, Seq<u8>)> {
        span_views(self.found@)
    }

    /// What the block at `idx` holds, but for what a range deletion found in the
    /// SST covers; nothing where it cannot be read.
    pub open spec fn left_in(self, idx: u32) -> Seq<Entry> {
        match self.block(idx) {
            Ok((_, s)) => s.filter(|e: Entry| !masked(self.found(), e.key)),
            Err(_) => Seq::empty(),
        }
    }

    /// What reading the block at `idx` gives.
    pub open spec fn block(self, idx: u32) -> core::result::Result<
        (BlockHeader, Seq<Entry>),
        FlowErrorView,
    > {
        stored_block(self.bytes(), self.starts(), self.id(), idx)
    }

    /// Finds the blocks of an SST. Fails where a block does not start with a header.
    pub fn build(data: Vec<u8>, sst_id: u32) -> (r: Result<SstReader>)
        ensures
            r is Ok <==> block_starts(data@, 0) is Ok,
            match r {
                Ok(reader) => {
                    &&& reader.well_formed()
                    &&& reader.bytes() == data@
                    &&& reader.id() == sst_id
                    &&& reader.starts() == block_starts(data@, 0)->Ok_0
                    &&& reader.found() == Seq::<(Seq<u8>, Seq<u8>)>::empty()
                },
                Err(e) => e@ == block_starts(data@, 0)->Err_0,
            },
    {
        let mut offsets: Vec<usize> = Vec::new();
        let mut pos: usize = 0;
        let len: usize = data.len();
        let mut more: bool = len >= HEADER_SIZE;
        proof {
            let all = block_starts(data@, 0);
            if all is Ok {
                assert(positions(offsets@) + all->Ok_0 =~= all->Ok_0);
            }
        }
        while more
            invariant
                len == data@.len(),
                more <==> pos + 48 <= len,
                match block_starts(data@, pos as int) {
                    Ok(rest) => block_starts(data@, 0) is Ok && block_starts(data@, 0)->Ok_0
                        == positions(offsets@) + rest,
                    Err(e) => block_starts(data@, 0) is Err && block_starts(data@, 0)->Err_0 == e,
                },
                forall|i: int|
                    0 <= i < offsets@.len() ==> #[trigger] offsets@[i] + 48 <= data@.len(),
            decreases len - pos + if more {
                1int
            } else {
                0int
            },
        {
            let ghost before = positions(offsets@);
            match BlockHeader::from_bytes(slice_subrange(&data, pos, pos + HEADER_SIZE)) {
                Ok(header) => {
                    offsets.push(pos);
                    assert(positions(offsets@) =~= before.push(pos as int));
                    let body: usize = header.compressed_len as usize;
                    let room: usize = len - pos - HEADER_SIZE;
                    proof {
                        let next = block_starts(data@, pos + 48 + body);
                        if next is Ok {
                            assert(before + (seq![pos as int] + next->Ok_0) =~= before.push(
                                pos as int,
                            ) + next->Ok_0);
                        }
                    }
                    if body > room {
                        pos = len;
                        assert(block_starts(data@, len as int) =~= Ok::<Seq<int>, FlowErrorView>(
                            Seq::empty(),
                        ));
                    } else {
                        pos = pos + HEADER_SIZE + body;
                    }
                    more = len - pos >= HEADER_SIZE;
                },
                Err(e) => {
                    return Err(e);
                },
            }
        }
        assert(positions(offsets@) + Seq::<int>::empty() =~= positions(offsets@));
        let reader = SstReader { data, sst_id, block_offsets: offsets, found: Vec::new() };
        assert(reader.found() =~= Seq::<(Seq<u8>, Seq<u8>)>::empty());
        Ok(reader)
    }

    /// Finds the blocks of an SST, and the range deletions that stand in them.
    pub fn open(data: Vec<u8>, sst_id: u32) -> (r: Result<SstReader>)
        ensures
            r is Ok <==> block_starts(data@, 0) is Ok,
            match r {
                Ok(reader) => {
                    &&& reader.well_formed()
                    &&& reader.bytes() == data@
                    &&& reader.id() == sst_id
                    &&& reader.starts() == block_starts(data@, 0)->Ok_0
                    &&& reader.found() == spans_of_sst(data@, sst_id)
                },
                Err(e) => e@ == block_starts(data@, 0)->Err_0,
            },
    {
        match SstReader::build(data, sst_id) {
            Ok(built) => {
                let mut reader = built;
                let found = reader.deleted_ranges();
                reader.found = found;
                Ok(reader)
            },
            Err(e) => Err(e),
        }
    }

    /// The key ranges of the range deletions that stand in the blocks.
    fn deleted_ranges(&self) -> (r: Vec<KeySpan>)
        requires
            self.well_formed(),
        ensures
            span_views(r@) == spans_of_blocks(
                self.bytes(),
                self.starts(),
                self.id(),
                self.starts().len() as u32,
            ),
    {
        let count: u32 = self.block_count();
        let mut found: Vec<KeySpan> = Vec::new();
        let mut k: u32 = 0;
        assert(span_views(found@) =~= Seq::<(Seq<u8>, Seq<u8>)>::empty());
        while k < count
            invariant
                k <= count,
                self.well_formed(),
                span_views(found@) == spans_of_blocks(self.bytes(), self.starts(), self.id(), k),
            decreases count - k,
        {
            let ghost before = span_views(found@);
            match self.read_block(k) {
                Ok(records) => {
                    push_spans(&mut found, &collect_spans(&records));
                },
                Err(_) => {
                    assert(before + Seq::<(Seq<u8>, Seq<u8>)>::empty() =~= before);
                },
            }
            k = k + 1;
        }
        found
    }

    /// The key ranges that were found deleted in the blocks.
    pub fn found_ranges(&self) -> (r: &Vec<KeySpan>)
        ensures
            span_views(r@) == self.found(),
    {
        &self.found
    }

    /// Reads a block's records that no range deletion found in the SST covers;
    /// none where the block cannot be read.
    pub fn read_left(&self, block_idx: u32) -> (r: Vec<InternalRecord>)
        requires
            self.well_formed(),
        ensures
            entries(r@) == self.left_in(block_idx),
    {
        let mut out: Vec<InternalRecord> = Vec::new();
        assert(entries(out@) =~= Seq::<Entry>::empty());
        if let Ok(records) = self.read_block(block_idx) {
            let ghost all = entries(records@);
            let ghost p = |e: Entry| !masked(self.found(), e.key);
            let mut i: usize = 0;
            assert(all.subrange(0, 0).filter(p) =~= Seq::<Entry>::empty());
            while i < records.len()
                invariant
                    i <= records.len(),
                    all == entries(records@),
                    p == (|e: Entry| !masked(self.found(), e.key)),
                    entries(out@) == all.subrange(0, i as int).filter(p),
                decreases records.len() - i,
            {
                let rec = &records[i];
                let ghost before = entries(out@);
                proof {
                    assert(all.subrange(0, i + 1) =~= all.subrange(0, i as int).push(rec@));
                    all.subrange(0, i as int).lemma_filter_push(rec@, p);
                }
                if !is_masked(&self.found, &rec.key) {
                    out.push(rec.copy());
                    assert(entries(out@) =~= before.push(rec@));
                }
                i = i + 1;
            }
            assert(all.subrange(0, all.len() as int) =~= all);
        }
        out
    }

    /// Reads a block's records.
    pub fn read_block(&self, block_idx: u32) -> (r: Result<Vec<InternalRecord>>)
        requires
            self.well_formed(),
        ensures
            r is Ok <==> self.block(block_idx) is Ok,
            match r {
                Ok(records) => entries(records@) == self.block(block_idx)->Ok_0.1,
                Err(e) => e@ == self.block(block_idx)->Err_0,
            },
    {
        match self.read_block_decompress(block_idx) {
            Ok((_, records)) => Ok(records),
            Err(e) => Err(e),
        }
    }

    /// Reads a block's header and records.
    pub fn read_block_decompress(&self, block_idx: u32) -> (r: Result<
        (BlockHeader, Vec<InternalRecord>),
    >)
        requires
            self.well_formed(),
        ensures
            r is Ok <==> self.block(block_idx) is Ok,
            match r {
                Ok((header, records)) => header == self.block(block_idx)->Ok_0.0 && entries(
                    records@,
                ) == self.block(block_idx)->Ok_0.1,
                Err(e) => e@ == self.block(block_idx)->Err_0,
            },
    {
        if block_idx as usize >= self.block_offsets.len() {
            return Err(FlowError::BlockNotFound { sst_id: self.sst_id, block_idx });
        }
        let pos: usize = self.block_offsets[block_idx as usize];
        let len: usize = self.data.len();
        assert(pos + 48 <= len);
        let header = match BlockHeader::from_bytes(
            slice_subrange(&self.data, pos, pos + HEADER_SIZE),
        ) {
            Ok(h) => h,
            Err(e) => {
                return Err(e);
            },
        };
        let start: usize = pos + HEADER_SIZE;
        let body: usize = header.compressed_len as usize;
        if body > len - start {
            return Err(
                FlowError::Corruption {
                    file: text2("sst_", &decimal_text(self.sst_id as u64)),
                    msg: text3(
                        "block ",
                        &decimal_text(block_idx as u64),
                        " compressed data truncated",
                    ),
                },
            );
        }
        match decompress_block(slice_subrange(&self.data, start, start + body), &header) {
            Ok(raw) => Ok((header, decode_records(&raw, header.num_records))),
            Err(e) => Err(e),
        }
    }

    /// The number of blocks, in 32 bits.
    pub fn block_count(&self) -> (r: u32)
        ensures
            r == self.starts().len() as u32,
    {
        low_u32(self.block_offsets.len())
    }

    /// The number of the SST.
    pub fn sst_id(&self) -> (r: u32)
        ensures
            r == self.id(),
    {
        self.sst_id
    }
}

/// Where no deleted range was found, a block is left as it is.
pub proof fn lemma_nothing_found(reader: SstReader, idx: u32)
    requires
        reader.found().len() == 0,
        reader.block(idx) is Ok,
    ensures
        reader.left_in(idx) == reader.block(idx)->Ok_0.1,
{
    let s = reader.block(idx)->Ok_0.1;
    let p = |e: Entry| !masked(reader.found(), e.key);
    assert forall|i: int| 0 <= i < s.len() implies p(#[trigger] s[i]) by {}
    lemma_filter_all(s, p);
}

/// Filtering by what all entries have leaves them all.
proof fn lemma_filter_all(s: Seq<Entry>, p: spec_fn(Entry) -> bool)
    requires
        forall|i: int| 0 <= i < s.len() ==> p(#[trigger] s[i]),
    ensures
        s.filter(p) == s,
    decreases s.len(),
{
    reveal_with_fuel(Seq::filter, 1);
    if s.len() > 0 {
        let t = s.drop_last();
        assert forall|i: int| 0 <= i < t.len() implies p(#[trigger] t[i]) by {
            assert(t[i] == s[i]);
        }
        lemma_filter_all(t, p);
        assert(p(s[s.len() - 1]));
        assert(t.push(s.last()) =~= s);
    } else {
        assert(s.filter(p) =~= s);
    }
}

/// In an SST of puts and deletions of single keys no deleted range is found.
pub proof fn lemma_no_ranges_in(
    s: Seq<Entry>,
    cap: int,
    bs: Seq<BlockInfoView>,
    data: Seq<u8>,
    sst_id: u32,
    n: u32,
)
    requires
        cap > 0,
        is_sst(s, cap, bs, data),
        forall|i: int| 0 <= i < s.len() ==> fits_format(#[trigger] s[i]),
        forall|e: Entry| #[trigger] s.contains(e) ==> !(e.op is DeleteRange),
        n <= chunks(s, cap).len(),
    ensures
        spans_of_blocks(data, block_starts(data, 0)->Ok_0, sst_id, n).len() == 0,
    decreases n,
{
    if n > 0 {
        let k = (n - 1) as u32;
        let starts = block_starts(data, 0)->Ok_0;
        lemma_no_ranges_in(s, cap, bs, data, sst_id, k);
        law_sst_reads_back(s, cap, bs, data, sst_id, k);
        let piece = chunks(s, cap)[k as int];
        let b = unsequenced(piece);
        assert forall|i: int| 0 <= i < b.len() implies !is_span(#[trigger] b[i]) by {
            assert(b[i] == piece[i].unsequenced());
            lemma_chunk_element(s, cap, k as int, i);
            assert(0 <= k * cap + i) by (nonlinear_arith)
                requires
                    k >= 0,
                    cap > 0,
                    i >= 0,
            ;
            assert(s.contains(s[k * cap + i]));
        }
        lemma_no_spans(b);
    }
}

proof fn lemma_no_spans(s: Seq<Entry>)
    requires
        forall|i: int| 0 <= i < s.len() ==> !is_span(#[trigger] s[i]),
    ensures
        spans_in(s).len() == 0,
    decreases s.len(),
{
    if s.len() > 0 {
        let t = s.drop_last();
        assert forall|i: int| 0 <= i < t.len() implies !is_span(#[trigger] t[i]) by {
            assert(t[i] == s[i]);
        }
        lemma_no_spans(t);
        assert(!is_span(s[s.len() - 1]));
    }
}

/// The pieces that a sequence is cut into give it back.
pub proof fn lemma_chunks_flatten(s: Seq<Entry>, n: int)
    requires
        n > 0,
    ensures
        chunks(s, n).flatten() == s,
        forall|i: int| 0 <= i < chunks(s, n).len() ==> 0 < (#[trigger] chunks(s, n)[i]).len() <= n,
    decreases s.len(),
{
    if s.len() == 0 {
        assert(chunks(s, n).flatten() =~= s);
    } else if s.len() <= n {
        assert(seq![s].drop_first() =~= Seq::<Seq<Entry>>::empty());
        assert(seq![s].flatten() =~= s + Seq::<Seq<Entry>>::empty().flatten());
        assert(chunks(s, n).flatten() =~= s);
    } else {
        let rest = s.subrange(n, s.len() as int);
        let first = s.subrange(0, n);
        lemma_chunks_flatten(rest, n);
        let cs = chunks(s, n);
        assert(cs.drop_first() =~= chunks(rest, n));
        assert(cs.flatten() =~= first + rest);
        assert(s =~= first + rest);
        assert forall|i: int| 0 <= i < cs.len() implies 0 < (#[trigger] cs[i]).len() <= n by {
            if i > 0 {
                assert(cs[i] == chunks(rest, n)[i - 1]);
            }
        }
    }
}

/// Where block `k` starts.
spec fn start_of(
    blocks: Seq<Seq<Entry>>,
    infos: Seq<BlockInfoView>,
    bodies: Seq<Seq<u8>>,
    k: int,
) -> int {
    sst_bytes(blocks.subrange(0, k), infos.subrange(0, k), bodies.subrange(0, k)).len() as int
}

proof fn lemma_block_at(
    blocks: Seq<Seq<Entry>>,
    infos: Seq<BlockInfoView>,
    bodies: Seq<Seq<u8>>,
    k: int,
)
    requires
        infos.len() == blocks.len(),
        bodies.len() == blocks.len(),
        0 <= k < blocks.len(),
    ensures
        0 <= start_of(blocks, infos, bodies, k),
        start_of(blocks, infos, bodies, k + 1) == start_of(blocks, infos, bodies, k) + block_bytes(
            blocks[k],
            infos[k],
            bodies[k],
        ).len(),
        start_of(blocks, infos, bodies, k + 1) <= sst_bytes(blocks, infos, bodies).len(),
        sst_bytes(blocks, infos, bodies).subrange(
            start_of(blocks, infos, bodies, k),
            start_of(blocks, infos, bodies, k + 1),
        ) == block_bytes(blocks[k], infos[k], bodies[k]),
    decreases blocks.len(),
{
    let b = blocks.subrange(0, k + 1);
    let f = infos.subrange(0, k + 1);
    let g = bodies.subrange(0, k + 1);
    assert(g.drop_last() =~= bodies.subrange(0, k));
    assert(b.drop_last() =~= blocks.subrange(0, k));
    assert(f.drop_last() =~= infos.subrange(0, k));
    let data = sst_bytes(blocks, infos, bodies);
    let last = block_bytes(blocks.last(), infos.last(), bodies.last());
    if k == blocks.len() - 1 {
        assert(b =~= blocks);
        assert(f =~= infos);
        assert(g =~= bodies);
        assert(data.subrange(start_of(blocks, infos, bodies, k), start_of(blocks, infos, bodies, k + 1)) =~= last);
    } else {
        let db = blocks.drop_last();
        let df = infos.drop_last();
        let dg = bodies.drop_last();
        lemma_block_at(db, df, dg, k);
        assert(dg.subrange(0, k) =~= bodies.subrange(0, k));
        assert(dg.subrange(0, k + 1) =~= g);
        assert(db.subrange(0, k) =~= blocks.subrange(0, k));
        assert(df.subrange(0, k) =~= infos.subrange(0, k));
        assert(db.subrange(0, k + 1) =~= b);
        assert(df.subrange(0, k + 1) =~= f);
        let inner = sst_bytes(db, df, dg);
        assert(data == inner + last);
        assert(data.subrange(start_of(blocks, infos, bodies, k), start_of(blocks, infos, bodies, k + 1))
            =~= inner.subrange(start_of(blocks, infos, bodies, k), start_of(blocks, infos, bodies, k + 1)));
    }
}

/// What stands at the start of block `k`.
proof fn lemma_header_at(
    blocks: Seq<Seq<Entry>>,
    infos: Seq<BlockInfoView>,
    bodies: Seq<Seq<u8>>,
    k: int,
)
    requires
        infos.len() == blocks.len(),
        bodies.len() == blocks.len(),
        0 <= k < blocks.len(),
    ensures
        ({
            let data = sst_bytes(blocks, infos, bodies);
            let pos = start_of(blocks, infos, bodies, k);
            let body = bodies[k];
            &&& 0 <= pos
            &&& start_of(blocks, infos, bodies, k + 1) == pos + 48 + body.len()
            &&& pos + 48 + body.len() <= data.len()
            &&& parsed_header(data.subrange(pos, pos + 48)) == Ok::<BlockHeader, FlowErrorView>(
                block_header(blocks[k], infos[k], bodies[k]),
            )
            &&& data.subrange(pos + 48, pos + 48 + body.len()) == body
        }),
{
    lemma_block_at(blocks, infos, bodies, k);
    let data = sst_bytes(blocks, infos, bodies);
    let pos = start_of(blocks, infos, bodies, k);
    let h = block_header(blocks[k], infos[k], bodies[k]);
    let body = bodies[k];
    lemma_header_len(h);
    law_header_round_trip(h, Seq::empty());
    assert(header_bytes(h) + Seq::<u8>::empty() =~= header_bytes(h));
    let bb = block_bytes(blocks[k], infos[k], bodies[k]);
    let got = data.subrange(pos, pos + bb.len());
    assert(got == bb);
    assert(data.subrange(pos, pos + 48) =~= got.subrange(0, 48));
    assert(got.subrange(0, 48) =~= header_bytes(h));
    assert(data.subrange(pos + 48, pos + 48 + body.len()) =~= got.subrange(48, bb.len() as int));
    assert(got.subrange(48, bb.len() as int) =~= body);
}

proof fn lemma_starts_from(
    blocks: Seq<Seq<Entry>>,
    infos: Seq<BlockInfoView>,
    bodies: Seq<Seq<u8>>,
    k: int,
)
    requires
        infos.len() == blocks.len(),
        pack_all(blocks, bodies),
        0 <= k <= blocks.len(),
    ensures
        block_starts(sst_bytes(blocks, infos, bodies), start_of(blocks, infos, bodies, k)) == Ok::<
            Seq<int>,
            FlowErrorView,
        >(Seq::new((blocks.len() - k) as nat, |i: int| start_of(blocks, infos, bodies, k + i))),
    decreases blocks.len() - k,
{
    let data = sst_bytes(blocks, infos, bodies);
    let pos = start_of(blocks, infos, bodies, k);
    let want = Seq::new((blocks.len() - k) as nat, |i: int| start_of(blocks, infos, bodies, k + i));
    if k == blocks.len() {
        assert(blocks.subrange(0, k) =~= blocks);
        assert(infos.subrange(0, k) =~= infos);
        assert(bodies.subrange(0, k) =~= bodies);
        assert(want =~= Seq::<int>::empty());
    } else {
        lemma_header_at(blocks, infos, bodies, k);
        lemma_starts_from(blocks, infos, bodies, k + 1);
        let rest = Seq::new(
            (blocks.len() - k - 1) as nat,
            |i: int| start_of(blocks, infos, bodies, k + 1 + i),
        );
        assert(packs(encoded(blocks[k]), bodies[k]));
        assert(want =~= seq![pos] + rest) by {
            assert forall|i: int| 0 <= i < want.len() implies want[i] == (seq![pos] + rest)[i] by {
                if i > 0 {
                    assert(k + i == k + 1 + (i - 1));
                }
            }
        }
    }
}

/// What was written as an SST is read back block by block, and the blocks
/// together hold what was written; only sequence numbers are not stored.
pub proof fn law_sst_reads_back(
    s: Seq<Entry>,
    cap: int,
    infos: Seq<BlockInfoView>,
    data: Seq<u8>,
    sst_id: u32,
    idx: u32,
)
    requires
        cap > 0,
        is_sst(s, cap, infos, data),
        forall|i: int| 0 <= i < s.len() ==> fits_format(#[trigger] s[i]),
        idx < chunks(s, cap).len(),
    ensures
        block_starts(data, 0) is Ok,
        block_starts(data, 0)->Ok_0.len() == chunks(s, cap).len(),
        stored_block(data, block_starts(data, 0)->Ok_0, sst_id, idx) is Ok,
        stored_block(data, block_starts(data, 0)->Ok_0, sst_id, idx)->Ok_0.1 == unsequenced(
            chunks(s, cap)[idx as int],
        ),
        chunks(s, cap).flatten() == s,
{
    let blocks = chunks(s, cap);
    let bodies = choose|bodies: Seq<Seq<u8>>| #[trigger] laid_out(blocks, infos, bodies, data);
    lemma_chunks_flatten(s, cap);
    assert(start_of(blocks, infos, bodies, 0) == 0) by {
        assert(blocks.subrange(0, 0) =~= Seq::<Seq<Entry>>::empty());
    }
    lemma_starts_from(blocks, infos, bodies, 0);
    let starts = block_starts(data, 0)->Ok_0;
    let k = idx as int;
    assert(starts[k] == start_of(blocks, infos, bodies, 0 + k));
    lemma_header_at(blocks, infos, bodies, k);
    let chunk = blocks[k];
    assert(packs(encoded(chunk), bodies[k]));
    lemma_encoded_len(chunk);
    assert forall|i: int| 0 <= i < chunk.len() implies fits_format(#[trigger] chunk[i]) by {
        lemma_chunk_element(s, cap, k, i);
    }
    law_decode_inverts_encode(chunk);
}

/// What a piece holds, the whole holds.
pub proof fn lemma_chunk_element(s: Seq<Entry>, n: int, k: int, i: int)
    requires
        n > 0,
        0 <= k < chunks(s, n).len(),
        0 <= i < chunks(s, n)[k].len(),
    ensures
        k * n + i < s.len(),
        chunks(s, n)[k][i] == s[k * n + i],
    decreases s.len(),
{
    if s.len() > n {
        let rest = s.subrange(n, s.len() as int);
        if k > 0 {
            assert(chunks(s, n)[k] == chunks(rest, n)[k - 1]);
            lemma_chunk_element(rest, n, k - 1, i);
            assert((k - 1) * n + i + n == k * n + i) by (nonlinear_arith);
        } else {
            assert(0 * n == 0);
        }
    } else {
        assert(k == 0);
        assert(0 * n == 0);
    }
}

/// A block has one description.
proof fn lemma_one_description(a: BlockInfoView, b: BlockInfoView, chunk: Seq<Entry>)
    requires
        describes(a, chunk),
        describes(b, chunk),
        a.block_idx == b.block_idx,
    ensures
        a == b,
{
    let a1 = choose|i: int| 0 <= i < chunk.len() && (#[trigger] chunk[i]).key == a.min_key;
    let b1 = choose|i: int| 0 <= i < chunk.len() && (#[trigger] chunk[i]).key == b.min_key;
    let a2 = choose|i: int| 0 <= i < chunk.len() && (#[trigger] chunk[i]).key == a.max_key;
    let b2 = choose|i: int| 0 <= i < chunk.len() && (#[trigger] chunk[i]).key == b.max_key;
    assert(lex_le(a.min_key, chunk[b1].key) && lex_le(b.min_key, chunk[a1].key));
    assert(lex_le(chunk[b2].key, a.max_key) && lex_le(chunk[a2].key, b.max_key));
    if a.min_key != b.min_key {
        lemma_lex_asymmetric(a.min_key, b.min_key);
    }
    if a.max_key != b.max_key {
        lemma_lex_asymmetric(a.max_key, b.max_key);
    }
}

/// Whichever way entries are written as an SST, the filter reports every key:
/// that of all keys, record by record, and that of the runs of equal keys.
pub proof fn law_both_filters_report_every_key(
    s: Seq<Entry>,
    by_record: BloomView,
    by_run: BloomView,
    n: int,
    bits: int,
    e: Entry,
)
    requires
        holds_keys(BloomView::blank(at_least_one(n), bits), keys_of(s), by_record),
        holds_keys(
            BloomView::blank(at_least_one(key_runs(s).len() as int), bits),
            key_runs(s),
            by_run,
        ),
        s.contains(e),
    ensures
        by_record.reports(e.key),
        by_run.reports(e.key),
{
    let i = choose|i: int| 0 <= i < s.len() && s[i] == e;
    assert(keys_of(s)[i] == e.key);
    assert(keys_of(s).contains(e.key));
    lemma_key_runs_complete(s, i);
    law_no_false_negatives(BloomView::blank(at_least_one(n), bits), keys_of(s), by_record, e.key);
    law_no_false_negatives(
        BloomView::blank(at_least_one(key_runs(s).len() as int), bits),
        key_runs(s),
        by_run,
        e.key,
    );
}

/// Whichever way entries are written as an SST, record by record or at once, the
/// blocks are described alike and read back alike, and nothing makes an empty
/// SST.
pub proof fn law_writers_agree(
    s: Seq<Entry>,
    cap: int,
    a: Seq<BlockInfoView>,
    x: Seq<u8>,
    b: Seq<BlockInfoView>,
    y: Seq<u8>,
)
    requires
        cap > 0,
        is_sst(s, cap, a, x),
        is_sst(s, cap, b, y),
        forall|i: int| 0 <= i < s.len() ==> fits_format(#[trigger] s[i]),
    ensures
        a == b,
        s.len() == 0 ==> a.len() == 0 && x.len() == 0 && y.len() == 0,
        block_starts(x, 0) is Ok,
        block_starts(y, 0) is Ok,
        block_starts(x, 0)->Ok_0.len() == block_starts(y, 0)->Ok_0.len(),
        forall|id: u32, idx: u32|
            idx < chunks(s, cap).len() ==> (#[trigger] stored_block(
                x,
                block_starts(x, 0)->Ok_0,
                id,
                idx,
            )) is Ok && stored_block(y, block_starts(y, 0)->Ok_0, id, idx) is Ok && stored_block(
                x,
                block_starts(x, 0)->Ok_0,
                id,
                idx,
            )->Ok_0.1 == stored_block(y, block_starts(y, 0)->Ok_0, id, idx)->Ok_0.1,
{
    let blocks = chunks(s, cap);
    assert(a =~= b) by {
        assert forall|i: int| 0 <= i < a.len() implies a[i] == b[i] by {
            assert(describes(a[i], blocks[i]));
            lemma_one_description(a[i], b[i], blocks[i]);
        }
    }
    assert forall|id: u32, idx: u32| idx < blocks.len() implies (#[trigger] stored_block(
        x,
        block_starts(x, 0)->Ok_0,
        id,
        idx,
    )) is Ok && stored_block(y, block_starts(y, 0)->Ok_0, id, idx) is Ok && stored_block(
        x,
        block_starts(x, 0)->Ok_0,
        id,
        idx,
    )->Ok_0.1 == stored_block(y, block_starts(y, 0)->Ok_0, id, idx)->Ok_0.1 by {
        law_sst_reads_back(s, cap, a, x, id, idx);
        law_sst_reads_back(s, cap, b, y, id, idx);
    }
    if blocks.len() > 0 {
        law_sst_reads_back(s, cap, a, x, 0, 0);
        law_sst_reads_back(s, cap, b, y, 0, 0);
    } else {
        assert(x =~= Seq::<u8>::empty());
        assert(y =~= Seq::<u8>::empty());
    }
    if s.len() == 0 {
        assert(blocks.len() == 0);
    }
}

} // verus!
