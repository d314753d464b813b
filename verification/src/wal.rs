//! The log that makes writes durable before they reach an SST.
//!
//! A batch is logged as one piece:
//!
//! ```text
//! first_seq(8) | count(4) | len(4) | records | checksum(4) | commit(1)
//! ```
//!
//! The commit byte comes last. A batch that was cut off, or whose checksum does
//! not match, is not replayed, nor is anything behind it.

use vstd::prelude::*;
use vstd::slice::slice_subrange;

use crate::bytes::{
    be_bytes, be_value, lemma_be_len, lemma_be_value_bound, lemma_be_value_of_bytes,
    lemma_pow256_values, push_be, push_bytes, read_be,
};
use crate::codec::{
    decode_records, decoded, encode_records, encoded, fits_format, law_decode_inverts_encode,
    unsequenced,
};
use crate::engine::sequenced;
use crate::error::{string_of, FlowError, FlowErrorView, Result};
use crate::record::{entries, Entry, InternalRecord};

verus! {

/// Ends a batch that was logged as a whole.
pub const COMMIT: u8 = 0xC5;

/// The bytes of a logged batch before its records.
pub const BATCH_HEADER: usize = 16;

/// The bytes of a logged batch after its records.
pub const BATCH_FOOTER: usize = 5;

/// The checksum of bytes.
pub open spec fn checksum_of(s: Seq<u8>) -> nat
    decreases s.len(),
{
    if s.len() == 0 {
        1
    } else {
        (checksum_of(s.drop_last()) * 31 + s.last() as nat) % 0x1_0000_0000
    }
}

/// The binary form of a batch whose entries are numbered from `first` on.
pub open spec fn batch_bytes(first: u64, es: Seq<Entry>) -> Seq<u8> {
    be_bytes(first as nat, 8) + be_bytes(es.len(), 4) + be_bytes(encoded(es).len(), 4) + encoded(es)
        + be_bytes(checksum_of(encoded(es)), 4) + seq![COMMIT]
}

/// The batch that was logged at `pos`, and where it ends. `None` where there is
/// no whole batch.
pub open spec fn batch_at(data: Seq<u8>, pos: int) -> Option<(Seq<Entry>, int)> {
    let first = be_value(data.subrange(pos, pos + 8));
    let count = be_value(data.subrange(pos + 8, pos + 12));
    let len = be_value(data.subrange(pos + 12, pos + 16)) as int;
    let body = data.subrange(pos + 16, pos + 16 + len);
    let end = pos + 16 + len + 5;
    if pos + 16 > data.len() || end > data.len() {
        None
    } else if be_value(data.subrange(pos + 16 + len, pos + 16 + len + 4)) != checksum_of(body)
        || data[end - 1] != COMMIT || decoded(body, 0, count).len() != count || first + count
        > u64::MAX {
        None
    } else {
        Some((sequenced(decoded(body, 0, count), first as u64), end))
    }
}

/// The entries of the batches that were logged from `pos` on.
pub open spec fn replayed(data: Seq<u8>, pos: int) -> Seq<Entry>
    decreases data.len() - pos,
{
    match batch_at(data, pos) {
        Some((es, end)) => if pos < end && end <= data.len() {
            es + replayed(data, end)
        } else {
            Seq::empty()
        },
        None => Seq::empty(),
    }
}

/// A batch that can be logged: its lengths fit, and its entries are numbered in
/// turn.
pub open spec fn can_be_logged(first: u64, es: Seq<Entry>) -> bool {
    &&& es.len() <= u32::MAX
    &&& encoded(es).len() <= u32::MAX
    &&& first + es.len() <= u64::MAX
    &&& forall|i: int| 0 <= i < es.len() ==> fits_format(#[trigger] es[i])
    &&& forall|i: int| 0 <= i < es.len() ==> (#[trigger] es[i]).seq == first + i
}

proof fn lemma_checksum_bound(s: Seq<u8>)
    ensures
        checksum_of(s) < 0x1_0000_0000,
{
}

/// Numbering entries again that were numbered in turn changes nothing.
proof fn lemma_renumbered(first: u64, es: Seq<Entry>)
    requires
        first + es.len() <= u64::MAX,
        forall|i: int| 0 <= i < es.len() ==> (#[trigger] es[i]).seq == first + i,
    ensures
        sequenced(unsequenced(es), first) == es,
{
    let t = sequenced(unsequenced(es), first);
    assert forall|i: int| 0 <= i < es.len() implies #[trigger] t[i] == es[i] by {
        assert(es[i].seq == first + i);
    }
    assert(t =~= es);
}

/// Where the parts of a batch stand.
proof fn lemma_layout(a: Seq<u8>, b: Seq<u8>, c: Seq<u8>, body: Seq<u8>, d: Seq<u8>, end: u8)
    requires
        a.len() == 8,
        b.len() == 4,
        c.len() == 4,
        d.len() == 4,
    ensures
        ({
            let bb = a + b + c + body + d + seq![end];
            let n = body.len() as int;
            &&& bb.len() == 21 + n
            &&& bb.subrange(0, 8) == a
            &&& bb.subrange(8, 12) == b
            &&& bb.subrange(12, 16) == c
            &&& bb.subrange(16, 16 + n) == body
            &&& bb.subrange(16 + n, 20 + n) == d
            &&& bb[20 + n] == end
        }),
{
    let bb = a + b + c + body + d + seq![end];
    let n = body.len() as int;
    assert(bb.subrange(0, 8) =~= a);
    assert(bb.subrange(8, 12) =~= b);
    assert(bb.subrange(12, 16) =~= c);
    assert(bb.subrange(16, 16 + n) =~= body);
    assert(bb.subrange(16 + n, 20 + n) =~= d);
}

/// A logged batch is read back from where it stands.
proof fn lemma_batch_at(data: Seq<u8>, pos: int, first: u64, es: Seq<Entry>)
    requires
        can_be_logged(first, es),
        0 <= pos,
        pos + batch_bytes(first, es).len() <= data.len(),
        data.subrange(pos, pos + batch_bytes(first, es).len()) == batch_bytes(first, es),
    ensures
        batch_at(data, pos) == Some((es, pos + batch_bytes(first, es).len())),
        batch_bytes(first, es).len() == 21 + encoded(es).len(),
{
    let bb = batch_bytes(first, es);
    let body = encoded(es);
    let n = body.len() as int;
    let sum = checksum_of(body);
    lemma_pow256_values();
    lemma_checksum_bound(body);
    lemma_be_len(first as nat, 8);
    lemma_be_len(es.len(), 4);
    lemma_be_len(body.len(), 4);
    lemma_be_len(sum, 4);
    lemma_be_value_of_bytes(first as nat, 8);
    lemma_be_value_of_bytes(es.len(), 4);
    lemma_be_value_of_bytes(body.len(), 4);
    lemma_be_value_of_bytes(sum, 4);
    lemma_layout(
        be_bytes(first as nat, 8),
        be_bytes(es.len(), 4),
        be_bytes(body.len(), 4),
        body,
        be_bytes(sum, 4),
        COMMIT,
    );
    lemma_piece(data, pos, bb, 0, 8);
    lemma_piece(data, pos, bb, 8, 12);
    lemma_piece(data, pos, bb, 12, 16);
    lemma_piece(data, pos, bb, 16, 16 + n);
    lemma_piece(data, pos, bb, 16 + n, 20 + n);
    assert(data.subrange(pos, pos + bb.len())[20 + n] == data[pos + 20 + n]);
    law_decode_inverts_encode(es);
    lemma_renumbered(first, es);
}

/// What stands in a batch stands in the log.
proof fn lemma_piece(data: Seq<u8>, pos: int, bb: Seq<u8>, from: int, to: int)
    requires
        0 <= pos,
        0 <= from <= to <= bb.len(),
        pos + bb.len() <= data.len(),
        data.subrange(pos, pos + bb.len()) == bb,
    ensures
        data.subrange(pos + from, pos + to) == bb.subrange(from, to),
{
    assert(data.subrange(pos + from, pos + to) =~= data.subrange(pos, pos + bb.len()).subrange(
        from,
        to,
    ));
}

/// Where the log ends within a batch, there is no batch.
proof fn lemma_torn(data: Seq<u8>, pos: int, first: u64, es: Seq<Entry>)
    requires
        can_be_logged(first, es),
        0 <= pos <= data.len(),
        data.len() - pos < batch_bytes(first, es).len(),
        data.subrange(pos, data.len() as int) == batch_bytes(first, es).subrange(
            0,
            data.len() - pos,
        ),
    ensures
        batch_at(data, pos) is None,
{
    let bb = batch_bytes(first, es);
    let body = encoded(es);
    let n = body.len() as int;
    lemma_pow256_values();
    lemma_checksum_bound(body);
    lemma_be_len(first as nat, 8);
    lemma_be_len(es.len(), 4);
    lemma_be_len(body.len(), 4);
    lemma_be_len(checksum_of(body), 4);
    lemma_be_value_of_bytes(body.len(), 4);
    lemma_layout(
        be_bytes(first as nat, 8),
        be_bytes(es.len(), 4),
        be_bytes(body.len(), 4),
        body,
        be_bytes(checksum_of(body), 4),
        COMMIT,
    );
    if pos + 16 <= data.len() {
        assert(data.subrange(pos + 12, pos + 16) =~= data.subrange(
            pos,
            data.len() as int,
        ).subrange(12, 16));
        assert(bb.subrange(12, 16) =~= bb.subrange(0, data.len() - pos).subrange(12, 16));
    }
}

/// A log made of whole batches.
pub open spec fn log_of(batches: Seq<(u64, Seq<Entry>)>) -> Seq<u8>
    decreases batches.len(),
{
    if batches.len() == 0 {
        Seq::empty()
    } else {
        batch_bytes(batches.first().0, batches.first().1) + log_of(batches.drop_first())
    }
}

/// The entries of batches, one after the other.
pub open spec fn entries_of(batches: Seq<(u64, Seq<Entry>)>) -> Seq<Entry>
    decreases batches.len(),
{
    if batches.len() == 0 {
        Seq::empty()
    } else {
        batches.first().1 + entries_of(batches.drop_first())
    }
}

/// What is replayed of whole batches and of what follows them.
proof fn lemma_replayed(
    data: Seq<u8>,
    pos: int,
    batches: Seq<(u64, Seq<Entry>)>,
    rest: Seq<u8>,
)
    requires
        forall|i: int|
            0 <= i < batches.len() ==> can_be_logged((#[trigger] batches[i]).0, batches[i].1),
        0 <= pos <= data.len(),
        data.subrange(pos, data.len() as int) == log_of(batches) + rest,
    ensures
        pos + log_of(batches).len() <= data.len(),
        replayed(data, pos) == entries_of(batches) + replayed(data, pos + log_of(batches).len()),
    decreases batches.len(),
{
    let tail = data.subrange(pos, data.len() as int);
    if batches.len() == 0 {
        assert(entries_of(batches) + replayed(data, pos) =~= replayed(data, pos));
    } else {
        let (first, es) = batches.first();
        let bb = batch_bytes(first, es);
        let t = batches.drop_first();
        assert(can_be_logged(batches[0].0, batches[0].1));
        assert(tail =~= bb + (log_of(t) + rest));
        assert(data.subrange(pos, pos + bb.len()) =~= bb) by {
            assert forall|i: int| 0 <= i < bb.len() implies data[pos + i] == bb[i] by {
                assert(tail[i] == data[pos + i]);
            }
        }
        lemma_batch_at(data, pos, first, es);
        let next = pos + bb.len();
        assert(data.subrange(next, data.len() as int) =~= log_of(t) + rest) by {
            assert forall|i: int| 0 <= i < (log_of(t) + rest).len() implies data[next + i] == (
            log_of(t) + rest)[i] by {
                assert(tail[bb.len() + i] == data[pos + (bb.len() + i)]);
            }
        }
        assert forall|i: int| 0 <= i < t.len() implies can_be_logged(
            (#[trigger] t[i]).0,
            t[i].1,
        ) by {
            assert(t[i] == batches[i + 1]);
        }
        lemma_replayed(data, next, t, rest);
        let end = next + log_of(t).len();
        assert(es + (entries_of(t) + replayed(data, end)) =~= entries_of(batches) + replayed(
            data,
            end,
        ));
    }
}

/// Whole batches are replayed as they were logged.
pub proof fn law_log_is_replayed(batches: Seq<(u64, Seq<Entry>)>)
    requires
        forall|i: int|
            0 <= i < batches.len() ==> can_be_logged((#[trigger] batches[i]).0, batches[i].1),
    ensures
        replayed(log_of(batches), 0) == entries_of(batches),
{
    let data = log_of(batches);
    assert(data.subrange(0, data.len() as int) =~= data + Seq::<u8>::empty());
    lemma_replayed(data, 0, batches, Seq::empty());
    assert(batch_at(data, data.len() as int) is None);
    assert(entries_of(batches) + Seq::<Entry>::empty() =~= entries_of(batches));
}

/// A batch that was cut off, wherever that was, is not replayed at all, and the
/// batches before it are: a batch is recovered as a whole or not.
pub proof fn law_torn_batch_is_dropped(
    batches: Seq<(u64, Seq<Entry>)>,
    first: u64,
    es: Seq<Entry>,
    cut: int,
)
    requires
        forall|i: int|
            0 <= i < batches.len() ==> can_be_logged((#[trigger] batches[i]).0, batches[i].1),
        can_be_logged(first, es),
        0 <= cut < batch_bytes(first, es).len(),
    ensures
        replayed(log_of(batches) + batch_bytes(first, es).subrange(0, cut), 0) == entries_of(
            batches,
        ),
{
    let torn = batch_bytes(first, es).subrange(0, cut);
    let data = log_of(batches) + torn;
    let end = log_of(batches).len() as int;
    assert(data.subrange(0, data.len() as int) =~= log_of(batches) + torn);
    lemma_replayed(data, 0, batches, torn);
    assert(data.subrange(end, data.len() as int) =~= torn);
    lemma_torn(data, end, first, es);
    assert(entries_of(batches) + Seq::<Entry>::empty() =~= entries_of(batches));
}

/// Sums up bytes.
pub fn checksum(data: &[u8]) -> (r: u32)
    ensures
        r == checksum_of(data@),
{
    let mut sum: u64 = 1;
    let mut i: usize = 0;
    assert(data@.subrange(0, 0) =~= Seq::<u8>::empty());
    while i < data.len()
        invariant
            i <= data.len(),
            sum < 0x1_0000_0000,
            sum == checksum_of(data@.subrange(0, i as int)),
        decreases data.len() - i,
    {
        assert(data@.subrange(0, i + 1).drop_last() =~= data@.subrange(0, i as int));
        assert(data@.subrange(0, i + 1).last() == data@[i as int]);
        sum = (sum * 31 + data[i] as u64) % 0x1_0000_0000;
        i = i + 1;
    }
    assert(data@.subrange(0, data@.len() as int) =~= data@);
    sum as u32
}

/// What is said of a batch whose lengths do not fit.
pub open spec fn batch_too_large() -> FlowErrorView {
    FlowErrorView::Other("log batch exceeds 32-bit length"@)
}

/// The bytes to log for a batch whose records are numbered from `first` on.
pub fn encode_batch(first: u64, records: &[InternalRecord]) -> (r: Result<Vec<u8>>)
    ensures
        r is Ok <==> entries(records@).len() <= u32::MAX && encoded(entries(records@)).len()
            <= u32::MAX,
        match r {
            Ok(buf) => buf@ == batch_bytes(first, entries(records@)),
            Err(e) => e@ == batch_too_large(),
        },
{
    let body = encode_records(records);
    if records.len() > u32::MAX as usize || body.len() > u32::MAX as usize {
        return Err(FlowError::Other(string_of("log batch exceeds 32-bit length")));
    }
    let mut buf: Vec<u8> = Vec::new();
    push_be(&mut buf, first, 8);
    push_be(&mut buf, records.len() as u64, 4);
    push_be(&mut buf, body.len() as u64, 4);
    push_bytes(&mut buf, &body);
    push_be(&mut buf, checksum(&body) as u64, 4);
    buf.push(COMMIT);
    assert(buf@ =~= batch_bytes(first, entries(records@)));
    Ok(buf)
}

/// Numbers records in turn.
fn number(records: &mut Vec<InternalRecord>, first: u64)
    requires
        first + old(records)@.len() <= u64::MAX,
    ensures
        entries(final(records)@) == sequenced(entries(old(records)@), first),
{
    let ghost all = entries(records@);
    let ghost want = sequenced(all, first);
    let mut i: usize = 0;
    while i < records.len()
        invariant
            i <= records@.len(),
            all == entries(old(records)@),
            records@.len() == all.len(),
            first + all.len() <= u64::MAX,
            want == sequenced(all, first),
            forall|j: int| 0 <= j < i ==> (#[trigger] entries(records@)[j]) == want[j],
            forall|j: int| i <= j < records@.len() ==> (#[trigger] entries(records@)[j]) == all[j],
        decreases records.len() - i,
    {
        let ghost before = entries(records@);
        let rec = &records[i];
        assert(rec@ == before[i as int]);
        let mut copy = rec.copy();
        copy.seq = first + i as u64;
        let ghost c = copy@;
        records.set(i, copy);
        assert(entries(records@) =~= before.update(i as int, c));
        assert(c == want[i as int]);
        i = i + 1;
    }
    assert(entries(records@) =~= want);
}

/// Reads the batch at `pos`.
fn read_batch(data: &[u8], pos: usize) -> (r: Option<(Vec<InternalRecord>, usize)>)
    requires
        pos <= data@.len(),
    ensures
        match r {
            Some((records, end)) => batch_at(data@, pos as int) == Some(
                (entries(records@), end as int),
            ) && pos < end <= data@.len(),
            None => batch_at(data@, pos as int) is None,
        },
{
    proof {
        lemma_pow256_values();
    }
    let left: usize = data.len() - pos;
    if left < BATCH_HEADER {
        return None;
    }
    let first: u64 = read_be(data, pos, 8);
    let count: u64 = read_be(data, pos + 8, 4);
    let len: u64 = read_be(data, pos + 12, 4);
    proof {
        lemma_be_value_bound(data@.subrange(pos + 8, pos + 12));
        lemma_be_value_bound(data@.subrange(pos + 12, pos + 16));
    }
    let after: usize = left - BATCH_HEADER;
    if (after as u64) < len || after as u64 - len < BATCH_FOOTER as u64 {
        return None;
    }
    let start: usize = pos + BATCH_HEADER;
    let stop: usize = start + len as usize;
    let end: usize = stop + BATCH_FOOTER;
    let body = slice_subrange(data, start, stop);
    let sum: u64 = read_be(data, stop, 4);
    if sum != checksum(body) as u64 || data[end - 1] != COMMIT || first > u64::MAX - count {
        return None;
    }
    let mut records = decode_records(body, count as u32);
    assert(entries(records@).len() == records@.len());
    if records.len() as u64 != count {
        return None;
    }
    number(&mut records, first);
    Some((records, end))
}

/// Replays a log: the records of all whole batches.
pub fn replay_log(data: &[u8]) -> (r: Vec<InternalRecord>)
    ensures
        entries(r@) == replayed(data@, 0),
{
    let mut out: Vec<InternalRecord> = Vec::new();
    let mut pos: usize = 0;
    assert(entries(out@) + replayed(data@, 0) =~= replayed(data@, 0));
    loop
        invariant
            pos <= data@.len(),
            entries(out@) + replayed(data@, pos as int) == replayed(data@, 0),
        decreases data@.len() - pos,
    {
        match read_batch(data, pos) {
            Some((records, end)) => {
                let mut records = records;
                let ghost before = entries(out@);
                let ghost more = entries(records@);
                out.append(&mut records);
                proof {
                    assert(entries(out@) =~= before + more);
                    let rest = replayed(data@, end as int);
                    assert(before + (more + rest) =~= (before + more) + rest);
                }
                pos = end;
            },
            None => {
                assert(entries(out@) + Seq::<Entry>::empty() =~= entries(out@));
                return out;
            },
        }
    }
}

/// The entry has a number above `after`.
pub open spec fn numbered_above(after: u64) -> spec_fn(Entry) -> bool {
    |e: Entry| e.seq > after
}

/// Replays what a log holds beyond the number up to which everything was
/// flushed.
pub fn replay_from(data: &[u8], after: u64) -> (r: Vec<InternalRecord>)
    ensures
        entries(r@) == replayed(data@, 0).filter(numbered_above(after)),
{
    let all = replay_log(data);
    let ghost es = entries(all@);
    let mut out: Vec<InternalRecord> = Vec::new();
    let mut i: usize = 0;
    assert(es.subrange(0, 0).filter(numbered_above(after)) =~= Seq::<Entry>::empty());
    assert(entries(out@) =~= Seq::<Entry>::empty());
    while i < all.len()
        invariant
            i <= all.len(),
            es == entries(all@),
            entries(out@) == es.subrange(0, i as int).filter(numbered_above(after)),
        decreases all.len() - i,
    {
        let ghost before = entries(out@);
        proof {
            assert(es[i as int] == all@[i as int]@);
            assert(es.subrange(0, i + 1) =~= es.subrange(0, i as int).push(es[i as int]));
            es.subrange(0, i as int).lemma_filter_push(es[i as int], numbered_above(after));
        }
        if all[i].seq > after {
            out.push(all[i].copy());
            assert(entries(out@) =~= before.push(es[i as int]));
        }
        i = i + 1;
    }
    assert(es.subrange(0, es.len() as int) =~= es);
    out
}

} // verus!
