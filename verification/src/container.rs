//! Several SSTs in one file.
//!
//! The file grows by a frame for every change:
//!
//! ```text
//! id(4) | len(8) | data       an SST was written
//! id(4) | 2^64 - 1 (8)        an SST was removed
//! ```
//!
//! A frame that was cut off does not count.

use vstd::prelude::*;
use vstd::slice::slice_subrange;

use crate::bytes::{
    be_bytes, be_value, copy_bytes, lemma_be_len, lemma_be_value_of_bytes, lemma_pow256_values,
    push_be, push_bytes, read_be,
};
use crate::engine::SstFile;

verus! {

/// Stands in place of the length where an SST was removed.
pub const REMOVED: u64 = 0xffff_ffff_ffff_ffff;

/// The bytes of a frame before its data.
pub const FRAME_HEADER: usize = 12;

/// A change of the SSTs in a file.
pub enum Frame {
    Written(u32, Seq<u8>),
    Removed(u32),
}

/// The binary form of a change.
pub open spec fn frame_bytes(f: Frame) -> Seq<u8> {
    match f {
        Frame::Written(id, data) => be_bytes(id as nat, 4) + be_bytes(data.len(), 8) + data,
        Frame::Removed(id) => be_bytes(id as nat, 4) + be_bytes(REMOVED as nat, 8),
    }
}

/// The change that stands at `pos`, and where it ends. `None` where there is no
/// whole one.
pub open spec fn frame_at(file: Seq<u8>, pos: int) -> Option<(Frame, int)> {
    let id = be_value(file.subrange(pos, pos + 4)) as u32;
    let len = be_value(file.subrange(pos + 4, pos + 12));
    if pos + 12 > file.len() {
        None
    } else if len == REMOVED {
        Some((Frame::Removed(id), pos + 12))
    } else if pos + 12 + len > file.len() {
        None
    } else {
        Some((Frame::Written(id, file.subrange(pos + 12, pos + 12 + len)), pos + 12 + len))
    }
}

/// The changes that stand from `pos` on.
pub open spec fn frames(file: Seq<u8>, pos: int) -> Seq<Frame>
    decreases file.len() - pos,
{
    match frame_at(file, pos) {
        Some((f, end)) => if pos < end && end <= file.len() {
            seq![f] + frames(file, end)
        } else {
            Seq::empty()
        },
        None => Seq::empty(),
    }
}

/// The SSTs that are there after changes.
pub open spec fn held(fs: Seq<Frame>) -> Map<u32, Seq<u8>>
    decreases fs.len(),
{
    if fs.len() == 0 {
        Map::empty()
    } else {
        match fs.last() {
            Frame::Written(id, data) => held(fs.drop_last()).insert(id, data),
            Frame::Removed(id) => held(fs.drop_last()).remove(id),
        }
    }
}

/// The file that changes leave behind.
pub open spec fn file_of(fs: Seq<Frame>) -> Seq<u8>
    decreases fs.len(),
{
    if fs.len() == 0 {
        Seq::empty()
    } else {
        frame_bytes(fs.first()) + file_of(fs.drop_first())
    }
}

/// The length of the data can be written.
pub open spec fn fits_frame(f: Frame) -> bool {
    f matches Frame::Written(_, data) ==> data.len() < REMOVED
}

/// A change is read back from where it stands.
proof fn lemma_frame_at(file: Seq<u8>, pos: int, f: Frame)
    requires
        fits_frame(f),
        0 <= pos,
        pos + frame_bytes(f).len() <= file.len(),
        file.subrange(pos, pos + frame_bytes(f).len()) == frame_bytes(f),
    ensures
        frame_at(file, pos) == Some((f, pos + frame_bytes(f).len())),
        frame_bytes(f).len() >= 12,
{
    let fb = frame_bytes(f);
    let (id, len, data) = match f {
        Frame::Written(id, data) => (id, data.len(), data),
        Frame::Removed(id) => (id, REMOVED as nat, Seq::<u8>::empty()),
    };
    let a = be_bytes(id as nat, 4);
    let b = be_bytes(len, 8);
    lemma_pow256_values();
    lemma_be_len(id as nat, 4);
    lemma_be_len(len, 8);
    lemma_be_value_of_bytes(id as nat, 4);
    lemma_be_value_of_bytes(len, 8);
    assert(fb =~= a + b + data);
    assert forall|i: int| 0 <= i < fb.len() implies file[pos + i] == #[trigger] fb[i] by {
        assert(file.subrange(pos, pos + fb.len())[i] == fb[i]);
    }
    assert(file.subrange(pos, pos + 4) =~= a) by {
        assert forall|i: int| 0 <= i < 4 implies file[pos + i] == a[i] by {
            assert(fb[i] == a[i]);
        }
    }
    assert(file.subrange(pos + 4, pos + 12) =~= b) by {
        assert forall|i: int| 0 <= i < 8 implies file[pos + 4 + i] == b[i] by {
            assert(fb[4 + i] == b[i]);
        }
    }
    if f is Written {
        assert(file.subrange(pos + 12, pos + 12 + len) =~= data) by {
            assert forall|i: int| 0 <= i < len implies file[pos + 12 + i] == data[i] by {
                assert(fb[12 + i] == data[i]);
            }
        }
    }
}

/// What is read of whole changes and of what follows them.
proof fn lemma_frames(file: Seq<u8>, pos: int, fs: Seq<Frame>, rest: Seq<u8>)
    requires
        forall|i: int| 0 <= i < fs.len() ==> fits_frame(#[trigger] fs[i]),
        0 <= pos <= file.len(),
        file.subrange(pos, file.len() as int) == file_of(fs) + rest,
    ensures
        pos + file_of(fs).len() <= file.len(),
        frames(file, pos) == fs + frames(file, pos + file_of(fs).len()),
    decreases fs.len(),
{
    let tail = file.subrange(pos, file.len() as int);
    if fs.len() == 0 {
        assert(fs + frames(file, pos) =~= frames(file, pos));
    } else {
        let f = fs.first();
        let fb = frame_bytes(f);
        let t = fs.drop_first();
        assert(fits_frame(fs[0]));
        assert(tail =~= fb + (file_of(t) + rest));
        assert(file.subrange(pos, pos + fb.len()) =~= fb) by {
            assert forall|i: int| 0 <= i < fb.len() implies file[pos + i] == fb[i] by {
                assert(tail[i] == file[pos + i]);
            }
        }
        lemma_frame_at(file, pos, f);
        let next = pos + fb.len();
        assert(file.subrange(next, file.len() as int) =~= file_of(t) + rest) by {
            assert forall|i: int| 0 <= i < (file_of(t) + rest).len() implies file[next + i] == (
            file_of(t) + rest)[i] by {
                assert(tail[fb.len() + i] == file[pos + (fb.len() + i)]);
            }
        }
        assert forall|i: int| 0 <= i < t.len() implies fits_frame(#[trigger] t[i]) by {
            assert(t[i] == fs[i + 1]);
        }
        lemma_frames(file, next, t, rest);
        let end = next + file_of(t).len();
        assert(seq![f] + (t + frames(file, end)) =~= fs + frames(file, end));
    }
}

/// The changes that were appended to a file are read back from it: it holds the
/// SSTs that were written and not removed.
pub proof fn law_container_is_read_back(fs: Seq<Frame>)
    requires
        forall|i: int| 0 <= i < fs.len() ==> fits_frame(#[trigger] fs[i]),
    ensures
        held(frames(file_of(fs), 0)) == held(fs),
{
    let file = file_of(fs);
    assert(file.subrange(0, file.len() as int) =~= file + Seq::<u8>::empty());
    lemma_frames(file, 0, fs, Seq::empty());
    assert(frame_at(file, file.len() as int) is None);
    assert(fs + Seq::<Frame>::empty() =~= fs);
}

/// A change that was cut off leaves the SSTs as they were before it.
pub proof fn law_torn_change_is_dropped(fs: Seq<Frame>, f: Frame, cut: int)
    requires
        forall|i: int| 0 <= i < fs.len() ==> fits_frame(#[trigger] fs[i]),
        fits_frame(f),
        0 <= cut < frame_bytes(f).len(),
    ensures
        held(frames(file_of(fs) + frame_bytes(f).subrange(0, cut), 0)) == held(fs),
{
    let fb = frame_bytes(f);
    let torn = fb.subrange(0, cut);
    let file = file_of(fs) + torn;
    let end = file_of(fs).len() as int;
    assert(file.subrange(0, file.len() as int) =~= file_of(fs) + torn);
    lemma_frames(file, 0, fs, torn);
    assert(frame_at(file, end) is None) by {
        lemma_pow256_values();
        let (id, len, data) = match f {
            Frame::Written(id, data) => (id, data.len(), data),
            Frame::Removed(id) => (id, REMOVED as nat, Seq::<u8>::empty()),
        };
        lemma_be_len(id as nat, 4);
        lemma_be_len(len, 8);
        lemma_be_value_of_bytes(len, 8);
        assert(fb =~= be_bytes(id as nat, 4) + be_bytes(len, 8) + data);
        if cut >= 12 {
            assert(file.subrange(end + 4, end + 12) =~= be_bytes(len, 8)) by {
                assert forall|i: int| 0 <= i < 8 implies file[end + 4 + i] == be_bytes(len, 8)[i] by {
                    assert(torn[4 + i] == fb[4 + i]);
                }
            }
        }
    }
    assert(fs + Seq::<Frame>::empty() =~= fs);
}

/// The bytes to append when an SST is written.
pub fn encode_written(id: u32, data: &[u8]) -> (r: Vec<u8>)
    ensures
        r@ == frame_bytes(Frame::Written(id, data@)),
{
    let mut buf: Vec<u8> = Vec::new();
    push_be(&mut buf, id as u64, 4);
    push_be(&mut buf, data.len() as u64, 8);
    push_bytes(&mut buf, data);
    assert(buf@ =~= frame_bytes(Frame::Written(id, data@)));
    buf
}

/// The bytes to append when an SST is removed.
pub fn encode_removed(id: u32) -> (r: Vec<u8>)
    ensures
        r@ == frame_bytes(Frame::Removed(id)),
{
    let mut buf: Vec<u8> = Vec::new();
    push_be(&mut buf, id as u64, 4);
    push_be(&mut buf, REMOVED, 8);
    assert(buf@ =~= frame_bytes(Frame::Removed(id)));
    buf
}

/// The files are the SSTs of `m`, each once.
pub open spec fn lists_ssts(files: Seq<SstFile>, m: Map<u32, Seq<u8>>) -> bool {
    &&& forall|i: int|
        0 <= i < files.len() ==> m.contains_key((#[trigger] files[i]).id) && m[files[i].id]
            == files[i].data@
    &&& forall|id: u32| #[trigger]
        m.contains_key(id) ==> exists|i: int| 0 <= i < files.len() && (#[trigger] files[i]).id == id
    &&& forall|i: int, j: int|
        0 <= i < j < files.len() ==> (#[trigger] files[i]).id != (#[trigger] files[j]).id
}

/// Takes the file of an SST out, where there is one.
fn take_out(files: &mut Vec<SstFile>, id: u32, m: Ghost<Map<u32, Seq<u8>>>)
    requires
        lists_ssts(old(files)@, m@),
    ensures
        lists_ssts(final(files)@, m@.remove(id)),
{
    let mut i: usize = 0;
    while i < files.len() && files[i].id != id
        invariant
            i <= files@.len(),
            files@ == old(files)@,
            forall|j: int| 0 <= j < i ==> (#[trigger] files@[j]).id != id,
        decreases files@.len() - i,
    {
        i = i + 1;
    }
    if i < files.len() {
        let ghost before = files@;
        files.remove(i);
        proof {
            let after = files@;
            assert(after =~= before.remove(i as int));
            assert forall|k: u32| #[trigger] m@.remove(id).contains_key(k) implies exists|j: int|
                0 <= j < after.len() && (#[trigger] after[j]).id == k by {
                let j = choose|j: int| 0 <= j < before.len() && (#[trigger] before[j]).id == k;
                if j < i {
                    assert(after[j] == before[j]);
                } else {
                    assert(after[j - 1] == before[j]);
                }
            }
            assert forall|j: int| 0 <= j < after.len() implies m@.remove(id).contains_key(
                (#[trigger] after[j]).id,
            ) && m@.remove(id)[after[j].id] == after[j].data@ by {
                if j < i {
                    assert(after[j] == before[j]);
                } else {
                    assert(after[j] == before[j + 1]);
                }
            }
        }
    }
}

/// The change at `pos`, where a whole one stands there.
fn read_frame(file: &[u8], pos: usize) -> (r: Option<(SstFile, bool, usize)>)
    requires
        pos <= file@.len(),
    ensures
        match r {
            Some((sst, kept, end)) => pos < end <= file@.len() && frame_at(file@, pos as int)
                == Some(
                (
                    if kept {
                        Frame::Written(sst.id, sst.data@)
                    } else {
                        Frame::Removed(sst.id)
                    },
                    end as int,
                ),
            ),
            None => frame_at(file@, pos as int) is None,
        },
{
    proof {
        lemma_pow256_values();
    }
    let left: usize = file.len() - pos;
    if left < FRAME_HEADER {
        return None;
    }
    let id: u32 = read_be(file, pos, 4) as u32;
    let len: u64 = read_be(file, pos + 4, 8);
    let start: usize = pos + FRAME_HEADER;
    if len == REMOVED {
        return Some((SstFile { id, data: Vec::new() }, false, start));
    }
    if ((left - FRAME_HEADER) as u64) < len {
        return None;
    }
    let end: usize = start + len as usize;
    let data = copy_bytes(slice_subrange(file, start, end));
    Some((SstFile { id, data }, true, end))
}

/// The SSTs in a file.
pub fn read_container(file: &[u8]) -> (r: Vec<SstFile>)
    ensures
        lists_ssts(r@, held(frames(file@, 0))),
{
    let mut out: Vec<SstFile> = Vec::new();
    let mut pos: usize = 0;
    let ghost mut seen: Seq<Frame> = Seq::empty();
    assert(seen + frames(file@, 0) =~= frames(file@, 0));
    loop
        invariant
            pos <= file@.len(),
            seen + frames(file@, pos as int) == frames(file@, 0),
            lists_ssts(out@, held(seen)),
        decreases file@.len() - pos,
    {
        match read_frame(file, pos) {
            Some((sst, kept, end)) => {
                let ghost f = if kept {
                    Frame::Written(sst.id, sst.data@)
                } else {
                    Frame::Removed(sst.id)
                };
                let ghost m = held(seen);
                take_out(&mut out, sst.id, Ghost(m));
                proof {
                    assert(seen.push(f).drop_last() =~= seen);
                    assert(seen.push(f) + frames(file@, end as int) =~= seen + (seq![f] + frames(
                        file@,
                        end as int,
                    )));
                }
                if kept {
                    let ghost before = out@;
                    let ghost id = sst.id;
                    let ghost data = sst.data@;
                    out.push(sst);
                    proof {
                        let now = m.insert(id, data);
                        assert forall|k: u32| #[trigger] now.contains_key(k) implies exists|j: int|
                            0 <= j < out@.len() && (#[trigger] out@[j]).id == k by {
                            if k == id {
                                assert(out@[before.len() as int].id == k);
                            } else {
                                assert(m.remove(id).contains_key(k));
                                let j = choose|j: int|
                                    0 <= j < before.len() && (#[trigger] before[j]).id == k;
                                assert(out@[j].id == k);
                            }
                        }
                        assert forall|j: int| 0 <= j < out@.len() implies now.contains_key(
                            (#[trigger] out@[j]).id,
                        ) && now[out@[j].id] == out@[j].data@ by {
                            if j < before.len() {
                                assert(out@[j] == before[j]);
                                assert(m.remove(id).contains_key(before[j].id));
                            }
                        }
                        assert(lists_ssts(out@, now));
                    }
                }
                proof {
                    seen = seen.push(f);
                }
                pos = end;
            },
            None => {
                assert(seen + Seq::<Frame>::empty() =~= seen);
                return out;
            },
        }
    }
}

} // verus!
