//! LZ4 block compression.

use vstd::prelude::*;

verus! {

/// One more than the longest run of `0xff` bytes that a length in a compressed
/// block may be spelled with: a longer run would pass 32 bits.
pub const LENGTH_RUN_LIMIT: usize = 16_843_009;

/// What `lz4_flex::block::decompress` makes of `input` with room for `size`
/// bytes: the decompressed bytes, or the text of its error.
pub uninterp spec fn lz4_decompressed(input: Seq<u8>, size: nat) -> Result<Seq<u8>, Seq<char>>;

/// The `n` bytes of `s` from `i` on are all `0xff`.
pub open spec fn all_ff(s: Seq<u8>, i: int, n: int) -> bool {
    &&& 0 <= i
    &&& i + n <= s.len()
    &&& forall|j: int| i <= j < i + n ==> s[j] == 0xff
}

/// No run of `0xff` bytes is so long that a length could pass 32 bits.
pub open spec fn lengths_fit(s: Seq<u8>) -> bool {
    forall|i: int| !#[trigger] all_ff(s, i, LENGTH_RUN_LIMIT as int)
}

/// The decompressor can work on `input` with room for `size` bytes: no length or
/// position that it computes on the way passes 32 bits or the pointer width.
pub open spec fn can_unpack(input: Seq<u8>, size: nat) -> bool {
    lengths_fit(input) && 255 * input.len() + 273 + size <= usize::MAX
}

/// `body` is a compressed form of `raw`: both lengths fit 32 bits, and it
/// decompresses to `raw` again.
pub open spec fn packs(raw: Seq<u8>, body: Seq<u8>) -> bool {
    &&& raw.len() <= u32::MAX
    &&& body.len() <= u32::MAX
    &&& can_unpack(body, raw.len())
    &&& lz4_decompressed(body, raw.len()) == Ok::<Seq<u8>, Seq<char>>(raw)
}

/// Calls `lz4_flex::block::compress`. Of the result it is claimed that it is at
/// most the size that the crate reserves for it (110 % and 20 bytes), and that it
/// decompresses to the input again when it is given room for exactly that many
/// bytes. Which bytes they are depends on the pointer width and the byte order
/// of the machine, and is left open. The crate computes 110 times the length in
/// the pointer width, so longer inputs stay out.
#[verifier::external_body]
pub(crate) fn compress(input: &[u8]) -> (r: Vec<u8>)
    requires
        input@.len() <= u32::MAX,
        input@.len() * 110 <= usize::MAX,
    ensures
        r@.len() <= 20 + input@.len() * 110 / 100,
        can_unpack(r@, input@.len()) ==> lz4_decompressed(r@, input@.len()) is Ok
            && lz4_decompressed(r@, input@.len())->Ok_0 == input@,
{
    lz4_flex::block::compress(input)
}

/// Calls `lz4_flex::block::decompress`. The result is a function of the input
/// and of the room it is given; an error comes back as its text. The crate adds
/// up the bytes of a length in 32 bits, and lengths and positions in the pointer
/// width, without a check, so inputs on which such a sum could overflow stay out.
#[verifier::external_body]
pub(crate) fn decompress(input: &[u8], size: u32) -> (r: Result<Vec<u8>, String>)
    requires
        can_unpack(input@, size as nat),
    ensures
        r is Ok <==> lz4_decompressed(input@, size as nat) is Ok,
        r is Ok ==> r->Ok_0@ == lz4_decompressed(input@, size as nat)->Ok_0,
        r is Err ==> r->Err_0@ == lz4_decompressed(input@, size as nat)->Err_0,
{
    match lz4_flex::block::decompress(input, size as usize) {
        Ok(v) => Ok(v),
        Err(e) => Err(e.to_string()),
    }
}

/// Decides [`can_unpack`].
pub fn is_unpackable(input: &[u8], size: u32) -> (r: bool)
    ensures
        r == can_unpack(input@, size as nat),
{
    255u128 * input.len() as u128 + 273 + size as u128 <= usize::MAX as u128
        && lengths_are_in_range(input)
}

/// Bytes that one block may take before compression and be sure to be written
/// and read back on every machine.
pub const SURE_BLOCK_BYTES: usize = 14_000_000;

/// Compresses `raw`, where the result can be read back.
pub fn pack(raw: &[u8]) -> (r: Option<Vec<u8>>)
    ensures
        match r {
            Some(body) => packs(raw@, body@),
            None => raw@.len() > SURE_BLOCK_BYTES,
        },
{
    let n: usize = raw.len();
    if n as u128 > u32::MAX as u128 || n as u128 * 110 > usize::MAX as u128 {
        return None;
    }
    let body = compress(raw);
    if body.len() as u128 <= u32::MAX as u128 && is_unpackable(&body, n as u32) {
        return Some(body);
    }
    proof {
        if n <= SURE_BLOCK_BYTES {
            assert(body@.len() <= 15_400_020);
            assert forall|i: int| !#[trigger] all_ff(body@, i, LENGTH_RUN_LIMIT as int) by {}
        }
    }
    None
}

/// Decides [`lengths_fit`].
pub fn lengths_are_in_range(s: &[u8]) -> (r: bool)
    ensures
        r == lengths_fit(s@),
{
    if s.len() < LENGTH_RUN_LIMIT {
        return true;
    }
    let mut run: usize = 0;
    let mut i: usize = 0;
    while i < s.len()
        invariant
            i <= s.len(),
            run <= i,
            run < LENGTH_RUN_LIMIT,
            forall|j: int| i - run <= j < i ==> s@[j] == 0xff,
            run < i ==> s@[i - run - 1] != 0xff,
            forall|k: int|
                k + LENGTH_RUN_LIMIT <= i ==> !#[trigger] all_ff(s@, k, LENGTH_RUN_LIMIT as int),
        decreases s.len() - i,
    {
        if s[i] == 0xff {
            run = run + 1;
            if run >= LENGTH_RUN_LIMIT {
                assert(all_ff(s@, i + 1 - run, LENGTH_RUN_LIMIT as int));
                return false;
            }
            assert forall|k: int| k + LENGTH_RUN_LIMIT <= i + 1 implies !#[trigger] all_ff(
                s@,
                k,
                LENGTH_RUN_LIMIT as int,
            ) by {
                if all_ff(s@, k, LENGTH_RUN_LIMIT as int) && k + LENGTH_RUN_LIMIT == i + 1 {
                    assert(k <= i - run);
                    assert(s@[i - run] == 0xff);
                }
            }
        } else {
            assert forall|k: int| k + LENGTH_RUN_LIMIT <= i + 1 implies !#[trigger] all_ff(
                s@,
                k,
                LENGTH_RUN_LIMIT as int,
            ) by {
                if all_ff(s@, k, LENGTH_RUN_LIMIT as int) && k + LENGTH_RUN_LIMIT == i + 1 {
                    assert(s@[i as int] == 0xff);
                }
            }
            run = 0;
        }
        i = i + 1;
    }
    true
}

} // verus!
