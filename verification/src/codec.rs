//! The frame codec: compressing line-aligned chunks into independently
//! decodable frames while recording an index of frame descriptors, and
//! decompressing single frames back into their records.
//!
//! The single-frame compression primitive is the zstd frame format,
//! reached through trusted wrappers; everything around it — chunking,
//! offset bookkeeping, the index invariants, and record parsing — is
//! verified.

use vstd::prelude::*;

use crate::chunk;
use crate::chunk::{chunk_end_at, chunk_start};
use crate::records;
use crate::records::{pairs_view, records_from};
use crate::{CodecError, FrameMeta};

verus! {

/// What compressing a byte string at a compression level yields: one
/// self-terminating, checksummed zstd frame.  The frame is a function of
/// the content and the level alone.
pub uninterp spec fn zstd_frame_of(content: Seq<u8>, level: int) -> Seq<u8>;

/// What decompressing a byte string as one zstd frame yields: the original
/// content, or nothing when the bytes are not a well-formed frame.
pub uninterp spec fn zstd_unframe_of(frame: Seq<u8>) -> Option<Seq<u8>>;

/// Relies on `zstd::stream::Encoder` (`new`, `include_checksum`,
/// `write_all`, `finish`): compressing a byte string at a level appends one
/// complete, checksummed frame, the result depends on the content and level
/// alone, and decompressing that frame yields the content back.
#[verifier::external_body]
fn zstd_compress(content: &[u8], level: i32) -> (r: Result<Vec<u8>, CodecError>)
    ensures
        (match r {
            Ok(f) => f@ == zstd_frame_of(content@, level as int) && zstd_unframe_of(f@) == Some(
                content@,
            ),
            Err(e) => e == CodecError::EncodeFailed,
        }),
{
    let mut encoder = match zstd::stream::Encoder::new(Vec::new(), level) {
        Ok(e) => e,
        Err(_) => return Err(CodecError::EncodeFailed),
    };
    if encoder.include_checksum(true).is_err() {
        return Err(CodecError::EncodeFailed);
    }
    if std::io::Write::write_all(&mut encoder, content).is_err() {
        return Err(CodecError::EncodeFailed);
    }
    match encoder.finish() {
        Ok(v) => Ok(v),
        Err(_) => Err(CodecError::EncodeFailed),
    }
}

/// Relies on `zstd::stream::decode_all`: decompressing bytes that hold one
/// complete frame yields its content; the outcome depends on the bytes
/// alone, and malformed bytes are an error, never a panic.
#[verifier::external_body]
fn zstd_decompress(frame: &[u8]) -> (r: Result<Vec<u8>, CodecError>)
    ensures
        (match r {
            Ok(p) => zstd_unframe_of(frame@) == Some(p@),
            Err(e) => e == CodecError::FrameDecode && zstd_unframe_of(frame@) is None,
        }),
{
    match zstd::stream::decode_all(frame) {
        Ok(v) => Ok(v),
        Err(_) => Err(CodecError::FrameDecode),
    }
}

/// Compresses one chunk as one frame appended to the output stream and
/// returns the frame's start and end offsets there: the offset before any
/// byte of the frame is written, and the offset after the frame is complete,
/// so that `end - start` is exactly the length an independent reader must
/// use to extract this frame.
pub fn encode_zstd_block(out: &mut Vec<u8>, content: &[u8], level: i32) -> (r: Result<
    (u64, u64),
    CodecError,
>)
    ensures
        r matches Ok(se) ==> ({
            &&& se.0 == old(out)@.len()
            &&& se.1 == final(out)@.len()
            &&& se.0 <= se.1
            &&& final(out)@ == old(out)@ + zstd_frame_of(content@, level as int)
            &&& final(out)@.subrange(se.0 as int, se.1 as int) == zstd_frame_of(
                content@,
                level as int,
            )
            &&& zstd_unframe_of(final(out)@.subrange(se.0 as int, se.1 as int)) == Some(content@)
        }),
        r is Err ==> r == Err::<(u64, u64), CodecError>(CodecError::EncodeFailed) && final(out)@
            == old(out)@,
{
    let start = out.len();
    let mut frame = match zstd_compress(content, level) {
        Ok(f) => f,
        Err(e) => return Err(e),
    };
    out.append(&mut frame);
    let end = out.len();
    proof {
        assert(out@.subrange(start as int, end as int) =~= zstd_frame_of(
            content@,
            level as int,
        ));
    }
    Ok((start as u64, end as u64))
}

/// One descriptor's whole story: its frame's bytes sit at `position` with
/// exactly `length` bytes, they are the compressed form of the `k`-th
/// line-aligned chunk of the input, and decompressing them in isolation
/// yields that chunk.
pub open spec fn frame_at(
    input: Seq<u8>,
    block_size: int,
    level: int,
    out: Seq<u8>,
    index: Seq<FrameMeta>,
    k: int,
) -> bool {
    let m = index[k];
    let cs = chunk_start(input, block_size, k);
    let ce = chunk_end_at(input, cs, block_size);
    &&& m.position + m.length <= out.len()
    &&& out.subrange(m.position as int, m.position + m.length) == zstd_frame_of(
        input.subrange(cs, ce),
        level,
    )
    &&& zstd_unframe_of(out.subrange(m.position as int, m.position + m.length)) == Some(
        input.subrange(cs, ce),
    )
}

/// What one complete compression pass guarantees of its output stream and
/// index: descriptors carry their write order, every frame is the encoding
/// of its chunk and decodes back to it, the chunks cover the whole input,
/// and the frames tile the output stream contiguously from offset `0` to
/// its end.
pub open spec fn frames_well_formed(
    input: Seq<u8>,
    block_size: int,
    level: int,
    out: Seq<u8>,
    index: Seq<FrameMeta>,
) -> bool {
    &&& forall|k: int| 0 <= k < index.len() ==> (#[trigger] index[k]).order == k
    &&& forall|k: int| 0 <= k < index.len() ==> frame_at(input, block_size, level, out, index, k)
    &&& forall|k: int|
        0 <= k < index.len() ==> #[trigger] chunk_start(input, block_size, k) < input.len()
    &&& chunk_start(input, block_size, index.len() as int) == input.len()
    &&& index.len() == 0 ==> out.len() == 0
    &&& index.len() > 0 ==> index[0].position == 0
    &&& index.len() > 0 ==> index[index.len() - 1].position + index[index.len() - 1].length
        == out.len()
    &&& forall|k: int|
        0 <= k < index.len() - 1 ==> (#[trigger] index[k]).position + index[k].length == index[
            k + 1
        ].position
}

/// Drives one full compression pass: reads line-aligned chunks, compresses
/// each as one independently decodable frame appended to the output stream,
/// and records one descriptor per frame in write order.  Fails, yielding no
/// partial output, only when a single-frame encode step fails.
pub fn write_indexed_zstd(input: &[u8], block_size: usize, level: i32) -> (r: Result<
    (Vec<u8>, Vec<FrameMeta>),
    CodecError,
>)
    requires
        block_size > 0,
    ensures
        r matches Ok(p) ==> frames_well_formed(
            input@,
            block_size as int,
            level as int,
            p.0@,
            p.1@,
        ),
        r is Err ==> r == Err::<(Vec<u8>, Vec<FrameMeta>), CodecError>(CodecError::EncodeFailed),
{
    let n: usize = input.len();
    let mut out: Vec<u8> = Vec::new();
    let mut index: Vec<FrameMeta> = Vec::new();
    if n == 0 {
        return Ok((out, index));
    }
    let mut i: usize = 0;
    loop
        invariant_except_break
            n == input@.len(),
            0 < n,
            i < n,
            block_size > 0,
            i == chunk_start(input@, block_size as int, index@.len() as int),
            forall|k: int| 0 <= k < index@.len() ==> (#[trigger] index@[k]).order == k,
            forall|k: int|
                0 <= k < index@.len() ==> frame_at(
                    input@,
                    block_size as int,
                    level as int,
                    out@,
                    index@,
                    k,
                ),
            forall|k: int|
                0 <= k < index@.len() ==> #[trigger] chunk_start(input@, block_size as int, k)
                    < input@.len(),
            index@.len() == 0 ==> out@.len() == 0,
            index@.len() > 0 ==> index@[0].position == 0,
            index@.len() > 0 ==> index@[index@.len() - 1].position + index@[index@.len()
                - 1].length == out@.len(),
            forall|k: int|
                0 <= k < index@.len() - 1 ==> (#[trigger] index@[k]).position + index@[k].length
                    == index@[k + 1].position,
        ensures
            frames_well_formed(input@, block_size as int, level as int, out@, index@),
        decreases n - i,
    {
        let end = chunk::read_chunk(input, i, block_size);
        let ghost old_out = out@;
        let ghost old_index = index@;
        let chunk_bytes = &input[i..end];
        assert(chunk_bytes@ =~= input@.subrange(i as int, end as int));
        let se = match encode_zstd_block(&mut out, chunk_bytes, level) {
            Ok(p) => p,
            Err(e) => return Err(e),
        };
        let m = FrameMeta::new(se.0, se.1 - se.0, index.len() as u64);
        index.push(m);
        proof {
            let bs = block_size as int;
            let lv = level as int;
            let kn = old_index.len() as int;
            assert(chunk_start(input@, bs, kn + 1) == end);
            assert forall|k: int| 0 <= k < index@.len() implies frame_at(
                input@,
                bs,
                lv,
                out@,
                index@,
                k,
            ) by {
                if k < kn {
                    assert(frame_at(input@, bs, lv, old_out, old_index, k));
                    assert(index@[k] == old_index[k]);
                    assert(out@.subrange(
                        old_index[k].position as int,
                        old_index[k].position + old_index[k].length,
                    ) =~= old_out.subrange(
                        old_index[k].position as int,
                        old_index[k].position + old_index[k].length,
                    ));
                } else {
                    assert(out@.subrange(se.0 as int, se.1 as int) == zstd_frame_of(
                        input@.subrange(i as int, end as int),
                        lv,
                    ));
                }
            }
        }
        if end == n {
            proof {
                assert(chunk_start(input@, block_size as int, index@.len() as int)
                    == input@.len());
            }
            break;
        }
        i = end;
    }
    Ok((out, index))
}

/// Decompresses one frame's bytes — located by its own descriptor alone —
/// and parses the records they contain, also reporting the keys whose
/// value field did not parse.  A malformed frame is a frame-scoped error.
pub fn decode_frame_with_report(frame: &[u8]) -> (r: Result<
    (Vec<(String, u64)>, Vec<String>),
    CodecError,
>)
    ensures
        r matches Ok(v) ==> zstd_unframe_of(frame@) matches Some(payload) && pairs_view(v.0@)
            == records_from(payload, 0) && records::keys_view(v.1@) == records::malformed_from(
            payload,
            0,
        ),
        r is Err ==> r == Err::<(Vec<(String, u64)>, Vec<String>), CodecError>(
            CodecError::FrameDecode,
        ) && zstd_unframe_of(frame@) is None,
{
    let payload = match zstd_decompress(frame) {
        Ok(p) => p,
        Err(e) => return Err(e),
    };
    Ok(records::parse_lines_with_report(payload.as_slice()))
}

/// Decompresses one frame's bytes and parses the records they contain.
pub fn decode_frame(frame: &[u8]) -> (r: Result<Vec<(String, u64)>, CodecError>)
    ensures
        r matches Ok(v) ==> zstd_unframe_of(frame@) matches Some(payload) && pairs_view(v@)
            == records_from(payload, 0),
        r is Err ==> r == Err::<Vec<(String, u64)>, CodecError>(CodecError::FrameDecode)
            && zstd_unframe_of(frame@) is None,
{
    match decode_frame_with_report(frame) {
        Ok((pairs, _)) => Ok(pairs),
        Err(e) => Err(e),
    }
}

/// Frame contiguity (law): for every consecutive pair of descriptors of one
/// pass, the earlier frame's position plus its length is exactly the later
/// frame's position, and the last frame ends exactly at the output stream's
/// total size.
pub proof fn lemma_frame_contiguity(
    input: Seq<u8>,
    block_size: int,
    level: int,
    out: Seq<u8>,
    index: Seq<FrameMeta>,
)
    requires
        frames_well_formed(input, block_size, level, out, index),
    ensures
        forall|k: int|
            0 <= k < index.len() - 1 ==> (#[trigger] index[k]).position + index[k].length == index[
                k + 1
            ].position,
        index.len() > 0 ==> index[index.len() - 1].position + index[index.len() - 1].length
            == out.len(),
{
}

/// Single-frame isolation (law): any one frame, located only by its own
/// descriptor, decompresses on its own to exactly the line-aligned chunk
/// that was encoded into it.
pub proof fn lemma_single_frame_isolation(
    input: Seq<u8>,
    block_size: int,
    level: int,
    out: Seq<u8>,
    index: Seq<FrameMeta>,
    k: int,
)
    requires
        frames_well_formed(input, block_size, level, out, index),
        0 <= k < index.len(),
    ensures
        zstd_unframe_of(out.subrange(index[k].position as int, index[k].position + index[k].length))
            == Some(
            input.subrange(
                chunk_start(input, block_size, k),
                chunk_end_at(input, chunk_start(input, block_size, k), block_size),
            ),
        ),
{
    assert(frame_at(input, block_size, level, out, index, k));
}

/// The bytes one frame decompresses to, when it is well formed.
pub open spec fn decoded_frame(out: Seq<u8>, m: FrameMeta) -> Seq<u8> {
    match zstd_unframe_of(out.subrange(m.position as int, m.position + m.length)) {
        Some(p) => p,
        None => Seq::empty(),
    }
}

/// The concatenation, in index order, of what the frames from `k` on
/// decompress to.
pub open spec fn decoded_concat(out: Seq<u8>, index: Seq<FrameMeta>, k: int) -> Seq<u8>
    decreases index.len() - k,
    when 0 <= k <= index.len()
{
    if k >= index.len() {
        Seq::empty()
    } else {
        decoded_frame(out, index[k]) + decoded_concat(out, index, k + 1)
    }
}

proof fn lemma_round_trip_from(
    input: Seq<u8>,
    block_size: int,
    level: int,
    out: Seq<u8>,
    index: Seq<FrameMeta>,
    k: int,
)
    requires
        block_size > 0,
        frames_well_formed(input, block_size, level, out, index),
        0 <= k <= index.len(),
    ensures
        decoded_concat(out, index, k) == input.subrange(
            chunk_start(input, block_size, k),
            input.len() as int,
        ),
    decreases index.len() - k,
{
    chunk::lemma_chunk_start_bounds(input, block_size, k);
    if k == index.len() {
        assert(input.subrange(input.len() as int, input.len() as int) =~= Seq::<u8>::empty());
    } else {
        lemma_round_trip_from(input, block_size, level, out, index, k + 1);
        let cs = chunk_start(input, block_size, k);
        assert(cs < input.len());
        chunk::lemma_chunk_end_at_correct(input, cs, block_size);
        let ce = chunk_end_at(input, cs, block_size);
        assert(frame_at(input, block_size, level, out, index, k));
        assert(chunk_start(input, block_size, k + 1) == ce);
        chunk::lemma_chunk_start_bounds(input, block_size, k + 1);
        assert(input.subrange(cs, ce) + input.subrange(ce, input.len() as int) =~= input.subrange(
            cs,
            input.len() as int,
        ));
    }
}

/// Round-trip fidelity (law): decompressing every frame of one pass in
/// index order and concatenating the decompressed bytes reproduces the
/// original input byte for byte.
pub proof fn lemma_round_trip(
    input: Seq<u8>,
    block_size: int,
    level: int,
    out: Seq<u8>,
    index: Seq<FrameMeta>,
)
    requires
        block_size > 0,
        frames_well_formed(input, block_size, level, out, index),
    ensures
        decoded_concat(out, index, 0) == input,
{
    lemma_round_trip_from(input, block_size, level, out, index, 0);
    assert(input.subrange(0, input.len() as int) =~= input);
}

} // verus!
