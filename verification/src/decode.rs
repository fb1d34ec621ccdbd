//! Decoding: from the tag occurrences of a byte stream to a [`Video`] model.
//!
//! The meaning of a decode pass is pinned down as a fold, [`decode_fold`],
//! over the match list; [`decode_spec`] composes it with [`all_matches`], so
//! the whole decode result is a pure function of the file bytes.

use vstd::prelude::*;

use crate::bytes::{be_u16_at, be_u32_at, read_be_u16, read_be_u32, read_u8};
use crate::model::{ColrAtom, GamaAtomView, ProResFrame, Video, VideoView};
use crate::scan::{
    all_matches, find_tag_matches, int_matches, lemma_match_count, lemma_matches_from_props,
    matches_sorted, matches_sound, tag_match_at,
};

verus! {

/// Why a decode pass failed.
#[derive(Clone, Copy, Debug, PartialEq, Eq)]
pub enum DecodeError {
    /// A matched record's fields lie beyond the end of the stream.
    Truncated,
}

/// The fields of a `colr` atom whose tag ends at `e` fit in the stream.
pub open spec fn colr_ok(b: Seq<u8>, e: int) -> bool {
    e >= 8 && e + 10 <= b.len()
}

/// The `colr` atom whose tag ends at `e`: size field at the atom start
/// `e - 8`, the three 2-byte big-endian indices 12, 14 and 16 bytes in.
pub open spec fn colr_of(b: Seq<u8>, e: int) -> ColrAtom {
    ColrAtom {
        size: be_u32_at(b, e - 8),
        offset: (e - 8) as u64,
        primary_index: be_u16_at(b, e + 4),
        transfer_function_index: be_u16_at(b, e + 6),
        matrix_index: be_u16_at(b, e + 8),
        matched: true,
    }
}

/// The fields of a `gama` candidate whose tag ends at `e` fit in the stream.
/// The 4-byte payload is read only when the size field decodes as 12.
pub open spec fn gama_ok(b: Seq<u8>, e: int) -> bool {
    e >= 8 && (be_u32_at(b, e - 8) == 12 ==> e + 4 <= b.len())
}

/// The fields of an `icpf` frame header whose tag ends at `e` fit in the
/// stream.
pub open spec fn frame_ok(b: Seq<u8>, e: int) -> bool {
    e >= 8 && e + 17 <= b.len()
}

/// The frame header whose tag ends at `e`: size field at the record start
/// `e - 8`, header size 8 bytes in, the three 1-byte color fields 22, 23 and
/// 24 bytes in.
pub open spec fn frame_of(b: Seq<u8>, e: int) -> ProResFrame {
    ProResFrame {
        frame_size: be_u32_at(b, e - 8),
        offset: (e - 8) as u64,
        frame_header_size: be_u16_at(b, e),
        color_primaries: b[e + 14],
        transfer_characteristic: b[e + 15],
        matrix_coefficients: b[e + 16],
    }
}

/// One decode step: how the match `m` updates the model.
pub open spec fn decode_step(b: Seq<u8>, m: (int, int), v: VideoView) -> Result<
    VideoView,
    DecodeError,
> {
    let p = m.0;
    let e = m.1;
    if p == 0 {
        if colr_ok(b, e) {
            Ok(VideoView { colr_atom: colr_of(b, e), gama_atom: v.gama_atom, frames: v.frames })
        } else {
            Err(DecodeError::Truncated)
        }
    } else if p == 1 {
        if gama_ok(b, e) {
            let offsets = v.gama_atom.offsets.push((e - 8) as u64);
            if be_u32_at(b, e - 8) == 12 {
                Ok(
                    VideoView {
                        colr_atom: v.colr_atom,
                        gama_atom: GamaAtomView {
                            size: 12,
                            offsets,
                            the_actual_gama_offset: (e - 8) as u64,
                            gama_value: be_u32_at(b, e),
                            matched: true,
                        },
                        frames: v.frames,
                    },
                )
            } else {
                Ok(
                    VideoView {
                        colr_atom: v.colr_atom,
                        gama_atom: GamaAtomView {
                            size: v.gama_atom.size,
                            offsets,
                            the_actual_gama_offset: v.gama_atom.the_actual_gama_offset,
                            gama_value: v.gama_atom.gama_value,
                            matched: v.gama_atom.matched,
                        },
                        frames: v.frames,
                    },
                )
            }
        } else {
            Err(DecodeError::Truncated)
        }
    } else {
        if frame_ok(b, e) {
            Ok(
                VideoView {
                    colr_atom: v.colr_atom,
                    gama_atom: v.gama_atom,
                    frames: v.frames.push(frame_of(b, e)),
                },
            )
        } else {
            Err(DecodeError::Truncated)
        }
    }
}

/// Folds the decode steps over a match list, aborting on the first failure.
pub open spec fn decode_fold(b: Seq<u8>, ms: Seq<(int, int)>, v: VideoView) -> Result<
    VideoView,
    DecodeError,
>
    decreases ms.len(),
{
    if ms.len() == 0 {
        Ok(v)
    } else {
        match decode_step(b, ms[0], v) {
            Ok(v2) => decode_fold(b, ms.drop_first(), v2),
            Err(e) => Err(e),
        }
    }
}

/// What one decode pass over `b` yields: a pure function of the bytes.
pub open spec fn decode_spec(b: Seq<u8>) -> Result<VideoView, DecodeError> {
    decode_fold(b, all_matches(b), VideoView::empty())
}

/// The frame list is strictly ascending by file offset.
pub open spec fn frames_ascending(frames: Seq<ProResFrame>) -> bool {
    forall|i: int, j: int| 0 <= i < j < frames.len() ==> frames[i].offset < frames[j].offset
}

/// Runs the decode steps over a list of tag matches, as handed out by the
/// scanner: each entry is `(pattern index, match end offset)`.
pub fn decode_from_matches(bytes: &Vec<u8>, matches: &Vec<(usize, usize)>) -> (r: Result<
    Video,
    DecodeError,
>)
    requires
        matches_sound(bytes@, int_matches(matches@)),
        matches_sorted(int_matches(matches@)),
    ensures
        match r {
            Ok(video) => decode_fold(bytes@, int_matches(matches@), VideoView::empty()) == Ok::<
                VideoView,
                DecodeError,
            >(video@) && video.wf() && frames_ascending(video@.frames),
            Err(e) => decode_fold(bytes@, int_matches(matches@), VideoView::empty()) == Err::<
                VideoView,
                DecodeError,
            >(e),
        },
{
    let ghost ms = int_matches(matches@);
    let n: usize = bytes.len();
    proof {
        lemma_match_count(bytes@, ms);
    }
    let mut video = Video::default();
    let mut k: usize = 0;
    proof {
        assert(ms.skip(0) =~= ms);
    }
    while k < matches.len()
        invariant
            0 <= k <= matches.len(),
            ms == int_matches(matches@),
            matches_sound(bytes@, ms),
            matches_sorted(ms),
            ms.len() == matches@.len(),
            4 * ms.len() <= bytes@.len(),
            bytes@.len() == n,
            decode_fold(bytes@, ms, VideoView::empty()) == decode_fold(
                bytes@,
                ms.skip(k as int),
                video@,
            ),
            video.wf(),
            video.frames@.len() <= k,
            frames_ascending(video@.frames),
            video.frames@.len() > 0 ==> k >= 1 && (forall|j: int|
                0 <= j < video.frames@.len() ==> #[trigger] video.frames@[j].offset as int + 8
                    <= ms[k - 1].1),
        decreases matches.len() - k,
    {
        let ghost v0 = video@;
        let ghost e = ms[k as int].1;
        let (pid, end) = matches[k];
        proof {
            assert(ms[k as int] == (matches@[k as int].0 as int, matches@[k as int].1 as int));
            assert(tag_match_at(bytes@, ms[k as int].0, e));
            assert(ms.skip(k as int).len() > 0);
            assert(ms.skip(k as int)[0] == ms[k as int]);
            assert(ms.skip(k as int).drop_first() =~= ms.skip(k as int + 1));
        }
        if pid == 0 {
            // colr atom: size, then the three 2-byte index fields.
            if !(end >= 8 && n - end >= 10) {
                proof {
                    assert(!colr_ok(bytes@, e));
                    assert(decode_step(bytes@, ms[k as int], v0) == Err::<VideoView, DecodeError>(
                        DecodeError::Truncated,
                    ));
                }
                return Err(DecodeError::Truncated);
            }
            let off = end - 8;
            video.colr_atom.offset = off as u64;
            video.colr_atom.size = read_be_u32(bytes, off);
            video.colr_atom.primary_index = read_be_u16(bytes, end + 4);
            video.colr_atom.transfer_function_index = read_be_u16(bytes, end + 6);
            video.colr_atom.matrix_index = read_be_u16(bytes, end + 8);
            video.colr_atom.matched = true;
            proof {
                assert(colr_ok(bytes@, e));
                assert(video@.colr_atom == colr_of(bytes@, e));
                assert(decode_step(bytes@, ms[k as int], v0) == Ok::<VideoView, DecodeError>(
                    video@,
                ));
            }
        } else if pid == 1 {
            // gama candidate: record it, then verify its size field.
            if !(end >= 8) {
                proof {
                    assert(!gama_ok(bytes@, e));
                    assert(decode_step(bytes@, ms[k as int], v0) == Err::<VideoView, DecodeError>(
                        DecodeError::Truncated,
                    ));
                }
                return Err(DecodeError::Truncated);
            }
            let off = end - 8;
            video.gama_atom.offsets.push(off as u64);
            let size = read_be_u32(bytes, off);
            if size == 12 {
                if !(n - end >= 4) {
                    proof {
                        assert(!gama_ok(bytes@, e));
                        assert(decode_step(bytes@, ms[k as int], v0) == Err::<
                            VideoView,
                            DecodeError,
                        >(DecodeError::Truncated));
                    }
                    return Err(DecodeError::Truncated);
                }
                video.gama_atom.size = 12;
                video.gama_atom.the_actual_gama_offset = off as u64;
                video.gama_atom.gama_value = read_be_u32(bytes, end);
                video.gama_atom.matched = true;
            }
            proof {
                assert(gama_ok(bytes@, e));
                assert(video@.gama_atom.offsets =~= v0.gama_atom.offsets.push((e - 8) as u64));
                assert(decode_step(bytes@, ms[k as int], v0) == Ok::<VideoView, DecodeError>(
                    video@,
                ));
            }
        } else {
            // ProRes frame header.
            if !(end >= 8 && n - end >= 17) {
                proof {
                    assert(!frame_ok(bytes@, e));
                    assert(decode_step(bytes@, ms[k as int], v0) == Err::<VideoView, DecodeError>(
                        DecodeError::Truncated,
                    ));
                }
                return Err(DecodeError::Truncated);
            }
            let off = end - 8;
            let mut frame = ProResFrame::new();
            frame.offset = off as u64;
            frame.frame_size = read_be_u32(bytes, off);
            frame.frame_header_size = read_be_u16(bytes, end);
            frame.color_primaries = read_u8(bytes, end + 14);
            frame.transfer_characteristic = read_u8(bytes, end + 15);
            frame.matrix_coefficients = read_u8(bytes, end + 16);
            video.frames.push(frame);
            proof {
                assert(video.frame_count == video.frames@.len() - 1);
                assert(video.frames@.len() <= k + 1);
                assert(video.frame_count < i64::MAX);
            }
            video.frame_count = video.frame_count + 1;
            proof {
                assert(frame_ok(bytes@, e));
                assert(frame == frame_of(bytes@, e));
                assert(video@.frames =~= v0.frames.push(frame_of(bytes@, e)));
                assert(decode_step(bytes@, ms[k as int], v0) == Ok::<VideoView, DecodeError>(
                    video@,
                ));
                assert(frame.offset as int == e - 8);
                assert forall|j: int| 0 <= j < v0.frames.len() implies v0.frames[j].offset
                    < frame.offset by {
                    assert(v0.frames[j].offset as int + 8 <= ms[k - 1].1);
                    assert(ms[k - 1].1 < e);
                }
            }
        }
        k = k + 1;
    }
    proof {
        assert(ms.skip(matches@.len() as int) =~= Seq::<(int, int)>::empty());
    }
    Ok(video)
}

impl Video {
    /// Locates every tagged record in the byte stream and fills the model
    /// with what one decode pass extracts, replacing whatever it held.
    ///
    /// Succeeds exactly when every matched record's fields lie inside the
    /// stream; `Err(DecodeError::Truncated)` otherwise, with the model left
    /// unchanged.
    pub fn decode(&mut self, bytes: &Vec<u8>) -> (r: Result<(), DecodeError>)
        ensures
            match r {
                Ok(()) => decode_spec(bytes@) == Ok::<VideoView, DecodeError>(final(self)@)
                    && final(self).wf() && frames_ascending(final(self)@.frames),
                Err(e) => decode_spec(bytes@) == Err::<VideoView, DecodeError>(e) && *final(self)
                    == *old(self),
            },
    {
        let matches = find_tag_matches(bytes);
        proof {
            lemma_matches_from_props(bytes@, 0);
        }
        match decode_from_matches(bytes, &matches) {
            Ok(video) => {
                *self = video;
                Ok(())
            },
            Err(e) => Err(e),
        }
    }
}

} // verus!
