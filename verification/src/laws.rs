//! The laws tying decode and encode together: what a decode pass extracts,
//! record by record, and what a re-decode of a patched stream yields.

use vstd::prelude::*;

use crate::bytes::{be_u32_at, be_u32_bytes, lemma_be_u32_round_trip};
use crate::decode::{
    colr_of, colr_ok, decode_fold, decode_spec, decode_step, frame_of, frame_ok, gama_ok,
};
use crate::encode::{
    colr_patch, encode_ranges_ok, encode_spec, frame_patch, frame_writes, gamma_write_applies,
    lemma_frame_writes_len, write_bytes,
};
use crate::model::{ColrAtom, GamaAtomView, ProResFrame, VideoView};
use crate::scan::{
    all_matches, lemma_matches_from_props, lemma_no_overlap, matches_sorted, matches_sound,
    tag_match_at,
};

verus! {

/// The frames a match list contributes, in match order.
pub open spec fn decoded_frames(b: Seq<u8>, ms: Seq<(int, int)>) -> Seq<ProResFrame>
    decreases ms.len(),
{
    if ms.len() == 0 {
        Seq::empty()
    } else {
        let rest = decoded_frames(b, ms.drop_first());
        if ms[0].0 != 0 && ms[0].0 != 1 {
            seq![frame_of(b, ms[0].1)] + rest
        } else {
            rest
        }
    }
}

/// The gamma candidate offsets a match list contributes, in match order.
pub open spec fn decoded_gama_offsets(ms: Seq<(int, int)>) -> Seq<u64>
    decreases ms.len(),
{
    if ms.len() == 0 {
        Seq::empty()
    } else {
        let rest = decoded_gama_offsets(ms.drop_first());
        if ms[0].0 == 1 {
            seq![(ms[0].1 - 8) as u64] + rest
        } else {
            rest
        }
    }
}

/// The color atom after a match list is folded over `c0`: the last `colr`
/// match wins.
pub open spec fn decoded_colr(b: Seq<u8>, ms: Seq<(int, int)>, c0: ColrAtom) -> ColrAtom
    decreases ms.len(),
{
    if ms.len() == 0 {
        c0
    } else {
        decoded_colr(
            b,
            ms.drop_first(),
            if ms[0].0 == 0 {
                colr_of(b, ms[0].1)
            } else {
                c0
            },
        )
    }
}

/// The end offset of the last `colr` match, if any.
pub open spec fn last_colr_end(ms: Seq<(int, int)>) -> Option<int>
    decreases ms.len(),
{
    if ms.len() == 0 {
        None
    } else {
        match last_colr_end(ms.drop_first()) {
            Some(e) => Some(e),
            None => if ms[0].0 == 0 {
                Some(ms[0].1)
            } else {
                None
            },
        }
    }
}

/// How one match updates the gamma record: every `gama` match is recorded
/// as a candidate; one whose size field decodes as 12 is genuine and wins.
pub open spec fn gama_step(b: Seq<u8>, m: (int, int), g0: GamaAtomView) -> GamaAtomView {
    if m.0 == 1 {
        let offsets = g0.offsets.push((m.1 - 8) as u64);
        if be_u32_at(b, m.1 - 8) == 12 {
            GamaAtomView {
                size: 12,
                offsets,
                the_actual_gama_offset: (m.1 - 8) as u64,
                gama_value: be_u32_at(b, m.1),
                matched: true,
            }
        } else {
            GamaAtomView {
                size: g0.size,
                offsets,
                the_actual_gama_offset: g0.the_actual_gama_offset,
                gama_value: g0.gama_value,
                matched: g0.matched,
            }
        }
    } else {
        g0
    }
}

/// The gamma record after a match list is folded over `g0`.
pub open spec fn decoded_gama(b: Seq<u8>, ms: Seq<(int, int)>, g0: GamaAtomView) -> GamaAtomView
    decreases ms.len(),
{
    if ms.len() == 0 {
        g0
    } else {
        decoded_gama(b, ms.drop_first(), gama_step(b, ms[0], g0))
    }
}

/// The per-match condition under which decoding does not abort.
pub open spec fn match_ok(b: Seq<u8>, m: (int, int)) -> bool {
    if m.0 == 0 {
        colr_ok(b, m.1)
    } else if m.0 == 1 {
        gama_ok(b, m.1)
    } else {
        frame_ok(b, m.1)
    }
}

/// Decoding succeeds exactly when every match passes its bounds check.
pub proof fn lemma_fold_ok_iff(b: Seq<u8>, ms: Seq<(int, int)>, v0: VideoView)
    ensures
        decode_fold(b, ms, v0) is Ok <==> (forall|k: int|
            0 <= k < ms.len() ==> match_ok(b, #[trigger] ms[k])),
    decreases ms.len(),
{
    if ms.len() == 0 {
    } else {
        let st = decode_step(b, ms[0], v0);
        if st is Ok {
            lemma_fold_ok_iff(b, ms.drop_first(), st->Ok_0);
            assert(match_ok(b, ms[0]));
            if decode_fold(b, ms, v0) is Ok {
                assert forall|k: int| 0 <= k < ms.len() implies match_ok(b, #[trigger] ms[k]) by {
                    if k > 0 {
                        assert(ms.drop_first()[k - 1] == ms[k]);
                    }
                }
            } else {
                let j = choose|j: int|
                    0 <= j < ms.drop_first().len() && !match_ok(b, ms.drop_first()[j]);
                assert(ms[j + 1] == ms.drop_first()[j]);
            }
        } else {
            assert(!match_ok(b, ms[0]));
        }
    }
}

/// What one fold pass leaves in the model: the frames and gamma candidates
/// are appended in match order, and the last `colr` match wins.
pub proof fn lemma_fold_characterization(b: Seq<u8>, ms: Seq<(int, int)>, v0: VideoView)
    requires
        decode_fold(b, ms, v0) is Ok,
    ensures
        (decode_fold(b, ms, v0)->Ok_0).frames == v0.frames + decoded_frames(b, ms),
        (decode_fold(b, ms, v0)->Ok_0).colr_atom == decoded_colr(b, ms, v0.colr_atom),
        (decode_fold(b, ms, v0)->Ok_0).gama_atom.offsets == v0.gama_atom.offsets
            + decoded_gama_offsets(ms),
        (decode_fold(b, ms, v0)->Ok_0).gama_atom == decoded_gama(b, ms, v0.gama_atom),
    decreases ms.len(),
{
    if ms.len() == 0 {
        assert(v0.frames + decoded_frames(b, ms) =~= v0.frames);
        assert(v0.gama_atom.offsets + decoded_gama_offsets(ms) =~= v0.gama_atom.offsets);
    } else {
        let st = decode_step(b, ms[0], v0);
        let v1 = st->Ok_0;
        lemma_fold_characterization(b, ms.drop_first(), v1);
        if ms[0].0 != 0 && ms[0].0 != 1 {
            assert(v1.frames == v0.frames.push(frame_of(b, ms[0].1)));
            assert(v0.frames + decoded_frames(b, ms) =~= v1.frames + decoded_frames(
                b,
                ms.drop_first(),
            ));
        } else {
            assert(v1.frames == v0.frames);
            assert(v0.frames + decoded_frames(b, ms) =~= v1.frames + decoded_frames(
                b,
                ms.drop_first(),
            ));
        }
        if ms[0].0 == 1 {
            assert(v1.gama_atom.offsets == v0.gama_atom.offsets.push((ms[0].1 - 8) as u64));
            assert(v0.gama_atom.offsets + decoded_gama_offsets(ms) =~= v1.gama_atom.offsets
                + decoded_gama_offsets(ms.drop_first()));
        } else {
            assert(v1.gama_atom.offsets == v0.gama_atom.offsets);
            assert(v0.gama_atom.offsets + decoded_gama_offsets(ms) =~= v1.gama_atom.offsets
                + decoded_gama_offsets(ms.drop_first()));
        }
        assert(v1.colr_atom == (if ms[0].0 == 0 {
            colr_of(b, ms[0].1)
        } else {
            v0.colr_atom
        }));
        assert(v1.gama_atom == gama_step(b, ms[0], v0.gama_atom));
    }
}

/// [`decoded_colr`] spelled out through [`last_colr_end`].
pub proof fn lemma_decoded_colr_last(b: Seq<u8>, ms: Seq<(int, int)>, c0: ColrAtom)
    ensures
        decoded_colr(b, ms, c0) == (match last_colr_end(ms) {
            Some(e) => colr_of(b, e),
            None => c0,
        }),
    decreases ms.len(),
{
    if ms.len() > 0 {
        let c1 = if ms[0].0 == 0 {
            colr_of(b, ms[0].1)
        } else {
            c0
        };
        lemma_decoded_colr_last(b, ms.drop_first(), c1);
    }
}

/// The last `colr` end is one of the matches.
pub proof fn lemma_last_colr_in(ms: Seq<(int, int)>)
    ensures
        match last_colr_end(ms) {
            Some(e) => ms.contains((0, e)),
            None => true,
        },
    decreases ms.len(),
{
    if ms.len() > 0 {
        lemma_last_colr_in(ms.drop_first());
        match last_colr_end(ms.drop_first()) {
            Some(e) => {
                let j = choose|j: int|
                    0 <= j < ms.drop_first().len() && ms.drop_first()[j] == (0int, e);
                assert(ms[j + 1] == (0int, e));
            },
            None => {
                if ms[0].0 == 0 {
                    assert(ms[0] == (0int, ms[0].1));
                }
            },
        }
    }
}

/// The end offsets of the frame matches, in match order.
pub open spec fn frame_ends(ms: Seq<(int, int)>) -> Seq<int>
    decreases ms.len(),
{
    if ms.len() == 0 {
        Seq::empty()
    } else {
        let rest = frame_ends(ms.drop_first());
        if ms[0].0 != 0 && ms[0].0 != 1 {
            seq![ms[0].1] + rest
        } else {
            rest
        }
    }
}

/// The decoded frames, one per frame match end, in order.
pub proof fn lemma_decoded_frames_ends(b: Seq<u8>, ms: Seq<(int, int)>)
    ensures
        decoded_frames(b, ms).len() == frame_ends(ms).len(),
        forall|k: int|
            0 <= k < frame_ends(ms).len() ==> #[trigger] decoded_frames(b, ms)[k] == frame_of(
                b,
                frame_ends(ms)[k],
            ),
    decreases ms.len(),
{
    if ms.len() > 0 {
        lemma_decoded_frames_ends(b, ms.drop_first());
        if ms[0].0 != 0 && ms[0].0 != 1 {
            assert forall|k: int| 0 <= k < frame_ends(ms).len() implies #[trigger] decoded_frames(
                b,
                ms,
            )[k] == frame_of(b, frame_ends(ms)[k]) by {
                if k > 0 {
                    assert(frame_ends(ms)[k] == frame_ends(ms.drop_first())[k - 1]);
                    assert(decoded_frames(b, ms)[k] == decoded_frames(b, ms.drop_first())[k - 1]);
                }
            }
        }
    }
}

/// In a sound, sorted match list the frame ends are themselves frame matches
/// and strictly ascending.
pub proof fn lemma_frame_ends_props(b: Seq<u8>, ms: Seq<(int, int)>)
    requires
        matches_sound(b, ms),
        matches_sorted(ms),
    ensures
        forall|k: int| 0 <= k < frame_ends(ms).len() ==> ms.contains((2int, #[trigger] frame_ends(ms)[k])),
        forall|k: int, k2: int|
            0 <= k < k2 < frame_ends(ms).len() ==> #[trigger] frame_ends(ms)[k]
                < #[trigger] frame_ends(ms)[k2],
    decreases ms.len(),
{
    if ms.len() > 0 {
        let rest = ms.drop_first();
        assert(matches_sound(b, rest) && matches_sorted(rest)) by {
            assert forall|k: int| 0 <= k < rest.len() implies #[trigger] tag_match_at(
                b,
                rest[k].0,
                rest[k].1,
            ) by {
                assert(rest[k] == ms[k + 1]);
            }
            assert forall|i: int, j: int| 0 <= i < j < rest.len() implies rest[i].1 < rest[j].1 by {
                assert(rest[i] == ms[i + 1] && rest[j] == ms[j + 1]);
            }
        }
        lemma_frame_ends_props(b, rest);
        assert forall|k: int| 0 <= k < frame_ends(ms).len() implies ms.contains(
            (2int, #[trigger] frame_ends(ms)[k]),
        ) by {
            if ms[0].0 != 0 && ms[0].0 != 1 {
                if k == 0 {
                    assert(tag_match_at(b, ms[0].0, ms[0].1));
                    assert(ms[0].0 == 2);
                    assert(ms[0] == (2int, frame_ends(ms)[0]));
                } else {
                    assert(frame_ends(ms)[k] == frame_ends(rest)[k - 1]);
                    assert(rest.contains((2int, frame_ends(rest)[k - 1])));
                    let j = choose|j: int| 0 <= j < rest.len() && rest[j] == (2int, frame_ends(rest)[k - 1]);
                    assert(ms[j + 1] == (2int, frame_ends(ms)[k]));
                }
            } else {
                assert(frame_ends(ms)[k] == frame_ends(rest)[k]);
                assert(rest.contains((2int, frame_ends(rest)[k])));
                let j = choose|j: int| 0 <= j < rest.len() && rest[j] == (2int, frame_ends(rest)[k]);
                assert(ms[j + 1] == (2int, frame_ends(ms)[k]));
            }
        }
        assert forall|k: int, k2: int| 0 <= k < k2 < frame_ends(ms).len() implies #[trigger] frame_ends(
            ms,
        )[k] < #[trigger] frame_ends(ms)[k2] by {
            if ms[0].0 != 0 && ms[0].0 != 1 {
                if k == 0 {
                    // frame_ends(ms)[k2] is an end of some element of rest,
                    // all of which exceed ms[0].1.
                    assert(frame_ends(ms)[k2] == frame_ends(rest)[k2 - 1]);
                    assert(rest.contains((2int, frame_ends(rest)[k2 - 1])));
                    let j = choose|j: int| 0 <= j < rest.len() && rest[j] == (2int, frame_ends(rest)[k2 - 1]);
                    assert(ms[j + 1].1 == frame_ends(ms)[k2]);
                    assert(ms[0].1 < ms[j + 1].1);
                } else {
                    assert(frame_ends(ms)[k] == frame_ends(rest)[k - 1]);
                    assert(frame_ends(ms)[k2] == frame_ends(rest)[k2 - 1]);
                }
            } else {
                assert(frame_ends(ms)[k] == frame_ends(rest)[k]);
                assert(frame_ends(ms)[k2] == frame_ends(rest)[k2]);
            }
        }
    }
}

/// Every `gama` match leaves its atom-start offset among the candidates.
pub proof fn lemma_gama_offsets_complete(ms: Seq<(int, int)>, j: int)
    requires
        0 <= j < ms.len(),
        ms[j].0 == 1,
    ensures
        decoded_gama_offsets(ms).contains(((ms[j].1 - 8) as u64)),
    decreases ms.len(),
{
    if j == 0 {
        assert(decoded_gama_offsets(ms)[0] == (ms[0].1 - 8) as u64);
    } else {
        let rest = ms.drop_first();
        assert(rest[j - 1] == ms[j]);
        lemma_gama_offsets_complete(rest, j - 1);
        let i = choose|i: int|
            0 <= i < decoded_gama_offsets(rest).len() && decoded_gama_offsets(rest)[i] == ((ms[j].1
                - 8) as u64);
        if ms[0].0 == 1 {
            assert(decoded_gama_offsets(ms)[i + 1] == (ms[j].1 - 8) as u64);
        } else {
            assert(decoded_gama_offsets(ms)[i] == (ms[j].1 - 8) as u64);
        }
    }
}

/// A verified gamma record points at a `gama` match whose size field decodes
/// as 12 — unless it was already verified before the fold.
pub proof fn lemma_decoded_gama_src(b: Seq<u8>, ms: Seq<(int, int)>, g0: GamaAtomView)
    ensures
        decoded_gama(b, ms, g0).matched ==> ((g0.matched && decoded_gama(
            b,
            ms,
            g0,
        ).the_actual_gama_offset == g0.the_actual_gama_offset && decoded_gama(b, ms, g0).gama_value
            == g0.gama_value) || exists|k: int|
            0 <= k < ms.len() && #[trigger] ms[k].0 == 1 && decoded_gama(
                b,
                ms,
                g0,
            ).the_actual_gama_offset == ((ms[k].1 - 8) as u64) && be_u32_at(b, ms[k].1 - 8) == 12
                && decoded_gama(b, ms, g0).gama_value == be_u32_at(b, ms[k].1)),
    decreases ms.len(),
{
    if ms.len() > 0 {
        let g1 = gama_step(b, ms[0], g0);
        let rest = ms.drop_first();
        lemma_decoded_gama_src(b, rest, g1);
        let d = decoded_gama(b, ms, g0);
        if d.matched {
            if g1.matched && d.the_actual_gama_offset == g1.the_actual_gama_offset && d.gama_value
                == g1.gama_value {
                if ms[0].0 == 1 && be_u32_at(b, ms[0].1 - 8) == 12 {
                    assert(ms[0].0 == 1 && d.the_actual_gama_offset == ((ms[0].1 - 8) as u64)
                        && be_u32_at(b, ms[0].1 - 8) == 12 && d.gama_value == be_u32_at(
                        b,
                        ms[0].1,
                    ));
                } else {
                    assert(g1.matched == g0.matched && g1.the_actual_gama_offset
                        == g0.the_actual_gama_offset && g1.gama_value == g0.gama_value);
                }
            } else {
                let k = choose|k: int|
                    0 <= k < rest.len() && #[trigger] rest[k].0 == 1 && decoded_gama(
                        b,
                        rest,
                        g1,
                    ).the_actual_gama_offset == ((rest[k].1 - 8) as u64) && be_u32_at(
                        b,
                        rest[k].1 - 8,
                    ) == 12 && decoded_gama(b, rest, g1).gama_value == be_u32_at(b, rest[k].1);
                assert(ms[k + 1] == rest[k]);
                assert(ms[k + 1].0 == 1 && d.the_actual_gama_offset == ((ms[k + 1].1 - 8) as u64)
                    && be_u32_at(b, ms[k + 1].1 - 8) == 12 && d.gama_value == be_u32_at(
                    b,
                    ms[k + 1].1,
                ));
            }
        }
    }
}

/// Two streams whose `gama` size fields agree verify the same candidates:
/// the folds agree on whether a gamma atom matched and where.
pub proof fn lemma_decoded_gama_parallel(
    b: Seq<u8>,
    b2: Seq<u8>,
    ms: Seq<(int, int)>,
    g0: GamaAtomView,
    g02: GamaAtomView,
)
    requires
        g0.matched == g02.matched,
        g0.the_actual_gama_offset == g02.the_actual_gama_offset,
        forall|k: int|
            0 <= k < ms.len() && (#[trigger] ms[k]).0 == 1 ==> be_u32_at(b, ms[k].1 - 8)
                == be_u32_at(b2, ms[k].1 - 8),
    ensures
        decoded_gama(b, ms, g0).matched == decoded_gama(b2, ms, g02).matched,
        decoded_gama(b, ms, g0).the_actual_gama_offset == decoded_gama(
            b2,
            ms,
            g02,
        ).the_actual_gama_offset,
    decreases ms.len(),
{
    if ms.len() > 0 {
        let g1 = gama_step(b, ms[0], g0);
        let g12 = gama_step(b2, ms[0], g02);
        let rest = ms.drop_first();
        assert(g1.matched == g12.matched && g1.the_actual_gama_offset
            == g12.the_actual_gama_offset);
        assert forall|k: int|
            0 <= k < rest.len() && (#[trigger] rest[k]).0 == 1 implies be_u32_at(
            b,
            rest[k].1 - 8,
        ) == be_u32_at(b2, rest[k].1 - 8) by {
            assert(rest[k] == ms[k + 1]);
        }
        lemma_decoded_gama_parallel(b, b2, rest, g1, g12);
    }
}

/// After a decode pass whose color atom matched, every encode target range
/// lies inside the stream: encoding cannot fail.
pub proof fn lemma_decode_ranges_ok(b: Seq<u8>, p: u8, t: u8, m: u8, g: Option<u32>)
    requires
        b.len() <= usize::MAX,
        decode_spec(b) is Ok,
        (decode_spec(b)->Ok_0).colr_atom.matched,
    ensures
        encode_ranges_ok(b, decode_spec(b)->Ok_0, g),
        encode_spec(b, decode_spec(b)->Ok_0, p, t, m, g) is Ok,
{
    let v = decode_spec(b)->Ok_0;
    let ms = all_matches(b);
    lemma_matches_from_props(b, 0);
    lemma_fold_ok_iff(b, ms, VideoView::empty());
    lemma_fold_characterization(b, ms, VideoView::empty());
    // The color atom comes from the last colr match, whose fields fit.
    lemma_decoded_colr_last(b, ms, ColrAtom::empty());
    lemma_last_colr_in(ms);
    let e_c = last_colr_end(ms)->Some_0;
    assert(ms.contains((0int, e_c)));
    let kc = choose|kc: int| 0 <= kc < ms.len() && ms[kc] == (0int, e_c);
    assert(match_ok(b, ms[kc]));
    assert(colr_ok(b, e_c));
    assert(v.colr_atom.offset == (e_c - 8) as u64);
    assert(v.colr_atom.offset + 18 <= b.len());
    // Every frame comes from a frame match, whose fields fit.
    lemma_decoded_frames_ends(b, ms);
    assert forall|k: int| 0 <= k < v.frames.len() implies (#[trigger] v.frames[k].offset) + 25
        <= b.len() by {
        lemma_frame_ends_props(b, ms);
        let e = frame_ends(ms)[k];
        assert(v.frames[k] == frame_of(b, e));
        assert(ms.contains((2int, e)));
        let kf = choose|kf: int| 0 <= kf < ms.len() && ms[kf] == (2int, e);
        assert(match_ok(b, ms[kf]));
        assert(frame_ok(b, e));
        assert(v.frames[k].offset == (e - 8) as u64);
    }
    // A verified gamma record points at a gama match with size 12, whose
    // payload fits.
    if gamma_write_applies(v, g) {
        lemma_decoded_gama_src(b, ms, GamaAtomView::empty());
        let kg = choose|kg: int|
            0 <= kg < ms.len() && #[trigger] ms[kg].0 == 1 && v.gama_atom.the_actual_gama_offset
                == ((ms[kg].1 - 8) as u64) && be_u32_at(b, ms[kg].1 - 8) == 12;
        assert(match_ok(b, ms[kg]));
        assert(gama_ok(b, ms[kg].1));
        assert(ms[kg].1 + 4 <= b.len());
        assert(tag_match_at(b, ms[kg].0, ms[kg].1));
        assert(v.gama_atom.the_actual_gama_offset + 12 <= b.len());
    }
}

/// An unmatched gamma record makes encoding ignore the target gamma value
/// entirely: the result is byte for byte the result of asking for none.
pub proof fn lemma_encode_ignores_gamma_when_unmatched(
    b: Seq<u8>,
    v: VideoView,
    p: u8,
    t: u8,
    m: u8,
    g: Option<u32>,
)
    requires
        !v.gama_atom.matched,
    ensures
        encode_spec(b, v, p, t, m, g) == encode_spec(b, v, p, t, m, None::<u32>),
{
    assert(!gamma_write_applies(v, g));
    assert(!gamma_write_applies(v, None::<u32>));
    assert(encode_ranges_ok(b, v, g) == encode_ranges_ok(b, v, None::<u32>));
}

/// Encoding never changes the stream's length.
pub proof fn lemma_encode_preserves_len(b: Seq<u8>, v: VideoView, p: u8, t: u8, m: u8, g: Option<
    u32,
>)
    requires
        encode_spec(b, v, p, t, m, g) is Ok,
    ensures
        (encode_spec(b, v, p, t, m, g)->Ok_0).len() == b.len(),
{
    let b1 = write_bytes(b, v.colr_atom.offset + 12, colr_patch(p, t, m));
    lemma_frame_writes_len(b1, v.frames, p, t, m);
}

/// Position `i` lies in the write region of frame `j`.
pub open spec fn in_frame_region(frames: Seq<ProResFrame>, j: int, i: int) -> bool {
    frames[j].offset + 22 <= i < frames[j].offset + 25
}

/// A byte no frame write covers is kept.
pub proof fn lemma_frame_writes_untouched(
    b: Seq<u8>,
    frames: Seq<ProResFrame>,
    p: u8,
    t: u8,
    m: u8,
    i: int,
)
    requires
        0 <= i < b.len(),
        forall|j: int| 0 <= j < frames.len() ==> !in_frame_region(frames, j, i),
    ensures
        frame_writes(b, frames, p, t, m)[i] == b[i],
    decreases frames.len(),
{
    if frames.len() > 0 {
        let b1 = write_bytes(b, frames[0].offset + 22, frame_patch(p, t, m));
        assert(!in_frame_region(frames, 0, i));
        assert(b1[i] == b[i]);
        assert forall|j: int| 0 <= j < frames.drop_first().len() implies !in_frame_region(
            frames.drop_first(),
            j,
            i,
        ) by {
            assert(frames.drop_first()[j] == frames[j + 1]);
            assert(!in_frame_region(frames, j + 1, i));
        }
        lemma_frame_writes_untouched(b1, frames.drop_first(), p, t, m, i);
    }
}

/// The byte frame `j` writes at `i` survives when no later frame write
/// covers `i`.
pub proof fn lemma_frame_writes_value(
    b: Seq<u8>,
    frames: Seq<ProResFrame>,
    p: u8,
    t: u8,
    m: u8,
    i: int,
    j: int,
)
    requires
        0 <= i < b.len(),
        0 <= j < frames.len(),
        in_frame_region(frames, j, i),
        forall|j2: int| j < j2 < frames.len() ==> !in_frame_region(frames, j2, i),
    ensures
        frame_writes(b, frames, p, t, m)[i] == frame_patch(p, t, m)[i - (frames[j].offset + 22)],
    decreases frames.len(),
{
    let b1 = write_bytes(b, frames[0].offset + 22, frame_patch(p, t, m));
    if j == 0 {
        assert(b1[i] == frame_patch(p, t, m)[i - (frames[0].offset + 22)]);
        assert forall|j2: int| 0 <= j2 < frames.drop_first().len() implies !in_frame_region(
            frames.drop_first(),
            j2,
            i,
        ) by {
            assert(frames.drop_first()[j2] == frames[j2 + 1]);
            assert(!in_frame_region(frames, j2 + 1, i));
        }
        lemma_frame_writes_untouched(b1, frames.drop_first(), p, t, m, i);
    } else {
        assert(frames.drop_first()[j - 1] == frames[j]);
        assert forall|j2: int| j - 1 < j2 < frames.drop_first().len() implies !in_frame_region(
            frames.drop_first(),
            j2,
            i,
        ) by {
            assert(frames.drop_first()[j2] == frames[j2 + 1]);
            assert(!in_frame_region(frames, j2 + 1, i));
        }
        lemma_frame_writes_value(b1, frames.drop_first(), p, t, m, i, j - 1);
    }
}

/// Two half-open ranges do not meet.
pub open spec fn ranges_disjoint(a1: int, a2: int, b1: int, b2: int) -> bool {
    a2 <= b1 || b2 <= a1
}

/// The patch writes stay clear of everything a re-decode reads back: no
/// frame write and no gamma write touches the color atom's index fields or
/// any gamma candidate's size field, and the gamma write touches no frame's
/// color fields.  Real container files satisfy this: their records do not
/// overlap.
pub open spec fn patch_preserves_structure(v: VideoView, g: Option<u32>) -> bool {
    let co = v.colr_atom.offset as int;
    let vo = v.gama_atom.the_actual_gama_offset as int;
    &&& forall|k: int|
        0 <= k < v.frames.len() ==> ranges_disjoint(
            (#[trigger] v.frames[k].offset) + 22,
            v.frames[k].offset + 25,
            co + 12,
            co + 18,
        )
    &&& forall|j: int|
        0 <= j < v.gama_atom.offsets.len() ==> ranges_disjoint(
            co + 12,
            co + 18,
            (#[trigger] v.gama_atom.offsets[j]) as int,
            v.gama_atom.offsets[j] + 4,
        )
    &&& forall|j: int, k: int|
        0 <= j < v.gama_atom.offsets.len() && 0 <= k < v.frames.len() ==> ranges_disjoint(
            (#[trigger] v.frames[k].offset) + 22,
            v.frames[k].offset + 25,
            (#[trigger] v.gama_atom.offsets[j]) as int,
            v.gama_atom.offsets[j] + 4,
        )
    &&& gamma_write_applies(v, g) ==> {
        &&& ranges_disjoint(vo + 8, vo + 12, co + 12, co + 18)
        &&& forall|k: int|
            0 <= k < v.frames.len() ==> ranges_disjoint(
                vo + 8,
                vo + 12,
                (#[trigger] v.frames[k].offset) + 22,
                v.frames[k].offset + 25,
            )
        &&& forall|j: int|
            0 <= j < v.gama_atom.offsets.len() ==> ranges_disjoint(
                vo + 8,
                vo + 12,
                (#[trigger] v.gama_atom.offsets[j]) as int,
                v.gama_atom.offsets[j] + 4,
            )
    }
}

/// Decode, patch, decode again: the patched stream has the same length,
/// decodes without error, its color atom sits where it was, and the color
/// fields — the atom's three indices and every frame's three bytes — hold
/// exactly the written values.  When the gamma write ran, the re-decoded
/// gamma record is verified at the same offset and carries the written
/// value.
///
/// The premises rule out degenerate streams: the patch must not create or
/// destroy tag occurrences, and the write regions must not overlap what a
/// re-decode reads back (see [`patch_preserves_structure`]).
pub proof fn lemma_patch_round_trip(b: Seq<u8>, p: u8, t: u8, m: u8, g: Option<u32>)
    requires
        b.len() <= usize::MAX,
        decode_spec(b) is Ok,
        (decode_spec(b)->Ok_0).colr_atom.matched,
        patch_preserves_structure(decode_spec(b)->Ok_0, g),
        all_matches(encode_spec(b, decode_spec(b)->Ok_0, p, t, m, g)->Ok_0) == all_matches(b),
    ensures
        ({
            let v = decode_spec(b)->Ok_0;
            let enc = encode_spec(b, v, p, t, m, g);
            &&& enc is Ok
            &&& (enc->Ok_0).len() == b.len()
            &&& decode_spec(enc->Ok_0) is Ok
            &&& {
                let v2 = decode_spec(enc->Ok_0)->Ok_0;
                &&& v2.colr_atom.matched
                &&& v2.colr_atom.offset == v.colr_atom.offset
                &&& v2.colr_atom.primary_index == p as u16
                &&& v2.colr_atom.transfer_function_index == t as u16
                &&& v2.colr_atom.matrix_index == m as u16
                &&& v2.frames.len() == v.frames.len()
                &&& forall|k: int|
                    0 <= k < v2.frames.len() ==> {
                        &&& (#[trigger] v2.frames[k]).offset == v.frames[k].offset
                        &&& v2.frames[k].color_primaries == p
                        &&& v2.frames[k].transfer_characteristic == t
                        &&& v2.frames[k].matrix_coefficients == m
                    }
                &&& gamma_write_applies(v, g) ==> {
                    &&& v2.gama_atom.matched
                    &&& v2.gama_atom.the_actual_gama_offset == v.gama_atom.the_actual_gama_offset
                    &&& v2.gama_atom.gama_value == g->0
                }
            }
        }),
{
    let v = decode_spec(b)->Ok_0;
    let ms = all_matches(b);
    let empty = VideoView::empty();
    lemma_matches_from_props(b, 0);
    lemma_fold_ok_iff(b, ms, empty);
    lemma_fold_characterization(b, ms, empty);
    assert(v.frames == decoded_frames(b, ms)) by {
        assert(empty.frames + decoded_frames(b, ms) =~= decoded_frames(b, ms));
    }
    assert(v.gama_atom.offsets == decoded_gama_offsets(ms)) by {
        assert(empty.gama_atom.offsets + decoded_gama_offsets(ms) =~= decoded_gama_offsets(ms));
    }
    lemma_decode_ranges_ok(b, p, t, m, g);
    let enc = encode_spec(b, v, p, t, m, g);
    let b2 = enc->Ok_0;
    lemma_encode_preserves_len(b, v, p, t, m, g);
    let patch = colr_patch(p, t, m);
    let b1 = write_bytes(b, v.colr_atom.offset + 12, patch);
    let fw = frame_writes(b1, v.frames, p, t, m);
    lemma_frame_writes_len(b1, v.frames, p, t, m);
    let gapp = gamma_write_applies(v, g);
    let vo = v.gama_atom.the_actual_gama_offset as int;
    assert(b2 == if gapp {
        write_bytes(fw, vo + 8, be_u32_bytes(g->0))
    } else {
        fw
    });
    // The color atom comes from the last colr match.
    lemma_decoded_colr_last(b, ms, ColrAtom::empty());
    lemma_last_colr_in(ms);
    let e_c = last_colr_end(ms)->Some_0;
    let kc = choose|kc: int| 0 <= kc < ms.len() && ms[kc] == (0int, e_c);
    assert(match_ok(b, ms[kc]));
    assert(colr_ok(b, e_c));
    let co = v.colr_atom.offset as int;
    assert(co == e_c - 8);
    // Frame k of the model sits at frame match end k.
    lemma_decoded_frames_ends(b, ms);
    lemma_frame_ends_props(b, ms);
    let fe = frame_ends(ms);
    assert forall|k: int| 0 <= k < v.frames.len() implies (#[trigger] v.frames[k]).offset as int
        == fe[k] - 8 && frame_ok(b, fe[k]) by {
        assert(v.frames[k] == frame_of(b, fe[k]));
        assert(ms.contains((2int, fe[k])));
        let kf = choose|kf: int| 0 <= kf < ms.len() && ms[kf] == (2int, fe[k]);
        assert(match_ok(b, ms[kf]));
    }
    // Bytes the re-decode reads: the color atom's index fields hold the
    // patch; every gamma candidate's size field is kept.
    assert forall|i: int| co + 12 <= i < co + 18 implies b2[i] == patch[i - (co + 12)] by {
        assert(b1[i] == patch[i - (co + 12)]);
        assert forall|j: int| 0 <= j < v.frames.len() implies !in_frame_region(v.frames, j, i) by {
            assert(ranges_disjoint(
                v.frames[j].offset + 22,
                v.frames[j].offset + 25,
                co + 12,
                co + 18,
            ));
        }
        lemma_frame_writes_untouched(b1, v.frames, p, t, m, i);
    }
    // No write touches a gamma candidate's size field, so verification of
    // each candidate comes out the same.
    lemma_matches_from_props(b2, 0);
    lemma_fold_ok_iff(b2, ms, empty);
    assert forall|k: int|
        0 <= k < ms.len() && (#[trigger] ms[k]).0 == 1 implies be_u32_at(b2, ms[k].1 - 8)
        == be_u32_at(b, ms[k].1 - 8) by {
        assert(match_ok(b, ms[k]));
        {
            let e = ms[k].1;
            lemma_gama_offsets_complete(ms, k);
            let j = choose|j: int|
                0 <= j < decoded_gama_offsets(ms).len() && decoded_gama_offsets(ms)[j] == ((e
                    - 8) as u64);
            assert(tag_match_at(b, ms[k].0, e));
            assert(v.gama_atom.offsets[j] as int == e - 8);
            assert forall|i: int| e - 8 <= i < e - 4 implies b2[i] == b[i] by {
                assert(v.gama_atom.offsets[j] as int <= i < v.gama_atom.offsets[j] + 4);
                assert(ranges_disjoint(
                    co + 12,
                    co + 18,
                    v.gama_atom.offsets[j] as int,
                    v.gama_atom.offsets[j] + 4,
                ));
                assert(b1[i] == b[i]);
                assert forall|k2: int| 0 <= k2 < v.frames.len() implies !in_frame_region(
                    v.frames,
                    k2,
                    i,
                ) by {
                    assert(ranges_disjoint(
                        v.frames[k2].offset + 22,
                        v.frames[k2].offset + 25,
                        v.gama_atom.offsets[j] as int,
                        v.gama_atom.offsets[j] + 4,
                    ));
                }
                lemma_frame_writes_untouched(b1, v.frames, p, t, m, i);
                if gapp {
                    assert(ranges_disjoint(
                        vo + 8,
                        vo + 12,
                        v.gama_atom.offsets[j] as int,
                        v.gama_atom.offsets[j] + 4,
                    ));
                }
            }
            assert(be_u32_at(b2, e - 8) == be_u32_at(b, e - 8));
        }
    }
    // The same matches are found, and each still decodes in bounds.
    assert forall|k: int| 0 <= k < ms.len() implies match_ok(b2, #[trigger] ms[k]) by {
        assert(match_ok(b, ms[k]));
        if ms[k].0 == 1 {
            assert(be_u32_at(b2, ms[k].1 - 8) == be_u32_at(b, ms[k].1 - 8));
        }
    }
    assert(decode_spec(b2) is Ok);
    let v2 = decode_spec(b2)->Ok_0;
    lemma_fold_characterization(b2, ms, empty);
    assert(v2.frames == decoded_frames(b2, ms)) by {
        assert(empty.frames + decoded_frames(b2, ms) =~= decoded_frames(b2, ms));
    }
    // The re-decoded color atom: same last match, patched fields.
    lemma_decoded_colr_last(b2, ms, ColrAtom::empty());
    assert(v2.colr_atom == colr_of(b2, e_c));
    assert(b2[e_c + 4] == 0 && b2[e_c + 5] == p && b2[e_c + 6] == 0 && b2[e_c + 7] == t && b2[e_c
        + 8] == 0 && b2[e_c + 9] == m) by {
        assert(patch[0] == 0u8 && patch[1] == p && patch[2] == 0u8 && patch[3] == t && patch[4]
            == 0u8 && patch[5] == m);
        assert(b2[co + 12] == patch[0] && b2[co + 13] == patch[1] && b2[co + 14] == patch[2] && b2[
            co + 15] == patch[3] && b2[co + 16] == patch[4] && b2[co + 17] == patch[5]);
    }
    assert(v2.colr_atom.primary_index == p as u16);
    assert(v2.colr_atom.transfer_function_index == t as u16);
    assert(v2.colr_atom.matrix_index == m as u16);
    // The re-decoded frames: same ends, patched color fields.
    lemma_decoded_frames_ends(b2, ms);
    assert(v2.frames.len() == v.frames.len());
    assert forall|k: int| 0 <= k < v2.frames.len() implies (#[trigger] v2.frames[k]).offset
        == v.frames[k].offset && v2.frames[k].color_primaries == p
        && v2.frames[k].transfer_characteristic == t && v2.frames[k].matrix_coefficients == m by {
        let e = fe[k];
        assert(v2.frames[k] == frame_of(b2, e));
        assert(v.frames[k] == frame_of(b, e));
        assert forall|i: int| e + 14 <= i < e + 17 implies b2[i] == frame_patch(p, t, m)[i - (e
            + 14)] by {
            assert(in_frame_region(v.frames, k, i));
            assert forall|k2: int| k < k2 < v.frames.len() implies !in_frame_region(
                v.frames,
                k2,
                i,
            ) by {
                assert(ms.contains((2int, fe[k])));
                assert(ms.contains((2int, fe[k2])));
                let ka = choose|ka: int| 0 <= ka < ms.len() && ms[ka] == (2int, fe[k]);
                let kb = choose|kb: int| 0 <= kb < ms.len() && ms[kb] == (2int, fe[k2]);
                lemma_no_overlap(b, 2, fe[k], 2, fe[k2]);
                assert(v.frames[k2].offset as int == fe[k2] - 8);
            }
            lemma_frame_writes_value(b1, v.frames, p, t, m, i, k);
            if gapp {
                assert(ranges_disjoint(vo + 8, vo + 12, v.frames[k].offset + 22, v.frames[k].offset
                    + 25));
            }
        }
        assert(frame_patch(p, t, m)[0] == p && frame_patch(p, t, m)[1] == t && frame_patch(
            p,
            t,
            m,
        )[2] == m);
        assert(b2[e + 14] == p && b2[e + 15] == t && b2[e + 16] == m);
    }
    // The re-decoded gamma record: the same candidate verifies, and its
    // payload now holds the written value.
    if gapp {
        let gv = g->0;
        assert forall|k: int|
            0 <= k < ms.len() && (#[trigger] ms[k]).0 == 1 implies be_u32_at(b, ms[k].1 - 8)
            == be_u32_at(b2, ms[k].1 - 8) by {
            assert(be_u32_at(b2, ms[k].1 - 8) == be_u32_at(b, ms[k].1 - 8));
        }
        lemma_decoded_gama_parallel(b, b2, ms, GamaAtomView::empty(), GamaAtomView::empty());
        assert(v.gama_atom == decoded_gama(b, ms, GamaAtomView::empty()));
        assert(v2.gama_atom == decoded_gama(b2, ms, GamaAtomView::empty()));
        assert(v2.gama_atom.matched);
        assert(v2.gama_atom.the_actual_gama_offset == v.gama_atom.the_actual_gama_offset);
        lemma_decoded_gama_src(b2, ms, GamaAtomView::empty());
        let kg = choose|kg: int|
            0 <= kg < ms.len() && #[trigger] ms[kg].0 == 1 && v2.gama_atom.the_actual_gama_offset
                == ((ms[kg].1 - 8) as u64) && be_u32_at(b2, ms[kg].1 - 8) == 12
                && v2.gama_atom.gama_value == be_u32_at(b2, ms[kg].1);
        assert(match_ok(b2, ms[kg]));
        assert(tag_match_at(b2, ms[kg].0, ms[kg].1));
        assert(ms[kg].1 == vo + 8);
        assert(vo + 12 <= b.len());
        assert(b2[vo + 8] == be_u32_bytes(gv)[0] && b2[vo + 9] == be_u32_bytes(gv)[1] && b2[vo
            + 10] == be_u32_bytes(gv)[2] && b2[vo + 11] == be_u32_bytes(gv)[3]);
        lemma_be_u32_round_trip(b2, vo + 8, gv);
        assert(v2.gama_atom.gama_value == gv);
    }
}

} // verus!
