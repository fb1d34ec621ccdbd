//! Encoding: in-place patching of the color fields located by a decode pass.
//!
//! [`encode_spec`] pins down every byte of the patched stream.  The writes
//! never change the stream's length; when anything is wrong — the color atom
//! was never matched, or a target range falls outside the stream — nothing
//! is written at all.

use vstd::prelude::*;

use crate::bytes::be_u32_bytes;
use crate::model::{ProResFrame, Video, VideoView};

verus! {

/// Why an encode pass failed.
#[derive(Clone, Copy, Debug, PartialEq, Eq)]
pub enum EncodeError {
    /// The model's color atom was never matched; patching would write at an
    /// unrelated position.
    MissingColrAtom,
    /// A target field lies beyond the end of the stream.
    RangeOutOfBounds,
}

/// `b` with `data` laid over it starting at `off`.
pub open spec fn write_bytes(b: Seq<u8>, off: int, data: Seq<u8>) -> Seq<u8> {
    Seq::new(b.len(), |i: int| if off <= i < off + data.len() { data[i - off] } else { b[i] })
}

/// The 6 bytes written into the color atom: three 2-byte big-endian index
/// fields whose high bytes are zero.
pub open spec fn colr_patch(p: u8, t: u8, m: u8) -> Seq<u8> {
    seq![0u8, p, 0u8, t, 0u8, m]
}

/// The 3 raw bytes written into each ProRes frame header.
pub open spec fn frame_patch(p: u8, t: u8, m: u8) -> Seq<u8> {
    seq![p, t, m]
}

/// The gamma step runs only when a gamma atom was verified during decode and
/// the caller supplied a target value.
pub open spec fn gamma_write_applies(v: VideoView, gama: Option<u32>) -> bool {
    v.gama_atom.matched && v.gama_atom.the_actual_gama_offset != 0 && gama is Some
}

/// Every write lands inside the stream.
pub open spec fn encode_ranges_ok(b: Seq<u8>, v: VideoView, gama: Option<u32>) -> bool {
    &&& v.colr_atom.offset + 18 <= b.len()
    &&& forall|k: int| 0 <= k < v.frames.len() ==> (#[trigger] v.frames[k].offset) + 25 <= b.len()
    &&& gamma_write_applies(v, gama) ==> v.gama_atom.the_actual_gama_offset + 12 <= b.len()
}

/// The frame writes, applied in list order.
pub open spec fn frame_writes(b: Seq<u8>, frames: Seq<ProResFrame>, p: u8, t: u8, m: u8) -> Seq<u8>
    decreases frames.len(),
{
    if frames.len() == 0 {
        b
    } else {
        frame_writes(
            write_bytes(b, frames[0].offset + 22, frame_patch(p, t, m)),
            frames.drop_first(),
            p,
            t,
            m,
        )
    }
}

/// What one encode pass yields: the color atom's index fields, every frame
/// header's color fields, and — only when [`gamma_write_applies`] — the
/// gamma atom's payload are overwritten; every other byte is kept.
pub open spec fn encode_spec(
    b: Seq<u8>,
    v: VideoView,
    p: u8,
    t: u8,
    m: u8,
    gama: Option<u32>,
) -> Result<Seq<u8>, EncodeError> {
    if !v.colr_atom.matched {
        Err(EncodeError::MissingColrAtom)
    } else if !encode_ranges_ok(b, v, gama) {
        Err(EncodeError::RangeOutOfBounds)
    } else {
        let b1 = write_bytes(b, v.colr_atom.offset + 12, colr_patch(p, t, m));
        let b2 = frame_writes(b1, v.frames, p, t, m);
        if gamma_write_applies(v, gama) {
            Ok(write_bytes(b2, v.gama_atom.the_actual_gama_offset + 8, be_u32_bytes(gama->0)))
        } else {
            Ok(b2)
        }
    }
}

/// The frame writes keep the stream's length.
pub proof fn lemma_frame_writes_len(b: Seq<u8>, frames: Seq<ProResFrame>, p: u8, t: u8, m: u8)
    ensures
        frame_writes(b, frames, p, t, m).len() == b.len(),
    decreases frames.len(),
{
    if frames.len() > 0 {
        lemma_frame_writes_len(
            write_bytes(b, frames[0].offset + 22, frame_patch(p, t, m)),
            frames.drop_first(),
            p,
            t,
            m,
        );
    }
}

/// Writes the color atom's three index fields, at 12 bytes into the atom.
fn patch_colr(bytes: &mut Vec<u8>, off: usize, p: u8, t: u8, m: u8)
    requires
        off + 18 <= old(bytes)@.len(),
    ensures
        final(bytes)@ == write_bytes(old(bytes)@, off + 12, colr_patch(p, t, m)),
{
    let _n: usize = bytes.len();
    bytes.set(off + 12, 0);
    bytes.set(off + 13, p);
    bytes.set(off + 14, 0);
    bytes.set(off + 15, t);
    bytes.set(off + 16, 0);
    bytes.set(off + 17, m);
    proof {
        let data = colr_patch(p, t, m);
        assert(data[0] == 0u8 && data[1] == p && data[2] == 0u8 && data[3] == t && data[4] == 0u8
            && data[5] == m);
        assert(bytes@ =~= write_bytes(old(bytes)@, off + 12, data));
    }
}

/// Writes one frame header's three 1-byte color fields, at 22 bytes into the
/// frame.
fn patch_frame(bytes: &mut Vec<u8>, off: usize, p: u8, t: u8, m: u8)
    requires
        off + 25 <= old(bytes)@.len(),
    ensures
        final(bytes)@ == write_bytes(old(bytes)@, off + 22, frame_patch(p, t, m)),
{
    let _n: usize = bytes.len();
    bytes.set(off + 22, p);
    bytes.set(off + 23, t);
    bytes.set(off + 24, m);
    proof {
        let data = frame_patch(p, t, m);
        assert(data[0] == p && data[1] == t && data[2] == m);
        assert(bytes@ =~= write_bytes(old(bytes)@, off + 22, data));
    }
}

/// Writes the gamma atom's 4-byte big-endian payload, at 8 bytes into the
/// atom.
fn patch_gamma(bytes: &mut Vec<u8>, off: usize, g: u32)
    requires
        off + 12 <= old(bytes)@.len(),
    ensures
        final(bytes)@ == write_bytes(old(bytes)@, off + 8, be_u32_bytes(g)),
{
    let _n: usize = bytes.len();
    bytes.set(off + 8, (g / 0x1000000) as u8);
    bytes.set(off + 9, ((g / 0x10000) % 0x100) as u8);
    bytes.set(off + 10, ((g / 0x100) % 0x100) as u8);
    bytes.set(off + 11, (g % 0x100) as u8);
    proof {
        let data = be_u32_bytes(g);
        assert(data[0] == (g / 0x1000000) as u8 && data[1] == ((g / 0x10000) % 0x100) as u8
            && data[2] == ((g / 0x100) % 0x100) as u8 && data[3] == (g % 0x100) as u8);
        assert(bytes@ =~= write_bytes(old(bytes)@, off + 8, data));
    }
}

impl Video {
    /// Patches the stream in place: the color atom's index fields, every
    /// frame header's color fields, and — when a gamma atom was verified and
    /// a target value is given — the gamma payload.
    ///
    /// The stream's length never changes.  If the color atom was never
    /// matched, or any target range falls outside the stream, the error says
    /// so and not a single byte is touched.
    pub fn encode(
        &self,
        bytes: &mut Vec<u8>,
        target_color_primaries: u8,
        target_transfer_functions: u8,
        target_matrix: u8,
        target_gama_value: Option<u32>,
    ) -> (r: Result<(), EncodeError>)
        ensures
            final(bytes)@.len() == old(bytes)@.len(),
            match r {
                Ok(()) => encode_spec(
                    old(bytes)@,
                    self@,
                    target_color_primaries,
                    target_transfer_functions,
                    target_matrix,
                    target_gama_value,
                ) == Ok::<Seq<u8>, EncodeError>(final(bytes)@),
                Err(e) => encode_spec(
                    old(bytes)@,
                    self@,
                    target_color_primaries,
                    target_transfer_functions,
                    target_matrix,
                    target_gama_value,
                ) == Err::<Seq<u8>, EncodeError>(e) && final(bytes)@ == old(bytes)@,
            },
    {
        let p = target_color_primaries;
        let t = target_transfer_functions;
        let m = target_matrix;
        if !self.colr_atom.matched {
            return Err(EncodeError::MissingColrAtom);
        }
        let n: usize = bytes.len();
        let n64: u64 = n as u64;
        // Validate every target range before touching anything.
        if !(n64 >= 18 && self.colr_atom.offset <= n64 - 18) {
            return Err(EncodeError::RangeOutOfBounds);
        }
        let mut i: usize = 0;
        while i < self.frames.len()
            invariant
                0 <= i <= self.frames@.len(),
                self.colr_atom.matched,
                bytes@ == old(bytes)@,
                n == bytes@.len(),
                n64 == n as u64,
                forall|j: int| 0 <= j < i ==> (#[trigger] self.frames@[j].offset) + 25 <= bytes@.len(),
            decreases self.frames@.len() - i,
        {
            let off = self.frames[i].offset;
            if !(n64 >= 25 && off <= n64 - 25) {
                proof {
                    assert(!encode_ranges_ok(bytes@, self@, target_gama_value));
                }
                return Err(EncodeError::RangeOutOfBounds);
            }
            i = i + 1;
        }
        let gamma_applies = self.gama_atom.matched && self.gama_atom.the_actual_gama_offset != 0
            && target_gama_value.is_some();
        if gamma_applies {
            if !(n64 >= 12 && self.gama_atom.the_actual_gama_offset <= n64 - 12) {
                return Err(EncodeError::RangeOutOfBounds);
            }
        }
        proof {
            assert(encode_ranges_ok(bytes@, self@, target_gama_value));
        }
        let ghost b0 = bytes@;
        // Color atom: three 2-byte big-endian index fields.
        proof {
            assert(self.colr_atom.offset as int + 18 <= n as int);
        }
        let co: usize = self.colr_atom.offset as usize;
        patch_colr(bytes, co, p, t, m);
        let ghost b1 = bytes@;
        proof {
            assert(b1 == write_bytes(b0, self.colr_atom.offset + 12, colr_patch(p, t, m)));
        }
        // Each ProRes frame: three raw bytes.
        let mut k: usize = 0;
        proof {
            assert(self@.frames.skip(0) =~= self@.frames);
        }
        while k < self.frames.len()
            invariant
                0 <= k <= self.frames@.len(),
                self.colr_atom.matched,
                b0 == old(bytes)@,
                n == b0.len(),
                encode_ranges_ok(b0, self@, target_gama_value),
                b1 == write_bytes(b0, self.colr_atom.offset + 12, colr_patch(p, t, m)),
                bytes@.len() == b1.len(),
                b1.len() == b0.len(),
                frame_writes(b1, self.frames@, p, t, m) == frame_writes(
                    bytes@,
                    self.frames@.skip(k as int),
                    p,
                    t,
                    m,
                ),
            decreases self.frames@.len() - k,
        {
            let ghost prev = bytes@;
            proof {
                assert(self.frames@.skip(k as int)[0] == self.frames@[k as int]);
                assert(self.frames@.skip(k as int).drop_first() =~= self.frames@.skip(k as int + 1));
                assert(encode_ranges_ok(b0, self@, target_gama_value));
                assert((self@.frames[k as int].offset) + 25 <= b0.len());
                assert(self.frames@[k as int].offset + 25 <= b0.len());
            }
            let off = self.frames[k].offset;
            proof {
                assert(off as int + 25 <= n as int);
            }
            let offu: usize = off as usize;
            patch_frame(bytes, offu, p, t, m);
            proof {
                assert(bytes@ == write_bytes(prev, self.frames@[k as int].offset + 22, frame_patch(
                    p,
                    t,
                    m,
                )));
                assert(frame_writes(prev, self.frames@.skip(k as int), p, t, m) == frame_writes(
                    bytes@,
                    self.frames@.skip(k as int + 1),
                    p,
                    t,
                    m,
                ));
            }
            k = k + 1;
        }
        proof {
            assert(self.frames@.skip(self.frames@.len() as int) =~= Seq::<ProResFrame>::empty());
            assert(bytes@ == frame_writes(b1, self.frames@, p, t, m));
        }
        // Gamma atom, only when it was verified and a target value is given.
        if gamma_applies {
            let g = target_gama_value.unwrap();
            proof {
                assert(self.gama_atom.the_actual_gama_offset as int + 12 <= n as int);
            }
            let vo: usize = self.gama_atom.the_actual_gama_offset as usize;
            patch_gamma(bytes, vo, g);
        }
        Ok(())
    }
}

} // verus!
