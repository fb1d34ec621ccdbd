//! The decoded video model: one color atom, one optional gamma atom, and the
//! ordered list of ProRes frame headers.

use vstd::prelude::*;

verus! {

/// Container-level color parameter record (`colr` atom).
///
/// The tag occupies `offset + 4 .. offset + 8`; the three index fields are
/// 2-byte big-endian values at `offset + 12`, `offset + 14` and `offset + 16`.
#[derive(Clone, Copy, Debug, PartialEq, Eq)]
pub struct ColrAtom {
    pub size: u32,
    pub offset: u64,
    pub primary_index: u16,
    pub transfer_function_index: u16,
    pub matrix_index: u16,
    pub matched: bool,
}

impl ColrAtom {
    /// The all-zero record used before any `colr` tag has been matched.
    pub open spec fn empty() -> ColrAtom {
        ColrAtom {
            size: 0,
            offset: 0,
            primary_index: 0,
            transfer_function_index: 0,
            matrix_index: 0,
            matched: false,
        }
    }
}

/// Optional gamma record (`gama` atom).
///
/// `offsets` records the atom-start offset of every raw tag match, false
/// positives included; a candidate is genuine only when the 4 bytes at its
/// start decode as big-endian 12, the fixed total size of a gamma atom.
#[derive(Clone, Debug, PartialEq, Eq)]
pub struct GamaAtom {
    pub size: u32,
    pub offsets: Vec<u64>,
    pub the_actual_gama_offset: u64,
    pub gama_value: u32,
    pub matched: bool,
}

/// Mathematical value of a [`GamaAtom`].
pub ghost struct GamaAtomView {
    pub size: u32,
    pub offsets: Seq<u64>,
    pub the_actual_gama_offset: u64,
    pub gama_value: u32,
    pub matched: bool,
}

impl View for GamaAtom {
    type V = GamaAtomView;

    open spec fn view(&self) -> GamaAtomView {
        GamaAtomView {
            size: self.size,
            offsets: self.offsets@,
            the_actual_gama_offset: self.the_actual_gama_offset,
            gama_value: self.gama_value,
            matched: self.matched,
        }
    }
}

impl GamaAtomView {
    /// The record before any `gama` tag has been matched.
    pub open spec fn empty() -> GamaAtomView {
        GamaAtomView {
            size: 0,
            offsets: Seq::empty(),
            the_actual_gama_offset: 0,
            gama_value: 0,
            matched: false,
        }
    }
}

/// One ProRes frame header (`icpf` tag).
///
/// The tag occupies `offset + 4 .. offset + 8`; the header-size field is at
/// `offset + 8`, and the three 1-byte color fields at `offset + 22`,
/// `offset + 23` and `offset + 24`.
#[derive(Clone, Copy, Debug, PartialEq, Eq)]
pub struct ProResFrame {
    pub frame_size: u32,
    pub offset: u64,
    pub frame_header_size: u16,
    pub color_primaries: u8,
    pub transfer_characteristic: u8,
    pub matrix_coefficients: u8,
}

impl ProResFrame {
    /// A zeroed frame record.
    pub fn new() -> (r: ProResFrame)
        ensures
            r == (ProResFrame {
                frame_size: 0u32,
                offset: 0u64,
                frame_header_size: 0u16,
                color_primaries: 0u8,
                transfer_characteristic: 0u8,
                matrix_coefficients: 0u8,
            }),
    {
        ProResFrame {
            frame_size: 0,
            offset: 0,
            frame_header_size: 0,
            color_primaries: 0,
            transfer_characteristic: 0,
            matrix_coefficients: 0,
        }
    }
}

/// Snapshot of everything one decode pass extracts from a file.
#[derive(Clone, Debug, PartialEq, Eq)]
pub struct Video {
    pub colr_atom: ColrAtom,
    pub gama_atom: GamaAtom,
    pub frames: Vec<ProResFrame>,
    pub frame_count: i64,
}

/// Mathematical value of a [`Video`]: the derived frame count is left out and
/// tied to the frame list by [`Video::wf`].
pub ghost struct VideoView {
    pub colr_atom: ColrAtom,
    pub gama_atom: GamaAtomView,
    pub frames: Seq<ProResFrame>,
}

impl View for Video {
    type V = VideoView;

    open spec fn view(&self) -> VideoView {
        VideoView { colr_atom: self.colr_atom, gama_atom: self.gama_atom@, frames: self.frames@ }
    }
}

impl VideoView {
    /// The model before any decode pass.
    pub open spec fn empty() -> VideoView {
        VideoView {
            colr_atom: ColrAtom::empty(),
            gama_atom: GamaAtomView::empty(),
            frames: Seq::empty(),
        }
    }
}

impl Video {
    /// The derived frame count agrees with the frame list.
    pub open spec fn wf(&self) -> bool {
        self.frame_count == self.frames@.len()
    }
}

impl Default for Video {
    /// A fresh, empty model, ready for one decode pass.
    fn default() -> (r: Video)
        ensures
            r@ == VideoView::empty(),
            r.wf(),
    {
        let r = Video {
            colr_atom: ColrAtom {
                size: 0,
                offset: 0,
                primary_index: 0,
                transfer_function_index: 0,
                matrix_index: 0,
                matched: false,
            },
            gama_atom: GamaAtom {
                size: 0,
                offsets: Vec::new(),
                the_actual_gama_offset: 0,
                gama_value: 0,
                matched: false,
            },
            frames: Vec::new(),
            frame_count: 0,
        };
        proof {
            assert(r@.gama_atom =~= GamaAtomView::empty());
            assert(r@ =~= VideoView::empty());
        }
        r
    }
}

} // verus!
