//! In-place patcher for the color metadata of QuickTime/ProRes files.
//!
//! The library locates three kinds of tagged records inside an otherwise
//! unparsed byte stream — the container-level `colr` atom, the optional
//! `gama` atom, and the `icpf` header repeated in every ProRes frame —
//! decodes their fields, and patches the fixed-width value fields in place
//! without ever changing the file's length.

pub mod bytes;
pub mod decode;
pub mod encode;
pub mod laws;
pub mod model;
pub mod scan;
pub mod validate;

pub use crate::decode::{decode_from_matches, DecodeError};
pub use crate::encode::EncodeError;
pub use crate::model::{ColrAtom, GamaAtom, ProResFrame, Video};
pub use crate::scan::find_tag_matches;
pub use crate::validate::{
    color_primaries_value_check, get_color_primary_name, get_matrix_name,
    get_transfer_function_name, matrix_coefficients_value_check, parse_usize,
    transfer_characteristics_value_check, value_check,
};
