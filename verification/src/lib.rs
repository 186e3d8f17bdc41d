//! Verified building blocks of a WMA Standard (v1 / v2) audio codec.
//!
//! The library holds what can be decided over integers and bytes: container
//! and header parsing, bit-level I/O, canonical prefix codes, the wire form of
//! frames and blocks, band partitions, and the checks that guard the codec's
//! numeric stages. The numeric stages themselves work in floating point and
//! live around the library.
use vstd::prelude::*;
use vstd::string::*;

pub mod analysis;
pub mod asf;
pub mod asf_laws;
pub mod band_partition;
pub mod bands;
pub mod binary64;
pub mod bitio;
pub mod bits;
pub mod block;
pub mod channel_decision;
pub mod code_cost;
pub mod codebook;
pub mod coef_vlc;
pub mod common;
pub mod context;
pub mod decode;
pub mod dequant;
pub mod encode;
pub mod entropy_mode;
pub mod envelope_vlc;
pub mod escape;
pub mod exponent_bands;
pub mod exponent_laws;
pub mod frame;
pub mod frame_bits;
pub mod frame_encode;
pub mod gain_ladder;
pub mod header;
pub mod huffman;
pub mod huffman_tree;
pub mod lsp_analysis;
pub mod packet_bits;
pub mod packet_laws;
pub mod paircode;
pub mod qband;
pub mod reading_laws;
pub mod runlevel;
pub mod text;
pub mod wire_laws;
pub mod wire_tables;

pub use bitio::{BitReader, BitWriter, BitstreamEnd};
pub use block::BlockSize;
pub use header::{Version, WmaHeader};

verus! {

/// Errors of the header and block-size layer.
#[derive(Debug, Clone, PartialEq, Eq)]
pub enum Error {
    /// The operation is not available.
    NotImplemented,
    /// The container's codec-private data is shorter than its version needs.
    ExtradataTooShort {
        /// Bytes the version needs.
        expected: usize,
        /// Bytes the container holds.
        got: usize,
    },
    /// A container field that must not be zero was zero.
    InvalidContainerField {
        /// The field's name.
        field: &'static str,
    },
    /// A block size outside the five that the codec has.
    InvalidBlockSize {
        /// The size in samples.
        samples: u16,
    },
}

impl Error {
    /// What `message` says.
    pub open spec fn text(&self) -> Seq<char> {
        match self {
            Error::NotImplemented => "oxideav-wma: not implemented"@,
            Error::ExtradataTooShort { expected, got } => {
                "oxideav-wma: extradata too short (expected "@ + text::decimal(*expected as nat)
                    + " bytes, got "@ + text::decimal(*got as nat) + ")"@
            },
            Error::InvalidContainerField { field } => {
                "oxideav-wma: container field `"@ + field@ + "` was zero"@
            },
            Error::InvalidBlockSize { samples } => {
                "oxideav-wma: block size "@ + text::decimal(*samples as nat)
                    + " samples is not a member of the patent-disclosed set {256, 512, 1024, 2048, 4096}"@
            },
        }
    }

    /// A description for people.
    pub fn message(&self) -> (s: String)
        ensures
            s@ == self.text(),
    {
        match self {
            Error::NotImplemented => String::from_str("oxideav-wma: not implemented"),
            Error::ExtradataTooShort { expected, got } => {
                let mut s = String::from_str("oxideav-wma: extradata too short (expected ");
                text::append_decimal(&mut s, *expected as u64);
                s.append(" bytes, got ");
                text::append_decimal(&mut s, *got as u64);
                s.append(")");
                s
            },
            Error::InvalidContainerField { field } => {
                let mut s = String::from_str("oxideav-wma: container field `");
                s.append(field);
                s.append("` was zero");
                s
            },
            Error::InvalidBlockSize { samples } => {
                let mut s = String::from_str("oxideav-wma: block size ");
                text::append_decimal(&mut s, *samples as u64);
                s.append(
                    " samples is not a member of the patent-disclosed set {256, 512, 1024, 2048, 4096}",
                );
                s
            },
        }
    }
}

} // verus!
