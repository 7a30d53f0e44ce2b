//! A lossless byte-stream codec built from a reversible block transform,
//! a biased delta transform, and a frequency-ranked multi-layer
//! fixed-width prefix code with bit-level packing.

pub mod bits;
pub mod residual;
pub mod symbols;
pub mod layers;
pub mod codec;
pub mod bwt;
pub mod container;
pub mod pipeline;
pub mod state;

use vstd::prelude::*;

verus! {

/// Number of code layers produced by the allocator.
pub const LAYER_COUNT: usize = 7;

/// Maximum number of symbols admitted to one layer.
pub const LAYER_CAPACITY: usize = 8;

/// Width in bits of an intra-layer code.
pub const CODE_BITS: usize = 3;

/// Width in bits of a main-stream selector value.
pub const SELECTOR_BITS: usize = 3;

/// Bytes per assembled symbol.
pub const SYMBOL_BYTES: usize = 2;

/// Largest input length the codec accepts: it must fit the block
/// transform's signed 32-bit index arithmetic, and every bit position
/// computed while decoding must fit a 32-bit usize.
pub const MAX_INPUT_LEN: usize = 0x1FFF_FFFE;

/// Failure of an encode or decode call.
#[derive(Clone, Copy, Debug, PartialEq, Eq, Structural)]
pub enum CodecError {
    /// The input to encode held no bytes.
    EmptyInput,
    /// The input to encode was longer than `MAX_INPUT_LEN`.
    InputTooLong,
    /// The block transform reported a failure.
    TransformFailure,
    /// A container being decoded was malformed; the byte offset at which
    /// decoding failed is carried for diagnosis.
    CorruptContainer(usize),
}

} // verus!
