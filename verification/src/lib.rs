//! A byte-oriented, single-pass lossless compressor and decompressor in the
//! LZO1X family: greedy LZ77 match finding with byte-granular literal and
//! back-reference op-codes, and a bounds-checked decompressor that never
//! reads or writes outside the caller-supplied buffers.
//!
//! The meaning of a compressed stream is given by the specification decoder
//! in [`stream`]; the executable compressor and decompressor are verified
//! against it, so that decompressing what the compressor produced yields
//! exactly the original bytes.

pub mod error_code;
pub mod stream;
pub mod decompress;
pub mod compress;
pub mod context;

pub use error_code::ErrorCode;
pub use compress::Workspace;
pub use compress::WORKSPACE_ENTRIES;
pub use context::Context;
