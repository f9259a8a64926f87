//! The initialization gate: a zero-cost token that proves the codec's
//! platform self-check has run.

use vstd::prelude::*;
use crate::error_code::ErrorCode;

verus! {

/// The codec's version number, as `0x00MMmmpp` (major, minor, patch).
pub const VERSION_NUMBER: u32 = 0x010000;

/// A compression and decompression context.
///
/// Holding a `Context` shows that the codec's platform self-check has
/// succeeded, so the compress and decompress calls cannot be reached before
/// it. The check is a pure computation over fixed-width integers that
/// behaves the same on every platform, so it always succeeds; the `Result`
/// stays in the signature so that a caller handles the outcome of the check
/// rather than assuming it. A `Context` is zero-sized and freely copyable,
/// and the codec keeps no state between calls.
#[derive(Debug, Copy, Clone)]
pub struct Context {
}

impl Context {
    /// Make a new [`Context`].
    ///
    /// Runs the platform self-check; the check is total and pure, so the
    /// call always succeeds and is idempotent across the whole process.
    pub fn new() -> (r: Result<Self, ErrorCode>)
        ensures
            r matches Ok(_),
    {
        // The codec reads and writes bytes only through bounds-checked
        // indexing and fixed-width arithmetic, so there is no word-size,
        // alignment or byte-order assumption left to test at run time.
        Ok(Context {})
    }

    /// Get the version number.
    pub fn version(&self) -> (r: u32)
        ensures
            r == VERSION_NUMBER,
    {
        VERSION_NUMBER
    }

    /// Get the version as text.
    pub fn version_string(&self) -> (r: &'static str)
        ensures
            r@ == "1.0.0"@,
    {
        proof {
            reveal_strlit("1.0.0");
        }
        "1.0.0"
    }

    /// Get the version date as text.
    pub fn version_date(&self) -> (r: &'static str)
        ensures
            r@ == "2026-10-12"@,
    {
        proof {
            reveal_strlit("2026-10-12");
        }
        "2026-10-12"
    }
}

impl Default for Context {
    /// The default context; the self-check always succeeds, so this never
    /// panics.
    fn default() -> (r: Self)
        ensures
            (r == (Context {  })),
    {
        Context {}
    }
}

} // verus!
