use vstd::prelude::*;

verus! {

/// Fatal conditions raised by the diff and apply passes.
///
/// Path arguments are raw POSIX path byte strings (arbitrary bytes other
/// than NUL; not necessarily UTF-8).
#[derive(Debug)]
pub enum Error {
    /// The patch codec failed to encode a changed file.
    XDelta3EncodeError,
    /// The patch codec failed to decode a patch.
    XDelta3DecodeError,
    /// The diff-side round-trip check decoded the freshly produced patch to
    /// bytes that differ from the target file: the patch must not be shipped.
    /// Carries the source path and the target path of the offending file.
    XDelta3FailedValidation(Vec<u8>, Vec<u8>),
    /// The apply-side decode of a shipped patch failed: the delta is corrupt.
    /// Carries the source path and the delta path of the offending file.
    XDelta3FailedDeflation(Vec<u8>, Vec<u8>),
    /// A file timestamp could not be restored on the named path.
    FileTimeError(Vec<u8>),
    /// The output delta directory already exists.
    DeltaDirExists(Vec<u8>),
    /// The sidecar manifest file does not hold a well-formed manifest.
    MetaDataParseError,
}

} // verus!
