use vstd::prelude::*;

pub mod eml;
pub mod headers;
pub mod mbox;
pub mod outside;
pub mod roundtrip;
pub mod text;

verus! {

/// Why a conversion run could not start at all.
#[derive(Clone, Copy, Debug, PartialEq, Eq, Structural)]
pub enum SetupError {
    /// The output path ends in a path separator.
    OutputPathIsDirectory,
    /// The output file already exists and overwriting was not requested.
    OutputFileExists,
    /// No eml files were found under the input directory.
    NoEmlFiles,
    /// The input mbox file does not exist.
    InputFileMissing,
    /// The output directory already exists and overwriting was not requested.
    OutputDirectoryExists,
}

/// Rejects an output path that ends in a path separator: such a path names a
/// directory, not a file, so the intent is ambiguous.
pub fn validate_output_file(path: &[u8]) -> (r: Result<(), SetupError>)
    ensures
        r is Ok <==> !(path@.len() > 0 && (path@.last() == 47u8 || path@.last() == 92u8)),
        r is Err ==> r == Result::<(), SetupError>::Err(SetupError::OutputPathIsDirectory),
{
    if path.len() > 0 {
        let last = path[path.len() - 1];
        if last == 47 || last == 92 {
            return Err(SetupError::OutputPathIsDirectory);
        }
    }
    Ok(())
}

} // verus!
