//! Making a patch.
use crate::index::Matcher;
use crate::par_scan;
use crate::par_scan::parallel_scan;
use crate::patch;
use crate::plan;
use crate::scan::diff_scan;
use vstd::prelude::*;

verus! {

/// Why no patch can be made.
#[derive(Clone, Copy, Debug, PartialEq, Eq, Structural)]
pub enum DiffError {
    /// The old input is longer than `i32::MAX` bytes (match positions are stored as `i32`).
    InvalidInput,
}

impl DiffError {
    /// What to tell the user.
    pub fn message(&self) -> (text: &'static str)
        ensures
            text@ == "bsdiff: `old` inputs larger than 2 GiB are not supported"@,
    {
        match self {
            DiffError::InvalidInput => "bsdiff: `old` inputs larger than 2 GiB are not supported",
        }
    }
}

/// The patch from `old` to `new`, made in one piece or in chunks.
pub open spec fn patch_bytes(old: Seq<u8>, new: Seq<u8>, chunked: bool) -> Seq<u8> {
    if chunked {
        par_scan::chunked_patch_of(old, new)
    } else {
        plan::patch_of(old, new)
    }
}

/// Makes a patch and appends it to `writer`, on one thread or on several.
pub fn bsdiff_internal(
    old_bytes: &[u8],
    new_bytes: &[u8],
    parallel: bool,
    writer: &mut Vec<u8>,
) -> (res: Result<(), DiffError>)
    ensures
        old_bytes@.len() > i32::MAX ==> res == Err::<(), DiffError>(DiffError::InvalidInput)
            && final(writer)@ == old(writer)@,
        old_bytes@.len() <= i32::MAX ==> res is Ok && final(writer)@ == old(writer)@ + patch_bytes(
            old_bytes@,
            new_bytes@,
            parallel,
        ),
{
    if old_bytes.len() > i32::MAX as usize {
        return Err(DiffError::InvalidInput);
    }
    if parallel {
        let matcher = Matcher::build_parallel(old_bytes);
        parallel_scan(old_bytes, new_bytes, &matcher, writer);
    } else {
        let matcher = Matcher::build(old_bytes);
        diff_scan(old_bytes, new_bytes, &matcher, writer);
    }
    Ok(())
}

/// Diffs an "old" and a "new" byte string, appending a patch to `writer`.
///
/// The patch can be applied to the old byte string to get back the new one, with
/// [`patch`](crate::patch::patch).
///
/// Returns [`DiffError::InvalidInput`] if `old_bytes` is longer than `i32::MAX` bytes; `writer`
/// then stays as it was.
pub fn diff(old_bytes: &[u8], new_bytes: &[u8], writer: &mut Vec<u8>) -> (res: Result<
    (),
    DiffError,
>)
    ensures
        old_bytes@.len() > i32::MAX ==> res == Err::<(), DiffError>(DiffError::InvalidInput)
            && final(writer)@ == old(writer)@,
        old_bytes@.len() <= i32::MAX ==> {
            &&& res is Ok
            &&& final(writer)@ == old(writer)@ + plan::patch_of(old_bytes@, new_bytes@)
            &&& patch::decode(old_bytes@, plan::patch_of(old_bytes@, new_bytes@)) == Ok::<
                Seq<u8>,
                patch::PatchError,
            >(new_bytes@)
        },
{
    let res = bsdiff_internal(old_bytes, new_bytes, false, writer);
    proof {
        assert(new_bytes@.len() == new_bytes.len());
        if old_bytes@.len() <= i32::MAX {
            plan::law_round_trip(old_bytes@, new_bytes@);
        }
    }
    res
}

/// Does what [`diff`](fn@diff) does on several threads. The patch consists of independent patches
/// for chunks of `new_bytes`; it depends on the inputs alone, not on the number of threads.
pub fn diff_parallel(old_bytes: &[u8], new_bytes: &[u8], writer: &mut Vec<u8>) -> (res: Result<
    (),
    DiffError,
>)
    ensures
        old_bytes@.len() > i32::MAX ==> res == Err::<(), DiffError>(DiffError::InvalidInput)
            && final(writer)@ == old(writer)@,
        old_bytes@.len() <= i32::MAX ==> {
            &&& res is Ok
            &&& final(writer)@ == old(writer)@ + par_scan::chunked_patch_of(old_bytes@, new_bytes@)
            &&& patch::decode(old_bytes@, par_scan::chunked_patch_of(old_bytes@, new_bytes@))
                == Ok::<Seq<u8>, patch::PatchError>(new_bytes@)
        },
{
    let res = bsdiff_internal(old_bytes, new_bytes, true, writer);
    proof {
        assert(new_bytes@.len() == new_bytes.len());
        if old_bytes@.len() <= i32::MAX {
            par_scan::law_chunked_round_trip(old_bytes@, new_bytes@);
        }
    }
    res
}

} // verus!
