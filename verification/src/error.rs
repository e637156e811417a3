//! Error codes of the operating system.
use vstd::prelude::*;

verus! {

/// System error code: there are no more files.
pub const ERROR_NO_MORE_FILES: u32 = 18;

/// System error code: only part of a memory request was completed.
pub const ERROR_PARTIAL_COPY: u32 = 299;

/// The result code that stands for a system error code. Zero and codes with
/// the sign bit are taken as they are; of the others the low half is kept and
/// marked as a system error.
pub open spec fn hresult(code: u32) -> int {
    if code == 0 {
        0
    } else if code < 0x8000_0000 {
        (code % 0x1_0000) + 0x8007_0000 - 0x1_0000_0000
    } else {
        code - 0x1_0000_0000
    }
}

/// A system error code of two bytes that is not zero stands in the low half of
/// its result code, whose high half is 0x8007.
pub proof fn law_result_code_holds_the_system_code(code: u32)
    requires
        0 < code < 0x1_0000,
    ensures
        hresult(code) + 0x1_0000_0000 == 0x8007_0000 + code,
{
}

/// Converts a system error code by `HRESULT::from` of the `windows` crate,
/// which is trusted to give the code that `hresult` describes.
#[verifier::external_body]
pub(crate) fn hresult_of(code: u32) -> (r: i32)
    ensures
        r == hresult(code),
{
    windows::core::HRESULT::from(windows::Win32::Foundation::WIN32_ERROR(code)).0
}

/// Why no process was found.
#[derive(PartialEq, Eq, Structural, Debug, Clone, Copy)]
pub enum LookupFailure {
    /// The list of processes ended without a match.
    NotRunning,
    /// The list of processes could not be read.
    Unexpected,
}

/// Tells a process that isn't running, which is likely, from other failures
/// to find it.
pub fn lookup_failure(code: i32) -> (r: LookupFailure)
    ensures
        r == if code == hresult(ERROR_NO_MORE_FILES) {
            LookupFailure::NotRunning
        } else {
            LookupFailure::Unexpected
        },
        // The code 0x80070012: there are no more files.
        (r is NotRunning) == (code + 0x1_0000_0000 == 0x8007_0012),
{
    if code == hresult_of(ERROR_NO_MORE_FILES) {
        LookupFailure::NotRunning
    } else {
        LookupFailure::Unexpected
    }
}

impl LookupFailure {
    /// What to tell the user.
    pub fn message(self) -> (r: &'static str)
        ensures
            r@ == match self {
                LookupFailure::NotRunning =>
                    "Unable to find the game process, is it definitely running?"@,
                LookupFailure::Unexpected =>
                    "Unexpected error when looking for the game process."@,
            },
    {
        match self {
            LookupFailure::NotRunning =>
                "Unable to find the game process, is it definitely running?",
            LookupFailure::Unexpected => "Unexpected error when looking for the game process.",
        }
    }
}

} // verus!
