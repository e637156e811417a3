use cvar_patch::error::{lookup_failure, LookupFailure, ERROR_NO_MORE_FILES, ERROR_PARTIAL_COPY};

#[test]
fn codes_are_the_ones_of_the_system() {
    assert_eq!(ERROR_NO_MORE_FILES, windows::Win32::Foundation::ERROR_NO_MORE_FILES.0);
    assert_eq!(ERROR_PARTIAL_COPY, windows::Win32::Foundation::ERROR_PARTIAL_COPY.0);
}

#[test]
fn end_of_the_process_list_means_not_running() {
    assert_eq!(lookup_failure(0x8007_0012u32 as i32), LookupFailure::NotRunning);
    assert_eq!(
        lookup_failure(windows::Win32::Foundation::ERROR_NO_MORE_FILES.to_hresult().0),
        LookupFailure::NotRunning
    );
}

#[test]
fn other_failures_are_unexpected() {
    assert_eq!(lookup_failure(18), LookupFailure::Unexpected);
    assert_eq!(lookup_failure(0), LookupFailure::Unexpected);
    assert_eq!(lookup_failure(0x8007_0005u32 as i32), LookupFailure::Unexpected);
}

#[test]
fn lookup_messages() {
    assert_eq!(
        LookupFailure::NotRunning.message(),
        "Unable to find the game process, is it definitely running?"
    );
    assert_eq!(
        LookupFailure::Unexpected.message(),
        "Unexpected error when looking for the game process."
    );
}
