use cvar_patch::snapshot::{find_module, find_process, ModuleEntry, ProcessEntry};

fn process(comparison: i32, id: u32) -> ProcessEntry {
    ProcessEntry { comparison, id }
}

fn module(comparison: i32, base_addr: u64, base_size: u32) -> ModuleEntry {
    ModuleEntry { comparison, base_addr, base_size }
}

#[test]
fn first_process_with_the_name_is_taken() {
    let entries = [process(-1, 4), process(0, 8), process(0, 12)];
    assert_eq!(find_process(&entries, 99), Ok(8));
}

#[test]
fn missing_process_gives_the_error_of_the_snapshot() {
    assert_eq!(find_process(&[process(1, 4), process(-1, 8)], 99), Err(99));
    assert_eq!(find_process(&[], -5), Err(-5));
}

#[test]
fn module_range_ends_behind_the_module() {
    let entries = [module(7, 1, 2), module(0, 0x7FF0_0000_0000, 0x5000)];
    assert_eq!(find_module(&entries, 99), Ok(0x7FF0_0000_0000..0x7FF0_0000_5000));
}

#[test]
fn missing_module_gives_the_error_of_the_snapshot() {
    assert_eq!(find_module(&[module(7, u64::MAX, 2)], 99), Err(99));
}
