use cvar_patch::plain::Plain;
use cvar_patch::remote::{read, read_array, read_array_request, read_request, Memory};

fn memory() -> Memory {
    let data: Vec<u8> = (0..64).collect();
    Memory::new(0x1000..0x1040, data)
}

#[test]
fn requests_name_address_and_size() {
    let one = read_request::<u64>(0x1234);
    assert_eq!((one.addr, one.size), (0x1234, 8));
    let many = read_array_request::<u32>(0x10, 5);
    assert_eq!((many.addr, many.size), (0x10, 20));
    let none = read_array_request::<u32>(0x10, 0);
    assert_eq!(none.size, 0);
    let chunk = Memory::request(&(0x4000..0x4100));
    assert_eq!((chunk.addr, chunk.size), (0x4000, 0x100));
}

#[test]
fn fetched_bytes_become_values() {
    assert_eq!(read::<u32>(&[1, 0, 0, 0]), 1);
    assert_eq!(read_array::<u16>(&[1, 0, 2, 0, 3, 1], 3), vec![1, 2, 0x103]);
    assert_eq!(read_array::<u16>(&[], 0), vec![]);
}

#[test]
fn what_was_written_is_read_back() {
    let request = cvar_patch::remote::write::<u64>(0x77, 0x1122_3344_5566_7788);
    assert_eq!(request.addr, 0x77);
    assert_eq!(request.bytes, vec![0x88, 0x77, 0x66, 0x55, 0x44, 0x33, 0x22, 0x11]);
    assert_eq!(read::<u64>(&request.bytes), 0x1122_3344_5566_7788);
}

#[test]
fn get_needs_alignment_and_room() {
    let m = memory();
    assert_eq!(m.get::<u32>(0), Some(0x0302_0100));
    assert_eq!(m.get::<u32>(4), Some(0x0706_0504));
    assert_eq!(m.get::<u32>(2), None);
    assert_eq!(m.get::<u8>(63), Some(63));
    assert_eq!(m.get::<u8>(64), None);
    assert_eq!(m.get::<u64>(56), Some(0x3F3E_3D3C_3B3A_3938));
    assert_eq!(m.get::<u64>(60), None);
    assert_eq!(m.get::<u8>(u64::MAX), None);
}

#[test]
fn get_array_needs_alignment_and_room() {
    let m = memory();
    assert_eq!(m.get_array::<u16>(60, 2), Some(vec![0x3D3C, 0x3F3E]));
    assert_eq!(m.get_array::<u16>(60, 3), None);
    assert_eq!(m.get_array::<u16>(61, 1), None);
    assert_eq!(m.get_array::<u8>(10, 3), Some(vec![10, 11, 12]));
}

#[test]
fn empty_array_still_has_to_start_inside() {
    let m = memory();
    assert_eq!(m.get_array::<u8>(63, 0), Some(vec![]));
    assert_eq!(m.get_array::<u8>(64, 0), None);
}

#[test]
fn oversized_array_is_refused() {
    let m = memory();
    assert_eq!(m.get_array::<u64>(64, usize::MAX), None);
    assert_eq!(m.get_array::<u64>(1, usize::MAX), None);
    assert_eq!(m.get_array::<u8>(0, usize::MAX), None);
    assert_eq!(m.get_array::<u64>(0, usize::MAX), None);
    assert_eq!(m.from_remote_array::<u64>(0x1000, 1 << 61), None);

    let m = Memory::new(0x1000..0x1010, vec![0; 16]);
    assert_eq!(m.get_array::<u32>(0, 1 << 62), None);
    assert_eq!(m.get_array::<u32>(0, (1 << 62) + 1), None);
    assert_eq!(m.get_array::<u32>(0, 4), Some(vec![0; 4]));
}

#[test]
fn array_is_made_of_its_values() {
    let m = memory();
    let values = m.get_array::<u32>(8, 4).unwrap();
    for (i, value) in values.iter().enumerate() {
        assert_eq!(m.get::<u32>(8 + 4 * i as u64), Some(*value));
    }
}

#[test]
fn addresses_and_offsets_agree() {
    let m = memory();
    assert_eq!(m.get_rva(0x1000), Some(0));
    assert_eq!(m.get_rva(0x103F), Some(0x3F));
    assert_eq!(m.get_rva(0x2000), Some(0x1000));
    assert_eq!(m.get_rva(0xFFF), None);
    assert_eq!(m.from_remote::<u32>(0x1004), m.get::<u32>(4));
    assert_eq!(m.from_remote::<u32>(0xFFC), None);
    assert_eq!(m.from_remote::<u32>(0x1040), None);
    assert_eq!(m.from_remote_array::<u8>(0x1002, 2), Some(vec![2, 3]));
    assert_eq!(m.from_remote_array::<u8>(0x0, 2), None);
    assert_eq!(m.from_remote_array::<u64>(0x0, usize::MAX), None);
}

#[test]
fn memory_keeps_its_bytes() {
    let m = memory();
    assert_eq!(m.as_slice().len(), 64);
    assert_eq!(m.as_slice()[5], 5);
    assert_eq!(u64::size_of(), 8);
}
