use cvar_patch::image::{
    check_registrations_end, find_export, find_interface_factory, follow_to_registry,
    get_addr_operand, locate_cvars, ExportDirectory, LocateError,
};
use cvar_patch::remote::Memory;

const BASE: u64 = 0x1_8000_0000;

struct Builder {
    data: Vec<u8>,
}

impl Builder {
    fn new() -> Builder {
        Builder { data: vec![0; 0x1000] }
    }

    fn put(&mut self, at: usize, bytes: &[u8]) {
        self.data[at..at + bytes.len()].copy_from_slice(bytes);
    }

    fn put_u16(&mut self, at: usize, value: u16) {
        self.put(at, &value.to_le_bytes());
    }

    fn put_u32(&mut self, at: usize, value: u32) {
        self.put(at, &value.to_le_bytes());
    }

    fn put_u64(&mut self, at: usize, value: u64) {
        self.put(at, &value.to_le_bytes());
    }

    fn memory(self) -> Memory {
        let end = BASE + self.data.len() as u64;
        Memory::new(BASE..end, self.data)
    }

    fn exports(&mut self, names: &[&[u8]]) -> ExportDirectory {
        for (i, name) in names.iter().enumerate() {
            let at = 0x400 + 0x20 * i;
            self.put(at, name);
            self.put_u32(0x200 + 4 * i, at as u32);
            // The functions stand in the reverse order of their names.
            let ordinal = names.len() - 1 - i;
            self.put_u16(0x380 + 2 * i, ordinal as u16);
            self.put_u32(0x300 + 4 * ordinal, 0x800 + 0x10 * i as u32);
        }
        ExportDirectory {
            address_of_names: 0x200,
            number_of_names: names.len() as u32,
            address_of_name_ordinals: 0x380,
            address_of_functions: 0x300,
        }
    }

    fn registration(&mut self, at: usize, factory: u64, name: u64, next: u64) {
        self.put_u64(at, factory);
        self.put_u64(at + 8, name);
        self.put_u64(at + 16, next);
    }
}

#[test]
fn every_sorted_export_is_found() {
    let names: [&[u8]; 5] =
        [b"Alpha\0", b"BinaryProperties\0", b"CreateInterface\0", b"Create\0", b"Zed\0"];
    let mut sorted = names.to_vec();
    sorted.sort();
    for count in 0..=sorted.len() {
        let mut b = Builder::new();
        let exports = b.exports(&sorted[..count]);
        let image = b.memory();
        for (i, name) in sorted.iter().enumerate() {
            let expected = if i < count { Some(0x800 + 0x10 * i as u64) } else { None };
            assert_eq!(find_export(&image, &exports, name), expected);
        }
        assert_eq!(find_export(&image, &exports, b"Creat\0"), None);
    }
}

#[test]
fn ordinals_lead_to_the_functions() {
    let mut data = Vec::new();
    for value in [0x10u32, 0x14, 0x100, 0x200] {
        data.extend(value.to_le_bytes());
    }
    data.extend(b"A\0\0\0AB\0\0");
    data.extend([1, 0, 0, 0]);
    let end = BASE + data.len() as u64;
    let image = Memory::new(BASE..end, data);
    let exports = ExportDirectory {
        address_of_names: 0,
        number_of_names: 2,
        address_of_name_ordinals: 0x18,
        address_of_functions: 8,
    };
    assert_eq!(find_export(&image, &exports, b"AB\0"), Some(0x100));
    assert_eq!(find_export(&image, &exports, b"A\0"), Some(0x200));
}

#[test]
fn unreadable_ordinal_gives_nothing() {
    let mut b = Builder::new();
    let mut exports = b.exports(&[b"A\0", b"B\0"]);
    b.put_u16(0xFFE, 1);
    b.put_u16(0x382, 0x400);
    let image = b.memory();
    assert_eq!(find_export(&image, &exports, b"A\0"), Some(0x800));
    assert_eq!(find_export(&image, &exports, b"B\0"), None);
    exports.address_of_name_ordinals = 0x381;
    assert_eq!(find_export(&image, &exports, b"A\0"), None);
    exports.address_of_name_ordinals = 0xFFE;
    assert_eq!(find_export(&image, &exports, b"A\0"), Some(0x800));
    assert_eq!(find_export(&image, &exports, b"B\0"), None);
}

#[test]
fn name_without_terminator_is_not_a_match() {
    let mut b = Builder::new();
    let exports = b.exports(&[b"CreateInterfaceEx\0"]);
    let image = b.memory();
    assert_eq!(find_export(&image, &exports, b"CreateInterface\0"), None);
    assert_eq!(find_export(&image, &exports, b"CreateInterfaceEx\0"), Some(0x800));
}

#[test]
fn unreadable_names_stand_last() {
    let mut b = Builder::new();
    let exports = b.exports(&[b"A\0", b"B\0", b"C\0"]);
    b.put_u32(0x200 + 8, 0x10_0000);
    let image = b.memory();
    assert_eq!(find_export(&image, &exports, b"B\0"), Some(0x810));
    assert_eq!(find_export(&image, &exports, b"C\0"), None);
}

#[test]
fn unreadable_tables_give_nothing() {
    let mut b = Builder::new();
    let mut exports = b.exports(&[b"A\0"]);
    let image = b.memory();
    exports.address_of_functions = 0x1000;
    assert_eq!(find_export(&image, &exports, b"A\0"), None);
    exports.address_of_names = 0x1000;
    assert_eq!(find_export(&image, &exports, b"A\0"), None);
    exports.address_of_names = 0x202;
    assert_eq!(find_export(&image, &exports, b"A\0"), None);
    exports.address_of_names = 0x200;
    exports.number_of_names = u32::MAX;
    assert_eq!(find_export(&image, &exports, b"A\0"), None);
}

#[test]
fn operand_counts_from_the_end_of_the_instruction() {
    let mut b = Builder::new();
    b.put(0x100, &[0x4C, 0x8B, 0x0D, 0x10, 0x00, 0x00, 0x00]);
    b.put(0x201, &[0x48, 0x8D, 0x05, 0xF0, 0xFF, 0xFF, 0xFF]);
    let image = b.memory();
    assert_eq!(get_addr_operand(&image, 0x100, &[0x4C, 0x8B, 0x0D]), Some(0x117));
    assert_eq!(get_addr_operand(&image, 0x201, &[0x48, 0x8D, 0x05]), Some(0x1F8));
    assert_eq!(get_addr_operand(&image, 0x100, &[0x48, 0x8D, 0x05]), None);
    assert_eq!(get_addr_operand(&image, 0x103, &[]), Some(0x117));
}

#[test]
fn operand_before_the_image_is_refused() {
    let mut b = Builder::new();
    b.put(0, &[0x4C, 0x8B, 0x0D, 0xF9, 0xFF, 0xFF, 0xFF]);
    b.put(0x10, &[0x4C, 0x8B, 0x0D, 0x00, 0x00, 0x00, 0x80]);
    b.put(0x20, &[0x4C, 0x8B, 0x0D, 0xFF, 0xFF, 0xFF, 0x7F]);
    let image = b.memory();
    assert_eq!(get_addr_operand(&image, 0, &[0x4C, 0x8B, 0x0D]), Some(0));
    assert_eq!(get_addr_operand(&image, 0x10, &[0x4C, 0x8B, 0x0D]), None);
    assert_eq!(get_addr_operand(&image, 0x20, &[0x4C, 0x8B, 0x0D]), Some(0x8000_0026));
}

#[test]
fn operand_needs_the_whole_instruction() {
    let mut b = Builder::new();
    b.put(0xFFA, &[0x4C, 0x8B, 0x0D, 0, 0, 0]);
    let image = b.memory();
    assert_eq!(get_addr_operand(&image, 0xFFA, &[0x4C, 0x8B, 0x0D]), None);
    assert_eq!(get_addr_operand(&image, 0xFF9, &[0, 0x4C, 0x8B]), Some(0x100D));
    assert_eq!(get_addr_operand(&image, 0x2000, &[]), None);
}

fn registrations() -> Builder {
    let mut b = Builder::new();
    b.put(0x500, b"First001\0");
    b.put(0x520, b"VEngineCvar007\0");
    b.put_u64(0x600, BASE + 0x700);
    b.registration(0x700, BASE + 0xA00, BASE + 0x500, BASE + 0x740);
    b.registration(0x740, BASE + 0xB00, BASE + 0x520, 0);
    b
}

#[test]
fn registered_factories_are_found() {
    let image = registrations().memory();
    assert!(check_registrations_end(&image, 0x600, b"First001\0"));
    assert_eq!(find_interface_factory(&image, 0x600, b"First001\0"), Some(0xA00));
    assert_eq!(find_interface_factory(&image, 0x600, b"VEngineCvar007\0"), Some(0xB00));
    assert_eq!(find_interface_factory(&image, 0x600, b"VEngineCvar008\0"), None);
    assert_eq!(find_interface_factory(&image, 0x600, b"VEngineCvar00\0"), None);
}

#[test]
fn first_registration_wins() {
    let mut b = registrations();
    b.registration(0x700, BASE + 0xC00, BASE + 0x520, BASE + 0x740);
    let image = b.memory();
    assert_eq!(find_interface_factory(&image, 0x600, b"VEngineCvar007\0"), Some(0xC00));
}

#[test]
fn registrations_outside_of_the_image_end_the_search() {
    let mut b = registrations();
    b.registration(0x700, BASE + 0xA00, BASE + 0x500, 8);
    let image = b.memory();
    assert!(check_registrations_end(&image, 0x600, b"VEngineCvar007\0"));
    assert_eq!(find_interface_factory(&image, 0x600, b"VEngineCvar007\0"), None);
    assert_eq!(find_interface_factory(&image, 0x1000, b"First001\0"), None);
}

#[test]
fn factory_before_the_image_is_no_answer() {
    let mut b = registrations();
    b.registration(0x740, BASE - 1, BASE + 0x520, 0);
    let image = b.memory();
    assert_eq!(find_interface_factory(&image, 0x600, b"VEngineCvar007\0"), None);
}

#[test]
fn unreadable_name_is_passed_over() {
    let mut b = registrations();
    b.registration(0x700, BASE + 0xA00, 3, BASE + 0x740);
    let image = b.memory();
    assert_eq!(find_interface_factory(&image, 0x600, b"VEngineCvar007\0"), Some(0xB00));
}

#[test]
fn endless_registrations_are_noticed() {
    let mut b = registrations();
    b.registration(0x740, BASE + 0xB00, BASE + 0x520, BASE + 0x700);
    let image = b.memory();
    assert!(!check_registrations_end(&image, 0x600, b"Missing001\0"));
    assert!(check_registrations_end(&image, 0x600, b"VEngineCvar007\0"));
    assert_eq!(find_interface_factory(&image, 0x600, b"VEngineCvar007\0"), Some(0xB00));

    let mut b = registrations();
    b.registration(0x740, BASE + 0xB00, BASE + 0x500, BASE + 0x740);
    assert!(!check_registrations_end(&b.memory(), 0x600, b"VEngineCvar007\0"));
}

fn whole_image() -> (Builder, ExportDirectory) {
    let mut b = registrations();
    let exports = b.exports(&[b"CreateInterface\0"]);
    b.put(0x500, b"First001\0");
    b.put(0x520, b"VEngineCvar007\0");
    // CreateInterface loads the head of the registrations at 0x600.
    b.put(0x800, &[0x4C, 0x8B, 0x0D]);
    b.put_u32(0x803, (0x600i32 - 0x807) as u32);
    // The factory loads the address of the registry at 0xD00.
    b.put(0xB00, &[0x48, 0x8D, 0x05]);
    b.put_u32(0xB03, 0xD00 - 0xB07);
    (b, exports)
}

#[test]
fn registry_is_located() {
    let (b, exports) = whole_image();
    assert_eq!(locate_cvars(&b.memory(), &exports), Ok(0xD00));
}

#[test]
fn each_step_to_the_registry_can_fail() {
    let (b, mut exports) = whole_image();
    exports.number_of_names = 0;
    let image = b.memory();
    assert_eq!(locate_cvars(&image, &exports), Err(LocateError::NoCreateInterface));
    assert_eq!(follow_to_registry(&image, None), Err(LocateError::NoCreateInterface));
    assert_eq!(follow_to_registry(&image, Some(0x800)), Ok(0xD00));
    assert_eq!(follow_to_registry(&image, Some(0x900)), Err(LocateError::NoRegistrationList));

    let (mut b, exports) = whole_image();
    b.put(0x800, &[0]);
    assert_eq!(locate_cvars(&b.memory(), &exports), Err(LocateError::NoRegistrationList));

    let (mut b, exports) = whole_image();
    b.put(0x520, b"VEngineCvar008\0");
    assert_eq!(locate_cvars(&b.memory(), &exports), Err(LocateError::NoFactory));

    let (mut b, exports) = whole_image();
    b.put(0x520, b"VEngineCvar008\0");
    b.registration(0x740, BASE + 0xB00, BASE + 0x520, BASE + 0x700);
    assert_eq!(locate_cvars(&b.memory(), &exports), Err(LocateError::EndlessRegistrations));

    let (mut b, exports) = whole_image();
    b.put(0xB00, &[0]);
    assert_eq!(locate_cvars(&b.memory(), &exports), Err(LocateError::NoInstance));
}

#[test]
fn locate_messages() {
    assert_eq!(
        LocateError::NoCreateInterface.message(),
        "Failed to find the CreateInterface function"
    );
    assert_eq!(
        LocateError::NoRegistrationList.message(),
        "Failed to get the interface registration list."
    );
    assert_eq!(
        LocateError::EndlessRegistrations.message(),
        "The interface registration list does not end."
    );
    assert_eq!(
        LocateError::NoFactory.message(),
        "Failed to find the factory for the VEngineCvar007 interface."
    );
    assert_eq!(
        LocateError::NoInstance.message(),
        "Failed to get the address of the VEngineCvar007 instance."
    );
}
