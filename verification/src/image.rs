//! Finds the console variable registry in the image of tier0.dll.
use crate::layout::{law_registration_layout, qword_at};
use crate::plain::{field, le_value, slice_at, Plain};
use crate::remote::Memory;
use crate::route::{
    code_leads_to, create_interface, finds_named_function, insn_leads_to, is_entry,
    is_exported_registry, is_outcome, is_right_factory, law_code_leads_to_the_registry,
    law_each_step_to_the_registry_counts, law_operand_counts_from_the_end_of_the_instruction,
    law_registrations_end_where_a_walk_does, law_registry_is_behind_an_export,
    law_registry_is_located, law_right_factory_is_found, law_search_finds_the_named_function,
    walk_ends,
};
use vstd::prelude::*;

verus! {

/// What the search for an exported name needs to know of the export table.
pub struct ExportDirectory {
    /// RVA of the table of the RVAs of the names.
    pub address_of_names: u32,
    /// Number of names.
    pub number_of_names: u32,
    /// RVA of the table that gives the position of the function of each name.
    pub address_of_name_ordinals: u32,
    /// RVA of the table of the RVAs of the functions.
    pub address_of_functions: u32,
}

/// How one byte string compares with another in dictionary order.
#[derive(PartialEq, Eq, Structural, Debug, Clone, Copy)]
pub enum Place {
    Before,
    Same,
    After,
}

impl Place {
    /// Position in the order of places.
    pub open spec fn rank(self) -> int {
        match self {
            Place::Before => 0,
            Place::Same => 1,
            Place::After => 2,
        }
    }
}

/// Where `a` stands relative to `b` in dictionary order.
pub open spec fn place(a: Seq<u8>, b: Seq<u8>) -> Place
    decreases a.len(),
{
    if a.len() == 0 && b.len() == 0 {
        Place::Same
    } else if a.len() == 0 {
        Place::Before
    } else if b.len() == 0 {
        Place::After
    } else if a[0] < b[0] {
        Place::Before
    } else if a[0] > b[0] {
        Place::After
    } else {
        place(a.drop_first(), b.drop_first())
    }
}

/// Only equal byte strings stand at the same place.
pub proof fn law_same_place_is_equality(a: Seq<u8>, b: Seq<u8>)
    ensures
        place(a, b) is Same <==> a == b,
    decreases a.len(),
{
    if a.len() > 0 && b.len() > 0 && a[0] == b[0] {
        law_same_place_is_equality(a.drop_first(), b.drop_first());
        if a.drop_first() == b.drop_first() {
            assert(a =~= seq![a[0]] + a.drop_first());
            assert(b =~= seq![b[0]] + b.drop_first());
        }
    } else if a.len() == 0 && b.len() == 0 {
        assert(a =~= b);
    }
}

/// The order of places is the one of a dictionary: what does not stand after
/// another stands no further back relative to a third.
pub proof fn law_places_are_ordered(a: Seq<u8>, b: Seq<u8>, c: Seq<u8>)
    requires
        !(place(a, b) is After),
    ensures
        place(a, c).rank() <= place(b, c).rank(),
    decreases a.len(),
{
    if a.len() > 0 && b.len() > 0 && c.len() > 0 && a[0] == b[0] && b[0] == c[0] {
        law_places_are_ordered(a.drop_first(), b.drop_first(), c.drop_first());
    }
}

fn place_of(a: &[u8], b: &[u8]) -> (r: Place)
    ensures
        r == place(a@, b@),
{
    let mut i: usize = 0;
    assert(a@.skip(0) =~= a@ && b@.skip(0) =~= b@);
    while i < a.len() && i < b.len()
        invariant
            i <= a@.len(),
            i <= b@.len(),
            place(a@, b@) == place(a@.skip(i as int), b@.skip(i as int)),
        decreases a@.len() - i,
    {
        assert(a@.skip(i as int).drop_first() =~= a@.skip(i + 1));
        assert(b@.skip(i as int).drop_first() =~= b@.skip(i + 1));
        if a[i] < b[i] {
            return Place::Before;
        }
        if a[i] > b[i] {
            return Place::After;
        }
        i = i + 1;
    }
    if i < a.len() {
        Place::After
    } else if i < b.len() {
        Place::Before
    } else {
        Place::Same
    }
}

/// Where the name at `rva` of the image stands relative to `name`. A name
/// that cannot be read stands after every other.
pub open spec fn name_place(image: Memory, rva: u32, name: Seq<u8>) -> Place {
    match image.array_at::<u8>(rva as u64, name.len() as usize) {
        Some(found) => place(found, name),
        None => Place::After,
    }
}

/// Whether the names are in order as far as `name` can tell.
pub open spec fn in_order(image: Memory, names: Seq<u32>, name: Seq<u8>) -> bool {
    forall|i: int, j: int|
        0 <= i <= j < names.len() ==> (#[trigger] name_place(image, names[i], name)).rank() <= (
        #[trigger] name_place(image, names[j], name)).rank()
}

/// The RVA of the function that belongs to the name at position `i`: the
/// ordinal of the name is the position of the function.
pub open spec fn function_at(image: Memory, exports: ExportDirectory, i: int) -> Option<u32> {
    match image.value_at::<u16>((exports.address_of_name_ordinals + 2 * i) as u64) {
        Some(ordinal) => image.value_at::<u32>(
            (exports.address_of_functions + 4 * ordinal) as u64,
        ),
        None => None,
    }
}

/// Whether `r` is a right answer to the search for `name` among the exports.
/// A name that is found gives its function, where there is one. A name of a
/// table that is in order is found.
pub open spec fn is_export(
    image: Memory,
    exports: ExportDirectory,
    name: Seq<u8>,
    r: Option<u64>,
) -> bool {
    match image.array_at::<u32>(exports.address_of_names as u64, exports.number_of_names as usize) {
        Some(names) => {
            ||| exists|i: int|
                {
                    &&& 0 <= i < names.len()
                    &&& name_place(image, #[trigger] names[i], name) is Same
                    &&& r == match function_at(image, exports, i) {
                        Some(rva) => Some(rva as u64),
                        None => None,
                    }
                }
            ||| {
                &&& r is None
                &&& in_order(image, names, name) ==> forall|i: int|
                    0 <= i < names.len() ==> !(name_place(image, #[trigger] names[i], name) is Same)
            }
        },
        None => r is None,
    }
}

fn place_of_name(image: &Memory, rva: u32, name: &[u8]) -> (r: Place)
    ensures
        r == name_place(*image, rva, name@),
{
    match image.get_array::<u8>(rva as u64, name.len()) {
        Some(found) => place_of(found.as_slice(), name),
        None => Place::After,
    }
}

/// Position of a name in a table of the RVAs of names that is in order.
fn find_name(image: &Memory, names: &Vec<u32>, name: &[u8]) -> (r: Option<usize>)
    ensures
        match r {
            Some(i) => i < names@.len() && name_place(*image, names@[i as int], name@) is Same,
            None => in_order(*image, names@, name@) ==> forall|i: int|
                0 <= i < names@.len() ==> !(name_place(*image, #[trigger] names@[i], name@) is Same),
        },
{
    let mut size: usize = names.len();
    if size == 0 {
        return None;
    }
    let mut base: usize = 0;
    while size > 1
        invariant
            1 <= size,
            base + size <= names.len(),
            base == 0 || !(name_place(*image, names@[base as int], name@) is After),
            in_order(*image, names@, name@) ==> forall|i: int|
                base + size <= i < names@.len() ==> name_place(
                    *image,
                    #[trigger] names@[i],
                    name@,
                ) is After,
        decreases size,
    {
        let half: usize = size / 2;
        let middle: usize = base + half;
        let here: Place = place_of_name(image, names[middle], name);
        if here != Place::After {
            base = middle;
        } else {
            assert(in_order(*image, names@, name@) ==> forall|i: int|
                middle <= i < names@.len() ==> name_place(
                    *image,
                    #[trigger] names@[i],
                    name@,
                ) is After);
        }
        size = size - half;
    }
    if place_of_name(image, names[base], name) == Place::Same {
        Some(base)
    } else {
        None
    }
}

/// Gets the RVA of an exported function by name, which ends with a zero byte.
pub fn find_export(image: &Memory, exports: &ExportDirectory, name: &[u8]) -> (r: Option<u64>)
    ensures
        is_export(*image, *exports, name@, r),
        finds_named_function(*image, *exports, name@, r),
{
    assert(name.len() == name@.len());
    let r: Option<u64> = match image.get_array::<u32>(
        exports.address_of_names as u64,
        exports.number_of_names as usize,
    ) {
        Some(names) => {
            match find_name(image, &names, name) {
                Some(i) => {
                    assert(name_place(*image, names@[i as int], name@) is Same);
                    match image.get::<u16>(
                        exports.address_of_name_ordinals as u64 + 2 * i as u64,
                    ) {
                        Some(ordinal) => match image.get::<u32>(
                            exports.address_of_functions as u64 + 4 * ordinal as u64,
                        ) {
                            Some(rva) => Some(rva as u64),
                            None => None,
                        },
                        None => None,
                    }
                },
                None => None,
            }
        },
        None => None,
    };
    proof {
        law_search_finds_the_named_function(*image, *exports, name@, r);
    }
    r
}

/// Names that can be read and that are sorted are in order for every search.
pub proof fn law_sorted_names_are_in_order(image: Memory, names: Seq<u32>, name: Seq<u8>)
    requires
        forall|i: int|
            0 <= i < names.len() ==> (#[trigger] image.array_at::<u8>(
                names[i] as u64,
                name.len() as usize,
            )) is Some,
        forall|i: int, j: int|
            0 <= i <= j < names.len() ==> !(place(
                (#[trigger] image.array_at::<u8>(names[i] as u64, name.len() as usize))->0,
                (#[trigger] image.array_at::<u8>(names[j] as u64, name.len() as usize))->0,
            ) is After),
    ensures
        in_order(image, names, name),
{
    assert forall|i: int, j: int| 0 <= i <= j < names.len() implies (#[trigger] name_place(
        image,
        names[i],
        name,
    )).rank() <= (#[trigger] name_place(image, names[j], name)).rank() by {
        let a = image.array_at::<u8>(names[i] as u64, name.len() as usize)->0;
        let b = image.array_at::<u8>(names[j] as u64, name.len() as usize)->0;
        law_places_are_ordered(a, b, name);
    }
}

/// In a table that is in order, a name that occurs once leads to its function.
pub proof fn law_export_is_found(
    image: Memory,
    exports: ExportDirectory,
    name: Seq<u8>,
    names: Seq<u32>,
    i: int,
    r: Option<u64>,
)
    requires
        image.array_at::<u32>(exports.address_of_names as u64, exports.number_of_names as usize)
            == Some(names),
        in_order(image, names, name),
        0 <= i < names.len(),
        name_place(image, names[i], name) is Same,
        forall|j: int|
            0 <= j < names.len() && j != i ==> !(name_place(image, #[trigger] names[j], name)
                is Same),
        is_export(image, exports, name, r),
    ensures
        r == match function_at(image, exports, i) {
            Some(rva) => Some(rva as u64),
            None => None,
        },
{
}

/// The signed number that four bytes spell.
pub open spec fn le_signed(bytes: Seq<u8>) -> int {
    let value = le_value(bytes) as int;
    if value < 0x8000_0000 {
        value
    } else {
        value - 0x1_0000_0000
    }
}

/// The RVA of the memory operand of the instruction at `insn_rva`, whose bytes
/// up to the offset are `insn_prefix`: the offset counts from the end of the
/// instruction.
pub open spec fn addr_operand(image: Memory, insn_rva: u64, insn_prefix: Seq<u8>) -> Option<u64> {
    let len = insn_prefix.len() + 4;
    match image.array_at::<u8>(insn_rva, len as usize) {
        Some(insn) => {
            let target = insn_rva + len + le_signed(slice_at(insn, insn_prefix.len() as int, 4));
            if insn_prefix.is_prefix_of(insn) && 0 <= target <= u64::MAX {
                Some(target as u64)
            } else {
                None
            }
        },
        None => None,
    }
}

fn starts_with(bytes: &[u8], prefix: &[u8]) -> (r: bool)
    ensures
        r == prefix@.is_prefix_of(bytes@),
{
    if bytes.len() < prefix.len() {
        return false;
    }
    let mut i: usize = 0;
    while i < prefix.len()
        invariant
            i <= prefix@.len() <= bytes@.len(),
            forall|j: int| 0 <= j < i ==> prefix@[j] == bytes@[j],
        decreases prefix@.len() - i,
    {
        if bytes[i] != prefix[i] {
            assert(prefix@[i as int] != bytes@.subrange(0, prefix@.len() as int)[i as int]);
            return false;
        }
        i = i + 1;
    }
    assert(prefix@ =~= bytes@.subrange(0, prefix@.len() as int));
    true
}

/// Gets the RVA of an instruction's rip-relative memory operand.
/// `insn_prefix` should be all of the bytes of the instruction up to the
/// variable offset, which is used to validate that we're looking at the
/// expected instruction.
pub fn get_addr_operand(image: &Memory, insn_rva: u64, insn_prefix: &[u8]) -> (r: Option<u64>)
    requires
        insn_prefix@.len() + 4 <= usize::MAX,
    ensures
        r == addr_operand(*image, insn_rva, insn_prefix@),
        match r {
            Some(target) => insn_leads_to(
                image.bytes(),
                insn_rva as int,
                insn_prefix@,
                target as int,
            ),
            None => forall|target: int| !#[trigger] insn_leads_to(
                image.bytes(),
                insn_rva as int,
                insn_prefix@,
                target,
            ),
        },
{
    proof {
        law_operand_counts_from_the_end_of_the_instruction(*image, insn_rva, insn_prefix@);
    }
    let prefix_len: usize = insn_prefix.len();
    match image.get_array::<u8>(insn_rva, prefix_len + 4) {
        Some(insn) => {
            if starts_with(insn.as_slice(), insn_prefix) {
                proof {
                    image.fits_in_memory();
                }
                let rip: u64 = insn_rva + insn.len() as u64;
                let value: u32 = field::<u32>(insn.as_slice(), prefix_len);
                proof {
                    crate::plain::lemma_le_value_4(slice_at(insn@, prefix_len as int, 4));
                }
                if value < 0x8000_0000 {
                    rip.checked_add(value as u64)
                } else {
                    rip.checked_sub(0x1_0000_0000 - value as u64)
                }
            } else {
                None
            }
        },
        None => None,
    }
}

/// A registration of an interface in the image.
pub struct RegNode {
    /// Address of the factory function.
    pub factory: u64,
    /// Address of the name.
    pub name: u64,
    /// Address of the next registration, or zero.
    pub next: u64,
}

impl Plain for RegNode {
    open spec fn size() -> nat {
        24
    }

    open spec fn align() -> nat {
        8
    }

    open spec fn decode(bytes: Seq<u8>) -> RegNode {
        RegNode {
            factory: u64::decode(slice_at(bytes, 0, 8)),
            name: u64::decode(slice_at(bytes, 8, 8)),
            next: u64::decode(slice_at(bytes, 16, 8)),
        }
    }

    proof fn layout_is_valid() {
        vstd::arithmetic::power2::lemma2_to64();
    }

    fn size_of() -> (r: usize) {
        24
    }

    fn align_of() -> (r: usize) {
        8
    }

    fn from_bytes(bytes: &[u8]) -> (r: RegNode)
        ensures
            r.factory == qword_at(bytes@, 0),
            r.name == qword_at(bytes@, 8),
            r.next == qword_at(bytes@, 16),
    {
        proof {
            law_registration_layout(bytes@);
        }
        RegNode {
            factory: field::<u64>(bytes, 0),
            name: field::<u64>(bytes, 8),
            next: field::<u64>(bytes, 16),
        }
    }
}

/// Whether a registration is the one of the interface `name`.
pub open spec fn is_named(image: Memory, node: RegNode, name: Seq<u8>) -> bool {
    image.remote_array_at::<u8>(node.name, name.len() as usize) == Some(name)
}

/// Whether the search for `name` ends at the registration at `addr`: it is
/// the one that is searched for, the last one, or outside of the image.
pub open spec fn search_ends(image: Memory, addr: u64, name: Seq<u8>) -> bool {
    match image.remote_value_at::<RegNode>(addr) {
        Some(node) => is_named(image, node, name) || node.next == 0,
        None => true,
    }
}

/// Address of the registration `n` places behind the one at `head`.
pub open spec fn nth_registration(image: Memory, head: u64, n: nat) -> u64
    decreases n,
{
    if n == 0 {
        head
    } else {
        match image.remote_value_at::<RegNode>(
            nth_registration(image, head, (n - 1) as nat),
        ) {
            Some(node) => node.next,
            None => 0,
        }
    }
}

/// Whether the search for `name` ends `n` places behind the registration at
/// `head`, and not before.
pub open spec fn search_ends_after(image: Memory, head: u64, name: Seq<u8>, n: nat) -> bool {
    &&& search_ends(image, nth_registration(image, head, n), name)
    &&& forall|k: nat|
        k < n ==> !search_ends(image, #[trigger] nth_registration(image, head, k), name)
}

/// Whether the search for `name` that starts with the registration at `head`
/// comes to an end.
pub open spec fn search_returns(image: Memory, head: u64, name: Seq<u8>) -> bool {
    exists|n: nat| search_ends(image, #[trigger] nth_registration(image, head, n), name)
}

/// Whether the search for `name` in the list at `reg_list` comes to an end.
pub open spec fn registrations_end(image: Memory, reg_list: u64, name: Seq<u8>) -> bool {
    match image.value_at::<u64>(reg_list) {
        Some(head) => search_returns(image, head, name),
        None => true,
    }
}

/// The RVA of the factory of the registration at `addr`, if it is the one of
/// the interface `name`.
pub open spec fn factory_at(image: Memory, addr: u64, name: Seq<u8>) -> Option<u64> {
    match image.remote_value_at::<RegNode>(addr) {
        Some(node) => if is_named(image, node, name) {
            image.rva_of(node.factory)
        } else {
            None
        },
        None => None,
    }
}

/// The RVA of the factory of the interface `name`, by the registration in the
/// list at `reg_list` where the search for it ends.
pub open spec fn interface_factory(image: Memory, reg_list: u64, name: Seq<u8>) -> Option<u64> {
    match image.value_at::<u64>(reg_list) {
        Some(head) => {
            let n = choose|n: nat| search_ends_after(image, head, name, n);
            factory_at(image, nth_registration(image, head, n), name)
        },
        None => None,
    }
}

pub(crate) proof fn lemma_search_ends_once(image: Memory, head: u64, name: Seq<u8>, n: nat)
    requires
        search_ends_after(image, head, name, n),
    ensures
        n == choose|n: nat| search_ends_after(image, head, name, n),
{
    let other = choose|n: nat| search_ends_after(image, head, name, n);
    assert(search_ends_after(image, head, name, other));
    if other < n {
        assert(!search_ends(image, nth_registration(image, head, other), name));
    } else if n < other {
        assert(!search_ends(image, nth_registration(image, head, n), name));
    }
}

pub(crate) proof fn lemma_search_has_a_first_end(image: Memory, head: u64, name: Seq<u8>, n: nat) -> (first:
    nat)
    requires
        search_ends(image, nth_registration(image, head, n), name),
    ensures
        search_ends_after(image, head, name, first),
    decreases n,
{
    if exists|k: nat|
        k < n && search_ends(image, #[trigger] nth_registration(image, head, k), name) {
        let k = choose|k: nat|
            k < n && search_ends(image, #[trigger] nth_registration(image, head, k), name);
        lemma_search_has_a_first_end(image, head, name, k)
    } else {
        n
    }
}

/// The factory of an interface is the one of the first registration with its
/// name, as long as the registrations before it can be read.
pub proof fn law_first_registration_wins(
    image: Memory,
    reg_list: u64,
    head: u64,
    name: Seq<u8>,
    n: nat,
    node: RegNode,
)
    requires
        image.value_at::<u64>(reg_list) == Some(head),
        forall|k: nat|
            k < n ==> {
                &&& image.remote_value_at::<RegNode>(
                    #[trigger] nth_registration(image, head, k),
                ) matches Some(earlier)
                &&& !is_named(image, earlier, name)
                &&& earlier.next != 0
            },
        image.remote_value_at::<RegNode>(nth_registration(image, head, n)) == Some(node),
        is_named(image, node, name),
    ensures
        registrations_end(image, reg_list, name),
        interface_factory(image, reg_list, name) == image.rva_of(node.factory),
{
    assert(search_ends(image, nth_registration(image, head, n), name));
    assert(search_returns(image, head, name));
    lemma_search_ends_once(image, head, name, n);
}

/// A factory that is found is the one of a registration with the right name.
pub proof fn law_found_factory_is_registered(image: Memory, reg_list: u64, head: u64, name: Seq<u8>)
    requires
        image.value_at::<u64>(reg_list) == Some(head),
        registrations_end(image, reg_list, name),
        interface_factory(image, reg_list, name) is Some,
    ensures
        exists|n: nat|
            {
                &&& image.remote_value_at::<RegNode>(
                    #[trigger] nth_registration(image, head, n),
                ) matches Some(node)
                &&& is_named(image, node, name)
                &&& interface_factory(image, reg_list, name) == image.rva_of(node.factory)
            },
{
    let n = choose|n: nat| search_ends(image, #[trigger] nth_registration(image, head, n), name);
    let first = lemma_search_has_a_first_end(image, head, name, n);
    lemma_search_ends_once(image, head, name, first);
    assert(image.remote_value_at::<RegNode>(nth_registration(image, head, first)) is Some);
}

/// An interface that no registration names has no factory.
pub proof fn law_unregistered_interface_has_no_factory(
    image: Memory,
    reg_list: u64,
    head: u64,
    name: Seq<u8>,
)
    requires
        image.value_at::<u64>(reg_list) == Some(head),
        forall|n: nat|
            image.remote_value_at::<RegNode>(
                #[trigger] nth_registration(image, head, n),
            ) matches Some(node) ==> !is_named(image, node, name),
    ensures
        interface_factory(image, reg_list, name) is None,
{
    let n = choose|n: nat| search_ends_after(image, head, name, n);
    assert(factory_at(image, nth_registration(image, head, n), name) is None);
}

fn has_name(image: &Memory, node: &RegNode, name: &[u8]) -> (r: bool)
    ensures
        r == is_named(*image, *node, name@),
{
    match image.from_remote_array::<u8>(node.name, name.len()) {
        Some(found) => {
            proof {
                law_same_place_is_equality(found@, name@);
            }
            place_of(found.as_slice(), name) == Place::Same
        },
        None => false,
    }
}

/// Traverses the linked list of interface registrations to find the RVA of the
/// factory function for the interface with the given name, which ends with a
/// zero byte.
pub fn find_interface_factory(image: &Memory, reg_list: u64, name: &[u8]) -> (r: Option<u64>)
    requires
        registrations_end(*image, reg_list, name@),
    ensures
        r == interface_factory(*image, reg_list, name@),
        is_right_factory(*image, reg_list, name@, r),
{
    assert(name.len() == name@.len());
    proof {
        law_right_factory_is_found(*image, reg_list, name@);
    }
    let head: u64 = match image.get::<u64>(reg_list) {
        Some(head) => head,
        None => {
            return None;
        },
    };
    let ghost last: nat = choose|n: nat|
        search_ends(*image, #[trigger] nth_registration(*image, head, n), name@);
    let ghost mut n: nat = 0;
    let mut addr: u64 = head;
    loop
        invariant
            image.value_at::<u64>(reg_list) == Some(head),
            is_right_factory(
                *image,
                reg_list,
                name@,
                interface_factory(*image, reg_list, name@),
            ),
            search_ends(*image, nth_registration(*image, head, last), name@),
            n <= last,
            addr == nth_registration(*image, head, n),
            forall|k: nat|
                k < n ==> !search_ends(*image, #[trigger] nth_registration(*image, head, k), name@),
        decreases last - n,
    {
        let node: RegNode = match image.from_remote::<RegNode>(addr) {
            Some(node) => node,
            None => {
                proof {
                    lemma_search_ends_once(*image, head, name@, n);
                }
                return None;
            },
        };
        if has_name(image, &node, name) {
            proof {
                lemma_search_ends_once(*image, head, name@, n);
            }
            return image.get_rva(node.factory);
        }
        if node.next == 0 {
            proof {
                lemma_search_ends_once(*image, head, name@, n);
            }
            return None;
        }
        assert(!search_ends(*image, nth_registration(*image, head, n), name@));
        addr = node.next;
        proof {
            n = n + 1;
        }
    }
}

/// Number of entries that are not set.
spec fn unset(marks: Seq<bool>) -> nat
    decreases marks.len(),
{
    if marks.len() == 0 {
        0
    } else {
        unset(marks.drop_last()) + if marks.last() {
            0nat
        } else {
            1nat
        }
    }
}

proof fn lemma_set_one(marks: Seq<bool>, i: int)
    requires
        0 <= i < marks.len(),
        !marks[i],
    ensures
        unset(marks.update(i, true)) < unset(marks),
    decreases marks.len(),
{
    let after = marks.update(i, true);
    if i == marks.len() - 1 {
        assert(after.drop_last() =~= marks.drop_last());
    } else {
        assert(after.drop_last() =~= marks.drop_last().update(i, true));
        lemma_set_one(marks.drop_last(), i);
    }
}

/// Once a registration comes up a second time no new ones follow.
proof fn lemma_registrations_repeat(image: Memory, head: u64, k: nat, n: nat, i: nat)
    requires
        k < n,
        nth_registration(image, head, k) == nth_registration(image, head, n),
    ensures
        exists|j: nat|
            j < n && #[trigger] nth_registration(image, head, j) == nth_registration(
                image,
                head,
                i,
            ),
    decreases i,
{
    if i >= n {
        lemma_registrations_repeat(image, head, k, n, (i - 1) as nat);
        let j = choose|j: nat|
            j < n && #[trigger] nth_registration(image, head, j) == nth_registration(
                image,
                head,
                (i - 1) as nat,
            );
        assert(nth_registration(image, head, j + 1) == nth_registration(image, head, i));
        if j + 1 == n {
            assert(nth_registration(image, head, k) == nth_registration(image, head, i));
        }
    } else {
        assert(nth_registration(image, head, i) == nth_registration(image, head, i));
    }
}

/// Whether the list of interface registrations comes to an end, or to the
/// interface with the given name. A damaged list may lead back into itself,
/// and a search in it would not return.
pub fn check_registrations_end(image: &Memory, reg_list: u64, name: &[u8]) -> (r: bool)
    ensures
        r == registrations_end(*image, reg_list, name@),
        r == walk_ends(*image, reg_list, name@),
{
    assert(name.len() == name@.len());
    proof {
        law_registrations_end_where_a_walk_does(*image, reg_list, name@);
    }
    let head: u64 = match image.get::<u64>(reg_list) {
        Some(head) => head,
        None => {
            return true;
        },
    };
    let slots: usize = image.as_slice().len() / 8 + 1;
    let mut seen: Vec<bool> = Vec::new();
    while seen.len() < slots
        invariant
            seen@.len() <= slots,
            forall|j: int| 0 <= j < seen@.len() ==> !seen@[j],
        decreases slots - seen@.len(),
    {
        seen.push(false);
    }
    let ghost mut n: nat = 0;
    let mut addr: u64 = head;
    loop
        invariant
            image.value_at::<u64>(reg_list) == Some(head),
            registrations_end(*image, reg_list, name@) == walk_ends(*image, reg_list, name@),
            seen@.len() == slots,
            slots == image.bytes().len() / 8 + 1,
            addr == nth_registration(*image, head, n),
            forall|k: nat|
                k < n ==> !search_ends(*image, #[trigger] nth_registration(*image, head, k), name@),
            forall|j: int|
                0 <= j < seen@.len() && #[trigger] seen@[j] ==> exists|k: nat|
                    k < n && (#[trigger] nth_registration(*image, head, k) - image.base()) / 8 == j,
        decreases unset(seen@),
    {
        let node: RegNode = match image.from_remote::<RegNode>(addr) {
            Some(node) => node,
            None => {
                assert(search_ends(*image, nth_registration(*image, head, n), name@));
                return true;
            },
        };
        if has_name(image, &node, name) || node.next == 0 {
            assert(search_ends(*image, nth_registration(*image, head, n), name@));
            return true;
        }
        assert(!search_ends(*image, nth_registration(*image, head, n), name@));
        match image.get_rva(addr) {
            Some(rva) => {
                let slot: usize = (rva / 8) as usize;
                if seen[slot] {
                    proof {
                        let k = choose|k: nat|
                            k < n && (#[trigger] nth_registration(*image, head, k) - image.base())
                                / 8 == slot as int;
                        let earlier = nth_registration(*image, head, k);
                        assert(!search_ends(*image, earlier, name@));
                        assert((earlier - image.base()) % 8 == 0);
                        assert((addr - image.base()) % 8 == 0);
                        assert(earlier == addr);
                        assert forall|i: nat|
                            !search_ends(*image, #[trigger] nth_registration(*image, head, i), name@) by {
                            lemma_registrations_repeat(*image, head, k, n, i);
                        }
                    }
                    return false;
                }
                proof {
                    lemma_set_one(seen@, slot as int);
                }
                seen.set(slot, true);
                proof {
                    n = n + 1;
                }
                addr = node.next;
            },
            None => {
                return true;
            },
        }
    }
}

/// The instruction `mov r9, [rip + offset]` up to the offset.
pub open spec fn mov_r9_mem() -> Seq<u8> {
    seq![0x4Cu8, 0x8Bu8, 0x0Du8]
}

/// The instruction `lea rax, [rip + offset]` up to the offset.
pub open spec fn lea_rax_mem() -> Seq<u8> {
    seq![0x48u8, 0x8Du8, 0x05u8]
}

/// The name "CreateInterface" with its terminator.
pub open spec fn create_interface_name() -> Seq<u8> {
    seq![
        0x43u8, 0x72u8, 0x65u8, 0x61u8, 0x74u8, 0x65u8, 0x49u8, 0x6Eu8,
        0x74u8, 0x65u8, 0x72u8, 0x66u8, 0x61u8, 0x63u8, 0x65u8, 0x00u8,
    ]
}

/// The name "VEngineCvar007" with its terminator.
pub open spec fn engine_cvar_name() -> Seq<u8> {
    seq![
        0x56u8, 0x45u8, 0x6Eu8, 0x67u8, 0x69u8, 0x6Eu8, 0x65u8, 0x43u8,
        0x76u8, 0x61u8, 0x72u8, 0x30u8, 0x30u8, 0x37u8, 0x00u8,
    ]
}

/// Why the registry could not be found.
#[derive(PartialEq, Eq, Structural, Debug, Clone, Copy)]
pub enum LocateError {
    /// The image exports no function that creates interfaces.
    NoCreateInterface,
    /// That function does not begin by loading the list of registrations.
    NoRegistrationList,
    /// The list of registrations leads back into itself.
    EndlessRegistrations,
    /// The interface is not registered.
    NoFactory,
    /// The factory does not begin by loading the address of the registry.
    NoInstance,
}

impl LocateError {
    /// What to tell the user.
    pub fn message(self) -> (r: &'static str)
        ensures
            r@ == match self {
                LocateError::NoCreateInterface => "Failed to find the CreateInterface function"@,
                LocateError::NoRegistrationList =>
                    "Failed to get the interface registration list."@,
                LocateError::EndlessRegistrations =>
                    "The interface registration list does not end."@,
                LocateError::NoFactory =>
                    "Failed to find the factory for the VEngineCvar007 interface."@,
                LocateError::NoInstance =>
                    "Failed to get the address of the VEngineCvar007 instance."@,
            },
    {
        match self {
            LocateError::NoCreateInterface => "Failed to find the CreateInterface function",
            LocateError::NoRegistrationList => "Failed to get the interface registration list.",
            LocateError::EndlessRegistrations => "The interface registration list does not end.",
            LocateError::NoFactory =>
                "Failed to find the factory for the VEngineCvar007 interface.",
            LocateError::NoInstance =>
                "Failed to get the address of the VEngineCvar007 instance.",
        }
    }
}

/// The RVA of the registry, given the RVA of the exported function that
/// creates interfaces.
pub open spec fn registry_behind(image: Memory, create_interface: Option<u64>) -> Result<
    u64,
    LocateError,
> {
    match create_interface {
        None => Err(LocateError::NoCreateInterface),
        Some(insn) => match addr_operand(image, insn, mov_r9_mem()) {
            None => Err(LocateError::NoRegistrationList),
            Some(reg_list) => if !registrations_end(image, reg_list, engine_cvar_name()) {
                Err(LocateError::EndlessRegistrations)
            } else {
                match interface_factory(image, reg_list, engine_cvar_name()) {
                    None => Err(LocateError::NoFactory),
                    Some(factory) => match addr_operand(image, factory, lea_rax_mem()) {
                        None => Err(LocateError::NoInstance),
                        Some(cvars) => Ok(cvars),
                    },
                }
            },
        },
    }
}

fn follow_code(image: &Memory, create_interface: Option<u64>) -> (r: Result<u64, LocateError>)
    ensures
        r == registry_behind(*image, create_interface),
{
    let insn: u64 = match create_interface {
        Some(insn) => insn,
        None => {
            return Err(LocateError::NoCreateInterface);
        },
    };
    let mov: [u8; 3] = [0x4C, 0x8B, 0x0D];
    assert(mov@ =~= mov_r9_mem());
    let reg_list: u64 = match get_addr_operand(image, insn, mov.as_slice()) {
        Some(reg_list) => reg_list,
        None => {
            return Err(LocateError::NoRegistrationList);
        },
    };
    let name: [u8; 15] = [
        0x56, 0x45, 0x6E, 0x67, 0x69, 0x6E, 0x65, 0x43,
        0x76, 0x61, 0x72, 0x30, 0x30, 0x37, 0x00,
    ];
    assert(name@ =~= engine_cvar_name());
    if !check_registrations_end(image, reg_list, name.as_slice()) {
        return Err(LocateError::EndlessRegistrations);
    }
    let factory: u64 = match find_interface_factory(image, reg_list, name.as_slice()) {
        Some(factory) => factory,
        None => {
            return Err(LocateError::NoFactory);
        },
    };
    let lea: [u8; 3] = [0x48, 0x8D, 0x05];
    assert(lea@ =~= lea_rax_mem());
    match get_addr_operand(image, factory, lea.as_slice()) {
        Some(cvars) => Ok(cvars),
        None => Err(LocateError::NoInstance),
    }
}

/// Follows the code of the image from the exported function that creates
/// interfaces to the registry.
pub fn follow_to_registry(image: &Memory, create_interface: Option<u64>) -> (r: Result<
    u64,
    LocateError,
>)
    ensures
        r == registry_behind(*image, create_interface),
        create_interface is None ==> r == Err::<u64, LocateError>(LocateError::NoCreateInterface),
        create_interface matches Some(insn) ==> is_outcome(*image, insn, r),
        forall|reg_list: u64, addrs: Seq<int>, registry: u64|
            create_interface is Some && #[trigger] code_leads_to(
                *image,
                create_interface->0,
                reg_list,
                addrs,
                registry,
            ) ==> r == Ok::<u64, LocateError>(registry),
{
    proof {
        if create_interface is Some {
            law_each_step_to_the_registry_counts(*image, create_interface->0);
            assert forall|reg_list: u64, addrs: Seq<int>, registry: u64| #[trigger]
                code_leads_to(
                    *image,
                    create_interface->0,
                    reg_list,
                    addrs,
                    registry,
                ) implies registry_behind(*image, create_interface) == Ok::<u64, LocateError>(
                registry,
            ) by {
                law_code_leads_to_the_registry(
                    *image,
                    create_interface->0,
                    reg_list,
                    addrs,
                    registry,
                );
            }
        }
    }
    follow_code(image, create_interface)
}

/// Finds the RVA of the registry in the image.
pub fn locate_cvars(image: &Memory, exports: &ExportDirectory) -> (r: Result<u64, LocateError>)
    ensures
        exists|create_interface: Option<u64>|
            {
                &&& #[trigger] is_export(
                    *image,
                    *exports,
                    create_interface_name(),
                    create_interface,
                )
                &&& r == registry_behind(*image, create_interface)
            },
        forall|i: int, insn: u64, reg_list: u64, addrs: Seq<int>, registry: u64|
            #![trigger is_entry(*image, *exports, i, insn), code_leads_to(
                *image,
                insn,
                reg_list,
                addrs,
                registry,
            )]
            is_entry(*image, *exports, i, insn) && code_leads_to(
                *image,
                insn,
                reg_list,
                addrs,
                registry,
            ) ==> r == Ok::<u64, LocateError>(registry),
        r matches Ok(registry) ==> is_exported_registry(*image, *exports, registry),
        (forall|i: int| !#[trigger] crate::route::has_name(*image, *exports, create_interface(), i)) ==> r
            == Err::<u64, LocateError>(LocateError::NoCreateInterface),
        forall|i: int, insn: u64| #[trigger]
            is_entry(*image, *exports, i, insn) ==> is_outcome(*image, insn, r),
{
    let name: [u8; 16] = [
        0x43, 0x72, 0x65, 0x61, 0x74, 0x65, 0x49, 0x6E,
        0x74, 0x65, 0x72, 0x66, 0x61, 0x63, 0x65, 0x00,
    ];
    assert(name@ =~= create_interface_name());
    let create_interface: Option<u64> = find_export(image, exports, name.as_slice());
    proof {
        law_registry_is_behind_an_export(*image, *exports, create_interface);
        assert forall|i: int, insn: u64, reg_list: u64, addrs: Seq<int>, registry: u64|
            #![trigger is_entry(*image, *exports, i, insn), code_leads_to(
                *image,
                insn,
                reg_list,
                addrs,
                registry,
            )]
            is_entry(*image, *exports, i, insn) && code_leads_to(
                *image,
                insn,
                reg_list,
                addrs,
                registry,
            ) implies registry_behind(*image, create_interface) == Ok::<u64, LocateError>(
            registry,
        ) by {
            law_registry_is_located(
                *image,
                *exports,
                create_interface,
                i,
                insn,
                reg_list,
                addrs,
                registry,
            );
        }
    }
    follow_to_registry(image, create_interface)
}

} // verus!
