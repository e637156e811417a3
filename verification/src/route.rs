//! The way to the registry, byte by byte.
//!
//! The laws here follow the way from the export table of an image to the
//! registry over the bytes of the image alone.
use crate::image::{
    addr_operand, create_interface_name, engine_cvar_name, function_at, in_order,
    interface_factory, is_export, is_named, law_places_are_ordered, law_same_place_is_equality,
    lea_rax_mem, le_signed, lemma_search_ends_once, lemma_search_has_a_first_end, mov_r9_mem,
    name_place, nth_registration, place, registrations_end, registry_behind, search_ends,
    search_ends_after, search_returns, ExportDirectory, LocateError, RegNode,
};
use crate::layout::{
    dword_at, law_array_is_read_at_its_offset, law_bytes_in_a_chunk, law_numbers_in_a_chunk,
    law_registration_layout, lemma_numbers_in, qword_at, word_at,
};
use crate::plain::{slice_at, Plain};
use crate::remote::Memory;
use vstd::prelude::*;

verus! {

/// Byte strings stand in dictionary order by the values of their bytes. The
/// first place where they differ decides, and one that ends there stands before
/// one that goes on.
pub proof fn law_first_difference_decides(a: Seq<u8>, b: Seq<u8>, i: int)
    requires
        0 <= i <= a.len(),
        i <= b.len(),
        forall|j: int| 0 <= j < i ==> a[j] == b[j],
    ensures
        i < a.len() && i < b.len() && a[i] < b[i] ==> place(a, b) is Before,
        i < a.len() && i < b.len() && a[i] > b[i] ==> place(a, b) is After,
        i == a.len() && i < b.len() ==> place(a, b) is Before,
        i < a.len() && i == b.len() ==> place(a, b) is After,
        i == a.len() && i == b.len() ==> place(a, b) is Same,
    decreases i,
{
    if i > 0 {
        law_first_difference_decides(a.drop_first(), b.drop_first(), i - 1);
    }
}

/// Whether the bytes `what` lie at offset `at`.
pub open spec fn has_bytes(b: Seq<u8>, at: int, what: Seq<u8>) -> bool {
    &&& 0 <= at < b.len()
    &&& at + what.len() <= b.len()
    &&& forall|j: int| 0 <= j < what.len() ==> b[at + j] == #[trigger] what[j]
}

/// The signed number in the four bytes from `at` on.
pub open spec fn signed_at(b: Seq<u8>, at: int) -> int {
    if b[at + 3] < 0x80 {
        dword_at(b, at)
    } else {
        dword_at(b, at) - 0x1_0000_0000
    }
}

/// Whether the instruction at `at` has the bytes `prefix`, then an offset of
/// four bytes that leads from the end of the instruction to `target`.
pub open spec fn insn_leads_to(b: Seq<u8>, at: int, prefix: Seq<u8>, target: int) -> bool {
    &&& has_bytes(b, at, prefix)
    &&& at + prefix.len() + 4 <= b.len()
    &&& target == at + prefix.len() + 4 + signed_at(b, at + prefix.len())
    &&& 0 <= target <= u64::MAX
}

/// The operand of an instruction lies as far behind the end of the instruction
/// as the four bytes behind the prefix say. There is none where the image holds
/// no such instruction, or where no offset is that large or that small.
pub proof fn law_operand_counts_from_the_end_of_the_instruction(
    image: Memory,
    insn_rva: u64,
    prefix: Seq<u8>,
)
    requires
        prefix.len() + 4 <= usize::MAX,
    ensures
        match addr_operand(image, insn_rva, prefix) {
            Some(target) => insn_leads_to(image.bytes(), insn_rva as int, prefix, target as int),
            None => forall|target: int| !#[trigger] insn_leads_to(
                image.bytes(),
                insn_rva as int,
                prefix,
                target,
            ),
        },
{
    let b = image.bytes();
    let at = insn_rva as int;
    let len = prefix.len() + 4;
    law_bytes_in_a_chunk(image, insn_rva, len as usize);
    if let Some(insn) = image.array_at::<u8>(insn_rva, len as usize) {
        let offset = slice_at(insn, prefix.len() as int, 4);
        crate::plain::lemma_le_value_4(offset);
        assert(offset =~= b.subrange(at + prefix.len(), at + len));
        assert(le_signed(offset) == signed_at(b, at + prefix.len()));
        if prefix.is_prefix_of(insn) {
            assert forall|j: int| 0 <= j < prefix.len() implies b[at + j] == #[trigger] prefix[j] by {
                assert(prefix[j] == insn.subrange(0, prefix.len() as int)[j]);
            }
        } else if has_bytes(b, at, prefix) {
            assert(prefix =~= insn.subrange(0, prefix.len() as int));
        }
    }
}

/// An instruction that lies `k` bytes further on has its operand `k` bytes
/// further on.
pub proof fn law_operand_moves_with_its_instruction(
    image: Memory,
    other: Memory,
    insn_rva: u64,
    k: u64,
    prefix: Seq<u8>,
)
    requires
        prefix.len() + 4 <= usize::MAX,
        insn_rva + prefix.len() + 4 <= image.bytes().len(),
        insn_rva + k + prefix.len() + 4 <= other.bytes().len(),
        forall|j: int|
            0 <= j < prefix.len() + 4 ==> #[trigger] image.bytes()[insn_rva + j]
                == other.bytes()[insn_rva + k + j],
        addr_operand(image, insn_rva, prefix) matches Some(target) && target + k <= u64::MAX,
    ensures
        insn_rva + k <= u64::MAX,
        addr_operand(other, (insn_rva + k) as u64, prefix) == Some(
            (addr_operand(image, insn_rva, prefix)->0 + k) as u64,
        ),
{
    let target = addr_operand(image, insn_rva, prefix)->0;
    let b = image.bytes();
    let c = other.bytes();
    let there = insn_rva + k;
    other.fits_in_memory();
    law_operand_counts_from_the_end_of_the_instruction(image, insn_rva, prefix);
    law_operand_counts_from_the_end_of_the_instruction(other, there as u64, prefix);
    assert forall|j: int| 0 <= j < prefix.len() implies c[there + j] == #[trigger] prefix[j] by {
        assert(b[insn_rva + j] == c[insn_rva + k + j]);
    }
    let p = prefix.len() as int;
    assert(b[insn_rva + p] == c[insn_rva + k + p]);
    assert(b[insn_rva + (p + 1)] == c[insn_rva + k + (p + 1)]);
    assert(b[insn_rva + (p + 2)] == c[insn_rva + k + (p + 2)]);
    assert(b[insn_rva + (p + 3)] == c[insn_rva + k + (p + 3)]);
    assert(insn_leads_to(c, there, prefix, target + k));
}

/// Whether the table of the RVAs of the names lies in the image.
pub open spec fn has_name_table(image: Memory, exports: ExportDirectory) -> bool {
    &&& exports.address_of_names % 4 == 0
    &&& exports.address_of_names < image.bytes().len()
    &&& exports.address_of_names + 4 * exports.number_of_names <= image.bytes().len()
}

/// The RVA of name `i`.
pub open spec fn name_rva(image: Memory, exports: ExportDirectory, i: int) -> int {
    dword_at(image.bytes(), exports.address_of_names + 4 * i)
}

/// Whether export `i` has the name `name`.
pub open spec fn has_name(image: Memory, exports: ExportDirectory, name: Seq<u8>, i: int) -> bool {
    &&& has_name_table(image, exports)
    &&& 0 <= i < exports.number_of_names
    &&& has_bytes(image.bytes(), name_rva(image, exports, i), name)
}

/// Whether `len` bytes lie at offset `at`.
pub open spec fn reaches(b: Seq<u8>, at: int, len: nat) -> bool {
    at < b.len() && at + len <= b.len()
}

/// Whether the `len` bytes at `x` are the ones at `y`, or have a smaller byte
/// where they first differ.
pub open spec fn ascends(b: Seq<u8>, x: int, y: int, len: nat) -> bool {
    ||| forall|j: int| 0 <= j < len ==> #[trigger] b[x + j] == b[y + j]
    ||| exists|d: int|
        {
            &&& 0 <= d < len
            &&& #[trigger] b[x + d] < b[y + d]
            &&& forall|j: int| 0 <= j < d ==> #[trigger] b[x + j] == b[y + j]
        }
}

/// Whether the first `len` bytes of the names ascend by the values of their
/// bytes, and names without that many bytes come last.
pub open spec fn names_ascend(image: Memory, exports: ExportDirectory, len: nat) -> bool {
    forall|i: int, j: int|
        0 <= i <= j < exports.number_of_names && reaches(
            image.bytes(),
            #[trigger] name_rva(image, exports, j),
            len,
        ) ==> {
            &&& reaches(image.bytes(), #[trigger] name_rva(image, exports, i), len)
            &&& ascends(
                image.bytes(),
                name_rva(image, exports, i),
                name_rva(image, exports, j),
                len,
            )
        }
}

/// The RVA of the function of name `i`: the number of two bytes at position `i`
/// of the ordinals is its position among the numbers of four bytes of the
/// functions.
pub open spec fn function_of_name(image: Memory, exports: ExportDirectory, i: int) -> Option<int> {
    let b = image.bytes();
    let ordinal_at = exports.address_of_name_ordinals + 2 * i;
    let function_at = exports.address_of_functions + 4 * word_at(b, ordinal_at);
    if ordinal_at % 2 != 0 || ordinal_at + 2 > b.len() || function_at % 4 != 0 || function_at + 4
        > b.len() {
        None
    } else {
        Some(dword_at(b, function_at))
    }
}

/// Whether `r` is the function of a name.
pub open spec fn is_function(r: Option<u64>, function: Option<int>) -> bool {
    match (r, function) {
        (Some(rva), Some(expected)) => rva == expected,
        (None, None) => true,
        _ => false,
    }
}

proof fn lemma_function_of_name(image: Memory, exports: ExportDirectory, i: int)
    requires
        0 <= i < exports.number_of_names,
    ensures
        is_function(
            match function_at(image, exports, i) {
                Some(rva) => Some(rva as u64),
                None => None,
            },
            function_of_name(image, exports, i),
        ),
{
    let ordinal_at = exports.address_of_name_ordinals + 2 * i;
    law_numbers_in_a_chunk(image, ordinal_at as u64);
    if let Some(ordinal) = image.value_at::<u16>(ordinal_at as u64) {
        law_numbers_in_a_chunk(image, (exports.address_of_functions + 4 * ordinal) as u64);
    }
}

proof fn lemma_name_table(image: Memory, exports: ExportDirectory)
    ensures
        match image.array_at::<u32>(
            exports.address_of_names as u64,
            exports.number_of_names as usize,
        ) {
            Some(names) => {
                &&& has_name_table(image, exports)
                &&& names.len() == exports.number_of_names
                &&& forall|i: int|
                    0 <= i < names.len() ==> #[trigger] names[i] == name_rva(image, exports, i)
            },
            None => !has_name_table(image, exports),
        },
{
    let count = exports.number_of_names as usize;
    let b = image.bytes();
    law_array_is_read_at_its_offset::<u32>(image, exports.address_of_names as u64, count);
    if let Some(names) = image.array_at::<u32>(exports.address_of_names as u64, count) {
        assert forall|i: int| 0 <= i < names.len() implies #[trigger] names[i] == name_rva(
            image,
            exports,
            i,
        ) by {
            lemma_numbers_in(b, exports.address_of_names + 4 * i);
        }
    }
}

proof fn lemma_name_place(image: Memory, rva: u32, name: Seq<u8>)
    requires
        name.len() <= usize::MAX,
    ensures
        name_place(image, rva, name) is Same <==> has_bytes(image.bytes(), rva as int, name),
{
    let b = image.bytes();
    law_bytes_in_a_chunk(image, rva as u64, name.len() as usize);
    if let Some(found) = image.array_at::<u8>(rva as u64, name.len() as usize) {
        law_same_place_is_equality(found, name);
        if has_bytes(b, rva as int, name) {
            assert(found =~= name);
        } else if found == name {
            assert forall|j: int| 0 <= j < name.len() implies b[rva + j] == #[trigger] name[j] by {
                assert(found[j] == b[rva + j]);
            }
        }
    }
}

proof fn lemma_ascending_names_are_in_order(
    image: Memory,
    exports: ExportDirectory,
    names: Seq<u32>,
    name: Seq<u8>,
)
    requires
        name.len() <= usize::MAX,
        names_ascend(image, exports, name.len()),
        names.len() == exports.number_of_names,
        forall|i: int| 0 <= i < names.len() ==> #[trigger] names[i] == name_rva(image, exports, i),
    ensures
        in_order(image, names, name),
{
    let b = image.bytes();
    let len = name.len() as usize;
    assert forall|i: int, j: int| 0 <= i <= j < names.len() implies (#[trigger] name_place(
        image,
        names[i],
        name,
    )).rank() <= (#[trigger] name_place(image, names[j], name)).rank() by {
        let x = name_rva(image, exports, i);
        let y = name_rva(image, exports, j);
        assert(names[i] == x && names[j] == y);
        law_bytes_in_a_chunk(image, names[i] as u64, len);
        law_bytes_in_a_chunk(image, names[j] as u64, len);
        if reaches(b, y, name.len()) {
            assert(reaches(b, x, name.len()) && ascends(b, x, y, name.len()));
            let first = b.subrange(x, x + len);
            let second = b.subrange(y, y + len);
            if forall|k: int| 0 <= k < len ==> #[trigger] b[x + k] == b[y + k] {
                assert forall|k: int| 0 <= k < len implies first[k] == second[k] by {
                    assert(b[x + k] == b[y + k]);
                }
                assert(first =~= second);
            } else {
                let d = choose|d: int|
                    {
                        &&& 0 <= d < name.len()
                        &&& #[trigger] b[x + d] < b[y + d]
                        &&& forall|k: int| 0 <= k < d ==> #[trigger] b[x + k] == b[y + k]
                    };
                assert forall|k: int| 0 <= k < d implies first[k] == second[k] by {
                    assert(b[x + k] == b[y + k]);
                }
                law_first_difference_decides(first, second, d);
            }
            law_same_place_is_equality(first, second);
            law_places_are_ordered(first, second, name);
        }
    }
}

/// Whether `r` is the function of an export named `name` where it is something,
/// and where the names ascend by the values of their bytes and one of them is
/// `name`.
pub open spec fn finds_named_function(
    image: Memory,
    exports: ExportDirectory,
    name: Seq<u8>,
    r: Option<u64>,
) -> bool {
    r is Some || names_ascend(image, exports, name.len()) && (exists|i: int| #[trigger]
        has_name(image, exports, name, i)) ==> exists|i: int| #[trigger]
        has_name(image, exports, name, i) && is_function(r, function_of_name(image, exports, i))
}

/// What a search for an exported name gives is the function of an export of
/// that name, or nothing. Where the names ascend by the values of their bytes,
/// a name that occurs among them is found.
pub proof fn law_search_finds_the_named_function(
    image: Memory,
    exports: ExportDirectory,
    name: Seq<u8>,
    r: Option<u64>,
)
    requires
        name.len() <= usize::MAX,
        is_export(image, exports, name, r),
    ensures
        finds_named_function(image, exports, name, r),
{
    lemma_name_table(image, exports);
    let table = image.array_at::<u32>(
        exports.address_of_names as u64,
        exports.number_of_names as usize,
    );
    if table is Some {
        let names = table->0;
        if exists|i: int|
            {
                &&& 0 <= i < names.len()
                &&& name_place(image, #[trigger] names[i], name) is Same
                &&& r == match function_at(image, exports, i) {
                    Some(rva) => Some(rva as u64),
                    None => None,
                }
            } {
            let i = choose|i: int|
                {
                    &&& 0 <= i < names.len()
                    &&& name_place(image, #[trigger] names[i], name) is Same
                    &&& r == match function_at(image, exports, i) {
                        Some(rva) => Some(rva as u64),
                        None => None,
                    }
                };
            lemma_name_place(image, names[i], name);
            lemma_function_of_name(image, exports, i);
            assert(has_name(image, exports, name, i));
        } else if names_ascend(image, exports, name.len()) && exists|i: int| #[trigger]
            has_name(image, exports, name, i) {
            let i = choose|i: int| #[trigger] has_name(image, exports, name, i);
            lemma_ascending_names_are_in_order(image, exports, names, name);
            lemma_name_place(image, names[i], name);
            assert(false);
        }
    }
}

/// In a table whose names ascend by the values of their bytes, a name that
/// occurs once leads to its function.
pub proof fn law_ascending_name_leads_to_its_function(
    image: Memory,
    exports: ExportDirectory,
    name: Seq<u8>,
    i: int,
    r: Option<u64>,
)
    requires
        name.len() <= usize::MAX,
        names_ascend(image, exports, name.len()),
        has_name(image, exports, name, i),
        forall|j: int| #[trigger] has_name(image, exports, name, j) ==> j == i,
        is_export(image, exports, name, r),
    ensures
        is_function(r, function_of_name(image, exports, i)),
{
    law_search_finds_the_named_function(image, exports, name, r);
}

/// Whether a registration lies at the address `addr`.
pub open spec fn is_registration(image: Memory, addr: int) -> bool {
    &&& image.base() <= addr
    &&& (addr - image.base()) % 8 == 0
    &&& addr - image.base() + 24 <= image.bytes().len()
}

/// The number in the first eight bytes of the registration at `addr`, the
/// address of its factory.
pub open spec fn factory_of(image: Memory, addr: int) -> int {
    qword_at(image.bytes(), addr - image.base())
}

/// The number in the last eight bytes of the registration at `addr`, the
/// address of the next one.
pub open spec fn next_of(image: Memory, addr: int) -> int {
    qword_at(image.bytes(), addr - image.base() + 16)
}

/// Whether a registration lies at `addr` whose middle eight bytes are the
/// address of the bytes `name`.
pub open spec fn is_registered(image: Memory, addr: int, name: Seq<u8>) -> bool {
    let name_addr = qword_at(image.bytes(), addr - image.base() + 8);
    &&& is_registration(image, addr)
    &&& image.base() <= name_addr
    &&& has_bytes(image.bytes(), name_addr - image.base(), name)
}

/// Whether the links from the list at `reg_list` lead to the addresses `addrs`
/// in turn, past registrations with other names than `name`.
pub open spec fn is_walk(image: Memory, reg_list: u64, name: Seq<u8>, addrs: Seq<int>) -> bool {
    &&& reg_list % 8 == 0
    &&& reg_list + 8 <= image.bytes().len()
    &&& addrs.len() > 0
    &&& addrs[0] == qword_at(image.bytes(), reg_list as int)
    &&& forall|i: int|
        0 <= i < addrs.len() - 1 ==> {
            &&& is_registration(image, #[trigger] addrs[i])
            &&& !is_registered(image, addrs[i], name)
            &&& next_of(image, addrs[i]) == addrs[i + 1]
            &&& next_of(image, addrs[i]) != 0
        }
}

/// Whether no registration with the name `name` lies at `addr`, nor any link
/// that leads on.
pub open spec fn is_dead_end(image: Memory, addr: int, name: Seq<u8>) -> bool {
    &&& !is_registered(image, addr, name)
    &&& is_registration(image, addr) ==> next_of(image, addr) == 0
}

/// Bytes are read from an offset if and only if they lie there.
proof fn lemma_has_bytes(image: Memory, rva: u64, what: Seq<u8>)
    requires
        what.len() <= usize::MAX,
    ensures
        (image.array_at::<u8>(rva, what.len() as usize) == Some(what)) == has_bytes(
            image.bytes(),
            rva as int,
            what,
        ),
{
    let b = image.bytes();
    law_bytes_in_a_chunk(image, rva, what.len() as usize);
    if let Some(found) = image.array_at::<u8>(rva, what.len() as usize) {
        if has_bytes(b, rva as int, what) {
            assert(found =~= what);
        } else if found == what {
            assert forall|j: int| 0 <= j < what.len() implies b[rva + j] == #[trigger] what[j] by {
                assert(found[j] == b[rva + j]);
            }
        }
    }
}

/// The registration at an offset is spelled by the bytes there.
proof fn lemma_registration_bytes(image: Memory, rva: u64)
    ensures
        match image.value_at::<RegNode>(rva) {
            Some(node) => {
                &&& rva % 8 == 0
                &&& rva + 24 <= image.bytes().len()
                &&& node.factory == qword_at(image.bytes(), rva as int)
                &&& node.name == qword_at(image.bytes(), rva + 8)
                &&& node.next == qword_at(image.bytes(), rva + 16)
            },
            None => rva % 8 != 0 || rva + 24 > image.bytes().len(),
        },
{
    if image.value_at::<RegNode>(rva) is Some {
        law_registration_layout(slice_at(image.bytes(), rva as int, 24));
    }
}

proof fn lemma_registration(image: Memory, addr: u64, name: Seq<u8>)
    requires
        name.len() <= usize::MAX,
    ensures
        match image.remote_value_at::<RegNode>(addr) {
            Some(node) => {
                &&& is_registration(image, addr as int)
                &&& node.factory == factory_of(image, addr as int)
                &&& node.next == next_of(image, addr as int)
                &&& is_named(image, node, name) == is_registered(image, addr as int, name)
            },
            None => !is_registration(image, addr as int),
        },
{
    if addr >= image.base() {
        let rva = (addr - image.base()) as u64;
        lemma_registration_bytes(image, rva);
        if let Some(node) = image.value_at::<RegNode>(rva) {
            if node.name >= image.base() {
                lemma_has_bytes(image, (node.name - image.base()) as u64, name);
            }
        }
    }
}

proof fn lemma_walk_is_nth(
    image: Memory,
    reg_list: u64,
    head: u64,
    name: Seq<u8>,
    addrs: Seq<int>,
    i: nat,
)
    requires
        name.len() <= usize::MAX,
        is_walk(image, reg_list, name, addrs),
        image.value_at::<u64>(reg_list) == Some(head),
        i < addrs.len(),
    ensures
        nth_registration(image, head, i) == addrs[i as int],
        i + 1 < addrs.len() ==> !search_ends(image, nth_registration(image, head, i), name),
    decreases i,
{
    law_numbers_in_a_chunk(image, reg_list);
    if i > 0 {
        let before = (i - 1) as nat;
        lemma_walk_is_nth(image, reg_list, head, name, addrs, before);
        assert(is_registration(image, addrs[before as int]));
        lemma_registration(image, nth_registration(image, head, before), name);
    }
    if i + 1 < addrs.len() {
        assert(is_registration(image, addrs[i as int]));
        lemma_registration(image, nth_registration(image, head, i), name);
    }
}

proof fn lemma_walk_ends(
    image: Memory,
    reg_list: u64,
    name: Seq<u8>,
    addrs: Seq<int>,
) -> (head: u64)
    requires
        name.len() <= usize::MAX,
        is_walk(image, reg_list, name, addrs),
        is_registered(image, addrs.last(), name) || is_dead_end(image, addrs.last(), name),
    ensures
        image.value_at::<u64>(reg_list) == Some(head),
        search_ends_after(image, head, name, (addrs.len() - 1) as nat),
        nth_registration(image, head, (addrs.len() - 1) as nat) == addrs.last(),
        registrations_end(image, reg_list, name),
{
    law_numbers_in_a_chunk(image, reg_list);
    let head = image.value_at::<u64>(reg_list)->0;
    let n = (addrs.len() - 1) as nat;
    lemma_walk_is_nth(image, reg_list, head, name, addrs, n);
    lemma_registration(image, nth_registration(image, head, n), name);
    assert forall|k: nat| k < n implies !search_ends(
        image,
        #[trigger] nth_registration(image, head, k),
        name,
    ) by {
        lemma_walk_is_nth(image, reg_list, head, name, addrs, k);
    }
    assert(search_ends(image, nth_registration(image, head, n), name));
    assert(search_returns(image, head, name));
    head
}

/// The factory of an interface is the one that the first registration with its
/// name gives. It lies as far behind the start of the image as the address in
/// the first eight bytes of that registration does.
pub proof fn law_factory_is_the_one_of_the_registration(
    image: Memory,
    reg_list: u64,
    name: Seq<u8>,
    addrs: Seq<int>,
)
    requires
        name.len() <= usize::MAX,
        is_walk(image, reg_list, name, addrs),
        is_registered(image, addrs.last(), name),
    ensures
        registrations_end(image, reg_list, name),
        match interface_factory(image, reg_list, name) {
            Some(factory) => image.base() + factory == factory_of(image, addrs.last()),
            None => factory_of(image, addrs.last()) < image.base(),
        },
{
    let head = lemma_walk_ends(image, reg_list, name, addrs);
    let n = (addrs.len() - 1) as nat;
    lemma_search_ends_once(image, head, name, n);
    lemma_registration(image, nth_registration(image, head, n), name);
}

/// Where the registrations end, or lead out of the image, before one with the
/// name comes up, the interface has no factory. The same holds where there is
/// no list.
pub proof fn law_dead_end_has_no_factory(
    image: Memory,
    reg_list: u64,
    name: Seq<u8>,
    addrs: Seq<int>,
)
    requires
        name.len() <= usize::MAX,
        reg_list % 8 != 0 || reg_list + 8 > image.bytes().len() || is_walk(
            image,
            reg_list,
            name,
            addrs,
        ) && is_dead_end(image, addrs.last(), name),
    ensures
        registrations_end(image, reg_list, name),
        interface_factory(image, reg_list, name) is None,
{
    law_numbers_in_a_chunk(image, reg_list);
    if reg_list % 8 == 0 && reg_list + 8 <= image.bytes().len() {
        let head = lemma_walk_ends(image, reg_list, name, addrs);
        let n = (addrs.len() - 1) as nat;
        lemma_search_ends_once(image, head, name, n);
        lemma_registration(image, nth_registration(image, head, n), name);
    }
}

/// Whether `r` is the RVA of the factory of the first registration with the name
/// `name`, or nothing where its factory lies before the image, or where there is
/// no such registration or no list.
pub open spec fn is_right_factory(
    image: Memory,
    reg_list: u64,
    name: Seq<u8>,
    r: Option<u64>,
) -> bool {
    &&& forall|addrs: Seq<int>| #[trigger]
        is_walk(image, reg_list, name, addrs) && is_registered(image, addrs.last(), name)
            ==> match r {
            Some(factory) => image.base() + factory == factory_of(image, addrs.last()),
            None => factory_of(image, addrs.last()) < image.base(),
        }
    &&& forall|addrs: Seq<int>| #[trigger]
        is_walk(image, reg_list, name, addrs) && is_dead_end(image, addrs.last(), name) ==> r
            is None
    &&& reg_list % 8 != 0 || reg_list + 8 > image.bytes().len() ==> r is None
}

/// The factory of an interface is the right one on every walk along the
/// registrations.
pub proof fn law_right_factory_is_found(image: Memory, reg_list: u64, name: Seq<u8>)
    requires
        name.len() <= usize::MAX,
    ensures
        is_right_factory(image, reg_list, name, interface_factory(image, reg_list, name)),
{
    let r = interface_factory(image, reg_list, name);
    assert forall|addrs: Seq<int>| #[trigger]
        is_walk(image, reg_list, name, addrs) && is_registered(
            image,
            addrs.last(),
            name,
        ) implies match r {
        Some(factory) => image.base() + factory == factory_of(image, addrs.last()),
        None => factory_of(image, addrs.last()) < image.base(),
    } by {
        law_factory_is_the_one_of_the_registration(image, reg_list, name, addrs);
    }
    assert forall|addrs: Seq<int>| #[trigger]
        is_walk(image, reg_list, name, addrs) && is_dead_end(
            image,
            addrs.last(),
            name,
        ) implies r is None by {
        law_dead_end_has_no_factory(image, reg_list, name, addrs);
    }
    if reg_list % 8 != 0 || reg_list + 8 > image.bytes().len() {
        law_dead_end_has_no_factory(image, reg_list, name, seq![]);
    }
}

/// Whether a search for `name` from the list at `reg_list` comes to a
/// registration with that name or to a dead end.
pub open spec fn walk_ends(image: Memory, reg_list: u64, name: Seq<u8>) -> bool {
    ||| reg_list % 8 != 0
    ||| reg_list + 8 > image.bytes().len()
    ||| exists|addrs: Seq<int>| #[trigger]
        is_walk(image, reg_list, name, addrs) && (is_registered(image, addrs.last(), name)
            || is_dead_end(image, addrs.last(), name))
}

/// The registrations end for a search if the links lead to a registration with
/// the name, or to a dead end.
pub proof fn law_registrations_end_where_a_walk_does(image: Memory, reg_list: u64, name: Seq<u8>)
    requires
        name.len() <= usize::MAX,
    ensures
        registrations_end(image, reg_list, name) == walk_ends(image, reg_list, name),
{
    law_numbers_in_a_chunk(image, reg_list);
    if reg_list % 8 == 0 && reg_list + 8 <= image.bytes().len() {
        let head = image.value_at::<u64>(reg_list)->0;
        if registrations_end(image, reg_list, name) {
            let n = choose|n: nat|
                search_ends(image, #[trigger] nth_registration(image, head, n), name);
            let first = lemma_search_has_a_first_end(image, head, name, n);
            let addrs = Seq::new(first + 1, |i: int| nth_registration(image, head, i as nat) as int);
            assert forall|i: int| 0 <= i < addrs.len() - 1 implies {
                &&& is_registration(image, #[trigger] addrs[i])
                &&& !is_registered(image, addrs[i], name)
                &&& next_of(image, addrs[i]) == addrs[i + 1]
                &&& next_of(image, addrs[i]) != 0
            } by {
                let here = nth_registration(image, head, i as nat);
                assert(!search_ends(image, here, name));
                lemma_registration(image, here, name);
                assert(nth_registration(image, head, (i + 1) as nat) == next_of(image, addrs[i]));
            }
            lemma_registration(image, nth_registration(image, head, first), name);
            assert(is_walk(image, reg_list, name, addrs));
            assert(addrs.last() == nth_registration(image, head, first));
        }
        if walk_ends(image, reg_list, name) {
            let addrs = choose|addrs: Seq<int>| #[trigger]
                is_walk(image, reg_list, name, addrs) && (is_registered(image, addrs.last(), name)
                    || is_dead_end(image, addrs.last(), name));
            let found = lemma_walk_ends(image, reg_list, name, addrs);
        }
    }
}

/// The instruction `mov r9, [rip + offset]` at `at` leads to `target`.
pub open spec fn mov_leads_to(b: Seq<u8>, at: int, target: int) -> bool {
    insn_leads_to(b, at, seq![0x4Cu8, 0x8Bu8, 0x0Du8], target)
}

/// The instruction `lea rax, [rip + offset]` at `at` leads to `target`.
pub open spec fn lea_leads_to(b: Seq<u8>, at: int, target: int) -> bool {
    insn_leads_to(b, at, seq![0x48u8, 0x8Du8, 0x05u8], target)
}

/// The factory of the registration at `addr` begins with an instruction that
/// leads to `target`.
pub open spec fn factory_leads_to(image: Memory, addr: int, target: int) -> bool {
    lea_leads_to(image.bytes(), factory_of(image, addr) - image.base(), target)
}

/// The bytes of "CreateInterface" and a zero byte.
pub open spec fn create_interface() -> Seq<u8> {
    seq![
        0x43u8, 0x72u8, 0x65u8, 0x61u8, 0x74u8, 0x65u8, 0x49u8, 0x6Eu8,
        0x74u8, 0x65u8, 0x72u8, 0x66u8, 0x61u8, 0x63u8, 0x65u8, 0x00u8,
    ]
}

/// The bytes of "VEngineCvar007" and a zero byte.
pub open spec fn engine_cvar() -> Seq<u8> {
    seq![
        0x56u8, 0x45u8, 0x6Eu8, 0x67u8, 0x69u8, 0x6Eu8, 0x65u8, 0x43u8,
        0x76u8, 0x61u8, 0x72u8, 0x30u8, 0x30u8, 0x37u8, 0x00u8,
    ]
}

/// Whether the code at `insn` loads the list of registrations, the first
/// registration of VEngineCvar007 in it has its factory in the image, and the
/// factory loads the address of `registry`.
pub open spec fn code_leads_to(
    image: Memory,
    insn: u64,
    reg_list: u64,
    addrs: Seq<int>,
    registry: u64,
) -> bool {
    &&& mov_leads_to(image.bytes(), insn as int, reg_list as int)
    &&& is_walk(image, reg_list, engine_cvar(), addrs)
    &&& is_registered(image, addrs.last(), engine_cvar())
    &&& image.base() <= factory_of(image, addrs.last())
    &&& factory_leads_to(image, addrs.last(), registry as int)
}

/// Whether the registry is the one that the code at `insn` leads to.
pub open spec fn is_behind(image: Memory, insn: u64, registry: u64) -> bool {
    exists|reg_list: u64, addrs: Seq<int>| #[trigger]
        code_leads_to(image, insn, reg_list, addrs, registry)
}

/// Whether the code at `insn` loads a list of registrations that leads back
/// into itself before VEngineCvar007 comes up.
pub open spec fn leads_in_circles(image: Memory, insn: u64) -> bool {
    exists|reg_list: u64| #[trigger]
        mov_leads_to(image.bytes(), insn as int, reg_list as int) && !walk_ends(
            image,
            reg_list,
            engine_cvar(),
        )
}

/// Whether the code at `insn` loads a list of registrations that ends, but has
/// no factory of VEngineCvar007 in the image.
pub open spec fn leads_to_no_factory(image: Memory, insn: u64) -> bool {
    exists|reg_list: u64|
        {
            &&& #[trigger] mov_leads_to(image.bytes(), insn as int, reg_list as int)
            &&& walk_ends(image, reg_list, engine_cvar())
            &&& forall|addrs: Seq<int>| #[trigger]
                is_walk(image, reg_list, engine_cvar(), addrs) && is_registered(
                    image,
                    addrs.last(),
                    engine_cvar(),
                ) ==> factory_of(image, addrs.last()) < image.base()
        }
}

/// Whether the code at `insn` leads to a factory that does not begin by loading
/// an address.
pub open spec fn leads_to_no_registry(image: Memory, insn: u64) -> bool {
    exists|reg_list: u64, addrs: Seq<int>|
        {
            &&& mov_leads_to(image.bytes(), insn as int, reg_list as int)
            &&& #[trigger] is_walk(image, reg_list, engine_cvar(), addrs)
            &&& is_registered(image, addrs.last(), engine_cvar())
            &&& image.base() <= factory_of(image, addrs.last())
            &&& forall|target: int| !#[trigger] factory_leads_to(image, addrs.last(), target)
        }
}

proof fn lemma_names_and_code()
    ensures
        create_interface_name() == create_interface(),
        engine_cvar_name() == engine_cvar(),
        mov_r9_mem() == seq![0x4Cu8, 0x8Bu8, 0x0Du8],
        lea_rax_mem() == seq![0x48u8, 0x8Du8, 0x05u8],
{
    assert(create_interface_name() =~= create_interface());
    assert(engine_cvar_name() =~= engine_cvar());
    assert(mov_r9_mem() =~= seq![0x4Cu8, 0x8Bu8, 0x0Du8]);
    assert(lea_rax_mem() =~= seq![0x48u8, 0x8Du8, 0x05u8]);
}

/// The registry that is found is the one that the code leads to.
pub proof fn law_code_leads_to_the_registry(
    image: Memory,
    insn: u64,
    reg_list: u64,
    addrs: Seq<int>,
    registry: u64,
)
    requires
        code_leads_to(image, insn, reg_list, addrs, registry),
    ensures
        registry_behind(image, Some(insn)) == Ok::<u64, LocateError>(registry),
{
    lemma_names_and_code();
    law_operand_counts_from_the_end_of_the_instruction(image, insn, mov_r9_mem());
    law_factory_is_the_one_of_the_registration(image, reg_list, engine_cvar(), addrs);
    let factory = (factory_of(image, addrs.last()) - image.base()) as u64;
    law_operand_counts_from_the_end_of_the_instruction(image, factory, lea_rax_mem());
}

/// Whether the names of the exports ascend, export `i` is the only one named
/// CreateInterface, and its function is at `insn`.
pub open spec fn is_entry(image: Memory, exports: ExportDirectory, i: int, insn: u64) -> bool {
    &&& names_ascend(image, exports, 16)
    &&& has_name(image, exports, create_interface(), i)
    &&& forall|j: int| #[trigger] has_name(image, exports, create_interface(), j) ==> j == i
    &&& function_of_name(image, exports, i) == Some(insn as int)
}

/// An image whose export names ascend, with one named CreateInterface whose
/// code leads to a registry, gives that registry.
pub proof fn law_registry_is_located(
    image: Memory,
    exports: ExportDirectory,
    found: Option<u64>,
    i: int,
    insn: u64,
    reg_list: u64,
    addrs: Seq<int>,
    registry: u64,
)
    requires
        is_export(image, exports, create_interface_name(), found),
        is_entry(image, exports, i, insn),
        code_leads_to(image, insn, reg_list, addrs, registry),
    ensures
        registry_behind(image, found) == Ok::<u64, LocateError>(registry),
{
    lemma_names_and_code();
    law_ascending_name_leads_to_its_function(image, exports, create_interface(), i, found);
    law_code_leads_to_the_registry(image, insn, reg_list, addrs, registry);
}

/// Whether `r` is what comes of the way from the code at `insn`: the registry
/// that it leads to, or the error of the step that fails.
pub open spec fn is_outcome(image: Memory, insn: u64, r: Result<u64, LocateError>) -> bool {
    match r {
        Ok(registry) => is_behind(image, insn, registry),
        Err(LocateError::NoCreateInterface) => false,
        Err(LocateError::NoRegistrationList) => forall|target: int| !#[trigger] mov_leads_to(
            image.bytes(),
            insn as int,
            target,
        ),
        Err(LocateError::EndlessRegistrations) => leads_in_circles(image, insn),
        Err(LocateError::NoFactory) => leads_to_no_factory(image, insn),
        Err(LocateError::NoInstance) => leads_to_no_registry(image, insn),
    }
}

/// A registry is found only where the code leads to it, and each step on the
/// way that fails has an error of its own.
pub proof fn law_each_step_to_the_registry_counts(image: Memory, insn: u64)
    ensures
        registry_behind(image, None) == Err::<u64, LocateError>(LocateError::NoCreateInterface),
        is_outcome(image, insn, registry_behind(image, Some(insn))),
{
    let name = engine_cvar();
    lemma_names_and_code();
    law_operand_counts_from_the_end_of_the_instruction(image, insn, mov_r9_mem());
    if let Some(reg_list) = addr_operand(image, insn, mov_r9_mem()) {
        assert(mov_leads_to(image.bytes(), insn as int, reg_list as int));
        law_registrations_end_where_a_walk_does(image, reg_list, name);
        assert forall|addrs: Seq<int>| #[trigger]
            is_walk(image, reg_list, name, addrs) && is_registered(image, addrs.last(), name)
                && interface_factory(image, reg_list, name)
                is None implies factory_of(image, addrs.last()) < image.base() by {
            law_factory_is_the_one_of_the_registration(image, reg_list, name, addrs);
        }
        if registrations_end(image, reg_list, name) {
            if let Some(factory) = interface_factory(image, reg_list, name) {
                if reg_list % 8 != 0 || reg_list + 8 > image.bytes().len() {
                    law_dead_end_has_no_factory(image, reg_list, name, seq![]);
                }
                let addrs = choose|addrs: Seq<int>| #[trigger]
                    is_walk(image, reg_list, name, addrs) && (is_registered(
                        image,
                        addrs.last(),
                        name,
                    ) || is_dead_end(image, addrs.last(), name));
                if is_registered(image, addrs.last(), name) {
                    law_factory_is_the_one_of_the_registration(image, reg_list, name, addrs);
                } else {
                    law_dead_end_has_no_factory(image, reg_list, name, addrs);
                }
                law_operand_counts_from_the_end_of_the_instruction(image, factory, lea_rax_mem());
                if let Some(registry) = addr_operand(image, factory, lea_rax_mem()) {
                    assert(code_leads_to(image, insn, reg_list, addrs, registry));
                }
            }
        }
    }
}

/// Whether the code of an export named CreateInterface leads to the registry.
pub open spec fn is_exported_registry(
    image: Memory,
    exports: ExportDirectory,
    registry: u64,
) -> bool {
    exists|i: int, insn: u64|
        {
            &&& #[trigger] has_name(image, exports, create_interface(), i)
            &&& function_of_name(image, exports, i) == Some(insn as int)
            &&& #[trigger] is_behind(image, insn, registry)
        }
}

/// A registry is located only behind an export named CreateInterface. Where no
/// export has that name none is. Where the names ascend and one has it, what is
/// located is what its code leads to.
pub proof fn law_registry_is_behind_an_export(
    image: Memory,
    exports: ExportDirectory,
    found: Option<u64>,
)
    requires
        is_export(image, exports, create_interface_name(), found),
    ensures
        registry_behind(image, found) matches Ok(registry) ==> is_exported_registry(
            image,
            exports,
            registry,
        ),
        (forall|i: int| !#[trigger] has_name(image, exports, create_interface(), i))
            ==> registry_behind(image, found) == Err::<u64, LocateError>(
            LocateError::NoCreateInterface,
        ),
        forall|i: int, insn: u64| #[trigger]
            is_entry(image, exports, i, insn) ==> is_outcome(
                image,
                insn,
                registry_behind(image, found),
            ),
{
    lemma_names_and_code();
    law_search_finds_the_named_function(image, exports, create_interface(), found);
    if let Some(insn) = found {
        law_each_step_to_the_registry_counts(image, insn);
        let i = choose|i: int| #[trigger]
            has_name(image, exports, create_interface(), i) && is_function(
                found,
                function_of_name(image, exports, i),
            );
        if let Ok(registry) = registry_behind(image, found) {
            assert(has_name(image, exports, create_interface(), i) && is_behind(
                image,
                insn,
                registry,
            ));
        }
    }
    assert forall|i: int, insn: u64| #[trigger] is_entry(image, exports, i, insn) implies is_outcome(
        image,
        insn,
        registry_behind(image, found),
    ) by {
        law_ascending_name_leads_to_its_function(image, exports, create_interface(), i, found);
        law_each_step_to_the_registry_counts(image, insn);
    }
}

} // verus!
