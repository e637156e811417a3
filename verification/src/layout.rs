//! What the bytes of the other process say.
//!
//! The laws here speak of single bytes. They say where each number of the
//! registry, of its lists and of a registration lies, how its bytes spell it,
//! and which bytes of a copied chunk a read takes.
use crate::cvar::{
    CCVar, Cmd, List, ListData, ListIteratorView, LocalListView, Node, Var,
};
use crate::image::RegNode;
use crate::plain::{
    lemma_le_value_2, lemma_le_value_4, lemma_le_value_8, slice_at, Plain, Scalar,
};
use crate::remote::{decode_array, Memory};
use vstd::prelude::*;

verus! {

/// The number in the two bytes from `at` on.
pub open spec fn word_at(s: Seq<u8>, at: int) -> int {
    s[at] + 0x100 * s[at + 1]
}

/// The number in the four bytes from `at` on.
pub open spec fn dword_at(s: Seq<u8>, at: int) -> int {
    s[at] + 0x100 * s[at + 1] + 0x1_0000 * s[at + 2] + 0x100_0000 * s[at + 3]
}

/// The number in the eight bytes from `at` on.
pub open spec fn qword_at(s: Seq<u8>, at: int) -> int {
    s[at] + 0x100 * s[at + 1] + 0x1_0000 * s[at + 2] + 0x100_0000 * s[at + 3] + 0x1_0000_0000
        * s[at + 4] + 0x100_0000_0000 * s[at + 5] + 0x1_0000_0000_0000 * s[at + 6]
        + 0x100_0000_0000_0000 * s[at + 7]
}

/// The first byte of a number is worth one, and each further byte 256 times as
/// much as the one before it.
pub proof fn law_numbers_are_little_endian(s: Seq<u8>)
    ensures
        s.len() == 1 ==> u8::decode(s) == s[0],
        s.len() == 2 ==> u16::decode(s) == word_at(s, 0),
        s.len() == 4 ==> u32::decode(s) == dword_at(s, 0),
        s.len() == 8 ==> u64::decode(s) == qword_at(s, 0),
{
    if s.len() == 2 {
        lemma_le_value_2(s);
    } else if s.len() == 4 {
        lemma_le_value_4(s);
    } else if s.len() == 8 {
        lemma_le_value_8(s);
    }
}

/// Numbers take as many bytes as they are wide, and are aligned to their size.
pub proof fn law_numbers_are_aligned()
    ensures
        u8::size() == 1 && u8::align() == 1,
        u16::size() == 2 && u16::align() == 2,
        u32::size() == 4 && u32::align() == 4,
        u64::size() == 8 && u64::align() == 8,
{
}

/// The bytes that are stored for a number are worth the number.
pub proof fn law_stored_bytes_spell_the_number(a: u8, b: u16, c: u32, d: u64)
    ensures
        a.encode() == seq![a],
        b.encode().len() == 2 && word_at(b.encode(), 0) == b,
        c.encode().len() == 4 && dword_at(c.encode(), 0) == c,
        d.encode().len() == 8 && qword_at(d.encode(), 0) == d,
{
    b.comes_back();
    c.comes_back();
    d.comes_back();
    law_numbers_are_little_endian(b.encode());
    law_numbers_are_little_endian(c.encode());
    law_numbers_are_little_endian(d.encode());
}

/// A number within a byte string is spelled by the bytes at its offset.
pub(crate) proof fn lemma_numbers_in(s: Seq<u8>, at: int)
    requires
        0 <= at,
    ensures
        at + 2 <= s.len() ==> u16::decode(slice_at(s, at, 2)) == word_at(s, at),
        at + 4 <= s.len() ==> u32::decode(slice_at(s, at, 4)) == dword_at(s, at),
        at + 8 <= s.len() ==> u64::decode(slice_at(s, at, 8)) == qword_at(s, at),
{
    if at + 2 <= s.len() {
        law_numbers_are_little_endian(slice_at(s, at, 2));
    }
    if at + 4 <= s.len() {
        law_numbers_are_little_endian(slice_at(s, at, 4));
    }
    if at + 8 <= s.len() {
        law_numbers_are_little_endian(slice_at(s, at, 8));
    }
}

/// A list is its count, its flags, the address of its nodes and the index of
/// its head, at offsets 0, 2, 8 and 16 of 24 bytes.
pub proof fn law_list_layout<Data>(s: Seq<u8>)
    requires
        s.len() == 24,
    ensures
        <List<Data> as Plain>::size() == 24,
        <List<Data> as Plain>::align() == 8,
        List::<Data>::decode(s).count == word_at(s, 0),
        List::<Data>::decode(s).flags == word_at(s, 2),
        List::<Data>::decode(s).nodes_ptr == qword_at(s, 8),
        List::<Data>::decode(s).head == word_at(s, 16),
{
    lemma_numbers_in(s, 0);
    lemma_numbers_in(s, 2);
    lemma_numbers_in(s, 8);
    lemma_numbers_in(s, 16);
}

/// The registry holds the variable list at offset 0x40 and the command list at
/// offset 0xF8.
pub proof fn law_registry_layout(s: Seq<u8>)
    requires
        s.len() == 0x110,
    ensures
        CCVar::size() == 0x110,
        CCVar::align() == 8,
        CCVar::decode(s).vars.count == word_at(s, 0x40),
        CCVar::decode(s).vars.flags == word_at(s, 0x42),
        CCVar::decode(s).vars.nodes_ptr == qword_at(s, 0x48),
        CCVar::decode(s).vars.head == word_at(s, 0x50),
        CCVar::decode(s).cmds.count == word_at(s, 0xF8),
        CCVar::decode(s).cmds.flags == word_at(s, 0xFA),
        CCVar::decode(s).cmds.nodes_ptr == qword_at(s, 0x100),
        CCVar::decode(s).cmds.head == word_at(s, 0x108),
{
    law_list_layout::<u64>(s.subrange(0x40, 0x58));
    law_list_layout::<Cmd>(s.subrange(0xF8, 0x110));
}

/// A variable has the address of its name at its start and its flags at offset
/// 0x30.
pub proof fn law_var_layout(s: Seq<u8>)
    requires
        s.len() == 0x38,
    ensures
        Var::size() == 0x38,
        Var::align() == 8,
        Var::decode(s).name == qword_at(s, 0),
        Var::decode(s).flags == qword_at(s, 0x30),
{
    lemma_numbers_in(s, 0);
    lemma_numbers_in(s, 0x30);
}

/// A command has the address of its name at its start and its flags at offset
/// 0x10 of 0x30 bytes.
pub proof fn law_cmd_layout(s: Seq<u8>)
    requires
        s.len() == 0x30,
    ensures
        Cmd::size() == 0x30,
        Cmd::align() == 8,
        Cmd::decode(s).name == qword_at(s, 0),
        Cmd::decode(s).flags == qword_at(s, 0x10),
{
    lemma_numbers_in(s, 0);
    lemma_numbers_in(s, 0x10);
}

/// A node of the variable list takes 16 bytes: the address of the variable,
/// then the links back and forth.
pub proof fn law_var_node_layout(s: Seq<u8>)
    requires
        s.len() == 16,
    ensures
        Node::<u64>::size() == 16,
        Node::<u64>::align() == 8,
        Node::<u64>::decode(s).data == qword_at(s, 0),
        Node::<u64>::decode(s).prev == word_at(s, 8),
        Node::<u64>::decode(s).next == word_at(s, 10),
{
    lemma_numbers_in(s, 0);
    lemma_numbers_in(s, 8);
    lemma_numbers_in(s, 10);
}

/// A node of the command list takes 0x38 bytes: the command, then the links
/// back and forth.
pub proof fn law_cmd_node_layout(s: Seq<u8>)
    requires
        s.len() == 0x38,
    ensures
        Node::<Cmd>::size() == 0x38,
        Node::<Cmd>::align() == 8,
        Node::<Cmd>::decode(s).data.name == qword_at(s, 0),
        Node::<Cmd>::decode(s).data.flags == qword_at(s, 0x10),
        Node::<Cmd>::decode(s).prev == word_at(s, 0x30),
        Node::<Cmd>::decode(s).next == word_at(s, 0x32),
{
    law_cmd_layout(s.subrange(0, 0x30));
    lemma_numbers_in(s, 0x30);
    lemma_numbers_in(s, 0x32);
}

/// A registration is the addresses of its factory, of its name and of the next
/// registration, of eight bytes each.
pub proof fn law_registration_layout(s: Seq<u8>)
    requires
        s.len() == 24,
    ensures
        RegNode::size() == 24,
        RegNode::align() == 8,
        RegNode::decode(s).factory == qword_at(s, 0),
        RegNode::decode(s).name == qword_at(s, 8),
        RegNode::decode(s).next == qword_at(s, 16),
{
    lemma_numbers_in(s, 0);
    lemma_numbers_in(s, 8);
    lemma_numbers_in(s, 16);
}

/// A value is read from the bytes at its offset. It is there if all its bytes
/// are, and if its offset is a multiple of its alignment, which is at most 16.
pub proof fn law_value_is_read_at_its_offset<T: Plain>(memory: Memory, rva: u64)
    ensures
        match memory.value_at::<T>(rva) {
            Some(value) => {
                &&& T::align() <= 16
                &&& rva as int % T::align() as int == 0
                &&& rva < memory.bytes().len()
                &&& rva + T::size() <= memory.bytes().len()
                &&& value == T::decode(memory.bytes().subrange(rva as int, rva + T::size()))
            },
            None => {
                ||| T::align() > 16
                ||| rva as int % T::align() as int != 0
                ||| rva >= memory.bytes().len()
                ||| rva + T::size() > memory.bytes().len()
            },
        },
{
}

/// The values of an array are read one behind the other from its offset on.
/// The array is there if all its bytes are, and if its offset is a multiple of
/// the alignment, which is at most 16.
pub proof fn law_array_is_read_at_its_offset<T: Plain>(memory: Memory, rva: u64, count: usize)
    ensures
        match memory.array_at::<T>(rva, count) {
            Some(values) => {
                &&& T::align() <= 16
                &&& rva as int % T::align() as int == 0
                &&& rva < memory.bytes().len()
                &&& rva + T::size() * count <= memory.bytes().len()
                &&& values.len() == count
                &&& forall|i: int|
                    0 <= i < count ==> #[trigger] values[i] == T::decode(
                        memory.bytes().subrange(
                            rva + i * T::size(),
                            rva + i * T::size() + T::size(),
                        ),
                    )
            },
            None => {
                ||| T::align() > 16
                ||| rva as int % T::align() as int != 0
                ||| rva >= memory.bytes().len()
                ||| rva + T::size() * count > memory.bytes().len()
            },
        },
{
    if memory.array_at::<T>(rva, count) is Some {
        let values = memory.array_at::<T>(rva, count)->0;
        assert forall|i: int| 0 <= i < count implies #[trigger] values[i] == T::decode(
            memory.bytes().subrange(rva + i * T::size(), rva + i * T::size() + T::size()),
        ) by {
            let size = T::size() as int;
            assert(0 <= i * size && i * size + size <= size * count) by (nonlinear_arith)
                requires
                    0 <= i,
                    i + 1 <= count,
                    0 <= size,
            ;
            let whole = slice_at(memory.bytes(), rva as int, (T::size() * count) as nat);
            assert(slice_at(whole, i * size, T::size()) =~= memory.bytes().subrange(
                rva + i * size,
                rva + i * size + size,
            ));
        }
    }
}

/// Values that were fetched together are taken one behind the other.
pub proof fn law_fetched_values_follow_each_other<T: Plain>(bytes: Seq<u8>, count: nat, i: int)
    requires
        0 <= i < count,
    ensures
        decode_array::<T>(bytes, count).len() == count,
        decode_array::<T>(bytes, count)[i] == T::decode(
            bytes.subrange(i * T::size(), i * T::size() + T::size()),
        ),
{
}

/// An address belongs to the offset by which it lies behind the start of the
/// chunk, and an address before the start belongs to none.
pub proof fn law_offset_is_the_distance_from_the_base(memory: Memory, addr: u64)
    ensures
        addr < memory.base() ==> memory.rva_of(addr) is None,
        addr >= memory.base() ==> memory.rva_of(addr) is Some && memory.base() + memory.rva_of(
            addr,
        )->0 == addr,
{
}

/// What is read from an address is what is read from its offset.
pub proof fn law_reads_by_address_and_by_offset_agree<T: Plain>(
    memory: Memory,
    addr: u64,
    rva: u64,
    count: usize,
)
    ensures
        addr == memory.base() + rva ==> {
            &&& memory.remote_value_at::<T>(addr) == memory.value_at::<T>(rva)
            &&& memory.remote_array_at::<T>(addr, count) == memory.array_at::<T>(rva, count)
        },
        addr < memory.base() ==> {
            &&& memory.remote_value_at::<T>(addr) is None
            &&& memory.remote_array_at::<T>(addr, count) is None
        },
{
}

/// Numbers in a chunk are spelled by the bytes at their offset.
pub proof fn law_numbers_in_a_chunk(memory: Memory, rva: u64)
    ensures
        match memory.value_at::<u16>(rva) {
            Some(value) => rva % 2 == 0 && rva + 2 <= memory.bytes().len() && value == word_at(
                memory.bytes(),
                rva as int,
            ),
            None => rva % 2 != 0 || rva + 2 > memory.bytes().len(),
        },
        match memory.value_at::<u32>(rva) {
            Some(value) => rva % 4 == 0 && rva + 4 <= memory.bytes().len() && value == dword_at(
                memory.bytes(),
                rva as int,
            ),
            None => rva % 4 != 0 || rva + 4 > memory.bytes().len(),
        },
        match memory.value_at::<u64>(rva) {
            Some(value) => rva % 8 == 0 && rva + 8 <= memory.bytes().len() && value == qword_at(
                memory.bytes(),
                rva as int,
            ),
            None => rva % 8 != 0 || rva + 8 > memory.bytes().len(),
        },
{
    lemma_numbers_in(memory.bytes(), rva as int);
}

/// Bytes in a chunk are the ones at their offset.
pub proof fn law_bytes_in_a_chunk(memory: Memory, rva: u64, count: usize)
    ensures
        match memory.array_at::<u8>(rva, count) {
            Some(found) => {
                &&& rva < memory.bytes().len()
                &&& rva + count <= memory.bytes().len()
                &&& found == memory.bytes().subrange(rva as int, rva + count)
            },
            None => rva >= memory.bytes().len() || rva + count > memory.bytes().len(),
        },
{
    law_array_is_read_at_its_offset::<u8>(memory, rva, count);
    if let Some(found) = memory.array_at::<u8>(rva, count) {
        assert(found =~= memory.bytes().subrange(rva as int, rva + count));
    }
}

/// The registry in a chunk is the 0x110 bytes at its offset.
pub proof fn law_registry_in_a_chunk(memory: Memory, rva: u64)
    ensures
        match memory.value_at::<CCVar>(rva) {
            Some(cvars) => {
                let b = memory.bytes();
                &&& rva % 8 == 0
                &&& rva + 0x110 <= b.len()
                &&& cvars.vars.count == word_at(b, rva + 0x40)
                &&& cvars.vars.flags == word_at(b, rva + 0x42)
                &&& cvars.vars.nodes_ptr == qword_at(b, rva + 0x48)
                &&& cvars.vars.head == word_at(b, rva + 0x50)
                &&& cvars.cmds.count == word_at(b, rva + 0xF8)
                &&& cvars.cmds.flags == word_at(b, rva + 0xFA)
                &&& cvars.cmds.nodes_ptr == qword_at(b, rva + 0x100)
                &&& cvars.cmds.head == word_at(b, rva + 0x108)
            },
            None => rva % 8 != 0 || rva + 0x110 > memory.bytes().len(),
        },
{
    if memory.value_at::<CCVar>(rva) is Some {
        law_registry_layout(slice_at(memory.bytes(), rva as int, 0x110));
    }
}

/// The node array of a list is as long as its count says, at the stored address
/// or, where the low 15 bits of the flags are all zero, at address zero.
pub proof fn law_node_array_is_where_the_list_says(vars: List<u64>, cmds: List<Cmd>)
    ensures
        vars.nodes_size() == 16 * vars.count,
        vars.nodes_addr() == if vars.flags as int % 0x8000 == 0 {
            0
        } else {
            vars.nodes_ptr as int
        },
        cmds.nodes_size() == 0x38 * cmds.count,
        cmds.nodes_addr() == if cmds.flags as int % 0x8000 == 0 {
            0
        } else {
            cmds.nodes_ptr as int
        },
{
    let f = vars.flags;
    let g = cmds.flags;
    assert(f & 0x7FFF == f % 0x8000) by (bit_vector);
    assert(g & 0x7FFF == g % 0x8000) by (bit_vector);
    law_var_node_layout(Seq::new(16, |i: int| 0u8));
    law_cmd_node_layout(Seq::new(0x38, |i: int| 0u8));
}

/// A copy of the variable list has a node for each 16 bytes of the node array,
/// and begins with the head of the list.
pub proof fn law_var_list_is_its_nodes(vars: List<u64>, bytes: Seq<u8>, i: int)
    requires
        bytes.len() == 16 * vars.count,
        0 <= i < vars.count,
    ensures
        vars.list_in(bytes).nodes.len() == vars.count,
        vars.list_in(bytes).head == vars.head,
        vars.list_in(bytes).nodes[i].data == qword_at(bytes, 16 * i),
        vars.list_in(bytes).nodes[i].prev == word_at(bytes, 16 * i + 8),
        vars.list_in(bytes).nodes[i].next == word_at(bytes, 16 * i + 10),
        vars.list_in(bytes).remote_data(i) == 16 * i + if vars.flags as int % 0x8000 == 0 {
            0
        } else {
            vars.nodes_ptr as int
        },
{
    let node = bytes.subrange(16 * i, 16 * i + 16);
    law_var_node_layout(node);
    law_fetched_values_follow_each_other::<Node<u64>>(bytes, vars.count as nat, i);
    law_node_array_is_where_the_list_says(
        vars,
        List { count: 0, flags: 0, nodes_ptr: 0, head: 0, marker: std::marker::PhantomData },
    );
    assert(i * Node::<u64>::size() == 16 * i) by (nonlinear_arith)
        requires
            Node::<u64>::size() == 16,
    ;
}

/// A copy of the command list has a node for each 0x38 bytes of the node array,
/// and begins with the head of the list.
pub proof fn law_cmd_list_is_its_nodes(cmds: List<Cmd>, bytes: Seq<u8>, i: int)
    requires
        bytes.len() == 0x38 * cmds.count,
        0 <= i < cmds.count,
    ensures
        cmds.list_in(bytes).nodes.len() == cmds.count,
        cmds.list_in(bytes).head == cmds.head,
        cmds.list_in(bytes).nodes[i].data.name == qword_at(bytes, 0x38 * i),
        cmds.list_in(bytes).nodes[i].data.flags == qword_at(bytes, 0x38 * i + 0x10),
        cmds.list_in(bytes).nodes[i].prev == word_at(bytes, 0x38 * i + 0x30),
        cmds.list_in(bytes).nodes[i].next == word_at(bytes, 0x38 * i + 0x32),
        cmds.list_in(bytes).remote_data(i) == 0x38 * i + if cmds.flags as int % 0x8000 == 0 {
            0
        } else {
            cmds.nodes_ptr as int
        },
{
    let node = bytes.subrange(0x38 * i, 0x38 * i + 0x38);
    law_cmd_node_layout(node);
    law_fetched_values_follow_each_other::<Node<Cmd>>(bytes, cmds.count as nat, i);
    law_node_array_is_where_the_list_says(
        List { count: 0, flags: 0, nodes_ptr: 0, head: 0, marker: std::marker::PhantomData },
        cmds,
    );
    assert(i * Node::<Cmd>::size() == 0x38 * i) by (nonlinear_arith)
        requires
            Node::<Cmd>::size() == 0x38,
    ;
}

/// A node that holds its data inline has it at its start. The links back and
/// forth follow at the next even offset, and the node ends at the next multiple
/// of its alignment.
pub proof fn law_node_layout<Data: ListData>(s: Seq<u8>, links: int)
    requires
        s.len() == Node::<Data>::size(),
        links % 2 == 0,
        Data::size() <= links < Data::size() + 2,
    ensures
        Node::<Data>::size() as int % Node::<Data>::align() as int == 0,
        Node::<Data>::align() == if Data::align() < 2 {
            2
        } else {
            Data::align() as int
        },
        links + 4 <= Node::<Data>::size() < links + 4 + Node::<Data>::align(),
        Node::<Data>::decode(s).data == Data::decode(s.subrange(0, Data::size() as int)),
        Node::<Data>::decode(s).prev == word_at(s, links),
        Node::<Data>::decode(s).next == word_at(s, links + 2),
{
    crate::cvar::lemma_node_bounds::<Data>();
    lemma_numbers_in(s, links);
    lemma_numbers_in(s, links + 2);
}

/// Iteration yields the data of the node that it stands at and goes on to where
/// the link of that node leads. Index 0xFFFF is the end, where it stays.
pub proof fn law_iteration_goes_link_by_link<Data>(iter: ListIteratorView<Data>)
    ensures
        iter.next == 0xFFFF ==> {
            &&& iter.link_in_range()
            &&& iter.item() is None
            &&& iter.advanced() == iter
        },
        iter.next != 0xFFFF ==> {
            &&& iter.link_in_range() == (iter.next < iter.nodes.len())
            &&& iter.item() == Some(iter.nodes[iter.next as int].data)
            &&& iter.advanced().nodes == iter.nodes
            &&& iter.advanced().next == iter.nodes[iter.next as int].next
        },
{
}

/// A list of the nodes `path` starts at the first of them, each links to the
/// one behind it, and the last one links to 0xFFFF.
pub proof fn law_path_ends_at_the_null_index<Data>(
    list: LocalListView<Data>,
    first: u16,
    path: Seq<u16>,
    i: int,
)
    requires
        list.is_path(first, path),
        0 <= i < path.len(),
    ensures
        first == path[0],
        path[i] < list.nodes.len(),
        path[i] != 0xFFFF,
        i + 1 < path.len() ==> list.nodes[path[i] as int].next == path[i + 1],
        i + 1 == path.len() ==> list.nodes[path[i] as int].next == 0xFFFF,
{
}

} // verus!
