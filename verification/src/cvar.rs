//! The layout of the console variable registry and the linked lists that it
//! is made of.
use crate::layout::{
    law_cmd_layout, law_list_layout, law_registry_layout, law_var_layout, qword_at, word_at,
};
use crate::plain::{field, slice_at, Plain};
use crate::remote::{decode_array, read_array, read_array_request, ReadRequest};
use std::marker::PhantomData;
use vstd::prelude::*;

verus! {

/// The registry object in tier0.dll, which implements VEngineCvar007.
pub struct CCVar {
    /// The variable list stores addresses of the data, whereas the command
    /// list stores the data inline: each variable needs a read of its own.
    pub vars: List<u64>,
    pub cmds: List<Cmd>,
}

/// Data of a console variable.
pub struct Var {
    pub name: u64,
    pub flags: u64,
}

/// Data of a console command.
pub struct Cmd {
    pub name: u64,
    pub flags: u64,
}

/// Linked list that holds the registrations. Nodes are stored in a flat
/// array and are referred to by index.
pub struct List<Data> {
    pub count: u16,
    pub flags: u16,
    pub nodes_ptr: u64,
    pub head: u16,
    pub marker: PhantomData<Data>,
}

/// Linked list node.
pub struct Node<Data> {
    pub data: Data,
    pub prev: u16,
    pub next: u16,
}

/// Index that stands for no node.
pub const NULL_NODE: u16 = 0xFFFF;

/// Offset of `data` in `Node`.
pub const NODE_DATA_OFFSET: usize = 0;

/// Offset of `vars` in `CCVar`.
pub const CCVAR_VARS_OFFSET: usize = 0x40;

/// Offset of `cmds` in `CCVar`.
pub const CCVAR_CMDS_OFFSET: usize = 0xF8;

/// Offset of `flags` in `Var`.
pub const VAR_FLAGS_OFFSET: usize = 0x30;

/// Offset of `flags` in `Cmd`.
pub const CMD_FLAGS_OFFSET: usize = 0x10;

/// The next multiple of `align` from `n` on.
pub open spec fn round_up(n: nat, align: nat) -> nat {
    if align == 0 {
        n
    } else {
        ((n + align - 1) as nat / align) * align
    }
}

proof fn lemma_round_up(n: nat, align: nat)
    requires
        0 < align,
    ensures
        n <= round_up(n, align) < n + align,
        round_up(n, align) % align == 0,
{
    let total = n + align - 1;
    vstd::arithmetic::div_mod::lemma_fundamental_div_mod(total, align as int);
    vstd::arithmetic::mul::lemma_mul_is_commutative(align as int, total / align as int);
    vstd::arithmetic::div_mod::lemma_mod_multiples_basic(total / align as int, align as int);
}

fn pad_to(n: usize, align: usize) -> (r: usize)
    requires
        0 < align,
        n + align <= 0x7fff_ffff,
    ensures
        r == round_up(n as nat, align as nat),
        n <= r < n + align,
{
    let total: usize = n + (align - 1);
    let rest: usize = total % align;
    proof {
        vstd::arithmetic::div_mod::lemma_fundamental_div_mod(total as int, align as int);
        vstd::arithmetic::mul::lemma_mul_is_commutative(
            align as int,
            total as int / align as int,
        );
    }
    total - rest
}

/// Data that a list can hold inline in its nodes.
pub trait ListData: Plain {
    /// A node around the data fits in memory.
    proof fn node_is_small()
        ensures
            Self::size() + Self::align() <= 0x7fff_0000,
    ;
}

impl ListData for u64 {
    proof fn node_is_small() {
    }
}

impl ListData for Cmd {
    proof fn node_is_small() {
    }
}

impl<Data> Plain for List<Data> {
    open spec fn size() -> nat {
        24
    }

    open spec fn align() -> nat {
        8
    }

    open spec fn decode(bytes: Seq<u8>) -> List<Data> {
        List {
            count: u16::decode(slice_at(bytes, 0, 2)),
            flags: u16::decode(slice_at(bytes, 2, 2)),
            nodes_ptr: u64::decode(slice_at(bytes, 8, 8)),
            head: u16::decode(slice_at(bytes, 16, 2)),
            marker: PhantomData,
        }
    }

    proof fn layout_is_valid() {
        vstd::arithmetic::power2::lemma2_to64();
    }

    fn size_of() -> (r: usize) {
        24
    }

    fn align_of() -> (r: usize) {
        8
    }

    fn from_bytes(bytes: &[u8]) -> (r: List<Data>)
        ensures
            r.count == word_at(bytes@, 0),
            r.flags == word_at(bytes@, 2),
            r.nodes_ptr == qword_at(bytes@, 8),
            r.head == word_at(bytes@, 16),
    {
        proof {
            law_list_layout::<Data>(bytes@);
        }
        List {
            count: field::<u16>(bytes, 0),
            flags: field::<u16>(bytes, 2),
            nodes_ptr: field::<u64>(bytes, 8),
            head: field::<u16>(bytes, 16),
            marker: PhantomData,
        }
    }
}

impl Plain for CCVar {
    open spec fn size() -> nat {
        0x110
    }

    open spec fn align() -> nat {
        8
    }

    open spec fn decode(bytes: Seq<u8>) -> CCVar {
        CCVar {
            vars: List::<u64>::decode(slice_at(bytes, CCVAR_VARS_OFFSET as int, 24)),
            cmds: List::<Cmd>::decode(slice_at(bytes, CCVAR_CMDS_OFFSET as int, 24)),
        }
    }

    proof fn layout_is_valid() {
        vstd::arithmetic::power2::lemma2_to64();
    }

    fn size_of() -> (r: usize) {
        0x110
    }

    fn align_of() -> (r: usize) {
        8
    }

    fn from_bytes(bytes: &[u8]) -> (r: CCVar)
        ensures
            r.vars.count == word_at(bytes@, 0x40),
            r.vars.flags == word_at(bytes@, 0x42),
            r.vars.nodes_ptr == qword_at(bytes@, 0x48),
            r.vars.head == word_at(bytes@, 0x50),
            r.cmds.count == word_at(bytes@, 0xF8),
            r.cmds.flags == word_at(bytes@, 0xFA),
            r.cmds.nodes_ptr == qword_at(bytes@, 0x100),
            r.cmds.head == word_at(bytes@, 0x108),
    {
        proof {
            law_registry_layout(bytes@);
        }
        CCVar {
            vars: field::<List<u64>>(bytes, CCVAR_VARS_OFFSET),
            cmds: field::<List<Cmd>>(bytes, CCVAR_CMDS_OFFSET),
        }
    }
}

impl Plain for Var {
    open spec fn size() -> nat {
        0x38
    }

    open spec fn align() -> nat {
        8
    }

    open spec fn decode(bytes: Seq<u8>) -> Var {
        Var {
            name: u64::decode(slice_at(bytes, 0, 8)),
            flags: u64::decode(slice_at(bytes, VAR_FLAGS_OFFSET as int, 8)),
        }
    }

    proof fn layout_is_valid() {
        vstd::arithmetic::power2::lemma2_to64();
    }

    fn size_of() -> (r: usize) {
        0x38
    }

    fn align_of() -> (r: usize) {
        8
    }

    fn from_bytes(bytes: &[u8]) -> (r: Var)
        ensures
            r.name == qword_at(bytes@, 0),
            r.flags == qword_at(bytes@, 0x30),
    {
        proof {
            law_var_layout(bytes@);
        }
        Var { name: field::<u64>(bytes, 0), flags: field::<u64>(bytes, VAR_FLAGS_OFFSET) }
    }
}

impl Plain for Cmd {
    open spec fn size() -> nat {
        0x30
    }

    open spec fn align() -> nat {
        8
    }

    open spec fn decode(bytes: Seq<u8>) -> Cmd {
        Cmd {
            name: u64::decode(slice_at(bytes, 0, 8)),
            flags: u64::decode(slice_at(bytes, CMD_FLAGS_OFFSET as int, 8)),
        }
    }

    proof fn layout_is_valid() {
        vstd::arithmetic::power2::lemma2_to64();
    }

    fn size_of() -> (r: usize) {
        0x30
    }

    fn align_of() -> (r: usize) {
        8
    }

    fn from_bytes(bytes: &[u8]) -> (r: Cmd)
        ensures
            r.name == qword_at(bytes@, 0),
            r.flags == qword_at(bytes@, 0x10),
    {
        proof {
            law_cmd_layout(bytes@);
        }
        Cmd { name: field::<u64>(bytes, 0), flags: field::<u64>(bytes, CMD_FLAGS_OFFSET) }
    }
}

/// Offset of `prev` in a node whose data takes `size` bytes.
pub open spec fn prev_offset(size: nat) -> nat {
    round_up(size, 2)
}

/// Alignment of a node whose data has alignment `align`.
pub open spec fn node_align(align: nat) -> nat {
    if align < 2 {
        2
    } else {
        align
    }
}

impl<Data: ListData> Plain for Node<Data> {
    open spec fn size() -> nat {
        round_up(prev_offset(Data::size()) + 4, node_align(Data::align()))
    }

    open spec fn align() -> nat {
        node_align(Data::align())
    }

    open spec fn decode(bytes: Seq<u8>) -> Node<Data> {
        let prev_at = prev_offset(Data::size()) as int;
        Node {
            data: Data::decode(slice_at(bytes, 0, Data::size())),
            prev: u16::decode(slice_at(bytes, prev_at, 2)),
            next: u16::decode(slice_at(bytes, prev_at + 2, 2)),
        }
    }

    proof fn layout_is_valid() {
        Data::layout_is_valid();
        Data::node_is_small();
        vstd::arithmetic::power2::lemma2_to64();
        lemma_round_up(Data::size(), 2);
        lemma_round_up(prev_offset(Data::size()) + 4, node_align(Data::align()));
    }

    fn size_of() -> (r: usize) {
        proof {
            Data::layout_is_valid();
            Data::node_is_small();
            lemma_round_up(Data::size(), 2);
        }
        pad_to(pad_to(Data::size_of(), 2) + 4, Self::align_of())
    }

    fn align_of() -> (r: usize) {
        let align: usize = Data::align_of();
        if align < 2 {
            2
        } else {
            align
        }
    }

    fn from_bytes(bytes: &[u8]) -> (r: Node<Data>) {
        proof {
            Data::layout_is_valid();
            Data::node_is_small();
            lemma_round_up(Data::size(), 2);
            lemma_round_up(prev_offset(Data::size()) + 4, node_align(Data::align()));
        }
        let prev_at: usize = pad_to(Data::size_of(), 2);
        Node {
            data: field::<Data>(bytes, 0),
            prev: field::<u16>(bytes, prev_at),
            next: field::<u16>(bytes, prev_at + 2),
        }
    }
}

/// The data of a node lies within the node.
pub(crate) proof fn lemma_data_fits_in_node<Data: ListData>()
    ensures
        Data::size() <= Node::<Data>::size(),
{
    Data::layout_is_valid();
    lemma_round_up(Data::size(), 2);
    if Data::align() >= 2 {
        lemma_round_up(prev_offset(Data::size()) + 4, Data::align());
    } else {
        lemma_round_up(prev_offset(Data::size()) + 4, 2);
    }
}

/// A node ends at the next multiple of its alignment behind its links, which
/// lie at the next even offset behind its data.
pub(crate) proof fn lemma_node_bounds<Data: ListData>()
    ensures
        prev_offset(Data::size()) % 2 == 0,
        Data::size() <= prev_offset(Data::size()) < Data::size() + 2,
        Node::<Data>::size() % Node::<Data>::align() == 0,
        prev_offset(Data::size()) + 4 <= Node::<Data>::size(),
        Node::<Data>::size() < prev_offset(Data::size()) + 4 + Node::<Data>::align(),
{
    lemma_round_up(Data::size(), 2);
    lemma_round_up(prev_offset(Data::size()) + 4, node_align(Data::align()));
}

/// A list whose nodes were copied out of the other process.
pub struct LocalList<Data> {
    nodes: Vec<Node<Data>>,
    remote_nodes: u64,
    head: u16,
}

/// What a `LocalList` holds.
pub struct LocalListView<Data> {
    /// The nodes, by index.
    pub nodes: Seq<Node<Data>>,
    /// Where the other process keeps the node array.
    pub remote_nodes: u64,
    /// Index of the first node of the list.
    pub head: u16,
}

/// Yields the data of the nodes of a list, in list order.
pub struct ListIterator<'a, Data> {
    nodes: &'a Vec<Node<Data>>,
    next: u16,
}

/// Where a `ListIterator` stands.
pub struct ListIteratorView<Data> {
    /// The nodes, by index.
    pub nodes: Seq<Node<Data>>,
    /// Index of the node to visit next.
    pub next: u16,
}

impl<Data> View for LocalList<Data> {
    type V = LocalListView<Data>;

    closed spec fn view(&self) -> LocalListView<Data> {
        LocalListView {
            nodes: self.nodes@,
            remote_nodes: self.remote_nodes,
            head: self.head,
        }
    }
}

impl<'a, Data> View for ListIterator<'a, Data> {
    type V = ListIteratorView<Data>;

    closed spec fn view(&self) -> ListIteratorView<Data> {
        ListIteratorView { nodes: self.nodes@, next: self.next }
    }
}

impl<Data> ListIteratorView<Data> {
    /// Whether the next link is one that can be followed.
    pub open spec fn link_in_range(self) -> bool {
        self.next == NULL_NODE || self.next < self.nodes.len()
    }

    /// What the iterator yields next.
    pub open spec fn item(self) -> Option<Data> {
        if self.next == NULL_NODE {
            None
        } else {
            Some(self.nodes[self.next as int].data)
        }
    }

    /// Where the iterator stands after it has yielded its item.
    pub open spec fn advanced(self) -> ListIteratorView<Data> {
        if self.next == NULL_NODE {
            self
        } else {
            ListIteratorView { nodes: self.nodes, next: self.nodes[self.next as int].next }
        }
    }

    /// Where the iterator stands after it has yielded `n` items.
    pub open spec fn after(self, n: nat) -> ListIteratorView<Data>
        decreases n,
    {
        if n == 0 {
            self
        } else {
            self.after((n - 1) as nat).advanced()
        }
    }
}

impl<Data> LocalListView<Data> {
    /// An iterator that visits node `next` first.
    pub open spec fn iter_at(self, next: u16) -> ListIteratorView<Data> {
        ListIteratorView { nodes: self.nodes, next }
    }

    /// Whether `k` links, each of which can be followed, lead from the head to
    /// `next`.
    pub open spec fn leads_to(self, k: nat, next: u16) -> bool {
        &&& self.iter_at(self.head).after(k).next == next
        &&& forall|j: nat|
            j < k ==> (#[trigger] self.iter_at(self.head).after(j)).link_in_range()
    }

    /// Whether following the links from the head leads to `next`.
    pub open spec fn is_reached(self, next: u16) -> bool {
        exists|k: nat| #[trigger] self.leads_to(k, next)
    }

    /// Whether node `index` is one that is visited when the list is walked
    /// from its head.
    pub open spec fn visits(self, index: u16) -> bool {
        &&& index != NULL_NODE
        &&& index < self.nodes.len()
        &&& self.is_reached(index)
    }

    /// Whether a list that starts at node `first` consists of the nodes
    /// `path`, in this order.
    pub open spec fn is_path(self, first: u16, path: Seq<u16>) -> bool {
        &&& first == if path.len() == 0 {
            NULL_NODE
        } else {
            path[0]
        }
        &&& forall|i: int|
            0 <= i < path.len() ==> {
                &&& #[trigger] path[i] != NULL_NODE
                &&& path[i] < self.nodes.len()
                &&& self.nodes[path[i] as int].next == if i + 1 < path.len() {
                    path[i + 1]
                } else {
                    NULL_NODE
                }
            }
    }
}

impl<Data: ListData> LocalListView<Data> {
    /// Where the other process keeps the data of node `index`.
    pub open spec fn remote_data(self, index: int) -> int {
        self.remote_nodes + index * Node::<Data>::size() + NODE_DATA_OFFSET
    }
}

impl<Data: ListData> List<Data> {
    /// Where the node array really starts. Without these flag bits the node
    /// indices are relative to zero instead of the stored node array.
    pub open spec fn nodes_addr(self) -> u64 {
        if self.flags & 0x7FFF != 0 {
            self.nodes_ptr
        } else {
            0
        }
    }

    /// Number of bytes of the node array.
    pub open spec fn nodes_size(self) -> nat {
        self.count as nat * Node::<Data>::size()
    }

    /// The list that a copy of the node array stands for.
    pub open spec fn list_in(self, bytes: Seq<u8>) -> LocalListView<Data> {
        LocalListView {
            nodes: decode_array::<Node<Data>>(bytes, self.count as nat),
            remote_nodes: self.nodes_addr(),
            head: self.head,
        }
    }

    fn real_nodes_ptr(&self) -> (r: u64)
        ensures
            r == self.nodes_addr(),
    {
        if self.flags & 0x7FFF != 0 {
            self.nodes_ptr
        } else {
            0
        }
    }

    /// What to fetch to read the entire list.
    pub fn read_request(&self) -> (r: ReadRequest)
        ensures
            r.addr == self.nodes_addr(),
            r.size == self.nodes_size(),
    {
        proof {
            <Node<Data> as Plain>::layout_is_valid();
            assert(self.count * Node::<Data>::size() <= 0xFFFF * 0x7fff_ffff) by (nonlinear_arith)
                requires
                    self.count <= 0xFFFF,
                    Node::<Data>::size() <= 0x7fff_ffff,
            ;
        }
        read_array_request::<Node<Data>>(self.real_nodes_ptr(), self.count as usize)
    }

    /// Reads the entire list from the bytes that were fetched for it.
    pub fn read(&self, bytes: &[u8]) -> (r: LocalList<Data>)
        requires
            bytes@.len() == self.nodes_size(),
        ensures
            r@ == self.list_in(bytes@),
    {
        let nodes: Vec<Node<Data>> = read_array::<Node<Data>>(bytes, self.count as usize);
        LocalList { nodes, remote_nodes: self.real_nodes_ptr(), head: self.head }
    }
}

impl<Data: ListData> LocalList<Data> {
    /// Whether the byte at `offset` of the data of node `index` has an address
    /// in the other process.
    pub fn reaches(&self, index: usize, offset: usize) -> (r: bool)
        requires
            index < self@.nodes.len(),
        ensures
            r == (self@.remote_data(index as int) + offset <= u64::MAX),
    {
        proof {
            <Node<Data> as Plain>::layout_is_valid();
        }
        let base: u128 = self.remote_nodes as u128;
        let size: u128 = <Node<Data> as Plain>::size_of() as u128;
        assert(index * size <= 0xFFFF_FFFF_FFFF_FFFF * 0x7FFF_FFFF) by (nonlinear_arith)
            requires
                index <= 0xFFFF_FFFF_FFFF_FFFF,
                size <= 0x7FFF_FFFF,
        ;
        base + index as u128 * size + NODE_DATA_OFFSET as u128 + offset as u128 <= u64::MAX as u128
    }

    /// Gives the address of the data of node `index` in the other process.
    pub fn to_remote(&self, index: usize) -> (r: u64)
        requires
            index < self@.nodes.len(),
            self@.remote_data(index as int) <= u64::MAX,
        ensures
            r == self@.remote_data(index as int),
    {
        proof {
            <Node<Data> as Plain>::layout_is_valid();
            assert(index * Node::<Data>::size() >= 0) by (nonlinear_arith);
        }
        let node_offset: u64 = index as u64 * <Node<Data> as Plain>::size_of() as u64;
        self.remote_nodes + node_offset + NODE_DATA_OFFSET as u64
    }
}

impl<Data> LocalList<Data> {
    /// An iterator over the data of the list.
    pub fn into_iter(&self) -> (r: ListIterator<'_, Data>)
        ensures
            r@ == self@.iter_at(self@.head),
    {
        self.iter_at(self.head)
    }

    /// An iterator over the data of the list from node `next` on.
    pub fn iter_at(&self, next: u16) -> (r: ListIterator<'_, Data>)
        ensures
            r@ == self@.iter_at(next),
    {
        ListIterator { nodes: &self.nodes, next }
    }
}

impl<'a, Data> ListIterator<'a, Data> {
    /// Whether the next link is one that can be followed.
    pub fn link_in_range(&self) -> (r: bool)
        ensures
            r == self@.link_in_range(),
    {
        self.next == NULL_NODE || (self.next as usize) < self.nodes.len()
    }

    /// Index of the node whose data comes next.
    pub fn next_index(&self) -> (r: u16)
        ensures
            r == self@.next,
    {
        self.next
    }

    /// Yields the data of the next node, until the end of the list.
    pub fn next(&mut self) -> (r: Option<&'a Data>)
        requires
            old(self)@.link_in_range(),
        ensures
            match r {
                Some(data) => old(self)@.item() == Some(*data),
                None => old(self)@.item() is None,
            },
            final(self)@ == old(self)@.advanced(),
    {
        if self.next == NULL_NODE {
            None
        } else {
            let node: &'a Node<Data> = &self.nodes[self.next as usize];
            self.next = node.next;
            Some(&node.data)
        }
    }
}

proof fn lemma_nodes_stay<Data>(iter: ListIteratorView<Data>, n: nat)
    ensures
        iter.after(n).nodes == iter.nodes,
    decreases n,
{
    if n > 0 {
        lemma_nodes_stay(iter, (n - 1) as nat);
    }
}

/// Where links have led so far, the next link leads on from there.
pub(crate) proof fn lemma_walk<Data>(list: LocalListView<Data>, k: nat, next: u16)
    requires
        list.leads_to(k, next),
    ensures
        list.iter_at(list.head).after(k) == list.iter_at(next),
        list.iter_at(next).link_in_range() ==> list.leads_to(
            k + 1,
            list.iter_at(next).advanced().next,
        ),
{
    let start = list.iter_at(list.head);
    lemma_nodes_stay(start, k);
    assert(start.after(k + 1) == start.after(k).advanced());
}

/// Where iteration along a path stands.
pub(crate) proof fn lemma_position_after<Data>(list: LocalListView<Data>, path: Seq<u16>, k: nat)
    requires
        list.is_path(list.head, path),
        k <= path.len(),
    ensures
        list.iter_at(list.head).after(k) == list.iter_at(
            if k < path.len() {
                path[k as int]
            } else {
                NULL_NODE
            },
        ),
    decreases k,
{
    if k > 0 {
        lemma_position_after(list, path, (k - 1) as nat);
        assert(path[k - 1] != NULL_NODE);
    }
}

/// Iteration yields the data of the nodes of the list in list order, each
/// along the link of the one before it, and then ends.
pub proof fn law_iteration_follows_links<Data>(list: LocalListView<Data>, path: Seq<u16>)
    requires
        list.is_path(list.head, path),
    ensures
        forall|k: nat|
            k < path.len() ==> {
                &&& (#[trigger] list.iter_at(list.head).after(k)).link_in_range()
                &&& list.iter_at(list.head).after(k).item() == Some(
                    list.nodes[path[k as int] as int].data,
                )
            },
        list.iter_at(list.head).after(path.len()).item() is None,
{
    assert forall|k: nat| k < path.len() implies {
        &&& (#[trigger] list.iter_at(list.head).after(k)).link_in_range()
        &&& list.iter_at(list.head).after(k).item() == Some(
            list.nodes[path[k as int] as int].data,
        )
    } by {
        lemma_position_after(list, path, k);
        assert(path[k as int] != NULL_NODE);
    }
    lemma_position_after(list, path, path.len());
}

proof fn lemma_equal_nodes_go_on_equally<Data>(
    list: LocalListView<Data>,
    first: u16,
    path: Seq<u16>,
    i: int,
    j: int,
    t: int,
)
    requires
        list.is_path(first, path),
        0 <= i < j,
        0 <= t,
        j + t < path.len(),
        path[i] == path[j],
    ensures
        path[i + t] == path[j + t],
    decreases t,
{
    if t > 0 {
        lemma_equal_nodes_go_on_equally(list, first, path, i, j, t - 1);
        assert(path[i + t - 1] == path[j + t - 1]);
    }
}

/// A list that comes to an end goes through no node twice.
pub proof fn law_list_visits_once<Data>(list: LocalListView<Data>, first: u16, path: Seq<u16>)
    requires
        list.is_path(first, path),
    ensures
        path.no_duplicates(),
        path.len() <= list.nodes.len(),
{
    assert forall|i: int, j: int| 0 <= i < j < path.len() implies path[i] != path[j] by {
        if path[i] == path[j] {
            let t = path.len() - 1 - j;
            lemma_equal_nodes_go_on_equally(list, first, path, i, j, t);
            assert(path[i + t + 1] != NULL_NODE);
            assert(path[j + t] == path[i + t]);
        }
    }
    let indices = path.map_values(|n: u16| n as int);
    assert(indices.no_duplicates());
    indices.unique_seq_to_set();
    vstd::set_lib::lemma_int_range(0, list.nodes.len() as int);
    assert forall|n: int| indices.to_set().contains(n) implies vstd::set_lib::set_int_range(
        0,
        list.nodes.len() as int,
    ).contains(n) by {
        let i = choose|i: int| 0 <= i < indices.len() && indices[i] == n;
        assert(path[i] < list.nodes.len());
    }
    vstd::set_lib::lemma_len_subset(
        indices.to_set(),
        vstd::set_lib::set_int_range(0, list.nodes.len() as int),
    );
}

/// There is only one way through a list.
pub proof fn law_list_has_one_path<Data>(
    list: LocalListView<Data>,
    first: u16,
    path: Seq<u16>,
    other: Seq<u16>,
)
    requires
        list.is_path(first, path),
        list.is_path(first, other),
    ensures
        path == other,
    decreases path.len(),
{
    if path.len() > 0 && other.len() > 0 {
        let rest = path.drop_first();
        let other_rest = other.drop_first();
        let next = list.nodes[path[0] as int].next;
        assert forall|i: int| 0 <= i < rest.len() implies #[trigger] rest[i] == path[i + 1] by {}
        assert forall|i: int| 0 <= i < other_rest.len() implies #[trigger] other_rest[i]
            == other[i + 1] by {}
        assert(list.is_path(next, rest));
        assert(list.is_path(next, other_rest));
        law_list_has_one_path(list, next, rest, other_rest);
        assert(path =~= seq![path[0]] + rest);
        assert(other =~= seq![other[0]] + other_rest);
    } else if path.len() > 0 {
        assert(path[0] != NULL_NODE);
    } else if other.len() > 0 {
        assert(other[0] != NULL_NODE);
    }
}

} // verus!
