//! What a patch comes to, byte by byte.
//!
//! The laws here tell from the bytes of the registry and of the lists in the
//! other process which bytes a patch changes, and what it reports.
use crate::cvar::{CCVar, Cmd, LocalListView};
use crate::layout::{
    law_cmd_list_is_its_nodes, law_node_array_is_where_the_list_says, law_registry_in_a_chunk,
    law_var_list_is_its_nodes, qword_at, word_at,
};
use crate::patch::{
    cmd_flags_addr, is_flagged, patch_start, unflagged, var_flags_addr, Action, ActionView, PatchView,
    Reply, ReplyView, StageView,
};
use crate::process::{
    byte_is_flagged, cleared, cmd_addrs, cmds_are_sound, cmds_in, flagged, is_mapped, is_memory,
    law_patch_removes_the_flag, lemma_cmd_addrs, lemma_registered_flags_are_mapped,
    lemma_var_addrs, patch_leaves, peek, registered_flags, run, var_addrs, vars_are_sound, vars_in,
    ProcessMemory,
};
use crate::plain::Plain;
use crate::remote::Memory;
use vstd::prelude::*;

verus! {

/// The number in the two bytes from address `a` on.
pub open spec fn word_in(m: ProcessMemory, a: int) -> int {
    m[a] + 0x100 * m[a + 1]
}

/// The number in the eight bytes from address `a` on.
pub open spec fn qword_in(m: ProcessMemory, a: int) -> int {
    m[a] + 0x100 * m[a + 1] + 0x1_0000 * m[a + 2] + 0x100_0000 * m[a + 3] + 0x1_0000_0000 * m[a + 4]
        + 0x100_0000_0000 * m[a + 5] + 0x1_0000_0000_0000 * m[a + 6] + 0x100_0000_0000_0000
        * m[a + 7]
}

/// An action asks for what it names, and a finished patch reports its count or
/// the code of its failure.
pub proof fn law_actions_ask_for_what_they_name(action: Action)
    ensures
        match action {
            Action::Read(request) => action@ == (ActionView::Read {
                addr: request.addr,
                size: request.size as nat,
            }),
            Action::Write(request) => action@ == (ActionView::Write {
                addr: request.addr,
                bytes: request.bytes@,
            }),
            Action::Pass => action@ == ActionView::Pass,
            Action::Finish(Ok(count)) => action@ == ActionView::Finish(Ok(count as nat)),
            Action::Finish(Err(code)) => action@ == ActionView::Finish(Err(code)),
        },
{
}

/// A reply hands over what it holds.
pub proof fn law_replies_hand_over_what_they_hold(reply: Reply)
    ensures
        match reply {
            Reply::Bytes(bytes) => reply@ == ReplyView::Bytes(bytes@),
            Reply::Done => reply@ == ReplyView::Done,
            Reply::Failed(code) => reply@ == ReplyView::Failed(code),
        },
{
}

/// The flag to remove is worth two. Without it the flags are worth two less,
/// and flags that do not have it stay as they are.
pub proof fn law_flag_is_worth_two(flags: u64)
    ensures
        is_flagged(flags) == ((flags / 2) % 2 == 1),
        unflagged(flags) == if (flags / 2) % 2 == 1 {
            flags - 2
        } else {
            flags as int
        },
{
    assert((flags & 2 != 0) == ((flags / 2) % 2 == 1)) by (bit_vector);
    assert((flags / 2) % 2 == 1 ==> flags & !2u64 == flags - 2) by (bit_vector);
    assert((flags / 2) % 2 != 1 ==> flags & !2u64 == flags) by (bit_vector);
}

/// The flags of a variable lie 0x30 bytes behind its start. Those of a command
/// lie 0x10 bytes behind the start of its node, which takes 0x38 bytes.
pub proof fn law_flags_lie_at_their_offsets(var_addr: u64, cmds: LocalListView<Cmd>, index: u16)
    ensures
        var_flags_addr(var_addr) == var_addr + 0x30,
        cmd_flags_addr(cmds, index) == cmds.remote_nodes + 0x38 * index + 0x10,
{
    let size = crate::cvar::Node::<Cmd>::size();
    crate::layout::law_cmd_node_layout(Seq::new(0x38, |i: int| 0u8));
    assert(index * size == 0x38 * index) by (nonlinear_arith)
        requires
            size == 0x38,
    ;
}

/// Where the node array starts of a list that lies at offset `at` of an image.
pub open spec fn nodes_of(b: Seq<u8>, at: int) -> int {
    if word_at(b, at + 2) % 0x8000 == 0 {
        0
    } else {
        qword_at(b, at + 8)
    }
}

/// Number of nodes of a list that lies at offset `at` of an image.
pub open spec fn count_of(b: Seq<u8>, at: int) -> int {
    word_at(b, at)
}

/// Index of the first node of a list that lies at offset `at` of an image.
pub open spec fn head_of(b: Seq<u8>, at: int) -> int {
    word_at(b, at + 16)
}

/// Whether the links of `count` nodes, which lie `stride` bytes apart from
/// `nodes` on and have their link at offset `link`, lead from `head` along
/// `path` to the end of the list, index 0xFFFF.
pub open spec fn is_chain(
    m: ProcessMemory,
    nodes: int,
    stride: int,
    link: int,
    count: int,
    head: int,
    path: Seq<u16>,
) -> bool {
    &&& head == if path.len() == 0 {
        0xFFFF
    } else {
        path[0] as int
    }
    &&& forall|i: int|
        0 <= i < path.len() ==> {
            &&& #[trigger] path[i] != 0xFFFF
            &&& path[i] < count
            &&& word_in(m, nodes + stride * path[i] + link) == if i + 1 < path.len() {
                path[i + 1] as int
            } else {
                0xFFFF
            }
        }
}

/// Whether the `len` bytes from `addr` on can be accessed.
pub open spec fn is_there(m: ProcessMemory, addr: int, len: int) -> bool {
    forall|x: int| addr <= x < addr + len ==> #[trigger] m.dom().contains(x)
}

/// Where the flags of the variable at node `index` lie.
pub open spec fn var_flags_in(m: ProcessMemory, nodes: int, index: u16) -> int {
    qword_in(m, nodes + 16 * index) + 0x30
}

/// Whether the flags of a variable at a node of `path` start at `x`.
pub open spec fn is_var_flag_byte(m: ProcessMemory, nodes: int, path: Seq<u16>, x: int) -> bool {
    exists|i: int| 0 <= i < path.len() && x == var_flags_in(m, nodes, #[trigger] path[i])
}

/// Whether the flags of a command at a node of `path` start at `x`.
pub open spec fn is_cmd_flag_byte(nodes: int, path: Seq<u16>, x: int) -> bool {
    exists|i: int| 0 <= i < path.len() && x == nodes + 0x38 * (#[trigger] path[i]) + 0x10
}

/// Whether the bytes say that the variables and the commands of the registry at
/// offset `rva` of the image are those at the nodes `var_path` and `cmd_path`,
/// that all of them can be accessed, and that no flags of a variable start
/// within a link of the command list.
pub open spec fn lists_are_in_order(
    image: Memory,
    rva: u64,
    m: ProcessMemory,
    var_path: Seq<u16>,
    cmd_path: Seq<u16>,
) -> bool {
    let b = image.bytes();
    let vars = nodes_of(b, rva + 0x40);
    let cmds = nodes_of(b, rva + 0xF8);
    &&& forall|x: int| #[trigger] m.dom().contains(x) ==> 0 <= x <= u64::MAX
    &&& is_there(m, vars, 16 * count_of(b, rva + 0x40))
    &&& is_there(m, cmds, 0x38 * count_of(b, rva + 0xF8))
    &&& is_chain(m, vars, 16, 10, count_of(b, rva + 0x40), head_of(b, rva + 0x40), var_path)
    &&& is_chain(m, cmds, 0x38, 0x32, count_of(b, rva + 0xF8), head_of(b, rva + 0xF8), cmd_path)
    &&& forall|i: int|
        0 <= i < var_path.len() ==> is_there(m, var_flags_in(m, vars, #[trigger] var_path[i]), 8)
    &&& forall|i: int, j: int|
        0 <= i < var_path.len() && 0 <= j < cmd_path.len() ==> !(0 <= var_flags_in(
            m,
            vars,
            #[trigger] var_path[i],
        ) - (cmds + 0x38 * (#[trigger] cmd_path[j]) + 0x32) < 2)
}

/// The bytes where the flags of the registry at offset `rva` of the image
/// start and have the flag to remove.
pub open spec fn flag_bytes(
    image: Memory,
    rva: u64,
    m: ProcessMemory,
    var_path: Seq<u16>,
    cmd_path: Seq<u16>,
) -> Set<int> {
    let vars = nodes_of(image.bytes(), rva + 0x40);
    let cmds = nodes_of(image.bytes(), rva + 0xF8);
    Set::new(
        |x: int|
            (is_var_flag_byte(m, vars, var_path, x) || is_cmd_flag_byte(cmds, cmd_path, x)) && m[x]
                & 2 != 0,
    )
}

/// A patch first asks for all the variable nodes that the bytes of the registry
/// name. Once it stands at the end of the variables it asks for all the command
/// nodes.
pub proof fn law_patch_asks_for_all_nodes(image: Memory, rva: u64, patch: PatchView)
    requires
        image.value_at::<CCVar>(rva) == Some(patch.cvars),
    ensures
        patch.stage is FetchVars ==> match patch.action() {
            ActionView::Read { addr, size } => {
                &&& addr == nodes_of(image.bytes(), rva + 0x40)
                &&& size == 16 * count_of(image.bytes(), rva + 0x40)
            },
            _ => false,
        },
        patch.stage matches StageView::VisitVar { vars, next } ==> next == 0xFFFF
            ==> match patch.action() {
            ActionView::Read { addr, size } => {
                &&& addr == nodes_of(image.bytes(), rva + 0xF8)
                &&& size == 0x38 * count_of(image.bytes(), rva + 0xF8)
            },
            _ => false,
        },
{
    law_registry_in_a_chunk(image, rva);
    law_node_array_is_where_the_list_says(patch.cvars.vars, patch.cvars.cmds);
}

proof fn lemma_var_node_in(m: ProcessMemory, cvars: CCVar, i: int)
    requires
        0 <= i < cvars.vars.count,
    ensures
        vars_in(m, cvars).nodes.len() == cvars.vars.count,
        vars_in(m, cvars).nodes[i].data == qword_in(m, cvars.vars.nodes_addr() + 16 * i),
        vars_in(m, cvars).nodes[i].next == word_in(m, cvars.vars.nodes_addr() + 16 * i + 10),
{
    law_node_array_is_where_the_list_says(cvars.vars, cvars.cmds);
    let all = peek(m, cvars.vars.nodes_addr() as int, cvars.vars.nodes_size());
    law_var_list_is_its_nodes(cvars.vars, all, i);
}

proof fn lemma_cmd_node_in(m: ProcessMemory, cvars: CCVar, i: int)
    requires
        0 <= i < cvars.cmds.count,
    ensures
        cmds_in(m, cvars).nodes.len() == cvars.cmds.count,
        cmds_in(m, cvars).nodes[i].next == word_in(m, cvars.cmds.nodes_addr() + 0x38 * i + 0x32),
{
    law_node_array_is_where_the_list_says(cvars.vars, cvars.cmds);
    let all = peek(m, cvars.cmds.nodes_addr() as int, cvars.cmds.nodes_size());
    law_cmd_list_is_its_nodes(cvars.cmds, all, i);
}

proof fn lemma_var_addrs_of_path(vars: LocalListView<u64>, path: Seq<u16>, k: nat, i: int)
    requires
        0 <= i < k <= path.len(),
    ensures
        var_addrs(vars, path, k).contains(var_flags_addr(vars.nodes[path[i] as int].data)),
    decreases k,
{
    if i < k - 1 {
        lemma_var_addrs_of_path(vars, path, (k - 1) as nat, i);
    }
}

proof fn lemma_cmd_addrs_of_path(cmds: LocalListView<Cmd>, path: Seq<u16>, k: nat, i: int)
    requires
        0 <= i < k <= path.len(),
    ensures
        cmd_addrs(cmds, path, k).contains(cmd_flags_addr(cmds, path[i])),
    decreases k,
{
    if i < k - 1 {
        lemma_cmd_addrs_of_path(cmds, path, (k - 1) as nat, i);
    }
}

/// The variables that the bytes name are the ones of the list.
proof fn lemma_vars_are_sound(
    image: Memory,
    rva: u64,
    cvars: CCVar,
    m: ProcessMemory,
    var_path: Seq<u16>,
    cmd_path: Seq<u16>,
)
    requires
        image.value_at::<CCVar>(rva) == Some(cvars),
        lists_are_in_order(image, rva, m, var_path, cmd_path),
    ensures
        cvars.vars.nodes_addr() == nodes_of(image.bytes(), rva + 0x40),
        cvars.cmds.nodes_addr() == nodes_of(image.bytes(), rva + 0xF8),
        vars_are_sound(m, cvars, var_path),
        forall|x: int| #[trigger]
            var_addrs(vars_in(m, cvars), var_path, var_path.len()).contains(x)
                <==> is_var_flag_byte(m, nodes_of(image.bytes(), rva + 0x40), var_path, x),
{
    law_registry_in_a_chunk(image, rva);
    law_node_array_is_where_the_list_says(cvars.vars, cvars.cmds);
    let vars = vars_in(m, cvars);
    let nodes = nodes_of(image.bytes(), rva + 0x40);
    let all = var_addrs(vars, var_path, var_path.len());
    assert forall|i: int| 0 <= i < var_path.len() implies {
        &&& #[trigger] var_path[i] != 0xFFFF
        &&& var_path[i] < vars.nodes.len()
        &&& vars.nodes[var_path[i] as int].next == if i + 1 < var_path.len() {
            var_path[i + 1]
        } else {
            0xFFFF
        }
        &&& var_flags_addr(vars.nodes[var_path[i] as int].data) == var_flags_in(
            m,
            nodes,
            var_path[i],
        )
        &&& is_mapped(m, var_flags_addr(vars.nodes[var_path[i] as int].data), 8)
    } by {
        lemma_var_node_in(m, cvars, var_path[i] as int);
        assert(is_there(m, var_flags_in(m, nodes, var_path[i]), 8));
    }
    assert(vars.is_path(cvars.vars.head, var_path));
    lemma_var_addrs(vars, var_path, var_path.len());
    assert forall|x: int| #[trigger] all.contains(x) <==> is_var_flag_byte(
        m,
        nodes,
        var_path,
        x,
    ) by {
        if all.contains(x) {
            let i = choose|i: int|
                0 <= i < var_path.len() && x == var_flags_addr(
                    vars.nodes[#[trigger] var_path[i] as int].data,
                );
            assert(x == var_flags_in(m, nodes, var_path[i]));
        }
        if is_var_flag_byte(m, nodes, var_path, x) {
            let i = choose|i: int|
                0 <= i < var_path.len() && x == var_flags_in(m, nodes, #[trigger] var_path[i]);
            lemma_var_addrs_of_path(vars, var_path, var_path.len(), i);
        }
    }
}

/// The commands that the bytes name are the ones of the list, also when the
/// variables are done.
proof fn lemma_cmds_are_sound(
    image: Memory,
    rva: u64,
    cvars: CCVar,
    m: ProcessMemory,
    var_path: Seq<u16>,
    cmd_path: Seq<u16>,
)
    requires
        image.value_at::<CCVar>(rva) == Some(cvars),
        lists_are_in_order(image, rva, m, var_path, cmd_path),
    ensures
        ({
            let m1 = cleared(m, var_addrs(vars_in(m, cvars), var_path, var_path.len()));
            &&& cmds_are_sound(m1, cvars, cmd_path)
            &&& forall|x: int| #[trigger]
                cmd_addrs(cmds_in(m1, cvars), cmd_path, cmd_path.len()).contains(x)
                    <==> is_cmd_flag_byte(nodes_of(image.bytes(), rva + 0xF8), cmd_path, x)
        }),
{
    law_registry_in_a_chunk(image, rva);
    law_node_array_is_where_the_list_says(cvars.vars, cvars.cmds);
    lemma_vars_are_sound(image, rva, cvars, m, var_path, cmd_path);
    let vars = nodes_of(image.bytes(), rva + 0x40);
    let nodes = nodes_of(image.bytes(), rva + 0xF8);
    let done = var_addrs(vars_in(m, cvars), var_path, var_path.len());
    let m1 = cleared(m, done);
    let cmds = cmds_in(m1, cvars);
    let all = cmd_addrs(cmds, cmd_path, cmd_path.len());
    assert forall|x: int| #[trigger] m1.dom().contains(x) <==> m.dom().contains(x) by {}
    assert forall|i: int| 0 <= i < cmd_path.len() implies {
        &&& #[trigger] cmd_path[i] != 0xFFFF
        &&& cmd_path[i] < cmds.nodes.len()
        &&& cmds.nodes[cmd_path[i] as int].next == if i + 1 < cmd_path.len() {
            cmd_path[i + 1]
        } else {
            0xFFFF
        }
        &&& cmd_flags_addr(cmds, cmd_path[i]) == nodes + 0x38 * cmd_path[i] + 0x10
    } by {
        let link = nodes + 0x38 * cmd_path[i] + 0x32;
        lemma_cmd_node_in(m1, cvars, cmd_path[i] as int);
        law_flags_lie_at_their_offsets(0, cmds, cmd_path[i]);
        assert forall|x: int| link <= x < link + 2 implies m1[x] == m[x] by {
            assert(m.dom().contains(x));
            if done.contains(x) {
                assert(is_var_flag_byte(m, vars, var_path, x));
                let j = choose|j: int|
                    0 <= j < var_path.len() && x == var_flags_in(m, vars, #[trigger] var_path[j]);
                assert(!(0 <= var_flags_in(m, vars, var_path[j]) - (nodes + 0x38 * cmd_path[i]
                    + 0x32) < 2));
            }
        }
        assert(word_in(m1, link) == word_in(m, link));
    }
    assert(cmds.is_path(cvars.cmds.head, cmd_path));
    lemma_cmd_addrs(cmds, cmd_path, cmd_path.len());
    assert forall|x: int| #[trigger] all.contains(x) <==> is_cmd_flag_byte(nodes, cmd_path, x) by {
        if all.contains(x) {
            let i = choose|i: int|
                0 <= i < cmd_path.len() && x == cmd_flags_addr(cmds, #[trigger] cmd_path[i]);
            assert(x == nodes + 0x38 * cmd_path[i] + 0x10);
        }
        if is_cmd_flag_byte(nodes, cmd_path, x) {
            let i = choose|i: int|
                0 <= i < cmd_path.len() && x == nodes + 0x38 * (#[trigger] cmd_path[i]) + 0x10;
            lemma_cmd_addrs_of_path(cmds, cmd_path, cmd_path.len(), i);
        }
    }
}

/// Whether a patch of the registry `cvars` that begins with memory `m` finishes,
/// reports `count`, and leaves all bytes as they are but those at `changed`,
/// which lose the bit that is worth two.
pub open spec fn patch_changes(
    cvars: CCVar,
    m: ProcessMemory,
    fault: i32,
    count: nat,
    changed: Set<int>,
) -> bool {
    exists|n: nat|
        {
            &&& (#[trigger] run(patch_start(cvars), m, fault, n)) matches Some((patch, after))
            &&& patch.action() == ActionView::Finish(Ok(count))
            &&& after.dom() == m.dom()
            &&& forall|x: int|
                m.dom().contains(x) ==> #[trigger] after[x] == if changed.contains(x) {
                    m[x] - 2
                } else {
                    m[x] as int
                }
        }
}

/// A patch takes the bit that is worth two from the first byte of the flags of
/// every variable and every command that the bytes of the lists name and that
/// has it. It changes no other bit of memory, and reports how many there were.
pub proof fn law_patch_changes_the_named_bytes(
    image: Memory,
    rva: u64,
    cvars: CCVar,
    m: ProcessMemory,
    var_path: Seq<u16>,
    cmd_path: Seq<u16>,
    fault: i32,
)
    requires
        image.value_at::<CCVar>(rva) == Some(cvars),
        lists_are_in_order(image, rva, m, var_path, cmd_path),
    ensures
        ({
            let changed = flag_bytes(image, rva, m, var_path, cmd_path);
            &&& changed.finite()
            &&& changed.subset_of(m.dom())
            &&& patch_changes(cvars, m, fault, changed.len(), changed)
        }),
{
    let changed = flag_bytes(image, rva, m, var_path, cmd_path);
    let vars = var_addrs(vars_in(m, cvars), var_path, var_path.len());
    let m1 = cleared(m, vars);
    let cmds = cmd_addrs(cmds_in(m1, cvars), cmd_path, cmd_path.len());
    let flags = registered_flags(m, cvars, var_path, cmd_path);
    lemma_vars_are_sound(image, rva, cvars, m, var_path, cmd_path);
    lemma_cmds_are_sound(image, rva, cvars, m, var_path, cmd_path);
    lemma_var_addrs(vars_in(m, cvars), var_path, var_path.len());
    lemma_cmd_addrs(cmds_in(m1, cvars), cmd_path, cmd_path.len());
    lemma_registered_flags_are_mapped(cvars, m, var_path, cmd_path);
    assert(flags == vars + cmds);
    assert(flagged(m, flags) =~= changed);
    flags.lemma_len_filter(|a: int| byte_is_flagged(m[a]));
    law_patch_removes_the_flag(cvars, m, var_path, cmd_path, fault);
    assert forall|y: u8|
        (#[trigger] (y & 0xFD)) == if y & 2 != 0 {
            y - 2
        } else {
            y as int
        } by {
        assert(y & 2 != 0 ==> y & 0xFD == y - 2) by (bit_vector);
        assert(y & 2 == 0 ==> y & 0xFD == y) by (bit_vector);
    }
    let after = cleared(m, flags);
    assert(after.dom() =~= m.dom());
    assert(patch_leaves(cvars, m, fault, changed.len(), after));
    let n = choose|n: nat|
        {
            &&& (#[trigger] run(patch_start(cvars), m, fault, n)) matches Some((patch, then))
            &&& patch.action() == ActionView::Finish(Ok(changed.len()))
            &&& then == after
        };
    assert forall|x: int| m.dom().contains(x) implies #[trigger] after[x] == if changed.contains(
        x,
    ) {
        m[x] - 2
    } else {
        m[x] as int
    } by {
        assert(flags.contains(x) && byte_is_flagged(m[x]) <==> changed.contains(x));
    }
    assert(run(patch_start(cvars), m, fault, n) is Some);
}

} // verus!
