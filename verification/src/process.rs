//! What a patch does to the other process.
//!
//! The memory of the other process is a map from addresses to bytes that
//! nobody else changes meanwhile. Running a patch against it shows which
//! bytes end up changed, and how.
use crate::cvar::{
    law_list_visits_once, prev_offset, CCVar, Cmd, List, ListData, LocalListView, Node, Var,
    NULL_NODE, VAR_FLAGS_OFFSET,
};
use crate::patch::{
    cmd_flags_addr, is_flagged, patch_start, unflagged, var_flags_addr, ActionView, PatchView,
    ReplyView, StageView,
};
use crate::plain::{
    law_bytes_come_back, lemma_le_value_8, le_bytes, le_value, slice_at, Plain, Scalar,
};
use vstd::prelude::*;

verus! {

/// The bytes of a process, by address.
pub type ProcessMemory = Map<int, u8>;

/// Whether all addresses are 64 bits wide.
pub open spec fn is_memory(m: ProcessMemory) -> bool {
    forall|x: int| #[trigger] m.dom().contains(x) ==> 0 <= x <= u64::MAX
}

/// Whether the `len` bytes from `addr` on can be accessed.
pub open spec fn is_mapped(m: ProcessMemory, addr: int, len: nat) -> bool {
    forall|x: int| addr <= x < addr + len ==> #[trigger] m.dom().contains(x)
}

/// The `len` bytes from `addr` on.
pub open spec fn peek(m: ProcessMemory, addr: int, len: nat) -> Seq<u8> {
    Seq::new(len, |i: int| m[addr + i])
}

/// The memory after `bytes` were stored from `addr` on.
pub open spec fn poke(m: ProcessMemory, addr: int, bytes: Seq<u8>) -> ProcessMemory {
    Map::new(
        |x: int| m.dom().contains(x),
        |x: int|
            if addr <= x < addr + bytes.len() {
                bytes[x - addr]
            } else {
                m[x]
            },
    )
}

/// What comes of an action on memory `m`, and the memory after it. A request
/// for bytes that cannot be accessed fails with code `fault`.
pub open spec fn serve(m: ProcessMemory, action: ActionView, fault: i32) -> (
    ReplyView,
    ProcessMemory,
) {
    match action {
        ActionView::Read { addr, size } => if is_mapped(m, addr as int, size) {
            (ReplyView::Bytes(peek(m, addr as int, size)), m)
        } else {
            (ReplyView::Failed(fault), m)
        },
        ActionView::Write { addr, bytes } => if is_mapped(m, addr as int, bytes.len()) {
            (ReplyView::Done, poke(m, addr as int, bytes))
        } else {
            (ReplyView::Failed(fault), m)
        },
        _ => (ReplyView::Done, m),
    }
}

/// Where a patch and the memory stand after at most `n` steps, if each step
/// was one that the patch can take.
pub open spec fn run(patch: PatchView, m: ProcessMemory, fault: i32, n: nat) -> Option<
    (PatchView, ProcessMemory),
>
    decreases n,
{
    if !patch.link_in_range() {
        None
    } else if patch.action() is Finish || n == 0 {
        Some((patch, m))
    } else {
        let (reply, after) = serve(m, patch.action(), fault);
        if patch.takes(reply) {
            run(patch.next(reply), after, fault, (n - 1) as nat)
        } else {
            None
        }
    }
}

/// Whether a byte, the lowest of a word of flags, has the flag to remove.
pub open spec fn byte_is_flagged(b: u8) -> bool {
    b & 2 != 0
}

/// The memory without the flag in the words at `addrs`.
pub open spec fn cleared(m: ProcessMemory, addrs: Set<int>) -> ProcessMemory {
    Map::new(
        |x: int| m.dom().contains(x),
        |x: int|
            if addrs.contains(x) {
                m[x] & 0xFD
            } else {
                m[x]
            },
    )
}

/// Those of `addrs` where a word of flags has the flag to remove.
pub open spec fn flagged(m: ProcessMemory, addrs: Set<int>) -> Set<int> {
    addrs.filter(|a: int| byte_is_flagged(m[a]))
}

/// Where the flags of the variables at the first `k` nodes of `path` lie.
pub open spec fn var_addrs(vars: LocalListView<u64>, path: Seq<u16>, k: nat) -> Set<int>
    decreases k,
{
    if k == 0 {
        Set::empty()
    } else {
        var_addrs(vars, path, (k - 1) as nat).insert(
            var_flags_addr(vars.nodes[path[k - 1] as int].data),
        )
    }
}

/// Where the flags of the commands at the first `k` nodes of `path` lie.
pub open spec fn cmd_addrs(cmds: LocalListView<Cmd>, path: Seq<u16>, k: nat) -> Set<int>
    decreases k,
{
    if k == 0 {
        Set::empty()
    } else {
        cmd_addrs(cmds, path, (k - 1) as nat).insert(cmd_flags_addr(cmds, path[k - 1]))
    }
}

/// The variable list as it lies in memory.
pub open spec fn vars_in(m: ProcessMemory, cvars: CCVar) -> LocalListView<u64> {
    cvars.vars.list_in(
        peek(m, cvars.vars.nodes_addr() as int, cvars.vars.nodes_size()),
    )
}

/// The command list as it lies in memory.
pub open spec fn cmds_in(m: ProcessMemory, cvars: CCVar) -> LocalListView<Cmd> {
    cvars.cmds.list_in(
        peek(m, cvars.cmds.nodes_addr() as int, cvars.cmds.nodes_size()),
    )
}

/// Whether the variables of the registry are the ones at the nodes `path`,
/// and all of them can be accessed.
pub open spec fn vars_are_sound(m: ProcessMemory, cvars: CCVar, path: Seq<u16>) -> bool {
    let vars = vars_in(m, cvars);
    &&& is_mapped(m, cvars.vars.nodes_addr() as int, cvars.vars.nodes_size())
    &&& vars.is_path(cvars.vars.head, path)
    &&& forall|i: int|
        0 <= i < path.len() ==> is_mapped(
            m,
            var_flags_addr(vars.nodes[#[trigger] path[i] as int].data),
            8,
        )
}

/// Whether the commands of the registry are the ones at the nodes `path`, and
/// all of them can be accessed.
pub open spec fn cmds_are_sound(m: ProcessMemory, cvars: CCVar, path: Seq<u16>) -> bool {
    &&& is_mapped(m, cvars.cmds.nodes_addr() as int, cvars.cmds.nodes_size())
    &&& cmds_in(m, cvars).is_path(cvars.cmds.head, path)
}

/// A word of flags holds the flag to remove in its lowest byte, and removing
/// it changes no other bit.
pub proof fn law_flag_is_one_bit(bytes: Seq<u8>)
    requires
        bytes.len() == 8,
    ensures
        is_flagged(u64::decode(bytes)) == byte_is_flagged(bytes[0]),
        unflagged(u64::decode(bytes)).encode() == bytes.update(0, bytes[0] & 0xFD),
        !is_flagged(unflagged(u64::decode(bytes))),
{
    let v = u64::decode(bytes);
    let u = unflagged(v);
    let low = bytes[0];
    let tail = bytes.drop_first();
    lemma_le_value_8(bytes);
    assert(v as nat == low as nat + 256 * le_value(tail));
    assert(v % 256 == low);
    assert(v / 256 == le_value(tail));
    assert((v & 2 != 0) == ((v % 256) & 2 != 0)) by (bit_vector);
    assert(((low as u64) & 2 != 0) == (low & 2 != 0)) by (bit_vector);
    assert((v & !2u64) % 256 == (v % 256) & 0xFD) by (bit_vector);
    assert((v & !2u64) / 256 == v / 256) by (bit_vector);
    assert((v & !2u64) & 2 == 0) by (bit_vector);
    assert((low as u64) & 0xFD == (low & 0xFD) as u64) by (bit_vector);
    assert(u % 256 == (low & 0xFD) as u64);
    law_bytes_come_back(tail);
    assert(le_bytes(u as nat, 8) == seq![(u as nat % 256) as u8] + le_bytes(u as nat / 256, 7));
    assert(seq![low & 0xFD] + tail =~= bytes.update(0, low & 0xFD));
}

/// What was stored is what is found there, and nothing else has changed.
pub proof fn law_peek_gives_back_poke(m: ProcessMemory, addr: int, bytes: Seq<u8>)
    requires
        is_mapped(m, addr, bytes.len()),
    ensures
        peek(poke(m, addr, bytes), addr, bytes.len()) == bytes,
        poke(m, addr, bytes).dom() == m.dom(),
        forall|x: int|
            m.dom().contains(x) && !(addr <= x < addr + bytes.len()) ==> #[trigger] poke(
                m,
                addr,
                bytes,
            )[x] == m[x],
{
    assert forall|i: int| 0 <= i < bytes.len() implies peek(
        poke(m, addr, bytes),
        addr,
        bytes.len(),
    )[i] == bytes[i] by {
        assert(m.dom().contains(addr + i));
    }
    assert(peek(poke(m, addr, bytes), addr, bytes.len()) =~= bytes);
    assert(poke(m, addr, bytes).dom() =~= m.dom());
}

/// The word that is patched for a variable is its flags.
pub proof fn law_var_flags_are_at_their_offset(m: ProcessMemory, var_addr: u64)
    ensures
        u64::decode(peek(m, var_flags_addr(var_addr), 8)) == Var::decode(
            peek(m, var_addr as int, Var::size()),
        ).flags,
{
    assert(slice_at(peek(m, var_addr as int, Var::size()), VAR_FLAGS_OFFSET as int, 8) =~= peek(
        m,
        var_flags_addr(var_addr),
        8,
    ));
}

/// The word that is patched for a command is its flags.
pub proof fn law_cmd_flags_are_at_their_offset(m: ProcessMemory, cvars: CCVar, index: u16)
    requires
        index < cvars.cmds.count,
    ensures
        u64::decode(peek(m, cmd_flags_addr(cmds_in(m, cvars), index), 8)) == cmds_in(
            m,
            cvars,
        ).nodes[index as int].data.flags,
{
    lemma_cmd_flags(m, cvars, index);
}

/// The remote address of the data of a node is where the other process keeps
/// that data.
pub proof fn law_remote_address_leads_to_the_data<Data: ListData>(
    m: ProcessMemory,
    list: List<Data>,
    index: int,
)
    requires
        0 <= index < list.count,
    ensures
        ({
            let local = list.list_in(peek(m, list.nodes_addr() as int, list.nodes_size()));
            Data::decode(peek(m, local.remote_data(index), Data::size()))
                == local.nodes[index].data
        }),
{
    let all = peek(m, list.nodes_addr() as int, list.nodes_size());
    let local = list.list_in(all);
    let size = Node::<Data>::size();
    let node = slice_at(all, index * size, size);
    crate::cvar::lemma_data_fits_in_node::<Data>();
    assert(0 <= index * size && index * size + size <= list.count * size) by (nonlinear_arith)
        requires
            0 <= index,
            index + 1 <= list.count,
            0 <= size,
    ;
    assert(local.nodes[index] == Node::<Data>::decode(node));
    assert(slice_at(node, 0, Data::size()) =~= peek(m, local.remote_data(index), Data::size()));
}

/// Once a request has failed the work is over, and ends with the code of that
/// request.
pub proof fn law_failure_is_final(patch: PatchView, code: i32)
    ensures
        patch.next(ReplyView::Failed(code)).action() == ActionView::Finish(Err(code)),
        patch.next(ReplyView::Failed(code)).count == patch.count,
{
}

/// Where the flag has been removed it is no longer found, and removing it
/// again changes nothing.
pub proof fn law_nothing_is_left(m: ProcessMemory, addrs: Set<int>)
    requires
        addrs.subset_of(m.dom()),
    ensures
        flagged(cleared(m, addrs), addrs) == Set::<int>::empty(),
        cleared(cleared(m, addrs), addrs) == cleared(m, addrs),
{
    assert forall|b: u8| !byte_is_flagged(#[trigger] (b & 0xFD)) && (b & 0xFD) & 0xFD == b & 0xFD by {
        lemma_unflagged_byte(b);
    }
    assert(flagged(cleared(m, addrs), addrs) =~= Set::<int>::empty());
    assert(cleared(cleared(m, addrs), addrs) =~= cleared(m, addrs));
}

pub(crate) proof fn lemma_unflagged_byte(b: u8)
    ensures
        !byte_is_flagged(b & 0xFD),
        (b & 0xFD) & 0xFD == b & 0xFD,
        !byte_is_flagged(b) ==> b & 0xFD == b,
{
    assert((b & 0xFD) & 2 == 0 && (b & 0xFD) & 0xFD == b & 0xFD) by (bit_vector);
    assert(b & 2 == 0 ==> b & 0xFD == b) by (bit_vector);
}

/// Storing the word at `a` without the flag removes the flag there.
pub(crate) proof fn lemma_poke_clears(m: ProcessMemory, addrs: Set<int>, a: int)
    requires
        is_mapped(m, a, 8),
    ensures
        poke(
            cleared(m, addrs),
            a,
            peek(cleared(m, addrs), a, 8).update(0, peek(cleared(m, addrs), a, 8)[0] & 0xFD),
        ) == cleared(m, addrs.insert(a)),
{
    lemma_unflagged_byte(m[a]);
    let before = cleared(m, addrs);
    let bytes = peek(before, a, 8).update(0, peek(before, a, 8)[0] & 0xFD);
    assert(m.dom().contains(a));
    assert(poke(before, a, bytes) =~= cleared(m, addrs.insert(a)));
}

/// A word without the flag stays as it is.
proof fn lemma_unflagged_stays(m: ProcessMemory, addrs: Set<int>, a: int)
    requires
        addrs.finite(),
        m.dom().contains(a),
        !byte_is_flagged(cleared(m, addrs)[a]),
    ensures
        cleared(m, addrs.insert(a)) == cleared(m, addrs),
        flagged(m, addrs.insert(a)) == flagged(m, addrs),
{
    lemma_unflagged_byte(m[a]);
    assert(cleared(m, addrs.insert(a)) =~= cleared(m, addrs));
    assert(flagged(m, addrs.insert(a)) =~= flagged(m, addrs));
}

/// A word with the flag is one more.
proof fn lemma_flagged_counts(m: ProcessMemory, addrs: Set<int>, a: int)
    requires
        addrs.finite(),
        m.dom().contains(a),
        byte_is_flagged(cleared(m, addrs)[a]),
    ensures
        flagged(m, addrs.insert(a)).len() == flagged(m, addrs).len() + 1,
{
    lemma_unflagged_byte(m[a]);
    addrs.lemma_len_filter(|x: int| byte_is_flagged(m[x]));
    assert(!addrs.contains(a));
    assert(flagged(m, addrs.insert(a)) =~= flagged(m, addrs).insert(a));
}

proof fn lemma_flagged_bound(m: ProcessMemory, addrs: Set<int>)
    requires
        addrs.finite(),
    ensures
        flagged(m, addrs).finite(),
        flagged(m, addrs).len() <= addrs.len(),
{
    addrs.lemma_len_filter(|x: int| byte_is_flagged(m[x]));
}

pub(crate) proof fn lemma_var_addrs(vars: LocalListView<u64>, path: Seq<u16>, k: nat)
    requires
        k <= path.len(),
    ensures
        var_addrs(vars, path, k).finite(),
        var_addrs(vars, path, k).len() <= k,
        forall|a: int| #[trigger]
            var_addrs(vars, path, k).contains(a) ==> exists|i: int|
                0 <= i < k && a == var_flags_addr(vars.nodes[#[trigger] path[i] as int].data),
    decreases k,
{
    if k > 0 {
        lemma_var_addrs(vars, path, (k - 1) as nat);
        assert forall|a: int| #[trigger] var_addrs(vars, path, k).contains(a) implies exists|i: int|
            0 <= i < k && a == var_flags_addr(vars.nodes[#[trigger] path[i] as int].data) by {
            if a == var_flags_addr(vars.nodes[path[k - 1] as int].data) {
            } else {
                assert(var_addrs(vars, path, (k - 1) as nat).contains(a));
            }
        }
    }
}

pub(crate) proof fn lemma_cmd_addrs(cmds: LocalListView<Cmd>, path: Seq<u16>, k: nat)
    requires
        k <= path.len(),
    ensures
        cmd_addrs(cmds, path, k).finite(),
        cmd_addrs(cmds, path, k).len() <= k,
        forall|a: int| #[trigger]
            cmd_addrs(cmds, path, k).contains(a) ==> exists|i: int|
                0 <= i < k && a == cmd_flags_addr(cmds, #[trigger] path[i]),
    decreases k,
{
    if k > 0 {
        lemma_cmd_addrs(cmds, path, (k - 1) as nat);
        assert forall|a: int| #[trigger] cmd_addrs(cmds, path, k).contains(a) implies exists|i: int|
            0 <= i < k && a == cmd_flags_addr(cmds, #[trigger] path[i]) by {
            if a == cmd_flags_addr(cmds, path[k - 1]) {
            } else {
                assert(cmd_addrs(cmds, path, (k - 1) as nat).contains(a));
            }
        }
    }
}

/// A command node takes 0x38 bytes.
proof fn lemma_cmd_node_size()
    ensures
        Node::<Cmd>::size() == 0x38,
{
}

/// The flags of two commands lie as many nodes apart as the commands do.
pub(crate) proof fn lemma_cmd_flags_apart(cmds: LocalListView<Cmd>, i: u16, j: u16)
    ensures
        cmd_flags_addr(cmds, i) - cmd_flags_addr(cmds, j) == (i - j) * 0x38,
{
    let size = Node::<Cmd>::size();
    lemma_cmd_node_size();
    assert(i * size == i * 0x38 && j * size == j * 0x38) by (nonlinear_arith)
        requires
            size == 0x38,
    ;
}

/// The flags of a command lie where `cmd_flags_addr` says.
pub(crate) proof fn lemma_cmd_flags(m: ProcessMemory, cvars: CCVar, index: u16)
    requires
        index < cvars.cmds.count,
    ensures
        cmds_in(m, cvars).nodes[index as int].data.flags == u64::decode(
            peek(m, cmd_flags_addr(cmds_in(m, cvars), index), 8),
        ),
        cvars.cmds.nodes_addr() <= cmd_flags_addr(cmds_in(m, cvars), index),
        cmd_flags_addr(cmds_in(m, cvars), index) + 8 <= cvars.cmds.nodes_addr()
            + cvars.cmds.nodes_size(),
{
    lemma_cmd_node_size();
    let all = peek(m, cvars.cmds.nodes_addr() as int, cvars.cmds.nodes_size());
    let node = slice_at(all, index * Node::<Cmd>::size(), Node::<Cmd>::size());
    let data = slice_at(node, 0, Cmd::size());
    assert(cmds_in(m, cvars).nodes[index as int] == Node::<Cmd>::decode(node));
    assert(slice_at(data, 0x10, 8) =~= peek(m, cmd_flags_addr(cmds_in(m, cvars), index), 8));
}

/// The stage at which the `k`-th variable of a list is to be looked at.
spec fn at_var(cvars: CCVar, vars: LocalListView<u64>, path: Seq<u16>, k: nat, count: nat) -> PatchView {
    PatchView {
        cvars,
        stage: StageView::VisitVar {
            vars,
            next: if k < path.len() {
                path[k as int]
            } else {
                NULL_NODE
            },
        },
        count,
    }
}

/// The stage at which the `k`-th command of a list is to be looked at.
spec fn at_cmd(cvars: CCVar, cmds: LocalListView<Cmd>, path: Seq<u16>, k: nat, count: nat) -> PatchView {
    PatchView {
        cvars,
        stage: StageView::VisitCmd {
            cmds,
            next: if k < path.len() {
                path[k as int]
            } else {
                NULL_NODE
            },
        },
        count,
    }
}

/// The flags of a command are as they were when those of the commands before
/// it have been patched: words of different commands do not overlap.
proof fn lemma_cmd_words_are_apart(m: ProcessMemory, cvars: CCVar, path: Seq<u16>, k: nat)
    requires
        cmds_are_sound(m, cvars, path),
        k < path.len(),
    ensures
        ({
            let cmds = cmds_in(m, cvars);
            let a = cmd_flags_addr(cmds, path[k as int]);
            peek(cleared(m, cmd_addrs(cmds, path, k)), a, 8) == peek(m, a, 8)
        }),
{
    let cmds = cmds_in(m, cvars);
    let done = cmd_addrs(cmds, path, k);
    let a = cmd_flags_addr(cmds, path[k as int]);
    law_list_visits_once(cmds, cvars.cmds.head, path);
    lemma_cmd_node_size();
    lemma_cmd_addrs(cmds, path, k);
    assert(path[k as int] < cvars.cmds.count);
    lemma_cmd_flags(m, cvars, path[k as int]);
    assert forall|x: int| a <= x < a + 8 implies !done.contains(x) && #[trigger] m.dom().contains(
        x,
    ) by {
        if done.contains(x) {
            let i = choose|i: int| 0 <= i < k && x == cmd_flags_addr(cmds, #[trigger] path[i]);
            assert(path[i] != path[k as int]);
            lemma_cmd_flags_apart(cmds, path[i], path[k as int]);
        }
    }
    assert forall|i: int| 0 <= i < 8 implies peek(cleared(m, done), a, 8)[i] == peek(m, a, 8)[i] by {
        assert(m.dom().contains(a + i));
    }
    assert(peek(cleared(m, done), a, 8) =~= peek(m, a, 8));
}

/// The work on the commands from the `k`-th on.
proof fn lemma_run_cmds(
    cvars: CCVar,
    m: ProcessMemory,
    path: Seq<u16>,
    k: nat,
    start: nat,
    fault: i32,
) -> (n: nat)
    requires
        is_memory(m),
        cmds_are_sound(m, cvars, path),
        k <= path.len(),
        start <= 0xFFFF,
    ensures
        ({
            let cmds = cmds_in(m, cvars);
            let done = cmd_addrs(cmds, path, k);
            let all = cmd_addrs(cmds, path, path.len());
            run(
                at_cmd(cvars, cmds, path, k, start + flagged(m, done).len()),
                cleared(m, done),
                fault,
                n,
            ) == Some(
                (
                    at_cmd(cvars, cmds, path, path.len(), start + flagged(m, all).len()),
                    cleared(m, all),
                ),
            )
        }),
    decreases path.len() - k,
{
    let cmds = cmds_in(m, cvars);
    let done = cmd_addrs(cmds, path, k);
    if k == path.len() {
        0
    } else {
        lemma_cmd_node_size();
        lemma_cmd_addrs(cmds, path, k);
        law_list_visits_once(cmds, cvars.cmds.head, path);
        lemma_flagged_bound(m, done);
        let index = path[k as int];
        let a = cmd_flags_addr(cmds, index);
        let count = start + flagged(m, done).len();
        let here = at_cmd(cvars, cmds, path, k, count);
        let before = cleared(m, done);
        let cmd = cmds.nodes[index as int].data;
        assert(index < cvars.cmds.count);
        lemma_cmd_flags(m, cvars, index);
        assert(is_mapped(m, a, 8));
        assert(m.dom().contains(a));
        lemma_cmd_words_are_apart(m, cvars, path, k);
        law_flag_is_one_bit(peek(m, a, 8));
        assert(cmds.iter_at(index).item() == Some(cmd));
        assert(here.link_in_range());
        let next = at_cmd(cvars, cmds, path, k + 1, start + flagged(m, done.insert(a)).len());
        if is_flagged(cmd.flags) {
            lemma_poke_clears(m, done, a);
            lemma_flagged_counts(m, done, a);
            assert(is_mapped(before, a, 8));
            assert(here.takes(ReplyView::Done));
            assert(here.next(ReplyView::Done) == next);
        } else {
            lemma_unflagged_stays(m, done, a);
            assert(here.next(ReplyView::Done) == next);
        }
        let rest = lemma_run_cmds(cvars, m, path, k + 1, start, fault);
        rest + 1
    }
}

/// The work on the variables from the `k`-th on, and then on the commands.
proof fn lemma_run_vars(
    cvars: CCVar,
    m: ProcessMemory,
    path: Seq<u16>,
    cmd_path: Seq<u16>,
    k: nat,
    fault: i32,
) -> (n: nat)
    requires
        is_memory(m),
        vars_are_sound(m, cvars, path),
        cmds_are_sound(
            cleared(m, var_addrs(vars_in(m, cvars), path, path.len())),
            cvars,
            cmd_path,
        ),
        k <= path.len(),
    ensures
        ({
            let vars = vars_in(m, cvars);
            let done = var_addrs(vars, path, k);
            let all = var_addrs(vars, path, path.len());
            let m1 = cleared(m, all);
            let cmds = cmds_in(m1, cvars);
            let all_cmds = cmd_addrs(cmds, cmd_path, cmd_path.len());
            run(
                at_var(cvars, vars, path, k, flagged(m, done).len()),
                cleared(m, done),
                fault,
                n,
            ) == Some(
                (
                    at_cmd(
                        cvars,
                        cmds,
                        cmd_path,
                        cmd_path.len(),
                        flagged(m, all).len() + flagged(m1, all_cmds).len(),
                    ),
                    cleared(m1, all_cmds),
                ),
            )
        }),
    decreases path.len() - k,
{
    let vars = vars_in(m, cvars);
    let done = var_addrs(vars, path, k);
    law_list_visits_once(vars, cvars.vars.head, path);
    lemma_var_addrs(vars, path, k);
    lemma_flagged_bound(m, done);
    let count = flagged(m, done).len();
    let here = at_var(cvars, vars, path, k, count);
    let before = cleared(m, done);
    assert(here.link_in_range()) by {
        if k < path.len() {
            let a = var_flags_addr(vars.nodes[path[k as int] as int].data);
            assert(is_mapped(m, a, 8));
            assert(m.dom().contains(a));
        }
    }
    if k == path.len() {
        let cmds = cmds_in(before, cvars);
        let bytes = peek(before, cvars.cmds.nodes_addr() as int, cvars.cmds.nodes_size());
        let none = cmd_addrs(cmds, cmd_path, 0);
        assert(flagged(before, none) =~= Set::<int>::empty());
        assert(cleared(before, none) =~= before);
        assert(here.next(ReplyView::Bytes(bytes)) == at_cmd(cvars, cmds, cmd_path, 0, count));
        let rest = lemma_run_cmds(cvars, before, cmd_path, 0, count, fault);
        rest + 1
    } else {
        let var_addr = vars.nodes[path[k as int] as int].data;
        let a = var_flags_addr(var_addr);
        assert(is_mapped(m, a, 8));
        assert(m.dom().contains(a));
        assert(is_mapped(before, a, 8));
        let bytes = peek(before, a, 8);
        let reply = ReplyView::Bytes(bytes);
        law_flag_is_one_bit(bytes);
        let next = at_var(cvars, vars, path, k + 1, flagged(m, done.insert(a)).len());
        let rest = lemma_run_vars(cvars, m, path, cmd_path, k + 1, fault);
        assert(vars.iter_at(path[k as int]).item() == Some(var_addr));
        assert(here.action() == ActionView::Read { addr: a as u64, size: 8 });
        assert(here.takes(reply));
        if is_flagged(u64::decode(bytes)) {
            lemma_poke_clears(m, done, a);
            lemma_flagged_counts(m, done, a);
            let middle = here.next(reply);
            assert(middle.takes(ReplyView::Done));
            assert(middle.next(ReplyView::Done) == next);
            reveal_with_fuel(run, 3);
            rest + 2
        } else {
            lemma_unflagged_stays(m, done, a);
            assert(here.next(reply) == next);
            rest + 1
        }
    }
}

/// Removing the flag in two goes is removing it everywhere at once.
proof fn lemma_clear_in_two_goes(m: ProcessMemory, first: Set<int>, second: Set<int>)
    requires
        first.finite(),
        second.finite(),
        first.subset_of(m.dom()),
        second.subset_of(m.dom()),
    ensures
        cleared(cleared(m, first), second) == cleared(m, first + second),
        flagged(m, first).len() + flagged(cleared(m, first), second).len() == flagged(
            m,
            first + second,
        ).len(),
{
    let m1 = cleared(m, first);
    assert forall|b: u8| !byte_is_flagged(#[trigger] (b & 0xFD)) && (b & 0xFD) & 0xFD == b & 0xFD by {
        lemma_unflagged_byte(b);
    }
    assert(cleared(m1, second) =~= cleared(m, first + second));
    lemma_flagged_bound(m, first);
    lemma_flagged_bound(m1, second);
    assert(flagged(m, first).disjoint(flagged(m1, second)));
    vstd::set_lib::lemma_set_disjoint_lens(flagged(m, first), flagged(m1, second));
    assert(flagged(m, first) + flagged(m1, second) =~= flagged(m, first + second));
}

/// The flags that a registry names: those of its variables, and those of its
/// commands as they are found once the variables are done.
pub open spec fn registered_flags(
    m: ProcessMemory,
    cvars: CCVar,
    var_path: Seq<u16>,
    cmd_path: Seq<u16>,
) -> Set<int> {
    let vars = var_addrs(vars_in(m, cvars), var_path, var_path.len());
    vars + cmd_addrs(cmds_in(cleared(m, vars), cvars), cmd_path, cmd_path.len())
}

/// The flags that a registry names can be accessed.
pub(crate) proof fn lemma_registered_flags_are_mapped(
    cvars: CCVar,
    m: ProcessMemory,
    var_path: Seq<u16>,
    cmd_path: Seq<u16>,
)
    requires
        vars_are_sound(m, cvars, var_path),
        cmds_are_sound(
            cleared(m, var_addrs(vars_in(m, cvars), var_path, var_path.len())),
            cvars,
            cmd_path,
        ),
    ensures
        registered_flags(m, cvars, var_path, cmd_path).subset_of(m.dom()),
{
    let vars = vars_in(m, cvars);
    let all = var_addrs(vars, var_path, var_path.len());
    let m1 = cleared(m, all);
    let cmds = cmds_in(m1, cvars);
    let all_cmds = cmd_addrs(cmds, cmd_path, cmd_path.len());
    lemma_var_addrs(vars, var_path, var_path.len());
    lemma_cmd_addrs(cmds, cmd_path, cmd_path.len());
    assert forall|a: int| all.contains(a) implies m.dom().contains(a) by {
        let i = choose|i: int|
            0 <= i < var_path.len() && a == var_flags_addr(
                vars.nodes[#[trigger] var_path[i] as int].data,
            );
        assert(is_mapped(m, a, 8));
    }
    assert forall|a: int| all_cmds.contains(a) implies m.dom().contains(a) by {
        let i = choose|i: int|
            0 <= i < cmd_path.len() && a == cmd_flags_addr(cmds, #[trigger] cmd_path[i]);
        assert(cmd_path[i] < cvars.cmds.count);
        lemma_cmd_flags(m1, cvars, cmd_path[i]);
        assert(m1.dom().contains(a));
    }
}

/// Whether a patch that begins with memory `m` finishes with count `count` and
/// leaves memory `after`.
pub open spec fn patch_leaves(
    cvars: CCVar,
    m: ProcessMemory,
    fault: i32,
    count: nat,
    after: ProcessMemory,
) -> bool {
    exists|n: nat|
        {
            &&& (#[trigger] run(patch_start(cvars), m, fault, n)) matches Some((patch, then))
            &&& patch.action() == ActionView::Finish(Ok(count))
            &&& then == after
        }
}

/// A patch of a registry whose lists come to an end and can be accessed
/// finishes. It removes the flag from every registered variable and command,
/// changes no other bit of memory, and reports in how many of them the flag
/// was set.
pub proof fn law_patch_removes_the_flag(
    cvars: CCVar,
    m: ProcessMemory,
    var_path: Seq<u16>,
    cmd_path: Seq<u16>,
    fault: i32,
)
    requires
        is_memory(m),
        vars_are_sound(m, cvars, var_path),
        cmds_are_sound(
            cleared(m, var_addrs(vars_in(m, cvars), var_path, var_path.len())),
            cvars,
            cmd_path,
        ),
    ensures
        ({
            let flags = registered_flags(m, cvars, var_path, cmd_path);
            patch_leaves(cvars, m, fault, flagged(m, flags).len(), cleared(m, flags))
        }),
{
    let start = patch_start(cvars);
    let vars = vars_in(m, cvars);
    let all = var_addrs(vars, var_path, var_path.len());
    let m1 = cleared(m, all);
    let cmds = cmds_in(m1, cvars);
    let all_cmds = cmd_addrs(cmds, cmd_path, cmd_path.len());
    lemma_var_addrs(vars, var_path, var_path.len());
    lemma_cmd_addrs(cmds, cmd_path, cmd_path.len());
    lemma_registered_flags_are_mapped(cvars, m, var_path, cmd_path);
    assert(all.subset_of(m.dom()) && all_cmds.subset_of(m.dom()));
    lemma_clear_in_two_goes(m, all, all_cmds);
    let none = var_addrs(vars, var_path, 0);
    assert(flagged(m, none) =~= Set::<int>::empty());
    assert(cleared(m, none) =~= m);
    let bytes = peek(m, cvars.vars.nodes_addr() as int, cvars.vars.nodes_size());
    assert(start.next(ReplyView::Bytes(bytes)) == at_var(cvars, vars, var_path, 0, 0));
    let n = lemma_run_vars(cvars, m, var_path, cmd_path, 0, fault);
    assert(run(start, m, fault, n + 1) == run(at_var(cvars, vars, var_path, 0, 0), m, fault, n));
}

/// After a patch, a second one finds no flag to remove and changes nothing,
/// if the registry then names no flags but those that it named before.
pub proof fn law_second_patch_finds_nothing(
    cvars: CCVar,
    m: ProcessMemory,
    var_path: Seq<u16>,
    cmd_path: Seq<u16>,
    second_var_path: Seq<u16>,
    second_cmd_path: Seq<u16>,
    fault: i32,
)
    requires
        is_memory(m),
        vars_are_sound(m, cvars, var_path),
        cmds_are_sound(
            cleared(m, var_addrs(vars_in(m, cvars), var_path, var_path.len())),
            cvars,
            cmd_path,
        ),
        ({
            let flags = registered_flags(m, cvars, var_path, cmd_path);
            let after = cleared(m, flags);
            let second_vars = var_addrs(
                vars_in(after, cvars),
                second_var_path,
                second_var_path.len(),
            );
            &&& vars_are_sound(after, cvars, second_var_path)
            &&& cmds_are_sound(cleared(after, second_vars), cvars, second_cmd_path)
            &&& registered_flags(after, cvars, second_var_path, second_cmd_path).subset_of(flags)
        }),
    ensures
        ({
            let flags = registered_flags(m, cvars, var_path, cmd_path);
            let after = cleared(m, flags);
            &&& patch_leaves(cvars, m, fault, flagged(m, flags).len(), after)
            &&& patch_leaves(cvars, after, fault, 0, after)
        }),
{
    let flags = registered_flags(m, cvars, var_path, cmd_path);
    let after = cleared(m, flags);
    let second = registered_flags(after, cvars, second_var_path, second_cmd_path);
    law_patch_removes_the_flag(cvars, m, var_path, cmd_path, fault);
    law_patch_removes_the_flag(cvars, after, second_var_path, second_cmd_path, fault);
    lemma_registered_flags_are_mapped(cvars, m, var_path, cmd_path);
    law_nothing_is_left(m, flags);
    assert forall|a: int| second.contains(a) implies !byte_is_flagged(after[a]) by {
        assert(!flagged(after, flags).contains(a));
    }
    assert(flagged(after, second) =~= Set::<int>::empty());
    assert forall|a: int| second.contains(a) implies after[a] & 0xFD == after[a] by {
        lemma_unflagged_byte(after[a]);
    }
    assert(cleared(after, second) =~= after);
}

/// Where the other process keeps the link to the node after command node
/// `index`.
pub open spec fn cmd_link_addr(cvars: CCVar, index: int) -> int {
    cvars.cmds.nodes_addr() + index * Node::<Cmd>::size() + prev_offset(Cmd::size()) + 2
}

/// Whether none of the words of flags begins within the variable list or the
/// links of the command list.
pub open spec fn links_are_apart(cvars: CCVar, flags: Set<int>) -> bool {
    forall|a: int| #[trigger]
        flags.contains(a) ==> {
            &&& !(cvars.vars.nodes_addr() <= a < cvars.vars.nodes_addr() + cvars.vars.nodes_size())
            &&& forall|i: int|
                0 <= i < cvars.cmds.count ==> !((#[trigger] cmd_link_addr(cvars, i)) <= a
                    < cmd_link_addr(cvars, i) + 2)
        }
}

/// The flags of the commands lie where they do whatever the nodes hold.
proof fn lemma_cmd_addrs_stay(
    cmds: LocalListView<Cmd>,
    other: LocalListView<Cmd>,
    path: Seq<u16>,
    k: nat,
)
    requires
        cmds.remote_nodes == other.remote_nodes,
    ensures
        cmd_addrs(cmds, path, k) == cmd_addrs(other, path, k),
    decreases k,
{
    if k > 0 {
        lemma_cmd_addrs_stay(cmds, other, path, (k - 1) as nat);
    }
}

/// The link of a command node is read from its address.
proof fn lemma_cmd_link(m: ProcessMemory, cvars: CCVar, index: int)
    requires
        0 <= index < cvars.cmds.count,
    ensures
        cmds_in(m, cvars).nodes[index].next == u16::decode(
            peek(m, cmd_link_addr(cvars, index), 2),
        ),
{
    lemma_cmd_node_size();
    let all = peek(m, cvars.cmds.nodes_addr() as int, cvars.cmds.nodes_size());
    let node = slice_at(all, index * Node::<Cmd>::size(), Node::<Cmd>::size());
    assert(cmds_in(m, cvars).nodes[index] == Node::<Cmd>::decode(node));
    assert(slice_at(node, prev_offset(Cmd::size()) as int + 2, 2) =~= peek(
        m,
        cmd_link_addr(cvars, index),
        2,
    ));
}

/// After a patch, a second one finds no flag to remove and changes nothing,
/// if no word of flags begins within the variable list or the links of the
/// command list.
pub proof fn law_second_patch_of_intact_lists_finds_nothing(
    cvars: CCVar,
    m: ProcessMemory,
    var_path: Seq<u16>,
    cmd_path: Seq<u16>,
    fault: i32,
)
    requires
        is_memory(m),
        vars_are_sound(m, cvars, var_path),
        cmds_are_sound(
            cleared(m, var_addrs(vars_in(m, cvars), var_path, var_path.len())),
            cvars,
            cmd_path,
        ),
        links_are_apart(cvars, registered_flags(m, cvars, var_path, cmd_path)),
    ensures
        ({
            let flags = registered_flags(m, cvars, var_path, cmd_path);
            let after = cleared(m, flags);
            &&& patch_leaves(cvars, m, fault, flagged(m, flags).len(), after)
            &&& patch_leaves(cvars, after, fault, 0, after)
        }),
{
    let vars = var_addrs(vars_in(m, cvars), var_path, var_path.len());
    let m1 = cleared(m, vars);
    let cmds = cmds_in(m1, cvars);
    let flags = registered_flags(m, cvars, var_path, cmd_path);
    let after = cleared(m, flags);
    lemma_registered_flags_are_mapped(cvars, m, var_path, cmd_path);
    assert(peek(after, cvars.vars.nodes_addr() as int, cvars.vars.nodes_size()) =~= peek(
        m,
        cvars.vars.nodes_addr() as int,
        cvars.vars.nodes_size(),
    )) by {
        assert forall|x: int|
            cvars.vars.nodes_addr() <= x < cvars.vars.nodes_addr()
                + cvars.vars.nodes_size() implies after[x] == m[x] by {
            assert(m.dom().contains(x));
        }
    }
    assert(vars_in(after, cvars) == vars_in(m, cvars));
    assert(cleared(after, vars) =~= after) by {
        assert forall|b: u8| (#[trigger] (b & 0xFD)) & 0xFD == b & 0xFD by {
            lemma_unflagged_byte(b);
        }
    }
    let cmds_after = cmds_in(after, cvars);
    lemma_cmd_node_size();
    assert forall|i: int| 0 <= i < cvars.cmds.count implies cmds_after.nodes[i].next
        == cmds.nodes[i].next by {
        let a = cmd_link_addr(cvars, i);
        lemma_cmd_link(after, cvars, i);
        lemma_cmd_link(m1, cvars, i);
        assert forall|x: int| a <= x < a + 2 implies after[x] == m1[x] by {
            assert(m1.dom().contains(x));
            assert(!flags.contains(x));
        }
        assert(peek(after, a, 2) =~= peek(m1, a, 2));
    }
    assert forall|x: int| m1.dom().contains(x) implies #[trigger] after.dom().contains(x) by {}
    assert(cmds_after.is_path(cvars.cmds.head, cmd_path));
    lemma_cmd_addrs_stay(cmds_after, cmds, cmd_path, cmd_path.len());
    law_second_patch_finds_nothing(cvars, m, var_path, cmd_path, var_path, cmd_path, fault);
}

} // verus!
