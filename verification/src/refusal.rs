//! What a patch has done by the time that it is cut short.
//!
//! Any request of a patch may be refused: the other process may be gone, or
//! may let its memory be read but not written.
use crate::cvar::{lemma_position_after, lemma_walk, CCVar, Cmd, LocalListView, NULL_NODE};
use crate::patch::{
    cmd_flags_addr, is_flagged, patch_start, unflagged, var_flags_addr, ActionView, PatchView,
    ReplyView, StageView,
};
use crate::plain::{Plain, Scalar};
use crate::process::{
    byte_is_flagged, cleared, cmds_in, is_mapped, law_flag_is_one_bit, lemma_cmd_flags,
    lemma_cmd_flags_apart, lemma_poke_clears, lemma_unflagged_byte, peek, poke, run, serve,
    var_addrs, vars_in, ProcessMemory,
};
use vstd::prelude::*;

verus! {

/// What comes of an action on memory `m` that is refused with a code or, for
/// `None`, is served, and the memory after it. A refused action leaves the
/// memory as it was.
pub open spec fn serve_unless(
    m: ProcessMemory,
    action: ActionView,
    fault: i32,
    refusal: Option<i32>,
) -> (ReplyView, ProcessMemory) {
    match refusal {
        Some(code) => (ReplyView::Failed(code), m),
        None => serve(m, action, fault),
    }
}

/// Where a patch and the memory stand after at most as many steps as there are
/// `refusals`, one for each, if each step was one that the patch can take.
pub open spec fn run_unless(
    patch: PatchView,
    m: ProcessMemory,
    fault: i32,
    refusals: Seq<Option<i32>>,
) -> Option<(PatchView, ProcessMemory)>
    decreases refusals.len(),
{
    if !patch.link_in_range() {
        None
    } else if patch.action() is Finish || refusals.len() == 0 {
        Some((patch, m))
    } else {
        let (reply, after) = serve_unless(m, patch.action(), fault, refusals[0]);
        if patch.takes(reply) {
            run_unless(patch.next(reply), after, fault, refusals.drop_first())
        } else {
            None
        }
    }
}

/// Where the flags of the first `k` variables of a walk of the list lie.
pub open spec fn walked_var_flags(vars: LocalListView<u64>, k: nat) -> Set<int>
    decreases k,
{
    if k == 0 {
        Set::empty()
    } else {
        let before = walked_var_flags(vars, (k - 1) as nat);
        match vars.iter_at(vars.head).after((k - 1) as nat).item() {
            Some(var_addr) => before.insert(var_flags_addr(var_addr)),
            None => before,
        }
    }
}

/// Where the flags of the first `k` commands of a walk of the list lie.
pub open spec fn walked_cmd_flags(cmds: LocalListView<Cmd>, k: nat) -> Set<int>
    decreases k,
{
    if k == 0 {
        Set::empty()
    } else {
        let before = walked_cmd_flags(cmds, (k - 1) as nat);
        let index = cmds.iter_at(cmds.head).after((k - 1) as nat).next;
        if index == NULL_NODE {
            before
        } else {
            before.insert(cmd_flags_addr(cmds, index))
        }
    }
}

/// The command list as it is found when the flag is removed from the first `j`
/// variables.
pub open spec fn cmds_after_vars(m: ProcessMemory, cvars: CCVar, j: nat) -> LocalListView<Cmd> {
    cmds_in(cleared(m, walked_var_flags(vars_in(m, cvars), j)), cvars)
}

/// Whether a patch that began with memory `m` has dealt with the first `j`
/// variables and then with the first `k` commands, and goes on from there.
pub open spec fn has_dealt_with(
    patch: PatchView,
    cvars: CCVar,
    m: ProcessMemory,
    j: nat,
    k: nat,
) -> bool {
    let vars = vars_in(m, cvars);
    let cmds = cmds_after_vars(m, cvars, j);
    &&& patch.cvars == cvars
    &&& match patch.stage {
        StageView::FetchVars => j == 0 && k == 0,
        StageView::VisitVar { vars: list, next } => {
            &&& list == vars
            &&& vars.leads_to(j, next)
            &&& k == 0
        },
        StageView::ClearVar { vars: list, next, addr, flags } => {
            &&& list == vars
            &&& vars.leads_to(j + 1, next)
            &&& k == 0
            &&& vars.iter_at(vars.head).after(j).item() matches Some(var_addr)
            &&& addr == var_flags_addr(var_addr)
            &&& flags == u64::decode(peek(cleared(m, walked_var_flags(vars, j)), addr as int, 8))
            &&& is_flagged(flags)
        },
        StageView::VisitCmd { cmds: list, next } => {
            &&& vars.leads_to(j, NULL_NODE)
            &&& list == cmds
            &&& cmds.leads_to(k, next)
        },
        StageView::Failed { code } => false,
    }
}

/// Whether all variables have been looked at: the node array of the commands
/// is asked for next, or has been fetched.
pub open spec fn is_past_vars(patch: PatchView) -> bool {
    match patch.stage {
        StageView::VisitVar { vars, next } => next == NULL_NODE,
        StageView::VisitCmd { cmds, next } => true,
        _ => false,
    }
}

/// Whether the next request of `at` failed, and the work thereby came to
/// `patch`.
pub open spec fn failed_at(patch: PatchView, at: PatchView) -> bool {
    &&& at.action() is Read || at.action() is Write
    &&& exists|code: i32| patch == #[trigger] at.next(ReplyView::Failed(code))
}

/// Whether a patch that began with memory `m` went as far as `at`, where the
/// first `j` variables and the first `k` commands are dealt with, and either
/// stands there or failed there, with memory `now`.
pub open spec fn went_as_far_as(
    patch: PatchView,
    now: ProcessMemory,
    cvars: CCVar,
    m: ProcessMemory,
    at: PatchView,
    j: nat,
    k: nat,
) -> bool {
    let vars = walked_var_flags(vars_in(m, cvars), j);
    let cmds = walked_cmd_flags(cmds_after_vars(m, cvars, j), k);
    &&& has_dealt_with(at, cvars, m, j, k)
    &&& patch == at || failed_at(patch, at)
    &&& are_patchable(m, cvars, vars, cmds)
    &&& now == cleared(m, vars + cmds)
}

/// Whether the flags of a variable that the list visits lie at `a`.
pub open spec fn is_var_flags(vars: LocalListView<u64>, a: int) -> bool {
    exists|i: u16| #[trigger]
        vars.visits(i) && a == var_flags_addr(vars.nodes[i as int].data)
}

/// Whether the flags of a command that the list visits lie at `a`.
pub open spec fn is_cmd_flags(cmds: LocalListView<Cmd>, a: int) -> bool {
    exists|i: u16| #[trigger] cmds.visits(i) && a == cmd_flags_addr(cmds, i)
}

/// Whether all of `vars` and `cmds` are where a patch may remove a flag: the
/// flags of variables that the registry lists, and of commands that it lists
/// once the flag is removed at `vars`.
pub open spec fn are_patchable(
    m: ProcessMemory,
    cvars: CCVar,
    vars: Set<int>,
    cmds: Set<int>,
) -> bool {
    &&& forall|a: int| #[trigger] vars.contains(a) ==> is_var_flags(vars_in(m, cvars), a)
    &&& forall|a: int| #[trigger] cmds.contains(a) ==> is_cmd_flags(
        cmds_in(cleared(m, vars), cvars),
        a,
    )
}

/// Storing the flags of a command as they were found, but without the flag,
/// removes the flag there. The flags of other commands may have been patched
/// meanwhile.
proof fn lemma_cmd_poke_clears(cvars: CCVar, m: ProcessMemory, done: Set<int>, index: u16)
    requires
        index < cvars.cmds.count,
        is_mapped(m, cmd_flags_addr(cmds_in(m, cvars), index), 8),
        forall|a: int| #[trigger] done.contains(a) ==> is_cmd_flags(cmds_in(m, cvars), a),
    ensures
        ({
            let cmds = cmds_in(m, cvars);
            let a = cmd_flags_addr(cmds, index);
            let bytes = unflagged(cmds.nodes[index as int].data.flags).encode();
            poke(cleared(m, done), a, bytes) == cleared(m, done.insert(a))
        }),
{
    let cmds = cmds_in(m, cvars);
    let a = cmd_flags_addr(cmds, index);
    let bytes = unflagged(cmds.nodes[index as int].data.flags).encode();
    lemma_cmd_flags(m, cvars, index);
    law_flag_is_one_bit(peek(m, a, 8));
    assert forall|x: int| a < x < a + 8 implies !done.contains(x) by {
        if done.contains(x) {
            let i = choose|i: u16| #[trigger] cmds.visits(i) && x == cmd_flags_addr(cmds, i);
            lemma_cmd_flags_apart(cmds, i, index);
        }
    }
    assert(poke(cleared(m, done), a, bytes) =~= cleared(m, done.insert(a)));
}

/// The flags of the first variables of a walk are flags of variables that the
/// list visits.
proof fn lemma_walked_vars_are_visited(vars: LocalListView<u64>, k: nat, next: u16)
    requires
        vars.leads_to(k, next),
    ensures
        forall|a: int| #[trigger] walked_var_flags(vars, k).contains(a) ==> is_var_flags(vars, a),
    decreases k,
{
    if k > 0 {
        let before = (k - 1) as nat;
        let index = vars.iter_at(vars.head).after(before).next;
        assert(vars.leads_to(before, index));
        lemma_walked_vars_are_visited(vars, before, index);
        lemma_walk(vars, before, index);
        assert(vars.iter_at(vars.head).after(before).link_in_range());
        assert forall|a: int| #[trigger] walked_var_flags(vars, k).contains(a) implies is_var_flags(
            vars,
            a,
        ) by {
            if !walked_var_flags(vars, before).contains(a) {
                assert(vars.visits(index));
            }
        }
    }
}

/// The flags of the first commands of a walk are flags of commands that the
/// list visits.
proof fn lemma_walked_cmds_are_visited(cmds: LocalListView<Cmd>, k: nat, next: u16)
    requires
        cmds.leads_to(k, next),
    ensures
        forall|a: int| #[trigger] walked_cmd_flags(cmds, k).contains(a) ==> is_cmd_flags(cmds, a),
    decreases k,
{
    if k > 0 {
        let before = (k - 1) as nat;
        let index = cmds.iter_at(cmds.head).after(before).next;
        assert(cmds.leads_to(before, index));
        lemma_walked_cmds_are_visited(cmds, before, index);
        lemma_walk(cmds, before, index);
        assert(cmds.iter_at(cmds.head).after(before).link_in_range());
        assert forall|a: int| #[trigger] walked_cmd_flags(cmds, k).contains(a) implies is_cmd_flags(
            cmds,
            a,
        ) by {
            if !walked_cmd_flags(cmds, before).contains(a) {
                assert(cmds.visits(index));
            }
        }
    }
}

/// What a patch has dealt with is where it may remove a flag.
proof fn lemma_dealt_with_is_patchable(
    patch: PatchView,
    cvars: CCVar,
    m: ProcessMemory,
    j: nat,
    k: nat,
)
    requires
        has_dealt_with(patch, cvars, m, j, k),
    ensures
        are_patchable(
            m,
            cvars,
            walked_var_flags(vars_in(m, cvars), j),
            walked_cmd_flags(cmds_after_vars(m, cvars, j), k),
        ),
{
    let vars = vars_in(m, cvars);
    match patch.stage {
        StageView::FetchVars => {},
        StageView::VisitVar { vars: list, next } => {
            lemma_walked_vars_are_visited(vars, j, next);
        },
        StageView::ClearVar { vars: list, next, addr, flags } => {
            let index = vars.iter_at(vars.head).after(j).next;
            assert(vars.leads_to(j, index));
            lemma_walked_vars_are_visited(vars, j, index);
        },
        StageView::VisitCmd { cmds: list, next } => {
            lemma_walked_vars_are_visited(vars, j, NULL_NODE);
            lemma_walked_cmds_are_visited(list, k, next);
        },
        StageView::Failed { code } => {},
    }
}

/// Removing the flag where it is not set changes nothing.
proof fn lemma_unflagged_word_stays(m: ProcessMemory, addrs: Set<int>, a: int)
    requires
        !byte_is_flagged(cleared(m, addrs)[a]),
        m.dom().contains(a),
    ensures
        cleared(m, addrs.insert(a)) == cleared(m, addrs),
{
    lemma_unflagged_byte(m[a]);
    assert(cleared(m, addrs.insert(a)) =~= cleared(m, addrs));
}

/// Removing the flag first at `vars` and then at `cmds` is removing it at all
/// of them.
proof fn lemma_cleared_twice(m: ProcessMemory, vars: Set<int>, cmds: Set<int>)
    ensures
        cleared(cleared(m, vars), cmds) == cleared(m, vars + cmds),
        cleared(cleared(m, vars), Set::empty()) == cleared(m, vars),
{
    assert forall|b: u8| (#[trigger] (b & 0xFD)) & 0xFD == b & 0xFD by {
        lemma_unflagged_byte(b);
    }
    assert(cleared(cleared(m, vars), cmds) =~= cleared(m, vars + cmds));
    assert(cleared(cleared(m, vars), Set::empty()) =~= cleared(m, vars));
}

/// A step in which variable `j` is looked at or patched.
proof fn lemma_var_step(
    patch: PatchView,
    cvars: CCVar,
    m: ProcessMemory,
    fault: i32,
    j: nat,
) -> (dealt: nat)
    requires
        has_dealt_with(patch, cvars, m, j, 0),
        patch.link_in_range(),
        patch.stage is VisitVar || patch.stage is ClearVar,
        !is_past_vars(patch),
        ({
            let now = cleared(m, walked_var_flags(vars_in(m, cvars), j));
            let (reply, after) = serve(now, patch.action(), fault);
            !(reply is Failed)
        }),
    ensures
        ({
            let vars = vars_in(m, cvars);
            let now = cleared(m, walked_var_flags(vars, j));
            let (reply, after) = serve(now, patch.action(), fault);
            &&& has_dealt_with(patch.next(reply), cvars, m, dealt, 0)
            &&& after == cleared(m, walked_var_flags(vars, dealt))
        }),
{
    let vars = vars_in(m, cvars);
    let done = walked_var_flags(vars, j);
    let now = cleared(m, done);
    let (reply, after) = serve(now, patch.action(), fault);
    let index = vars.iter_at(vars.head).after(j).next;
    assert(vars.leads_to(j, index));
    lemma_walk(vars, j, index);
    match patch.stage {
        StageView::VisitVar { vars: list, next } => {
            let a = var_flags_addr(vars.nodes[index as int].data);
            let bytes = peek(now, a, 8);
            law_flag_is_one_bit(bytes);
            assert(now.dom().contains(a));
            if is_flagged(u64::decode(bytes)) {
                j
            } else {
                lemma_unflagged_word_stays(m, done, a);
                j + 1
            }
        },
        StageView::ClearVar { vars: list, next, addr, flags } => {
            law_flag_is_one_bit(peek(now, addr as int, 8));
            assert forall|x: int| addr <= x < addr + 8 implies m.dom().contains(x) by {
                assert(now.dom().contains(x));
            }
            lemma_poke_clears(m, done, addr as int);
            j + 1
        },
        _ => j,
    }
}

/// A step in which command `k` is patched or passed over.
proof fn lemma_cmd_step(
    patch: PatchView,
    cvars: CCVar,
    m: ProcessMemory,
    fault: i32,
    j: nat,
    k: nat,
)
    requires
        has_dealt_with(patch, cvars, m, j, k),
        patch.link_in_range(),
        patch.stage is VisitCmd,
        !(patch.action() is Finish),
        ({
            let m1 = cleared(m, walked_var_flags(vars_in(m, cvars), j));
            let now = cleared(m1, walked_cmd_flags(cmds_in(m1, cvars), k));
            let (reply, after) = serve(now, patch.action(), fault);
            !(reply is Failed)
        }),
    ensures
        ({
            let m1 = cleared(m, walked_var_flags(vars_in(m, cvars), j));
            let cmds = cmds_in(m1, cvars);
            let now = cleared(m1, walked_cmd_flags(cmds, k));
            let (reply, after) = serve(now, patch.action(), fault);
            &&& has_dealt_with(patch.next(reply), cvars, m, j, k + 1)
            &&& after == cleared(m1, walked_cmd_flags(cmds, k + 1))
        }),
{
    let m1 = cleared(m, walked_var_flags(vars_in(m, cvars), j));
    let cmds = cmds_in(m1, cvars);
    let done = walked_cmd_flags(cmds, k);
    let now = cleared(m1, done);
    let index = cmds.iter_at(cmds.head).after(k).next;
    let a = cmd_flags_addr(cmds, index);
    lemma_walk(cmds, k, index);
    lemma_walked_cmds_are_visited(cmds, k, index);
    assert(index != NULL_NODE && index < cvars.cmds.count);
    lemma_cmd_flags(m1, cvars, index);
    law_flag_is_one_bit(peek(m1, a, 8));
    assert(walked_cmd_flags(cmds, k + 1) == done.insert(a));
    if patch.action() is Write {
        assert forall|x: int| a <= x < a + 8 implies m1.dom().contains(x) by {
            assert(now.dom().contains(x));
        }
        lemma_cmd_poke_clears(cvars, m1, done, index);
    } else {
        lemma_unflagged_byte(m1[a]);
        assert(cleared(m1, done.insert(a)) =~= now);
    }
}

/// Whether it is known how far a patch that began with memory `m` went.
spec fn is_accounted_for(
    patch: PatchView,
    now: ProcessMemory,
    cvars: CCVar,
    m: ProcessMemory,
) -> bool {
    exists|at: PatchView, j: nat, k: nat| #[trigger]
        went_as_far_as(patch, now, cvars, m, at, j, k)
}

/// A patch that goes on from where it stands.
proof fn lemma_run_goes_on(
    patch: PatchView,
    cvars: CCVar,
    m: ProcessMemory,
    j: nat,
    k: nat,
    fault: i32,
    refusals: Seq<Option<i32>>,
)
    requires
        has_dealt_with(patch, cvars, m, j, k),
    ensures
        ({
            let m1 = cleared(m, walked_var_flags(vars_in(m, cvars), j));
            let now = cleared(m1, walked_cmd_flags(cmds_in(m1, cvars), k));
            run_unless(patch, now, fault, refusals) matches Some((end, after)) ==> is_accounted_for(
                end,
                after,
                cvars,
                m,
            )
        }),
    decreases refusals.len(),
{
    let vars = walked_var_flags(vars_in(m, cvars), j);
    let m1 = cleared(m, vars);
    let cmds = cmds_in(m1, cvars);
    let now = cleared(m1, walked_cmd_flags(cmds, k));
    lemma_dealt_with_is_patchable(patch, cvars, m, j, k);
    lemma_cleared_twice(m, vars, walked_cmd_flags(cmds, k));
    assert(went_as_far_as(patch, now, cvars, m, patch, j, k));
    assert(is_accounted_for(patch, now, cvars, m));
    if patch.link_in_range() && !(patch.action() is Finish) && refusals.len() > 0 {
        let (reply, after) = serve_unless(now, patch.action(), fault, refusals[0]);
        let next = patch.next(reply);
        let rest = refusals.drop_first();
        if patch.takes(reply) {
            assert(run_unless(patch, now, fault, refusals) == run_unless(next, after, fault, rest));
            if let ReplyView::Failed(code) = reply {
                assert(failed_at(next, patch));
                assert(after == now);
                assert(went_as_far_as(next, now, cvars, m, patch, j, k));
                assert(is_accounted_for(next, now, cvars, m));
                assert(run_unless(next, after, fault, rest) == Some((next, after)));
            } else if patch.stage is FetchVars {
                assert(now =~= m);
                assert(vars_in(m, cvars).leads_to(0, cvars.vars.head));
                lemma_run_goes_on(next, cvars, m, 0, 0, fault, rest);
            } else if patch.stage is VisitCmd {
                lemma_cmd_step(patch, cvars, m, fault, j, k);
                lemma_run_goes_on(next, cvars, m, j, k + 1, fault, rest);
            } else if is_past_vars(patch) {
                assert(cmds.leads_to(0, cvars.cmds.head));
                lemma_run_goes_on(next, cvars, m, j, 0, fault, rest);
            } else {
                assert(walked_cmd_flags(cmds, 0) == Set::<int>::empty());
                let dealt = lemma_var_step(patch, cvars, m, fault, j);
                lemma_cleared_twice(m, walked_var_flags(vars_in(m, cvars), dealt), Set::empty());
                assert(walked_cmd_flags(cmds_after_vars(m, cvars, dealt), 0) == Set::<int>::empty());
                lemma_run_goes_on(next, cvars, m, dealt, 0, fault, rest);
            }
        }
    }
}

/// A walk along a path visits what is on the path.
proof fn lemma_walk_of_path(vars: LocalListView<u64>, path: Seq<u16>, k: nat)
    requires
        vars.is_path(vars.head, path),
        k <= path.len(),
    ensures
        walked_var_flags(vars, k) == var_addrs(vars, path, k),
    decreases k,
{
    if k > 0 {
        lemma_walk_of_path(vars, path, (k - 1) as nat);
        lemma_position_after(vars, path, (k - 1) as nat);
        assert(path[k - 1] != NULL_NODE);
    }
}

/// A walk that is over has visited all that is on the path.
proof fn lemma_whole_walk_of_path(vars: LocalListView<u64>, path: Seq<u16>, k: nat)
    requires
        vars.is_path(vars.head, path),
        vars.leads_to(k, NULL_NODE),
    ensures
        walked_var_flags(vars, k) == var_addrs(vars, path, path.len()),
    decreases k,
{
    if k <= path.len() {
        lemma_position_after(vars, path, k);
        if k < path.len() {
            assert(path[k as int] != NULL_NODE);
        }
        lemma_walk_of_path(vars, path, k);
    } else {
        let before = (k - 1) as nat;
        lemma_end_stays(vars, path, before);
        assert(vars.leads_to(before, NULL_NODE));
        lemma_whole_walk_of_path(vars, path, before);
    }
}

/// A walk stays at the end once it has come there.
proof fn lemma_end_stays(vars: LocalListView<u64>, path: Seq<u16>, k: nat)
    requires
        vars.is_path(vars.head, path),
        k >= path.len(),
    ensures
        vars.iter_at(vars.head).after(k).next == NULL_NODE,
    decreases k,
{
    if k == path.len() {
        lemma_position_after(vars, path, k);
    } else {
        lemma_end_stays(vars, path, (k - 1) as nat);
    }
}

/// At no time, whatever requests were refused, does a patch change anything in
/// memory but the flags of what the lists of the registry lead to, and there
/// it only removes the one flag. The flag is gone from all the variables and
/// commands that the patch has dealt with, in the order of the lists. Where
/// the patch has come to the commands, it is gone from all the variables.
pub proof fn law_patch_changes_flags_only(
    cvars: CCVar,
    m: ProcessMemory,
    fault: i32,
    refusals: Seq<Option<i32>>,
)
    ensures
        run_unless(patch_start(cvars), m, fault, refusals) matches Some((patch, after)) ==> exists|
            at: PatchView,
            j: nat,
            k: nat,
        |
            {
                let vars = vars_in(m, cvars);
                &&& #[trigger] went_as_far_as(patch, after, cvars, m, at, j, k)
                &&& is_past_vars(at) ==> forall|path: Seq<u16>| #[trigger]
                    vars.is_path(cvars.vars.head, path) ==> walked_var_flags(vars, j)
                        == var_addrs(vars, path, path.len())
            },
{
    let start = patch_start(cvars);
    let vars = vars_in(m, cvars);
    let nowhere = Set::<int>::empty();
    assert(cleared(cleared(m, nowhere), nowhere) =~= m);
    lemma_run_goes_on(start, cvars, m, 0, 0, fault, refusals);
    if let Some((patch, after)) = run_unless(start, m, fault, refusals) {
        let (at, j, k) = choose|at: PatchView, j: nat, k: nat| #[trigger]
            went_as_far_as(patch, after, cvars, m, at, j, k);
        if is_past_vars(at) {
            assert forall|path: Seq<u16>| #[trigger]
                vars.is_path(cvars.vars.head, path) implies walked_var_flags(vars, j) == var_addrs(
                vars,
                path,
                path.len(),
            ) by {
                lemma_whole_walk_of_path(vars, path, j);
            }
        }
        assert(went_as_far_as(patch, after, cvars, m, at, j, k));
    }
}

/// Where nothing is refused, a patch runs as it does against the memory alone.
pub proof fn law_run_without_refusals(patch: PatchView, m: ProcessMemory, fault: i32, n: nat)
    ensures
        run_unless(patch, m, fault, Seq::new(n, |i: int| None)) == run(patch, m, fault, n),
    decreases n,
{
    let none = Seq::new(n, |i: int| None::<i32>);
    if n > 0 {
        let rest = (n - 1) as nat;
        let (reply, after) = serve(m, patch.action(), fault);
        assert(none.drop_first() =~= Seq::new(rest, |i: int| None::<i32>));
        law_run_without_refusals(patch.next(reply), after, fault, rest);
    }
}

} // verus!
