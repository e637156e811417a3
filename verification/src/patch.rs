//! Clears the flag that hides development-only variables and commands.
//!
//! A `Patch` is a conversation with the other process. `Patch::action` says
//! what to do next, and `Patch::step` takes what came of it.
use crate::cvar::{CCVar, Cmd, LocalList, LocalListView, CMD_FLAGS_OFFSET, VAR_FLAGS_OFFSET};
use crate::error::{hresult, hresult_of, ERROR_PARTIAL_COPY};
use crate::plain::{Plain, Scalar};
use crate::remote::{read, read_request, Memory, ReadRequest, WriteRequest};
use vstd::prelude::*;

verus! {

/// The flag to remove.
pub const FLAG_DEVELOPMENTONLY: u64 = 2;

/// Whether the flag to remove is set.
pub open spec fn is_flagged(flags: u64) -> bool {
    flags & FLAG_DEVELOPMENTONLY != 0
}

/// The flags without the one to remove.
pub open spec fn unflagged(flags: u64) -> u64 {
    flags & !FLAG_DEVELOPMENTONLY
}

/// What to do next.
pub enum Action {
    /// Fetch bytes and hand them to `step`.
    Read(ReadRequest),
    /// Store bytes and report it to `step`.
    Write(WriteRequest),
    /// Do nothing and report it to `step`.
    Pass,
    /// Stop, with the number of flags removed or with the code of the request
    /// that failed.
    Finish(Result<usize, i32>),
}

/// What came of an action.
pub enum Reply {
    /// The bytes that were fetched.
    Bytes(Vec<u8>),
    /// Nothing to report.
    Done,
    /// The request failed with this code.
    Failed(i32),
}

/// What an `Action` stands for.
pub enum ActionView {
    Read { addr: u64, size: nat },
    Write { addr: u64, bytes: Seq<u8> },
    Pass,
    Finish(Result<nat, i32>),
}

/// What a `Reply` stands for.
pub enum ReplyView {
    Bytes(Seq<u8>),
    Done,
    Failed(i32),
}

impl View for Action {
    type V = ActionView;

    open spec fn view(&self) -> ActionView {
        match self {
            Action::Read(request) => ActionView::Read {
                addr: request.addr,
                size: request.size as nat,
            },
            Action::Write(request) => ActionView::Write {
                addr: request.addr,
                bytes: request.bytes@,
            },
            Action::Pass => ActionView::Pass,
            Action::Finish(Ok(count)) => ActionView::Finish(Ok(*count as nat)),
            Action::Finish(Err(code)) => ActionView::Finish(Err(*code)),
        }
    }
}

impl View for Reply {
    type V = ReplyView;

    open spec fn view(&self) -> ReplyView {
        match self {
            Reply::Bytes(bytes) => ReplyView::Bytes(bytes@),
            Reply::Done => ReplyView::Done,
            Reply::Failed(code) => ReplyView::Failed(*code),
        }
    }
}

/// How far the work has come.
enum Stage {
    /// The variable list is to be fetched.
    FetchVars,
    /// Variable node `next` is to be looked at; at the end of the variables
    /// the command list is to be fetched.
    VisitVar { vars: LocalList<u64>, next: u16 },
    /// The flags at `addr` are to be replaced before variable node `next`.
    ClearVar { vars: LocalList<u64>, next: u16, addr: u64, flags: u64 },
    /// Command node `next` is to be looked at.
    VisitCmd { cmds: LocalList<Cmd>, next: u16 },
    /// A request has failed.
    Failed { code: i32 },
}

/// The work of removing the flag from every registered variable and command.
pub struct Patch {
    cvars: CCVar,
    stage: Stage,
    count: usize,
}

/// How far the work has come, over mathematical lists.
pub enum StageView {
    FetchVars,
    VisitVar { vars: LocalListView<u64>, next: u16 },
    ClearVar { vars: LocalListView<u64>, next: u16, addr: u64, flags: u64 },
    VisitCmd { cmds: LocalListView<Cmd>, next: u16 },
    Failed { code: i32 },
}

/// What a `Patch` stands for.
pub struct PatchView {
    /// The registry.
    pub cvars: CCVar,
    /// How far the work has come.
    pub stage: StageView,
    /// Number of flags removed so far.
    pub count: nat,
}

impl View for Patch {
    type V = PatchView;

    closed spec fn view(&self) -> PatchView {
        PatchView {
            cvars: self.cvars,
            stage: match self.stage {
                Stage::FetchVars => StageView::FetchVars,
                Stage::VisitVar { vars, next } => StageView::VisitVar { vars: vars@, next },
                Stage::ClearVar { vars, next, addr, flags } => StageView::ClearVar {
                    vars: vars@,
                    next,
                    addr,
                    flags,
                },
                Stage::VisitCmd { cmds, next } => StageView::VisitCmd { cmds: cmds@, next },
                Stage::Failed { code } => StageView::Failed { code },
            },
            count: self.count as nat,
        }
    }
}

/// The work at its start.
pub open spec fn patch_start(cvars: CCVar) -> PatchView {
    PatchView { cvars, stage: StageView::FetchVars, count: 0 }
}

/// Where the flags of a variable lie.
pub open spec fn var_flags_addr(var_addr: u64) -> int {
    var_addr + VAR_FLAGS_OFFSET
}

/// Where the flags of command node `index` lie.
pub open spec fn cmd_flags_addr(cmds: LocalListView<Cmd>, index: u16) -> int {
    cmds.remote_data(index as int) + CMD_FLAGS_OFFSET
}

impl PatchView {
    /// Whether the next link leads to a node and the address that is needed
    /// next exists.
    pub open spec fn link_in_range(self) -> bool {
        match self.stage {
            StageView::VisitVar { vars, next } => {
                &&& vars.iter_at(next).link_in_range()
                &&& vars.iter_at(next).item() matches Some(var_addr) ==> var_flags_addr(var_addr)
                    <= u64::MAX
            },
            StageView::VisitCmd { cmds, next } => {
                &&& cmds.iter_at(next).link_in_range()
                &&& cmds.iter_at(next).item() matches Some(cmd) ==> is_flagged(cmd.flags)
                    ==> cmd_flags_addr(cmds, next) <= u64::MAX
            },
            _ => true,
        }
    }

    /// What to do next.
    pub open spec fn action(self) -> ActionView {
        match self.stage {
            StageView::FetchVars => ActionView::Read {
                addr: self.cvars.vars.nodes_addr(),
                size: self.cvars.vars.nodes_size(),
            },
            StageView::VisitVar { vars, next } => match vars.iter_at(next).item() {
                Some(var_addr) => ActionView::Read {
                    addr: var_flags_addr(var_addr) as u64,
                    size: 8,
                },
                None => ActionView::Read {
                    addr: self.cvars.cmds.nodes_addr(),
                    size: self.cvars.cmds.nodes_size(),
                },
            },
            StageView::ClearVar { vars, next, addr, flags } => ActionView::Write {
                addr,
                bytes: unflagged(flags).encode(),
            },
            StageView::VisitCmd { cmds, next } => match cmds.iter_at(next).item() {
                Some(cmd) => if is_flagged(cmd.flags) {
                    ActionView::Write {
                        addr: cmd_flags_addr(cmds, next) as u64,
                        bytes: unflagged(cmd.flags).encode(),
                    }
                } else {
                    ActionView::Pass
                },
                None => ActionView::Finish(Ok(self.count)),
            },
            StageView::Failed { code } => ActionView::Finish(Err(code)),
        }
    }

    /// Whether a reply is one that the next action can have.
    pub open spec fn takes(self, reply: ReplyView) -> bool {
        match (self.action(), reply) {
            (ActionView::Read { size, .. }, ReplyView::Bytes(bytes)) => bytes.len() == size,
            (ActionView::Read { .. }, ReplyView::Failed(_)) => true,
            (ActionView::Write { .. }, ReplyView::Done) => self.count < usize::MAX,
            (ActionView::Write { .. }, ReplyView::Failed(_)) => true,
            (ActionView::Pass, ReplyView::Done) => true,
            _ => false,
        }
    }

    /// The same work at another stage.
    pub open spec fn at(self, stage: StageView) -> PatchView {
        PatchView { stage, ..self }
    }

    /// Where the work stands after a reply to the next action.
    pub open spec fn next(self, reply: ReplyView) -> PatchView {
        match (self.stage, reply) {
            (_, ReplyView::Failed(code)) => self.at(StageView::Failed { code }),
            (StageView::FetchVars, ReplyView::Bytes(bytes)) => self.at(
                StageView::VisitVar {
                    vars: self.cvars.vars.list_in(bytes),
                    next: self.cvars.vars.head,
                },
            ),
            (StageView::VisitVar { vars, next }, ReplyView::Bytes(bytes)) => match vars.iter_at(
                next,
            ).item() {
                Some(var_addr) => {
                    let flags = u64::decode(bytes);
                    let next = vars.iter_at(next).advanced().next;
                    if is_flagged(flags) {
                        self.at(
                            StageView::ClearVar {
                                vars,
                                next,
                                addr: var_flags_addr(var_addr) as u64,
                                flags,
                            },
                        )
                    } else {
                        self.at(StageView::VisitVar { vars, next })
                    }
                },
                None => self.at(
                    StageView::VisitCmd {
                        cmds: self.cvars.cmds.list_in(bytes),
                        next: self.cvars.cmds.head,
                    },
                ),
            },
            (StageView::ClearVar { vars, next, .. }, ReplyView::Done) => PatchView {
                count: self.count + 1,
                stage: StageView::VisitVar { vars, next },
                ..self
            },
            (StageView::VisitCmd { cmds, next }, ReplyView::Done) => PatchView {
                count: if self.action() is Write {
                    self.count + 1
                } else {
                    self.count
                },
                stage: StageView::VisitCmd { cmds, next: cmds.iter_at(next).advanced().next },
                ..self
            },
            _ => self,
        }
    }
}

/// Starts to remove the flag from what the registry at offset `cvars` of the
/// image lists. Without a registry there, fails as an incomplete read does.
pub fn patch_vars(image: &Memory, cvars: u64) -> (r: Result<Patch, i32>)
    ensures
        match r {
            Ok(patch) => image.value_at::<CCVar>(cvars) matches Some(found) && patch@
                == patch_start(found),
            Err(code) => image.value_at::<CCVar>(cvars) is None && code == hresult(
                ERROR_PARTIAL_COPY,
            ),
        },
        // The code 0x8007012B: only part of a request was completed.
        r matches Err(code) ==> code + 0x1_0000_0000 == 0x8007_012B,
        (r is Ok) == (cvars % 8 == 0 && cvars + 0x110 <= image.bytes().len()),
{
    proof {
        crate::layout::law_registry_in_a_chunk(*image, cvars);
    }
    match image.get::<CCVar>(cvars) {
        Some(cvars) => Ok(Patch { cvars, stage: Stage::FetchVars, count: 0 }),
        None => Err(hresult_of(ERROR_PARTIAL_COPY)),
    }
}

impl Patch {
    /// Whether the next link leads to a node and the address that is needed
    /// next exists. Otherwise the work cannot go on.
    pub fn link_in_range(&self) -> (r: bool)
        ensures
            r == self@.link_in_range(),
    {
        match &self.stage {
            Stage::VisitVar { vars, next } => {
                let mut iter = vars.iter_at(*next);
                if !iter.link_in_range() {
                    return false;
                }
                match iter.next() {
                    Some(var_addr) => *var_addr <= u64::MAX - VAR_FLAGS_OFFSET as u64,
                    None => true,
                }
            },
            Stage::VisitCmd { cmds, next } => {
                let mut iter = cmds.iter_at(*next);
                if !iter.link_in_range() {
                    return false;
                }
                match iter.next() {
                    Some(cmd) => cmd.flags & FLAG_DEVELOPMENTONLY == 0 || cmds.reaches(
                        *next as usize,
                        CMD_FLAGS_OFFSET,
                    ),
                    None => true,
                }
            },
            _ => true,
        }
    }

    /// What to do next.
    pub fn action(&self) -> (r: Action)
        requires
            self@.link_in_range(),
        ensures
            r@ == self@.action(),
    {
        match &self.stage {
            Stage::FetchVars => Action::Read(self.cvars.vars.read_request()),
            Stage::VisitVar { vars, next } => {
                let mut iter = vars.iter_at(*next);
                match iter.next() {
                    Some(var_addr) => Action::Read(
                        read_request::<u64>(*var_addr + VAR_FLAGS_OFFSET as u64),
                    ),
                    None => Action::Read(self.cvars.cmds.read_request()),
                }
            },
            Stage::ClearVar { vars: _, next: _, addr, flags } => Action::Write(
                crate::remote::write::<u64>(*addr, *flags & !FLAG_DEVELOPMENTONLY),
            ),
            Stage::VisitCmd { cmds, next } => {
                let mut iter = cmds.iter_at(*next);
                match iter.next() {
                    Some(cmd) => {
                        if cmd.flags & FLAG_DEVELOPMENTONLY != 0 {
                            let flags_addr: u64 = cmds.to_remote(*next as usize)
                                + CMD_FLAGS_OFFSET as u64;
                            Action::Write(
                                crate::remote::write::<u64>(flags_addr, cmd.flags & !FLAG_DEVELOPMENTONLY),
                            )
                        } else {
                            Action::Pass
                        }
                    },
                    None => Action::Finish(Ok(self.count)),
                }
            },
            Stage::Failed { code } => Action::Finish(Err(*code)),
        }
    }

    /// Whether a reply is one that the next action can have.
    pub fn takes(&self, reply: &Reply) -> (r: bool)
        requires
            self@.link_in_range(),
        ensures
            r == self@.takes(reply@),
    {
        match (self.action(), reply) {
            (Action::Read(request), Reply::Bytes(bytes)) => bytes.len() as u64 == request.size,
            (Action::Read(_), Reply::Failed(_)) => true,
            (Action::Write(_), Reply::Done) => self.count < usize::MAX,
            (Action::Write(_), Reply::Failed(_)) => true,
            (Action::Pass, Reply::Done) => true,
            _ => false,
        }
    }

    /// Goes on with what came of the next action.
    pub fn step(self, reply: Reply) -> (r: Patch)
        requires
            self@.link_in_range(),
            self@.takes(reply@),
        ensures
            r@ == self@.next(reply@),
    {
        let Patch { cvars, stage, count } = self;
        match (stage, reply) {
            (_, Reply::Failed(code)) => Patch { cvars, stage: Stage::Failed { code }, count },
            (Stage::FetchVars, Reply::Bytes(bytes)) => {
                let vars: LocalList<u64> = cvars.vars.read(bytes.as_slice());
                let next: u16 = cvars.vars.head;
                Patch { cvars, stage: Stage::VisitVar { vars, next }, count }
            },
            (Stage::VisitVar { vars, next }, Reply::Bytes(bytes)) => {
                let mut iter = vars.iter_at(next);
                match iter.next() {
                    Some(var_addr) => {
                        let addr: u64 = *var_addr + VAR_FLAGS_OFFSET as u64;
                        let next: u16 = iter.next_index();
                        let flags: u64 = read::<u64>(bytes.as_slice());
                        if flags & FLAG_DEVELOPMENTONLY != 0 {
                            Patch { cvars, stage: Stage::ClearVar { vars, next, addr, flags }, count }
                        } else {
                            Patch { cvars, stage: Stage::VisitVar { vars, next }, count }
                        }
                    },
                    None => {
                        let cmds: LocalList<Cmd> = cvars.cmds.read(bytes.as_slice());
                        let next: u16 = cvars.cmds.head;
                        Patch { cvars, stage: Stage::VisitCmd { cmds, next }, count }
                    },
                }
            },
            (Stage::ClearVar { vars, next, addr: _, flags: _ }, Reply::Done) => Patch {
                cvars,
                stage: Stage::VisitVar { vars, next },
                count: count + 1,
            },
            (Stage::VisitCmd { cmds, next }, Reply::Done) => {
                let mut iter = cmds.iter_at(next);
                let removed: usize = match iter.next() {
                    Some(cmd) => if cmd.flags & FLAG_DEVELOPMENTONLY != 0 {
                        1
                    } else {
                        0
                    },
                    None => 0,
                };
                let next: u16 = iter.next_index();
                Patch { cvars, stage: Stage::VisitCmd { cmds, next }, count: count + removed }
            },
            // No other reply is taken.
            (stage, _) => Patch { cvars, stage, count },
        }
    }
}

} // verus!
