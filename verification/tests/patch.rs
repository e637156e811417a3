use cvar_patch::cvar::NULL_NODE;
use cvar_patch::patch::{patch_vars, Action, Patch, Reply};
use cvar_patch::remote::Memory;

const REGISTRY: u64 = 0x1000;
const VAR_NODES: u64 = 0x1200;
const CMD_NODES: u64 = 0x1400;
const VARS: u64 = 0x1800;

/// A process with one mapped region.
struct Process {
    base: u64,
    data: Vec<u8>,
    writes: usize,
}

impl Process {
    fn new() -> Process {
        Process { base: 0x1000, data: vec![0; 0x1000], writes: 0 }
    }

    fn slot(&self, addr: u64, len: usize) -> Option<usize> {
        let at = addr.checked_sub(self.base)? as usize;
        if at + len <= self.data.len() {
            Some(at)
        } else {
            None
        }
    }

    fn put(&mut self, addr: u64, bytes: &[u8]) {
        let at = self.slot(addr, bytes.len()).unwrap();
        self.data[at..at + bytes.len()].copy_from_slice(bytes);
    }

    fn list(&mut self, addr: u64, count: u16, flags: u16, nodes_ptr: u64, head: u16) {
        self.put(addr, &count.to_le_bytes());
        self.put(addr + 2, &flags.to_le_bytes());
        self.put(addr + 8, &nodes_ptr.to_le_bytes());
        self.put(addr + 16, &head.to_le_bytes());
    }

    fn var_node(&mut self, index: u64, var: u64, next: u16) {
        self.put(VAR_NODES + 16 * index, &var.to_le_bytes());
        self.put(VAR_NODES + 16 * index + 10, &next.to_le_bytes());
    }

    fn cmd_node(&mut self, index: u64, flags: u64, next: u16) {
        self.put(CMD_NODES + 0x38 * index + 0x10, &flags.to_le_bytes());
        self.put(CMD_NODES + 0x38 * index + 0x32, &next.to_le_bytes());
    }

    fn word(&self, addr: u64) -> u64 {
        let at = self.slot(addr, 8).unwrap();
        let mut bytes = [0; 8];
        bytes.copy_from_slice(&self.data[at..at + 8]);
        u64::from_le_bytes(bytes)
    }

    fn start(&self) -> Patch {
        let end = self.base + self.data.len() as u64;
        let image = Memory::new(self.base..end, self.data.clone());
        match patch_vars(&image, REGISTRY - self.base) {
            Ok(patch) => patch,
            Err(code) => panic!("no registry: {}", code),
        }
    }

    fn serve(&mut self, action: &Action) -> Reply {
        match action {
            Action::Read(request) => match self.slot(request.addr, request.size as usize) {
                Some(at) => Reply::Bytes(self.data[at..at + request.size as usize].to_vec()),
                None => Reply::Failed(-7),
            },
            Action::Write(request) => match self.slot(request.addr, request.bytes.len()) {
                Some(_) => {
                    self.put(request.addr, &request.bytes);
                    self.writes += 1;
                    Reply::Done
                }
                None => Reply::Failed(-8),
            },
            Action::Pass => Reply::Done,
            Action::Finish(_) => panic!("already finished"),
        }
    }

    /// Runs a patch; `None` if a link leads nowhere.
    fn run(&mut self) -> Option<Result<usize, i32>> {
        self.run_unless(usize::MAX, 0)
    }

    /// Runs a patch whose request number `refused`, counted from zero, fails
    /// with `code`.
    fn run_unless(&mut self, refused: usize, code: i32) -> Option<Result<usize, i32>> {
        let mut patch = self.start();
        let mut requests = 0;
        loop {
            if !patch.link_in_range() {
                return None;
            }
            let action = patch.action();
            if let Action::Finish(result) = action {
                return Some(result);
            }
            let is_request = !matches!(action, Action::Pass);
            let reply = if is_request && requests == refused {
                Reply::Failed(code)
            } else {
                self.serve(&action)
            };
            requests += is_request as usize;
            assert!(patch.takes(&reply));
            patch = patch.step(reply);
        }
    }
}

fn sample() -> Process {
    let mut p = Process::new();
    p.list(REGISTRY + 0x40, 3, 1, VAR_NODES, 2);
    p.list(REGISTRY + 0xF8, 3, 1, CMD_NODES, 0);
    p.var_node(2, VARS, 0);
    p.var_node(0, VARS + 0x80, 1);
    p.var_node(1, VARS + 0x100, NULL_NODE);
    p.put(VARS + 0x30, &0xFFFF_FFFF_FFFF_FFFFu64.to_le_bytes());
    p.put(VARS + 0x80 + 0x30, &0x5u64.to_le_bytes());
    p.put(VARS + 0x100 + 0x30, &0x12u64.to_le_bytes());
    p.cmd_node(0, 0x2, 2);
    p.cmd_node(2, 0x4, 1);
    p.cmd_node(1, 0x8000_0000_0000_0007, NULL_NODE);
    p
}

#[test]
fn flag_is_removed_everywhere_and_counted() {
    let mut p = sample();
    assert_eq!(p.run(), Some(Ok(4)));
    assert_eq!(p.writes, 4);
    assert_eq!(p.word(VARS + 0x30), 0xFFFF_FFFF_FFFF_FFFD);
    assert_eq!(p.word(VARS + 0x80 + 0x30), 0x5);
    assert_eq!(p.word(VARS + 0x100 + 0x30), 0x10);
    assert_eq!(p.word(CMD_NODES + 0x10), 0x0);
    assert_eq!(p.word(CMD_NODES + 0x38 + 0x10), 0x8000_0000_0000_0005);
    assert_eq!(p.word(CMD_NODES + 0x70 + 0x10), 0x4);
}

#[test]
fn only_the_flag_changes() {
    let mut p = sample();
    let before = p.data.clone();
    p.run();
    let changed: Vec<usize> =
        (0..before.len()).filter(|i| before[*i] != p.data[*i]).collect();
    assert_eq!(changed, vec![0x410, 0x448, 0x830, 0x930]);
    for i in changed {
        assert_eq!(before[i] & 0xFD, p.data[i]);
        assert_eq!(before[i] & 2, 2);
    }
}

#[test]
fn second_patch_finds_nothing() {
    let mut p = sample();
    p.run();
    let after = p.data.clone();
    assert_eq!(p.run(), Some(Ok(0)));
    assert_eq!(p.data, after);
    assert_eq!(p.writes, 4);
}

#[test]
fn variable_listed_twice_counts_once() {
    let mut p = sample();
    p.var_node(1, VARS, NULL_NODE);
    assert_eq!(p.run(), Some(Ok(3)));
    assert_eq!(p.word(VARS + 0x30), 0xFFFF_FFFF_FFFF_FFFD);
}

#[test]
fn empty_lists_finish_at_once() {
    let mut p = Process::new();
    p.list(REGISTRY + 0x40, 0, 1, VAR_NODES, NULL_NODE);
    p.list(REGISTRY + 0xF8, 0, 1, CMD_NODES, NULL_NODE);
    assert_eq!(p.run(), Some(Ok(0)));
}

#[test]
fn nodes_off_the_list_are_left_alone() {
    let mut p = sample();
    p.var_node(2, VARS, NULL_NODE);
    p.cmd_node(0, 0x2, NULL_NODE);
    assert_eq!(p.run(), Some(Ok(2)));
    assert_eq!(p.word(VARS + 0x100 + 0x30), 0x12);
    assert_eq!(p.word(CMD_NODES + 0x38 + 0x10), 0x8000_0000_0000_0007);
}

#[test]
fn failed_request_ends_the_work() {
    let mut p = sample();
    p.var_node(0, 0x9000, 1);
    assert_eq!(p.run(), Some(Err(-7)));
    assert_eq!(p.word(VARS + 0x30), 0xFFFF_FFFF_FFFF_FFFD);
    assert_eq!(p.word(VARS + 0x100 + 0x30), 0x12);

    let mut p = sample();
    p.list(REGISTRY + 0x40, 3, 0, VAR_NODES, 2);
    assert_eq!(p.run(), Some(Err(-7)));

    let mut p = sample();
    p.list(REGISTRY + 0xF8, 3, 1, 0x1FF0, 0);
    assert_eq!(p.run(), Some(Err(-7)));
    assert_eq!(p.writes, 2);
}

#[test]
fn failed_write_ends_the_work() {
    let mut patch = sample().start();
    let mut p = sample();
    for _ in 0..2 {
        let reply = p.serve(&patch.action());
        patch = patch.step(reply);
    }
    match patch.action() {
        Action::Write(request) => {
            assert_eq!(request.addr, VARS + 0x30);
            assert_eq!(request.bytes, 0xFFFF_FFFF_FFFF_FFFDu64.to_le_bytes().to_vec());
        }
        _ => panic!("a write was due"),
    }
    assert!(patch.takes(&Reply::Failed(-3)));
    let patch = patch.step(Reply::Failed(-3));
    assert!(matches!(patch.action(), Action::Finish(Err(-3))));
}

#[test]
fn refused_request_keeps_what_was_done() {
    // The words that are patched, in the order of the lists.
    let words =
        [VARS + 0x30, VARS + 0x100 + 0x30, CMD_NODES + 0x10, CMD_NODES + 0x38 + 0x10];
    // The requests are: variable nodes, variable 2, its write, variable 0,
    // variable 1, its write, command nodes, two writes.
    let done = [0, 0, 0, 1, 1, 1, 2, 2, 3];
    for (refused, count) in done.iter().enumerate() {
        let mut p = sample();
        let code = -20 - refused as i32;
        assert_eq!(p.run_unless(refused, code), Some(Err(code)));
        let mut expected = sample();
        for word in &words[..*count] {
            let cleared = expected.word(*word) & !2;
            expected.put(*word, &cleared.to_le_bytes());
        }
        assert_eq!(p.data, expected.data);
    }
    let mut p = sample();
    assert_eq!(p.run_unless(done.len(), -1), Some(Ok(4)));
}

#[test]
fn variables_are_done_when_commands_are_asked_for() {
    let mut p = sample();
    assert_eq!(p.run_unless(6, 5), Some(Err(5)));
    assert_eq!(p.word(VARS + 0x30), 0xFFFF_FFFF_FFFF_FFFD);
    assert_eq!(p.word(VARS + 0x80 + 0x30), 0x5);
    assert_eq!(p.word(VARS + 0x100 + 0x30), 0x10);
    assert_eq!(p.word(CMD_NODES + 0x10), 0x2);
}

#[test]
fn broken_links_stop_the_work() {
    let mut p = sample();
    p.var_node(2, VARS, 3);
    assert_eq!(p.run(), None);
    assert_eq!(p.writes, 1);

    let mut p = sample();
    p.cmd_node(2, 0x4, 0x100);
    assert_eq!(p.run(), None);

    let mut p = sample();
    p.var_node(2, u64::MAX - 0x2F, 0);
    assert_eq!(p.run(), None);
}

#[test]
fn replies_have_to_fit() {
    let patch = sample().start();
    assert!(!patch.takes(&Reply::Done));
    assert!(!patch.takes(&Reply::Bytes(vec![0; 47])));
    assert!(patch.takes(&Reply::Bytes(vec![0; 48])));
    assert!(patch.takes(&Reply::Failed(1)));
    let patch = patch.step(Reply::Failed(1));
    assert!(!patch.takes(&Reply::Failed(1)));
    assert!(!patch.takes(&Reply::Done));
}

#[test]
fn commands_without_flag_bits_are_addressed_from_zero() {
    let mut p = sample();
    p.list(REGISTRY + 0x40, 0, 1, VAR_NODES, NULL_NODE);
    p.list(REGISTRY + 0xF8, 1, 0, CMD_NODES, 0);
    let mut patch = p.start();
    let reply = p.serve(&patch.action());
    patch = patch.step(reply);
    match patch.action() {
        Action::Read(request) => assert_eq!((request.addr, request.size), (0, 0x38)),
        _ => panic!("a read was due"),
    }
    let mut node = vec![0; 0x38];
    node[0x10] = 0x3;
    node[0x32] = 0xFF;
    node[0x33] = 0xFF;
    patch = patch.step(Reply::Bytes(node));
    match patch.action() {
        Action::Write(request) => {
            assert_eq!(request.addr, 0x10);
            assert_eq!(request.bytes, vec![1, 0, 0, 0, 0, 0, 0, 0]);
        }
        _ => panic!("a write was due"),
    }
}

#[test]
fn missing_registry_is_an_incomplete_read() {
    let image = Memory::new(0x1000..0x2000, vec![0; 0x1000]);
    for rva in [0xF00, 0x1000, 4] {
        match patch_vars(&image, rva) {
            Ok(_) => panic!("no registry was there"),
            Err(code) => assert_eq!(code, 0x8007_012Bu32 as i32),
        }
    }
    assert!(patch_vars(&image, 0xEF0).is_ok());
}
