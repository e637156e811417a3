//! Finds a process or a module in a snapshot of the system.
//!
//! A snapshot is walked entry by entry until the system reports an error in
//! place of a further entry. Names are compared by the system; an entry comes
//! with the result of the comparison of the name that is looked for with its
//! own, which is zero where they are the same but for upper and lower case.
use std::ops::Range;
use vstd::prelude::*;

verus! {

/// A process in a snapshot.
pub struct ProcessEntry {
    /// How the name that is looked for compares with the one of the process.
    pub comparison: i32,
    /// Process identifier.
    pub id: u32,
}

/// A module in a snapshot.
pub struct ModuleEntry {
    /// How the name that is looked for compares with the one of the module.
    pub comparison: i32,
    /// Where the module starts.
    pub base_addr: u64,
    /// Number of bytes of the module.
    pub base_size: u32,
}

/// Whether entry `i` is the first process with the right name.
pub open spec fn is_first_process(entries: Seq<ProcessEntry>, i: int) -> bool {
    &&& 0 <= i < entries.len()
    &&& entries[i].comparison == 0
    &&& forall|j: int| 0 <= j < i ==> #[trigger] entries[j].comparison != 0
}

/// Whether entry `i` is the first module with the right name.
pub open spec fn is_first_module(entries: Seq<ModuleEntry>, i: int) -> bool {
    &&& 0 <= i < entries.len()
    &&& entries[i].comparison == 0
    &&& forall|j: int| 0 <= j < i ==> #[trigger] entries[j].comparison != 0
}

/// The first process with the right name has that name and stands before every
/// other that has it. There is one as soon as any process has the name.
pub proof fn law_first_process_comes_before_all_others(
    entries: Seq<ProcessEntry>,
    i: int,
    other: int,
)
    requires
        0 <= other < entries.len(),
        entries[other].comparison == 0,
    ensures
        is_first_process(entries, i) ==> 0 <= i <= other && entries[i].comparison == 0,
        exists|k: int| #[trigger] is_first_process(entries, k),
    decreases other,
{
    if exists|j: int| 0 <= j < other && (#[trigger] entries[j]).comparison == 0 {
        let j = choose|j: int| 0 <= j < other && (#[trigger] entries[j]).comparison == 0;
        law_first_process_comes_before_all_others(entries, i, j);
    } else {
        assert(is_first_process(entries, other));
    }
}

/// The first module with the right name has that name and stands before every
/// other that has it. There is one as soon as any module has the name.
pub proof fn law_first_module_comes_before_all_others(
    entries: Seq<ModuleEntry>,
    i: int,
    other: int,
)
    requires
        0 <= other < entries.len(),
        entries[other].comparison == 0,
    ensures
        is_first_module(entries, i) ==> 0 <= i <= other && entries[i].comparison == 0,
        exists|k: int| #[trigger] is_first_module(entries, k),
    decreases other,
{
    if exists|j: int| 0 <= j < other && (#[trigger] entries[j]).comparison == 0 {
        let j = choose|j: int| 0 <= j < other && (#[trigger] entries[j]).comparison == 0;
        law_first_module_comes_before_all_others(entries, i, j);
    } else {
        assert(is_first_module(entries, other));
    }
}

/// Gets a process identifier from the entries of a snapshot, which ended with
/// the error `end`.
pub fn find_process(entries: &[ProcessEntry], end: i32) -> (r: Result<u32, i32>)
    ensures
        match r {
            Ok(id) => exists|i: int| #[trigger]
                is_first_process(entries@, i) && id == entries@[i].id,
            Err(code) => code == end && forall|i: int|
                0 <= i < entries@.len() ==> #[trigger] entries@[i].comparison != 0,
        },
{
    let mut i: usize = 0;
    while i < entries.len()
        invariant
            i <= entries@.len(),
            forall|j: int| 0 <= j < i ==> #[trigger] entries@[j].comparison != 0,
        decreases entries@.len() - i,
    {
        if entries[i].comparison == 0 {
            assert(is_first_process(entries@, i as int));
            return Ok(entries[i].id);
        }
        i = i + 1;
    }
    Err(end)
}

/// Gets the address range of a loaded module from the entries of a snapshot,
/// which ended with the error `end`.
pub fn find_module(entries: &[ModuleEntry], end: i32) -> (r: Result<Range<u64>, i32>)
    requires
        forall|i: int| #[trigger]
            is_first_module(entries@, i) ==> entries@[i].base_addr + entries@[i].base_size
                <= u64::MAX,
    ensures
        match r {
            Ok(range) => exists|i: int|
                {
                    &&& #[trigger] is_first_module(entries@, i)
                    &&& range.start == entries@[i].base_addr
                    &&& range.end == entries@[i].base_addr + entries@[i].base_size
                },
            Err(code) => code == end && forall|i: int|
                0 <= i < entries@.len() ==> #[trigger] entries@[i].comparison != 0,
        },
{
    let mut i: usize = 0;
    while i < entries.len()
        invariant
            i <= entries@.len(),
            forall|j: int| 0 <= j < i ==> #[trigger] entries@[j].comparison != 0,
            forall|i: int| #[trigger]
                is_first_module(entries@, i) ==> entries@[i].base_addr + entries@[i].base_size
                    <= u64::MAX,
        decreases entries@.len() - i,
    {
        if entries[i].comparison == 0 {
            assert(is_first_module(entries@, i as int));
            let start: u64 = entries[i].base_addr;
            let end: u64 = start + entries[i].base_size as u64;
            return Ok(Range { start, end });
        }
        i = i + 1;
    }
    Err(end)
}

} // verus!
