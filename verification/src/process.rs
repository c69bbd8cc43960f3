use vstd::prelude::*;

use crate::error::Error;
use crate::text::{
    ascii_lower, chars_of, contains_chars, is_ascii_text, lowercase, occurs_in, to_lowercase,
};

verus! {

/// A module (executable image) loaded in a process.
#[derive(Debug)]
pub struct ModuleInfo {
    pub name: String,
    pub base: usize,
    pub size: usize,
}

impl Clone for ModuleInfo {
    fn clone(&self) -> (m: Self)
        ensures
            m == *self,
    {
        ModuleInfo { name: self.name.clone(), base: self.base, size: self.size }
    }
}

/// A range of a process's address space.
#[derive(Debug, Clone, Copy)]
pub struct MemoryRegion {
    pub base: usize,
    pub size: usize,
}

/// Whether two names are the same but for case.
pub open spec fn same_name(a: Seq<char>, b: Seq<char>) -> bool {
    lowercase(a) == lowercase(b)
}

/// The first index of `lowered` holding exactly `wanted`: the lookup that
/// follows lower-casing the module names and the name asked for.
pub fn position_of_lowered(lowered: &[String], wanted: &str) -> (r: Option<usize>)
    ensures
        r matches Some(i) ==> i < lowered@.len() && lowered@[i as int]@ == wanted@ && forall|j: int|
            0 <= j < i ==> (#[trigger] lowered@[j])@ != wanted@,
        r is None ==> forall|j: int| 0 <= j < lowered@.len() ==> (#[trigger] lowered@[j])@ != wanted@,
{
    let target = String::from_str(wanted);
    let mut i: usize = 0;
    while i < lowered.len()
        invariant
            i <= lowered@.len(),
            target@ == wanted@,
            forall|j: int| 0 <= j < i ==> (#[trigger] lowered@[j])@ != wanted@,
        decreases lowered@.len() - i,
    {
        if lowered[i] == target {
            return Some(i);
        }
        i += 1;
    }
    None
}

/// The first module whose name is `name` but for case.
pub fn find_module(modules: &[ModuleInfo], name: &str) -> (r: Result<ModuleInfo, Error>)
    ensures
        r matches Ok(m) ==> exists|i: int|
            0 <= i < modules@.len() && m == modules@[i] && same_name(modules@[i].name@, name@)
                && forall|j: int| 0 <= j < i ==> !same_name(#[trigger] modules@[j].name@, name@),
        r is Err <==> forall|i: int|
            0 <= i < modules@.len() ==> !same_name(#[trigger] modules@[i].name@, name@),
        r matches Err(e) ==> (e matches Error::ModuleNotFound(s) && s@ == name@),
{
    let wanted = to_lowercase(name);
    let mut lowered: Vec<String> = Vec::new();
    let mut k: usize = 0;
    while k < modules.len()
        invariant
            k <= modules@.len(),
            lowered@.len() == k,
            forall|j: int| 0 <= j < k ==> (#[trigger] lowered@[j])@ == lowercase(modules@[j].name@),
        decreases modules@.len() - k,
    {
        lowered.push(to_lowercase(modules[k].name.as_str()));
        k += 1;
    }
    match position_of_lowered(lowered.as_slice(), wanted.as_str()) {
        Some(i) => {
            assert(lowered@[i as int]@ == lowercase(modules@[i as int].name@));
            assert forall|j: int| 0 <= j < i implies !same_name(#[trigger] modules@[j].name@, name@) by {
                assert(lowered@[j]@ == lowercase(modules@[j].name@));
            }
            Ok(modules[i].clone())
        },
        None => {
            assert forall|j: int| 0 <= j < modules@.len() implies !same_name(
                #[trigger] modules@[j].name@,
                name@,
            ) by {
                assert(lowered@[j]@ == lowercase(modules@[j].name@));
            }
            Err(Error::ModuleNotFound(String::from_str(name)))
        },
    }
}

/// Whether a process called `process_name` is the one asked for by
/// `target`: the two names agree but for case, or the lower-case target
/// occurs in the lower-case process name.
pub open spec fn names_process(process_name: Seq<char>, target: Seq<char>) -> bool {
    same_name(process_name, target) || occurs_in(lowercase(process_name), lowercase(target))
}

/// The comparison that follows lower-casing both names: equal, or the
/// target occurs in the process name.
pub fn lowered_names_match(name_lower: &str, target_lower: &str) -> (b: bool)
    ensures
        b == (name_lower@ == target_lower@ || occurs_in(name_lower@, target_lower@)),
{
    let name = String::from_str(name_lower);
    let wanted = String::from_str(target_lower);
    if name == wanted {
        return true;
    }
    let hay = chars_of(name_lower);
    let needle = chars_of(target_lower);
    contains_chars(&hay, &needle)
}

/// Whether a running process called `process_name` is the one asked for
/// by `target`.
pub fn process_name_matches(process_name: &str, target: &str) -> (b: bool)
    ensures
        b == names_process(process_name@, target@),
        is_ascii_text(process_name@) && is_ascii_text(target@) && process_name@.map_values(
            |c: char| ascii_lower(c),
        ) == target@.map_values(|c: char| ascii_lower(c)) ==> b,
{
    let name = to_lowercase(process_name);
    let wanted = to_lowercase(target);
    lowered_names_match(name.as_str(), wanted.as_str())
}

/// What the search for a process by name does with the next process id.
#[derive(Debug, Clone, Copy, PartialEq, Eq)]
pub enum PidAction {
    /// Pass over this process.
    Skip,
    /// Open the process and read its name.
    Inspect,
    /// This is the process asked for.
    Take,
}

/// One step of the search for a process by name: process 0 is passed
/// over; a process whose name is not known yet is to be inspected; one
/// whose (non-empty) name names the target is taken, any other passed over.
pub fn pid_action(pid: u32, process_name: Option<&str>, target: &str) -> (a: PidAction)
    ensures
        pid == 0 ==> a == PidAction::Skip,
        pid != 0 && process_name is None ==> a == PidAction::Inspect,
        pid != 0 ==> (process_name matches Some(n) ==> (a == (if n@.len() > 0 && names_process(
            n@,
            target@,
        ) {
            PidAction::Take
        } else {
            PidAction::Skip
        }))),
{
    if pid == 0 {
        return PidAction::Skip;
    }
    match process_name {
        None => PidAction::Inspect,
        Some(n) => {
            if !n.is_empty() && process_name_matches(n, target) {
                PidAction::Take
            } else {
                PidAction::Skip
            }
        },
    }
}

/// The state of committed memory, as the operating system reports it.
pub const MEM_COMMIT: u32 = 0x1000;

/// Read-only page protection.
pub const PAGE_READONLY: u32 = 0x02;

/// Read-write page protection.
pub const PAGE_READWRITE: u32 = 0x04;

/// Execute-read page protection.
pub const PAGE_EXECUTE_READ: u32 = 0x20;

/// Execute-read-write page protection.
pub const PAGE_EXECUTE_READWRITE: u32 = 0x40;

/// What the operating system reports of one range of a process's address
/// space.
#[derive(Debug, Clone, Copy)]
pub struct RegionQuery {
    pub base: usize,
    pub size: usize,
    pub state: u32,
    pub protect: u32,
}

/// Whether a queried range is worth scanning: it is committed, and its
/// protection is exactly one of the four readable ones.
pub open spec fn scannable(q: RegionQuery) -> bool {
    &&& q.state == MEM_COMMIT
    &&& (q.protect == PAGE_READONLY || q.protect == PAGE_READWRITE || q.protect
        == PAGE_EXECUTE_READ || q.protect == PAGE_EXECUTE_READWRITE)
}

/// One step of the walk over a process's address space: the region to keep
/// from the range just queried, if any, and the address to query next.
pub fn next_region(q: &RegionQuery) -> (r: (Option<MemoryRegion>, usize))
    requires
        q.base + q.size <= usize::MAX,
    ensures
        r.1 == q.base + q.size,
        scannable(*q) ==> r.0 == Some(MemoryRegion { base: q.base, size: q.size }),
        !scannable(*q) ==> r.0 is None,
        q.state == 0x1000 && (q.protect == 0x02 || q.protect == 0x04 || q.protect == 0x20
            || q.protect == 0x40) ==> r.0 == Some(MemoryRegion { base: q.base, size: q.size }),
        q.state != 0x1000 ==> r.0 is None,
{
    let keep = if q.state == MEM_COMMIT {
        q.protect == PAGE_READONLY || q.protect == PAGE_READWRITE || q.protect
            == PAGE_EXECUTE_READ || q.protect == PAGE_EXECUTE_READWRITE
    } else {
        false
    };
    let region = if keep {
        Some(MemoryRegion { base: q.base, size: q.size })
    } else {
        None
    };
    (region, q.base + q.size)
}

/// The ranges a scan keeps are exactly the committed ones (state
/// `0x1000`) that are read-only (`0x02`), read-write (`0x04`),
/// execute-read (`0x20`) or execute-read-write (`0x40`): code sections and
/// data alike; every other state or protection (reserved, free, guarded,
/// no-access, write-copy, execute-only) is passed over.
pub proof fn law_scannable_ranges(q: RegionQuery)
    ensures
        scannable(q) <==> (q.state == 0x1000 && (q.protect == 0x02 || q.protect == 0x04
            || q.protect == 0x20 || q.protect == 0x40)),
{
}

/// Whether a target names a process depends on the two names alone up to
/// lower-casing: when the lower-cased target ends the lower-cased process
/// name, or begins it, or stands anywhere in it, the process is named.
pub proof fn law_target_inside_name_names_process(process_name: Seq<char>, target: Seq<char>, i: int)
    requires
        0 <= i,
        i + lowercase(target).len() <= lowercase(process_name).len(),
        lowercase(process_name).subrange(i, i + lowercase(target).len()) == lowercase(target),
    ensures
        names_process(process_name, target),
{
    crate::text::law_occurrence_is_found(lowercase(process_name), lowercase(target), i);
}

} // verus!
