//! Processes: what the scheduler knows of a process and its threads, and why a
//! process could not be made.
use vstd::prelude::*;
use crate::fal::Pid;
use crate::mm::page::{FLAG_VALID, FLAG_USER, FLAG_EXECUTABLE, FLAG_WRITEABLE, FLAG_READABLE};
#[allow(unused_imports)]
use elf_rs::{Elf, ElfFile, ElfHeaderRaw, ElfMachine, ElfType};

pub mod mem;
pub mod sch;
pub mod thread;

verus! {

/// How far a process or thread has come.
#[derive(Debug, Clone, Copy, PartialEq, Eq, Structural)]
pub enum ProcessState {
    Ready,
    Running,
    Idle,
    Dead,
}

/// Why a process could not be made.
#[derive(Debug, Clone, Copy, PartialEq, Eq, Structural)]
pub enum ProcessSpawnError {
    BrokenBinary,
    WrongTarget,
    InvalidPermissions,
}

/// A process: its name, its id and its parent's, where it starts, and its state.
pub struct Process {
    pub name: String,
    pub pid: Pid,
    pub parent: Pid,
    pub entry_point: usize,
    pub state: ProcessState,
}

impl Process {
    /// A ready process with no id yet, starting at `entry_point`.
    pub fn new(name: String, entry_point: usize) -> (r: Process)
        ensures
            r.name@ == name@,
            r.pid == 0,
            r.parent == 0,
            r.entry_point == entry_point,
            r.state == ProcessState::Ready,
    {
        Process { name, pid: 0, parent: 0, entry_point, state: ProcessState::Ready }
    }
}

/// Names what `elf_rs` reads from the header of the image `data`, when it parses:
/// the entry point, whether the image is for RISC-V and whether it is executable.
pub uninterp spec fn elf_summary(data: Seq<u8>) -> Option<(u64, bool, bool)>;

/// Calls `elf_rs::Elf::from_bytes` on `data` and, where it parses, reads the
/// header's entry point and tells whether its machine is `RISC_V` and its type
/// `ET_EXEC`. The contract only names the result.
#[verifier::external_body]
fn read_elf(data: &[u8]) -> (r: Option<(u64, bool, bool)>)
    ensures
        r == elf_summary(data@),
{
    match Elf::from_bytes(data) {
        Ok(elf) => {
            let header = elf.elf_header();
            Some((header.entry_point(), matches!(header.machine(), ElfMachine::RISC_V),
                matches!(header.elftype(), ElfType::ET_EXEC)))
        },
        Err(_) => None,
    }
}

/// What loading an image whose header reads as `summary` gives.
pub open spec fn image_outcome(summary: Option<(u64, bool, bool)>, name: Seq<char>, r: Result<Process, ProcessSpawnError>) -> bool {
    match summary {
        None => r == Err::<Process, ProcessSpawnError>(ProcessSpawnError::BrokenBinary),
        Some((entry, riscv, exec)) => if riscv && exec {
            r matches Ok(p) && p.name@ == name && p.pid == 0 && p.parent == 0
                && p.entry_point == entry as usize && p.state == ProcessState::Ready
        } else {
            r == Err::<Process, ProcessSpawnError>(ProcessSpawnError::WrongTarget)
        },
    }
}

impl Process {
    /// The process an image whose header reads as `summary` (entry point, RISC-V,
    /// executable) describes: no header gives `BrokenBinary`, one that is not a
    /// RISC-V executable `WrongTarget`; otherwise a ready process named `name`, with
    /// no id yet, that starts at the entry point.
    pub fn from_summary(summary: Option<(u64, bool, bool)>, name: &str) -> (r: Result<Process, ProcessSpawnError>)
        ensures
            image_outcome(summary, name@, r),
    {
        match summary {
            None => Err(ProcessSpawnError::BrokenBinary),
            Some((entry, riscv, exec)) => {
                if !(riscv && exec) {
                    Err(ProcessSpawnError::WrongTarget)
                } else {
                    Ok(Process::new(name.to_owned(), #[verifier::truncate] (entry as usize)))
                }
            },
        }
    }

    /// The process the ELF image `data` describes, as [`Process::from_summary`] says
    /// of what `elf_rs` reads from its header.
    pub fn from_elf(data: &[u8], name: &str) -> (r: Result<Process, ProcessSpawnError>)
        ensures
            image_outcome(elf_summary(data@), name@, r),
    {
        Self::from_summary(read_elf(data), name)
    }
}

/// The page flags for a loaded segment with ELF segment flags `bits` (execute 1,
/// write 2, read 4): valid and user, and executable, writeable and readable as the
/// segment says.
pub fn flags_to_permission(bits: u32) -> (r: u64)
    ensures
        r == FLAG_VALID | FLAG_USER
            | (if bits & 1 == 1 { FLAG_EXECUTABLE } else { 0 })
            | (if bits & 2 == 2 { FLAG_WRITEABLE } else { 0 })
            | (if bits & 4 == 4 { FLAG_READABLE } else { 0 }),
{
    let executable = if bits & 0b1 == 1 { FLAG_EXECUTABLE } else { 0 };
    let writeable = if bits & 0b10 == 0b10 { FLAG_WRITEABLE } else { 0 };
    let readable = if bits & 0b100 == 0b100 { FLAG_READABLE } else { 0 };
    FLAG_VALID | FLAG_USER | executable | writeable | readable
}

} // verus!
