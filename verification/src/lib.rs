//! Memory-management core of a freestanding kernel: physical-frame
//! bookkeeping, virtual-to-physical page mapping, and a pluggable dynamic-heap
//! allocator (bump, linked-list, fixed-size-block) over a fixed virtual
//! window.
//!
//! The hardware edges (loading the descriptor table, writing page-table
//! entries into physical memory, serial output, the QEMU exit port) live in
//! the surrounding kernel binary; this crate holds the bookkeeping and the
//! decisions, verified.
use vstd::prelude::*;

pub mod allocator;
pub mod interrupts;
pub mod memory;

verus! {

/// Outcome reported to the host when a test kernel exits: written to the
/// QEMU debug-exit port as a 32-bit value.
#[derive(Debug, Clone, Copy, PartialEq, Eq)]
pub enum QemuExitCode {
    Success,
    Failed,
}

impl QemuExitCode {
    /// The value written to the debug-exit I/O port. QEMU then exits with
    /// status `(value << 1) | 1`, so these are chosen not to collide with
    /// QEMU's own exit codes.
    pub fn as_u32(&self) -> (v: u32)
        ensures
            *self == QemuExitCode::Success ==> v == 0x10,
            *self == QemuExitCode::Failed ==> v == 0x11,
    {
        match self {
            QemuExitCode::Success => 0x10,
            QemuExitCode::Failed => 0x11,
        }
    }
}

/// A test case that can be run, reporting whether it passed. The kernel's
/// test harness implements this for its test functions.
pub trait Testable {
    fn run(&self) -> bool;
}

/// Decides the exit code of a test run from the individual outcomes:
/// success exactly when every test passed.
pub fn test_runner(outcomes: &Vec<bool>) -> (code: QemuExitCode)
    ensures
        code == QemuExitCode::Success <==> (forall|i: int|
            0 <= i < outcomes@.len() ==> outcomes@[i]),
        code == QemuExitCode::Success || code == QemuExitCode::Failed,
{
    let mut k: usize = 0;
    while k < outcomes.len()
        invariant
            0 <= k <= outcomes@.len(),
            forall|i: int| 0 <= i < k ==> outcomes@[i],
        decreases outcomes@.len() - k,
    {
        if !outcomes[k] {
            return QemuExitCode::Failed;
        }
        k = k + 1;
    }
    QemuExitCode::Success
}

/// One-time kernel initialization: builds the interrupt descriptor table
/// with the trap handlers installed. Loading it into the CPU is the
/// kernel binary's job.
pub fn init() -> (idt: interrupts::Idt)
    ensures
        idt.wf(),
        idt.handler_present(interrupts::BREAKPOINT_VECTOR as int),
        idt.handler_present(interrupts::DOUBLE_FAULT_VECTOR as int),
        forall|v: int|
            v != interrupts::BREAKPOINT_VECTOR as int && v != interrupts::DOUBLE_FAULT_VECTOR as int
                ==> !idt.handler_present(v),
{
    interrupts::init_idt()
}

} // verus!
