//! Model of the trap-dispatch setup: an interrupt descriptor table with one
//! slot per vector, recording which vectors have a handler installed. The
//! handlers themselves (breakpoint, double fault) and the `lidt` load are
//! hardware concerns of the kernel binary; what is verified here is the
//! table construction.
use vstd::prelude::*;

verus! {

/// Vector of the breakpoint trap.
pub const BREAKPOINT_VECTOR: usize = 3;

/// Vector of the double-fault trap.
pub const DOUBLE_FAULT_VECTOR: usize = 8;

/// Offset the primary interrupt controller's lines are remapped to, clear of
/// the CPU exception vectors.
pub const PIC_1_OFFSET: u8 = 32;

/// Offset of the secondary interrupt controller's lines.
pub const PIC_2_OFFSET: u8 = PIC_1_OFFSET + 8;

/// An interrupt descriptor table: 256 vectors, each either bound to a
/// handler or empty.
pub struct Idt {
    pub handlers: Vec<bool>,
}

impl Idt {
    pub open spec fn wf(self) -> bool {
        self.handlers@.len() == 256
    }

    /// True when vector `v` has a handler installed.
    pub open spec fn handler_present(self, v: int) -> bool {
        0 <= v < 256 && self.handlers@[v]
    }

    /// A table with every vector empty.
    pub fn new() -> (idt: Idt)
        ensures
            idt.wf(),
            forall|v: int| !idt.handler_present(v),
    {
        let mut handlers: Vec<bool> = Vec::new();
        let mut k: usize = 0;
        while k < 256
            invariant
                k == handlers@.len(),
                k <= 256,
                forall|v: int| 0 <= v < k ==> !handlers@[v],
            decreases 256 - k,
        {
            handlers.push(false);
            k = k + 1;
        }
        Idt { handlers }
    }

    /// Installs a handler for vector `v`.
    pub fn set_handler(&mut self, v: usize)
        requires
            old(self).wf(),
            v < 256,
        ensures
            final(self).wf(),
            final(self).handlers@ == old(self).handlers@.update(v as int, true),
    {
        self.handlers[v] = true;
    }
}

/// Builds the kernel's descriptor table: breakpoint and double-fault
/// handlers installed, every other vector empty.
pub fn init_idt() -> (idt: Idt)
    ensures
        idt.wf(),
        idt.handler_present(BREAKPOINT_VECTOR as int),
        idt.handler_present(DOUBLE_FAULT_VECTOR as int),
        forall|v: int|
            v != BREAKPOINT_VECTOR as int && v != DOUBLE_FAULT_VECTOR as int
                ==> !idt.handler_present(v),
{
    let mut idt = Idt::new();
    let ghost idt0 = idt;
    idt.set_handler(BREAKPOINT_VECTOR);
    idt.set_handler(DOUBLE_FAULT_VECTOR);
    proof {
        assert forall|v: int|
            v != BREAKPOINT_VECTOR as int && v != DOUBLE_FAULT_VECTOR as int implies !idt
            .handler_present(v) by {
            if 0 <= v < 256 {
                assert(!idt0.handler_present(v));
                assert(idt.handlers@[v] == idt0.handlers@[v]);
            }
        }
    }
    idt
}

} // verus!
