//! The saved user-mode register state of a task.
use vstd::prelude::*;

verus! {

/// Snapshot of a task's user-mode registers, taken when it traps into the kernel.
#[derive(Clone, Copy, Debug)]
pub struct TrapContext {
    /// The general registers; `x[2]` is the stack pointer and `x[10]` holds
    /// a syscall's first argument and its return value.
    pub x: [usize; 32],
    /// The saved status register.
    pub sstatus: usize,
    /// Address of the instruction at which the task resumes.
    pub sepc: usize,
}

/// The mathematical content of a trap context.
pub struct TrapView {
    pub x: Seq<usize>,
    pub sstatus: usize,
    pub sepc: usize,
}

impl View for TrapContext {
    type V = TrapView;

    open spec fn view(&self) -> TrapView {
        TrapView { x: self.x@, sstatus: self.sstatus, sepc: self.sepc }
    }
}

/// The register state of a program about to run its first instruction at
/// `entry` with stack pointer `sp`: every other register is zero.
pub open spec fn init_context(entry: usize, sp: usize) -> TrapView {
    TrapView {
        x: Seq::new(
            32,
            |i: int|
                if i == 2 {
                    sp
                } else {
                    0usize
                },
        ),
        sstatus: 0,
        sepc: entry,
    }
}

/// The register state with `value` in the return-value register.
pub open spec fn returning(cx: TrapView, value: usize) -> TrapView {
    TrapView { x: cx.x.update(10, value), ..cx }
}

impl TrapContext {
    /// The register state of a program that starts at `entry` with stack pointer `sp`.
    pub fn app_init_context(entry: usize, sp: usize) -> (r: TrapContext)
        ensures
            r@ == init_context(entry, sp),
    {
        let mut x = [0usize; 32];
        x[2] = sp;
        let r = TrapContext { x, sstatus: 0, sepc: entry };
        assert(r@.x =~= init_context(entry, sp).x);
        r
    }

    /// Sets the stack pointer.
    pub fn set_sp(&mut self, sp: usize)
        ensures
            final(self)@ == (TrapView { x: old(self)@.x.update(2, sp), ..old(self)@ }),
    {
        self.x[2] = sp;
    }

    /// Sets the register that carries a syscall's return value.
    pub fn set_return_value(&mut self, value: usize)
        ensures
            final(self)@ == returning(old(self)@, value),
    {
        self.x[10] = value;
    }
}

} // verus!
