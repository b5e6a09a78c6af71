//! The register state saved for a process, and the decoding of a trap into
//! a system call.
use vstd::prelude::*;

verus! {

/// The saved state of a user process.
#[derive(Clone, Copy)]
pub struct TrapFrame {
    pub regs: [usize; 32],
    pub fregs: [usize; 32],
    pub satp: usize,
    pub sepc: usize,
    pub sstatus: usize,
    pub scause: usize,
    pub stval: usize,
}

impl TrapFrame {
    /// Every register of the frame is zero.
    pub open spec fn is_zero(&self) -> bool {
        &&& forall|i: int| 0 <= i < 32 ==> self.regs@[i] == 0 && self.fregs@[i] == 0
        &&& self.satp == 0
        &&& self.sepc == 0
        &&& self.sstatus == 0
        &&& self.scause == 0
        &&& self.stval == 0
    }

    /// A frame with every register zero.
    pub fn new() -> (tf: TrapFrame)
        ensures
            tf.is_zero(),
    {
        TrapFrame {
            regs: [0usize; 32],
            fregs: [0usize; 32],
            satp: 0,
            sepc: 0,
            sstatus: 0,
            scause: 0,
            stval: 0,
        }
    }
}

/// The trap cause with the interrupt bit cleared.
pub open spec fn cause_spec(scause: u64) -> u64 {
    scause & !(1u64 << 63u64)
}

/// Whether a trap cause is an environment call (from U, S or M mode).
pub open spec fn is_ecall(cause: u64) -> bool {
    cause == 8 || cause == 9 || cause == 10
}

/// The trap cause with the interrupt bit cleared.
pub fn trap_cause(scause: u64) -> (c: u64)
    ensures
        c == cause_spec(scause),
{
    scause & !(1u64 << 63)
}

/// Whether the trap came from user mode (`sstatus.SPP` clear).
pub fn from_user(sstatus: usize) -> (r: bool)
    ensures
        r == (sstatus & 0x100usize == 0),
{
    (sstatus & 0x100) == 0
}

} // verus!

verus! {

/// What handling a trap comes to.
pub enum TrapResult {
    /// A system call answered with this value, now in `a0`.
    Answered(isize),
    /// A system call that waits for the network stack or the loader; its
    /// value goes into `a0` once they are done.
    Waiting(crate::syscall::Outcome),
    /// A system call after which another process runs: the registers are
    /// now that process's.
    Switched,
    /// Not a system call: the kernel stops.
    Stopped,
}

/// The outcome of the system call behind a handled trap.
pub open spec fn call_outcome(r: Result<TrapResult, crate::mm::KernelPanic>) -> Result<crate::syscall::Outcome, crate::mm::KernelPanic> {
    match r {
        Ok(TrapResult::Answered(v)) => Ok(crate::syscall::Outcome::Ret(v)),
        Ok(TrapResult::Waiting(o)) => Ok(o),
        Ok(TrapResult::Switched) => Ok(crate::syscall::Outcome::Switched),
        Ok(TrapResult::Stopped) => Ok(crate::syscall::Outcome::Ret(0isize)),
        Err(e) => Err(e),
    }
}

/// Handles a trap with cause `scause` taken with registers `tf`, the timer
/// at `ticks`: an environment call moves `sepc` past the `ecall` and is
/// answered as system call `a7` with arguments `a0`..`a5`, with `tf` as the
/// saved registers of the call, its value going
/// into `a0`; when the call makes another process run, `tf` becomes that
/// process's registers; any other trap stops the kernel.
pub fn rust_trap_handler(k: &mut crate::syscall::Kernel, tf: &mut TrapFrame, scause: u64, ticks: u64)
    -> (r: Result<TrapResult, crate::mm::KernelPanic>)
    requires
        old(k).wf(),
    ensures
        final(k).wf(),
        !is_ecall(cause_spec(scause)) ==> (r matches Ok(TrapResult::Stopped)) && *final(k) == *old(k) && *final(tf) == *old(tf),
        is_ecall(cause_spec(scause)) && r is Ok && !(r matches Ok(TrapResult::Switched))
            ==> final(tf).sepc == old(tf).sepc.wrapping_add(4),
        r matches Ok(TrapResult::Switched) ==> *final(tf) == final(k).trap_frame,
        is_ecall(cause_spec(scause)) && !crate::syscall::known_syscall(old(tf).regs[17]) ==> {
            &&& (r matches Ok(TrapResult::Answered(v)) && v == -1)
            &&& *final(k) == old(k).with_trap_frame(*old(tf))
        },
        r matches Ok(TrapResult::Answered(v)) ==> final(tf).regs@ == old(tf).regs@.update(10, v as usize),
        r matches Ok(TrapResult::Waiting(_)) ==> final(tf).regs@ == old(tf).regs@,
        r matches Ok(TrapResult::Waiting(o)) ==> o !is Ret && o !is Switched,
        is_ecall(cause_spec(scause)) ==> !(r matches Ok(TrapResult::Stopped)) && crate::syscall::syscall_effect(
            old(k).with_trap_frame(*old(tf)), *final(k), old(tf).regs[17], old(tf).regs[10], old(tf).regs[11], old(tf).regs[12],
            old(tf).regs[13], old(tf).regs[14], old(tf).regs[15], ticks, call_outcome(r)),
{
    let cause = trap_cause(scause);
    if !(cause == 8 || cause == 9 || cause == 10) {
        return Ok(TrapResult::Stopped);
    }
    k.trap_frame = *tf;
    proof {
        assert(*k == old(k).with_trap_frame(*old(tf)));
    }
    tf.sepc = tf.sepc.wrapping_add(4);
    let num = tf.regs[17];
    let args = [tf.regs[10], tf.regs[11], tf.regs[12], tf.regs[13], tf.regs[14], tf.regs[15]];
    match crate::syscall::dispatch(k, num, args, ticks)? {
        crate::syscall::Outcome::Ret(v) => {
            tf.regs[10] = v as usize;
            Ok(TrapResult::Answered(v))
        },
        crate::syscall::Outcome::Switched => {
            *tf = k.trap_frame;
            Ok(TrapResult::Switched)
        },
        o => Ok(TrapResult::Waiting(o)),
    }
}

/// Puts the value of a call that waited into `a0`.
pub fn set_return(tf: &mut TrapFrame, v: isize)
    ensures
        final(tf).regs@ == old(tf).regs@.update(10, v as usize),
        final(tf).sepc == old(tf).sepc,
{
    tf.regs[10] = v as usize;
}

} // verus!
