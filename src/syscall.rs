use vstd::prelude::*;

verus! {

/// System call number of `write`.
pub const SYSCALL_WRITE: u64 = 64;
/// System call number of `exit`.
pub const SYSCALL_EXIT: u64 = 93;

/// One system call as the registers carry it: the number in a7, arguments in a0..a2.
#[derive(Clone, Copy, Debug, PartialEq, Eq, Structural)]
pub struct SyscallRequest {
    pub id: u64,
    pub arg0: u64,
    pub arg1: u64,
    pub arg2: u64,
}

/// A register holds a 32-bit status sign-extended to 64 bits.
pub open spec fn status_word(x: i32) -> u64 {
    if x >= 0 {
        x as u64
    } else {
        (x + 0x1_0000_0000_0000_0000int) as u64
    }
}

fn status_to_word(x: i32) -> (r: u64)
    ensures
        r == status_word(x),
{
    if x >= 0 {
        x as u64
    } else {
        let m: i64 = -(x as i64) - 1;
        u64::MAX - (m as u64)
    }
}

/// The kernel-side exit request with status `xstate`.
pub fn sys_exit(xstate: i32) -> (r: SyscallRequest)
    ensures
        r == (SyscallRequest { id: SYSCALL_EXIT, arg0: status_word(xstate), arg1: 0, arg2: 0 }),
{
    SyscallRequest { id: SYSCALL_EXIT, arg0: status_to_word(xstate), arg1: 0, arg2: 0 }
}

/// The user-side request to write `buf`, found at address `buf_addr`, to `fd`.
pub fn write(fd: u64, buf: &[u8], buf_addr: u64) -> (r: SyscallRequest)
    ensures
        r == (SyscallRequest { id: SYSCALL_WRITE, arg0: fd, arg1: buf_addr, arg2: buf@.len() as u64 }),
{
    SyscallRequest { id: SYSCALL_WRITE, arg0: fd, arg1: buf_addr, arg2: buf.len() as u64 }
}

/// The user-side request to exit with `exit_code`.
pub fn exit(exit_code: i32) -> (r: SyscallRequest)
    ensures
        r == (SyscallRequest { id: SYSCALL_EXIT, arg0: status_word(exit_code), arg1: 0, arg2: 0 }),
{
    SyscallRequest { id: SYSCALL_EXIT, arg0: status_to_word(exit_code), arg1: 0, arg2: 0 }
}

} // verus!
