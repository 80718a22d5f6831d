//! Trusted wrappers around the `nix` crate's system calls.
//!
//! Each wrapper holds exactly one call; everything the library concludes
//! from the outside world rests on the contracts written here.  The
//! results of these calls depend on the state of the machine, so the
//! contracts promise only what holds of every outcome.

use vstd::prelude::*;

verus! {

/// Why a system call failed, as far as the library distinguishes.
#[derive(Clone, Copy, Debug, PartialEq, Eq, Structural)]
pub enum SysErr {
    /// The caller lacks the right to the object.
    Permission,
    /// Any other failure.
    Other,
}

/// Relies on `nix::fcntl::open` with `O_RDONLY`: on success the returned
/// file descriptor is nonnegative; `EACCES` and `EPERM` are the
/// permission errors.
#[verifier::external_body]
pub(crate) fn sys_open_read(path: &str) -> (r: Result<i32, SysErr>)
    ensures
        r matches Ok(fd) ==> fd >= 0,
{
    match nix::fcntl::open(path, nix::fcntl::OFlag::O_RDONLY, nix::sys::stat::Mode::empty()) {
        Ok(fd) => Ok(fd),
        Err(nix::errno::Errno::EACCES) => Err(SysErr::Permission),
        Err(nix::errno::Errno::EPERM) => Err(SysErr::Permission),
        Err(_) => Err(SysErr::Other),
    }
}

/// Relies on `nix::unistd::read`: reads at most one buffer of bytes from
/// the descriptor's position; an empty result means end of file.
#[verifier::external_body]
pub(crate) fn sys_read_chunk(fd: i32) -> (r: Option<Vec<u8>>)
    ensures
        r matches Some(v) ==> v@.len() <= 4096,
{
    let mut buf = vec![0u8; 4096];
    match nix::unistd::read(fd, &mut buf) {
        Ok(n) => {
            buf.truncate(n);
            Some(buf)
        },
        Err(_) => None,
    }
}

/// Relies on `nix::sys::uio::pread`: reads at most `len` bytes at the
/// given absolute offset without moving the descriptor's position;
/// `EACCES` and `EPERM` are the permission errors.
#[verifier::external_body]
pub(crate) fn sys_pread_at(fd: i32, len: usize, offset: u64) -> (r: Result<Vec<u8>, SysErr>)
    requires
        offset <= i64::MAX as u64,
    ensures
        r matches Ok(v) ==> v@.len() <= len,
{
    let mut buf = vec![0u8; len];
    match nix::sys::uio::pread(fd, &mut buf, offset as i64) {
        Ok(n) => {
            buf.truncate(n);
            Ok(buf)
        },
        Err(nix::errno::Errno::EACCES) => Err(SysErr::Permission),
        Err(nix::errno::Errno::EPERM) => Err(SysErr::Permission),
        Err(_) => Err(SysErr::Other),
    }
}

/// Relies on `nix::unistd::close`: releases the descriptor.
#[verifier::external_body]
pub(crate) fn sys_close(fd: i32) {
    let _ = nix::unistd::close(fd);
}

/// Relies on `nix::sys::ptrace::attach`: asks to attach to the target
/// and reports whether the request was accepted.
#[verifier::external_body]
pub(crate) fn sys_ptrace_attach(pid: i32) -> (r: bool) {
    nix::sys::ptrace::attach(nix::unistd::Pid::from_raw(pid)).is_ok()
}

/// Relies on `nix::sys::wait::waitpid`: waits for the target to stop and
/// reports whether the wait succeeded.
#[verifier::external_body]
pub(crate) fn sys_wait_stop(pid: i32) -> (r: bool) {
    nix::sys::wait::waitpid(nix::unistd::Pid::from_raw(pid), None).is_ok()
}

/// Relies on `nix::sys::ptrace::getregs`: reads the stopped target's
/// register file and hands out the stack-pointer register.
#[verifier::external_body]
pub(crate) fn sys_ptrace_stack_pointer(pid: i32) -> (r: Option<u64>) {
    match nix::sys::ptrace::getregs(nix::unistd::Pid::from_raw(pid)) {
        Ok(regs) => Some(regs.rsp),
        Err(_) => None,
    }
}

/// Relies on `nix::sys::ptrace::detach`: resumes the target and reports
/// whether the detach succeeded.
#[verifier::external_body]
pub(crate) fn sys_ptrace_detach(pid: i32) -> (r: bool) {
    nix::sys::ptrace::detach(nix::unistd::Pid::from_raw(pid), None).is_ok()
}

} // verus!
