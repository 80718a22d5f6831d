//! The stack-pointer probe: two interchangeable ways to obtain an
//! initial viewing address for a process, selected once at construction.
//!
//! The attach-based probe briefly stops the target and reads its
//! register file; a detach is attempted even when the read fails, so the
//! target is never left stopped.  The passive probe parses the target's
//! last-syscall descriptor and takes the last token that looks like a
//! hexadecimal address, without touching the target.

use vstd::prelude::*;
use crate::maps::spec_tokens;
use crate::sys::{
    sys_close, sys_open_read, sys_ptrace_attach, sys_ptrace_detach, sys_ptrace_stack_pointer,
    sys_read_chunk, sys_wait_stop,
};
use crate::text::{all_hex_digits, hex_value, parse_hex_usize};
use crate::reader::{proc_path, read_whole_file};

verus! {

/// A token of the form `0x…`.
pub open spec fn is_hex_token(t: Seq<u8>) -> bool {
    t.len() >= 2 && t[0] == 0x30 && t[1] == 0x78
}

/// The last whitespace-separated token of `c` that starts with `0x`.
pub open spec fn spec_sp_token(toks: Seq<Seq<u8>>) -> Option<Seq<u8>>
    decreases toks.len(),
{
    if toks.len() == 0 {
        None
    } else if is_hex_token(toks.last()) {
        Some(toks.last())
    } else {
        spec_sp_token(toks.drop_last())
    }
}

/// The address the last-syscall descriptor denotes: the last `0x` token,
/// hexadecimal, if it parses and fits.
pub open spec fn spec_sp_of(c: Seq<u8>) -> Option<usize> {
    match spec_sp_token(spec_tokens(c)) {
        None => None,
        Some(t) => {
            let digits = t.skip(2);
            if digits.len() > 0 && all_hex_digits(digits) && hex_value(digits)
                <= usize::MAX {
                Some(hex_value(digits) as usize)
            } else {
                None
            }
        },
    }
}

fn is_hex_token_exec(t: &[u8]) -> (r: bool)
    ensures
        r == is_hex_token(t@),
{
    t.len() >= 2 && t[0] == 0x30 && t[1] == 0x78
}

/// Extracts the stack-pointer address from the bytes of a last-syscall
/// descriptor.
pub fn extract_stack_pointer(contents: &[u8]) -> (r: Option<usize>)
    ensures
        r == spec_sp_of(contents@),
{
    let toks = crate::maps::tokenize(contents);
    let ghost stoks = spec_tokens(contents@);
    let mut i: usize = toks.len();
    proof {
        assert(stoks.take(i as int) =~= stoks);
    }
    while i > 0
        invariant
            0 <= i <= toks@.len(),
            stoks == spec_tokens(contents@),
            toks@.map_values(|t: Vec<u8>| t@) == stoks,
            spec_sp_token(stoks) == spec_sp_token(stoks.take(i as int)),
        decreases i,
    {
        i = i - 1;
        proof {
            assert(stoks.take(i as int + 1).drop_last() =~= stoks.take(i as int));
            assert(stoks.take(i as int + 1).last() == stoks[i as int]);
            assert(stoks[i as int] == toks@.map_values(|t: Vec<u8>| t@)[i as int]);
        }
        if is_hex_token_exec(toks[i].as_slice()) {
            let tok = &toks[i];
            let digits = vstd::slice::slice_subrange(tok.as_slice(), 2, tok.len());
            proof {
                assert(is_hex_token(stoks[i as int]));
                assert(spec_sp_token(stoks.take(i as int + 1)) == Some(stoks[i as int]));
                assert(spec_sp_token(stoks) == Some(stoks[i as int]));
                assert(digits@ =~= stoks[i as int].skip(2));
            }
            let pr = parse_hex_usize(digits);
            proof {
                let t = stoks[i as int];
                assert(spec_sp_token(spec_tokens(contents@)) == Some(t));
                if t.skip(2).len() > 0 && all_hex_digits(t.skip(2)) && hex_value(t.skip(2))
                    <= usize::MAX {
                    assert(spec_sp_of(contents@) == Some(hex_value(t.skip(2)) as usize));
                } else {
                    assert(spec_sp_of(contents@) is None);
                }
                match pr {
                    Some(v) => {
                        assert(hex_value(digits@) <= usize::MAX);
                        assert(v == hex_value(digits@) as usize);
                    },
                    None => {},
                }
            }
            return pr;
        }
    }
    proof {
        assert(stoks.take(0) =~= Seq::<Seq<u8>>::empty());
    }
    None
}

/// A strategy that yields an initial viewing address for a process.
pub trait StackPointerReader {
    /// Obtains the target's stack-pointer address, or `None` when the
    /// probe fails.
    fn read(&self, pid: i32) -> (r: Option<usize>)
        requires
            pid >= 0,
    ;
}

/// The attach-based probe: stops the target, reads its registers,
/// resumes it.
#[derive(Clone, Copy, Debug)]
pub struct PtraceStackPointerReader;

impl StackPointerReader for PtraceStackPointerReader {
    fn read(&self, pid: i32) -> (r: Option<usize>) {
        if !sys_ptrace_attach(pid) {
            return None;
        }
        if !sys_wait_stop(pid) {
            sys_ptrace_detach(pid);
            return None;
        }
        let sp = sys_ptrace_stack_pointer(pid);
        // resume the target whether or not the register read succeeded
        sys_ptrace_detach(pid);
        match sp {
            Some(v) => {
                if v <= usize::MAX as u64 {
                    Some(v as usize)
                } else {
                    None
                }
            },
            None => None,
        }
    }
}

/// The passive probe: parses the last-syscall descriptor.
#[derive(Clone, Copy, Debug)]
pub struct SyscallStackPointerReader;

impl StackPointerReader for SyscallStackPointerReader {
    fn read(&self, pid: i32) -> (r: Option<usize>) {
        let path = proc_path(pid, "syscall");
        let fd = match sys_open_read(path.as_str()) {
            Ok(fd) => fd,
            Err(_) => {
                return None;
            },
        };
        let contents = read_whole_file(fd);
        sys_close(fd);
        match contents {
            Some(c) => extract_stack_pointer(c.as_slice()),
            None => None,
        }
    }
}

/// The closed choice between the two probes, fixed at construction.
#[derive(Clone, Copy, Debug)]
pub enum StackProbe {
    Attach(PtraceStackPointerReader),
    Passive(SyscallStackPointerReader),
}

impl StackProbe {
    /// Selects the probe: attach-based when `use_ptrace`, else passive.
    pub fn select(use_ptrace: bool) -> (r: StackProbe)
        ensures
            use_ptrace ==> r is Attach,
            !use_ptrace ==> r is Passive,
    {
        if use_ptrace {
            StackProbe::Attach(PtraceStackPointerReader {})
        } else {
            StackProbe::Passive(SyscallStackPointerReader {})
        }
    }

    /// Runs the selected probe.
    pub fn read(&self, pid: i32) -> (r: Option<usize>)
        requires
            pid >= 0,
    {
        match self {
            StackProbe::Attach(p) => p.read(pid),
            StackProbe::Passive(p) => p.read(pid),
        }
    }
}

} // verus!
