//! One session's request/response step: what a received message does to
//! the session state, and what goes back over the wire.
//!
//! The caller owns the transport: it reads one message, hands the bytes
//! here, performs the returned action, and repeats.  Every decision —
//! decoding, the cursor move, the dump, the encoding — happens here.

use vstd::prelude::*;
use crate::dump::{
    current_address, produce_dump, spec_denial_dump, spec_ok_dump, DumpResponse, ReadError,
};
use crate::nav::{state_ranges, state_wf, ClientState, CHUNK_SIZE};
use crate::protocol::{
    decode_command, encode_dump, spec_encode_command, spec_encode_dump, Command, CommandType,
};
use crate::reader::{enumerate_regions, read_chunk_at};

verus! {

/// What the transport must do after one step.
#[derive(Debug)]
pub enum SessionStep {
    /// Send these bytes; the session goes on.
    Send(Vec<u8>),
    /// Send these bytes, then close the session.
    SendAndClose(Vec<u8>),
    /// Send nothing; the session goes on.
    Silent,
    /// Close the session without a response.
    Close,
}

/// Applies one received message to the session.
///
/// An undecodable message closes the session.  `Init` on a fresh
/// session fixes the region list and places the cursor at the first
/// chunk of the first region; with no readable region the session stays
/// fresh.  On an active session every command moves the cursor as the
/// navigation state machine says and answers with a dump of the live
/// bytes at the cursor; a permission failure answers with the denial
/// dump and closes the session; any other read failure stays silent.
pub fn session_step(state: &mut Option<ClientState>, msg: &[u8]) -> (r: SessionStep)
    requires
        (*old(state)) matches Some(s) ==> state_wf(s),
    ensures
        (forall|c: Command| #[trigger] spec_encode_command(c) != msg@) ==> r is Close
            && *final(state) == *old(state),
        r is Close ==> (forall|c: Command| #[trigger] spec_encode_command(c) != msg@)
            && *final(state) == *old(state),
        (*final(state)) matches Some(s2) ==> state_wf(s2),
        (match *old(state) {
            Some(s) => forall|c: Command|
                #[trigger] spec_encode_command(c) == msg@ ==> ((*final(state)) matches Some(s2)
                    && s2.pid == s.pid && s2.mem_regions == s.mem_regions && (
                s2.region_index as int, s2.offset_within_region as int) == crate::nav::spec_step(
                    state_ranges(s),
                    c.command_type,
                    s.region_index as int,
                    s.offset_within_region as int,
                )),
            None => forall|c: Command|
                #[trigger] spec_encode_command(c) == msg@ ==> (r is Silent && (!(
                c.command_type is Init) ==> (*final(state)) is None) && ((*final(state))
                    matches Some(s2) ==> s2.pid == c.pid && s2.region_index == 0
                    && s2.offset_within_region == 0)),
        }),
        r matches SessionStep::SendAndClose(bytes) ==> ((*old(state)) matches Some(s)
            && bytes@ == spec_encode_dump(spec_denial_dump(s.pid as nat))),
        r matches SessionStep::Send(bytes) ==> ((*final(state)) matches Some(s2)
            && exists|data: Seq<u8>|
            data.len() == CHUNK_SIZE && bytes@ == spec_encode_dump(spec_ok_dump(s2, data))),
{
    let cmd = match decode_command(msg) {
        Some(c) => c,
        None => {
            return SessionStep::Close;
        },
    };
    proof {
        assert forall|c: Command| #[trigger] spec_encode_command(c) == msg@ implies c
            == cmd by {
            crate::protocol::lemma_command_roundtrip(c, cmd);
        }
    }
    match state {
        Some(s) => {
            s.process_command(cmd.command_type);
            if s.region_index > u32::MAX as usize {
                return SessionStep::Silent;
            }
            if s.pid > i32::MAX as u32 {
                return SessionStep::Silent;
            }
            proof {
                assert(state_ranges(*s).len() == s.mem_regions@.len());
                assert(state_ranges(*s)[s.region_index as int] == s.mem_regions@[
                    s.region_index as int].range);
            }
            let entry = &s.mem_regions[s.region_index];
            if entry.range.start > usize::MAX - CHUNK_SIZE
                || s.offset_within_region > usize::MAX - CHUNK_SIZE - entry.range.start {
                return SessionStep::Silent;
            }
            let address = entry.range.start + s.offset_within_region;
            let read = read_chunk_at(s.pid as i32, address, CHUNK_SIZE);
            let ghost gread = read;
            proof {
                assert(current_address(*s) == address);
            }
            match produce_dump(s, read) {
                DumpResponse::Send(d, terminate) => {
                    match encode_dump(&d) {
                        Some(bytes) => {
                            if terminate {
                                proof {
                                    match gread {
                                        Ok(data) => {
                                            assert(false);
                                        },
                                        Err(ReadError::PermissionDenied) => {
                                            assert(d@ == spec_denial_dump(s.pid as nat));
                                        },
                                        Err(ReadError::Other) => {
                                            assert(false);
                                        },
                                    }
                                }
                                SessionStep::SendAndClose(bytes)
                            } else {
                                proof {
                                    match gread {
                                        Ok(data) => {
                                            assert(data@.len() == CHUNK_SIZE);
                                            assert(bytes@ == spec_encode_dump(
                                                spec_ok_dump(*s, data@),
                                            ));
                                        },
                                        Err(ReadError::PermissionDenied) => {
                                            assert(false);
                                        },
                                        Err(ReadError::Other) => {
                                            assert(false);
                                        },
                                    }
                                }
                                SessionStep::Send(bytes)
                            }
                        },
                        None => SessionStep::Silent,
                    }
                },
                DumpResponse::Silent => SessionStep::Silent,
            }
        },
        None => {
            match cmd.command_type {
                CommandType::Init => {
                    if cmd.pid > i32::MAX as u32 {
                        return SessionStep::Silent;
                    }
                    let regions = enumerate_regions(cmd.pid as i32);
                    if regions.len() == 0 {
                        return SessionStep::Silent;
                    }
                    let fresh = ClientState {
                        pid: cmd.pid,
                        region_index: 0,
                        offset_within_region: 0,
                        mem_regions: regions,
                    };
                    proof {
                        assert(state_ranges(fresh).len() == fresh.mem_regions@.len());
                        assert(state_ranges(fresh)[0] == fresh.mem_regions@[0].range);
                        assert(state_ranges(fresh)[0].wf());
                        assert forall|i: int|
                            0 <= i < state_ranges(fresh).len() implies (#[trigger] state_ranges(
                            fresh,
                        )[i]).wf() by {
                            assert(state_ranges(fresh)[i] == fresh.mem_regions@[i].range);
                        }
                    }
                    *state = Some(fresh);
                    SessionStep::Silent
                },
                _ => SessionStep::Silent,
            }
        },
    }
}

} // verus!
