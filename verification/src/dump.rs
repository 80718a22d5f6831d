//! Dump production: the formatted hexadecimal/ASCII lines, the progress
//! percentage, and the dump message a navigation command answers with.

use vstd::prelude::*;
use crate::nav::{state_ranges, state_wf, ClientState, CHUNK_SIZE};
use crate::protocol::{DumpSpec, MemoryDump};
use crate::text::{
    ascii_seq, ascii_string, chars_of_ascii, dec_digits, dec_digits_padded, hex_digits_padded,
    lemma_dec_digits_ascii, lemma_padded_ascii, push_dec, push_dec_padded, push_hex_padded,
};
use vstd::string::{StringExecFns, StrSliceExecFns};

verus! {

/// Bytes shown per formatted line.
pub const BYTES_PER_LINE: usize = 16;

/// A printable byte is kept; everything else becomes a dot.
pub open spec fn printable_byte(b: u8) -> u8 {
    if 0x20 <= b <= 0x7e {
        b
    } else {
        0x2e
    }
}

/// `n` space bytes (none for a nonpositive count).
pub open spec fn spaces(n: int) -> Seq<u8> {
    Seq::new(
        if n >= 0 {
            n as nat
        } else {
            0
        },
        |i: int| 0x20u8,
    )
}

/// The hex cells of a chunk: two upper-case digits and a space per byte.
pub open spec fn hex_cells(chunk: Seq<u8>) -> Seq<u8>
    decreases chunk.len(),
{
    if chunk.len() == 0 {
        Seq::empty()
    } else {
        hex_cells(chunk.drop_last()) + hex_digits_padded(chunk.last() as nat, 2) + seq![
            0x20u8,
        ]
    }
}

/// The ASCII column of a chunk.
pub open spec fn ascii_cells(chunk: Seq<u8>) -> Seq<u8> {
    Seq::new(chunk.len(), |i: int| printable_byte(chunk[i]))
}

/// One formatted dump line: address, relative offset, fixed-width hex
/// cells, and the printable-ASCII column.
pub open spec fn spec_line(line_addr: nat, off: nat, chunk: Seq<u8>) -> Seq<char> {
    "Addr: 0x"@ + chars_of_ascii(hex_digits_padded(line_addr, 8)) + " | +"@
        + chars_of_ascii(dec_digits_padded(off, 3)) + " | "@ + chars_of_ascii(
        hex_cells(chunk) + spaces(3 * BYTES_PER_LINE - 3 * chunk.len()),
    ) + " | "@ + chars_of_ascii(ascii_cells(chunk) + spaces(BYTES_PER_LINE - chunk.len()))
}

/// The lines of a whole chunk, sixteen bytes per line.
pub open spec fn spec_chunk_lines(address: nat, data: Seq<u8>) -> Seq<Seq<char>> {
    Seq::new(
        ((data.len() + BYTES_PER_LINE - 1) as int / (BYTES_PER_LINE as int)) as nat,
        |i: int|
            spec_line(
                (address + BYTES_PER_LINE * i) as nat,
                (BYTES_PER_LINE * i) as nat,
                data.subrange(
                    BYTES_PER_LINE * i,
                    if BYTES_PER_LINE * i + BYTES_PER_LINE <= data.len() {
                        BYTES_PER_LINE * i + BYTES_PER_LINE
                    } else {
                        data.len() as int
                    },
                ),
            ),
    )
}

proof fn lemma_hex_cells_ascii(chunk: Seq<u8>)
    ensures
        ascii_seq(hex_cells(chunk)),
    decreases chunk.len(),
{
    if chunk.len() == 0 {
    } else {
        lemma_hex_cells_ascii(chunk.drop_last());
        lemma_padded_ascii(chunk.last() as nat, 2);
    }
}

fn push_spaces(out: &mut Vec<u8>, n: usize)
    ensures
        final(out)@ == old(out)@ + spaces(n as int),
{
    let mut k: usize = 0;
    while k < n
        invariant
            0 <= k <= n,
            out@ =~= old(out)@ + spaces(k as int),
        decreases n - k,
    {
        out.push(0x20);
        proof {
            assert(out@ =~= old(out)@ + spaces(k as int + 1));
        }
        k = k + 1;
    }
}

/// Builds one formatted line for up to sixteen bytes of memory.
fn build_line(line_addr: u64, off: u64, chunk: &[u8]) -> (r: String)
    requires
        chunk@.len() <= BYTES_PER_LINE,
    ensures
        r@ == spec_line(line_addr as nat, off as nat, chunk@),
{
    let mut s = String::from_str("Addr: 0x");
    let mut addr_field: Vec<u8> = Vec::new();
    push_hex_padded(&mut addr_field, line_addr, 8);
    proof {
        lemma_padded_ascii(line_addr as nat, 8);
    }
    s.append(ascii_string(addr_field).as_str());
    s.append(" | +");
    let mut off_field: Vec<u8> = Vec::new();
    push_dec_padded(&mut off_field, off, 3);
    proof {
        lemma_padded_ascii(off as nat, 3);
    }
    s.append(ascii_string(off_field).as_str());
    s.append(" | ");
    let mut hex_field: Vec<u8> = Vec::new();
    let mut k: usize = 0;
    while k < chunk.len()
        invariant
            0 <= k <= chunk@.len(),
            hex_field@ =~= hex_cells(chunk@.take(k as int)),
        decreases chunk@.len() - k,
    {
        push_hex_padded(&mut hex_field, chunk[k] as u64, 2);
        hex_field.push(0x20);
        proof {
            assert(chunk@.take(k as int + 1).drop_last() =~= chunk@.take(k as int));
            assert(chunk@.take(k as int + 1).last() == chunk@[k as int]);
            assert(hex_field@ =~= hex_cells(chunk@.take(k as int + 1)));
        }
        k = k + 1;
    }
    proof {
        assert(chunk@.take(chunk@.len() as int) =~= chunk@);
    }
    push_spaces(&mut hex_field, 3 * BYTES_PER_LINE - 3 * chunk.len());
    proof {
        lemma_hex_cells_ascii(chunk@);
    }
    s.append(ascii_string(hex_field).as_str());
    s.append(" | ");
    let mut ascii_field: Vec<u8> = Vec::new();
    let mut j: usize = 0;
    while j < chunk.len()
        invariant
            0 <= j <= chunk@.len(),
            ascii_field@ =~= ascii_cells(chunk@).take(j as int),
        decreases chunk@.len() - j,
    {
        let b = chunk[j];
        if 0x20 <= b && b <= 0x7e {
            ascii_field.push(b);
        } else {
            ascii_field.push(0x2e);
        }
        proof {
            assert(ascii_field@ =~= ascii_cells(chunk@).take(j as int + 1));
        }
        j = j + 1;
    }
    proof {
        assert(ascii_cells(chunk@).take(chunk@.len() as int) =~= ascii_cells(chunk@));
    }
    push_spaces(&mut ascii_field, BYTES_PER_LINE - chunk.len());
    s.append(ascii_string(ascii_field).as_str());
    proof {
        assert(s@ =~= spec_line(line_addr as nat, off as nat, chunk@));
    }
    s
}

/// Formats raw memory bytes into aligned hex and ASCII lines, sixteen
/// bytes per line, each prefixed with its absolute address and its
/// offset within the chunk.
pub fn format_memory_chunk(address: usize, data: &[u8]) -> (r: Vec<String>)
    requires
        address + data@.len() <= usize::MAX,
    ensures
        r@.map_values(|l: String| l@) == spec_chunk_lines(address as nat, data@),
{
    let ghost all = spec_chunk_lines(address as nat, data@);
    let mut out: Vec<String> = Vec::new();
    let mut row: usize = 0;
    let nrows = if data.len() == 0 {
        0
    } else {
        (data.len() - 1) / BYTES_PER_LINE + 1
    };
    proof {
        if data@.len() > 0 {
            vstd::arithmetic::div_mod::lemma_div_plus_one(
                data@.len() - 1,
                BYTES_PER_LINE as int,
            );
        }
    }
    while row < nrows
        invariant
            0 <= row <= nrows,
            nrows == (data@.len() + BYTES_PER_LINE - 1) as int / (BYTES_PER_LINE as int),
            address + data@.len() <= usize::MAX,
            all == spec_chunk_lines(address as nat, data@),
            out@.map_values(|l: String| l@) =~= all.take(row as int),
        decreases nrows - row,
    {
        let row_start = row * BYTES_PER_LINE;
        proof {
            assert(nrows * BYTES_PER_LINE < data@.len() + BYTES_PER_LINE);
            assert(row_start < data@.len()) by {
                assert((row as int) * (BYTES_PER_LINE as int) <= (nrows as int - 1) * (
                BYTES_PER_LINE as int)) by {
                    vstd::arithmetic::mul::lemma_mul_inequality(
                        row as int,
                        nrows as int - 1,
                        BYTES_PER_LINE as int,
                    );
                }
                assert((nrows as int - 1) * (BYTES_PER_LINE as int) < data@.len()) by {
                    vstd::arithmetic::div_mod::lemma_fundamental_div_mod(
                        data@.len() + BYTES_PER_LINE - 1,
                        BYTES_PER_LINE as int,
                    );
                }
            }
        }
        let row_end = if data.len() - row_start >= BYTES_PER_LINE {
            row_start + BYTES_PER_LINE
        } else {
            data.len()
        };
        let chunk = vstd::slice::slice_subrange(data, row_start, row_end);
        let line = build_line((address + row_start) as u64, row_start as u64, chunk);
        let ghost old_out = out@;
        out.push(line);
        proof {
            assert(line@ == all[row as int]);
            assert(out@.map_values(|l: String| l@) =~= old_out.map_values(|l: String| l@)
                + seq![line@]);
            assert(out@.map_values(|l: String| l@) =~= all.take(row as int + 1));
        }
        row = row + 1;
    }
    proof {
        assert(all.take(all.len() as int) =~= all);
        assert(all.len() == nrows);
    }
    out
}

// ---------------------------------------------------------------------
// Progress percentage
// ---------------------------------------------------------------------
/// `round(100 * progress / size)`, as integer arithmetic.
pub open spec fn spec_percent(progress: int, size: int) -> int
    recommends
        size > 0,
{
    (200 * progress + size) / (2 * size)
}

/// The rounded progress percentage of an offset within a region.
pub fn percent(progress: usize, size: usize) -> (r: u64)
    requires
        size > 0,
        progress <= size,
    ensures
        r == spec_percent(progress as int, size as int),
        r <= 100,
{
    let wide: u128 = (200u128 * (progress as u128) + (size as u128)) / (2u128 * (
    size as u128));
    proof {
        assert(spec_percent(progress as int, size as int) <= 100) by {
            vstd::arithmetic::div_mod::lemma_div_multiples_vanish_fancy(
                100,
                size as int,
                2 * (size as int),
            );
            vstd::arithmetic::div_mod::lemma_div_is_ordered(
                200 * (progress as int) + size,
                200 * (size as int) + size,
                2 * (size as int),
            );
            assert(100 * (2 * (size as int)) + size == 200 * (size as int) + size);
        }
        assert(spec_percent(progress as int, size as int) >= 0) by {
            vstd::arithmetic::div_mod::lemma_div_pos_is_pos(
                200 * (progress as int) + size,
                2 * (size as int),
            );
        }
    }
    wide as u64
}

/// Law: at the start of a region the progress reads zero percent.
pub proof fn lemma_percent_at_start(size: int)
    requires
        size > 0,
    ensures
        spec_percent(0, size) == 0,
{
    assert(size / (2 * size) == 0) by {
        vstd::arithmetic::div_mod::lemma_basic_div(size, 2 * size);
    }
}

/// Law: at the last chunk of a region whose size is a whole number of
/// chunks, the progress rounds to one hundred percent, provided the
/// region spans at least two hundred chunks; below that the rounding
/// falls short of one hundred.
pub proof fn lemma_percent_at_last_chunk(size: int)
    requires
        size % (CHUNK_SIZE as int) == 0,
        size >= 200 * CHUNK_SIZE,
    ensures
        spec_percent(size - CHUNK_SIZE, size) == 100,
{
    let x = 200 * (size - CHUNK_SIZE) + size;
    let d = 2 * size;
    let rem = size - 200 * CHUNK_SIZE;
    assert(x == 100 * d + rem);
    assert(0 <= rem < d);
    vstd::arithmetic::div_mod::lemma_fundamental_div_mod_converse(x, d, 100, rem);
}

// ---------------------------------------------------------------------
// Dump responses
// ---------------------------------------------------------------------
/// Why a memory read failed.
#[derive(Clone, Copy, Debug, PartialEq, Eq, Structural)]
pub enum ReadError {
    /// The target's memory may not be read: ends the session.
    PermissionDenied,
    /// Any other failure: the command is dropped, the session goes on.
    Other,
}

/// The answer to a navigation command: a dump to send (and whether the
/// session must close after it), or silence.
#[derive(Debug)]
pub enum DumpResponse {
    Send(MemoryDump, bool),
    Silent,
}

/// The status line of a successful dump.
pub open spec fn spec_status(pct: nat, progress: nat, size: nat) -> Seq<char> {
    "Progress: "@ + chars_of_ascii(dec_digits(pct)) + "% | Offset: "@ + chars_of_ascii(
        dec_digits(progress),
    ) + " / "@ + chars_of_ascii(dec_digits(size)) + " bytes"@
}

/// The status line of a permission failure.
pub open spec fn spec_denied_status(pid: nat) -> Seq<char> {
    "Insufficient permission to read memory of PID "@ + chars_of_ascii(dec_digits(pid))
        + ". Run with sudo or check access rights."@
}

/// The absolute address a session's cursor points at.
pub open spec fn current_address(s: ClientState) -> int {
    state_ranges(s)[s.region_index as int].start + s.offset_within_region
}

/// The dump a successful read at the cursor answers with: the progress
/// status, the current region's identity, and the formatted lines of
/// the bytes that came back.
pub open spec fn spec_ok_dump(s: ClientState, data: Seq<u8>) -> DumpSpec {
    let range = state_ranges(s)[s.region_index as int];
    let off = s.offset_within_region as nat;
    let size = range.spec_size() as nat;
    DumpSpec {
        status: spec_status(spec_percent(off as int, size as int) as nat, off, size),
        region_index: s.region_index as int,
        region_start: range.start as int,
        region_end: range.end as int,
        region_name: s.mem_regions@[s.region_index as int].name@,
        lines: spec_chunk_lines(current_address(s) as nat, data),
    }
}

/// The dump a permission failure answers with: empty region fields and
/// no lines, and the denial status naming the pid.
pub open spec fn spec_denial_dump(pid: nat) -> DumpSpec {
    DumpSpec {
        status: spec_denied_status(pid),
        region_index: 0,
        region_start: 0,
        region_end: 0,
        region_name: Seq::empty(),
        lines: Seq::empty(),
    }
}

/// The text that marks a status line as a permission denial.
pub open spec fn spec_denial_marker() -> Seq<char> {
    "Insufficient permission"@
}

/// A status line reports a permission denial when it begins with the
/// denial marker.
pub open spec fn signals_permission_failure(s: Seq<char>) -> bool {
    s.len() >= spec_denial_marker().len() && s.subrange(
        0,
        spec_denial_marker().len() as int,
    ) == spec_denial_marker()
}

/// Tests whether a received dump's status reports a permission denial.
pub fn dump_signals_permission_failure(d: &MemoryDump) -> (r: bool)
    ensures
        r == signals_permission_failure(d@.status),
{
    let marker = "Insufficient permission";
    let mlen = marker.unicode_len();
    let slen = d.status.as_str().unicode_len();
    if slen < mlen {
        return false;
    }
    let mut i: usize = 0;
    while i < mlen
        invariant
            0 <= i <= mlen,
            mlen == spec_denial_marker().len(),
            marker@ == spec_denial_marker(),
            slen == d@.status.len(),
            mlen <= slen,
            forall|l: int| 0 <= l < i ==> d@.status[l] == spec_denial_marker()[l],
        decreases mlen - i,
    {
        if d.status.as_str().get_char(i) != marker.get_char(i) {
            proof {
                assert(!signals_permission_failure(d@.status)) by {
                    if signals_permission_failure(d@.status) {
                        assert(d@.status.subrange(
                            0,
                            spec_denial_marker().len() as int,
                        )[i as int] == d@.status[i as int]);
                    }
                }
            }
            return false;
        }
        i = i + 1;
    }
    proof {
        assert(d@.status.subrange(0, spec_denial_marker().len() as int)
            =~= spec_denial_marker());
    }
    true
}

/// The denial status of any pid carries the denial marker.
proof fn lemma_denied_status_signals(pid: nat)
    ensures
        signals_permission_failure(spec_denied_status(pid)),
{
    reveal_strlit("Insufficient permission to read memory of PID ");
    reveal_strlit("Insufficient permission");
    let head = "Insufficient permission to read memory of PID "@;
    let m = spec_denial_marker();
    assert(spec_denied_status(pid).subrange(0, m.len() as int) =~= m) by {
        assert forall|i: int| 0 <= i < m.len() implies spec_denied_status(pid)[i]
            == m[i] by {
            assert(spec_denied_status(pid)[i] == head[i]);
        }
    }
}

/// Builds the response to a navigation command from the session state
/// and the outcome of the live memory read at the cursor.
///
/// A successful read yields a dump with the progress status, the current
/// region's identity, and the formatted lines.  A permission failure
/// yields a dump with empty region fields and no lines, whose status
/// names the denial, and tells the session to close.  Any other read
/// failure yields silence and leaves the session open.
pub fn produce_dump(state: &ClientState, read: Result<Vec<u8>, ReadError>) -> (r:
    DumpResponse)
    requires
        state_wf(*state),
        state.region_index <= u32::MAX,
        current_address(*state) + (match read {
            Ok(data) => data@.len() as int,
            Err(_) => 0,
        }) <= usize::MAX,
    ensures
        (match read {
            Ok(data) => r matches DumpResponse::Send(d, terminate) && !terminate && d@
                == spec_ok_dump(*state, data@),
            Err(ReadError::PermissionDenied) => r matches DumpResponse::Send(d, terminate)
                && terminate && d@ == spec_denial_dump(state.pid as nat) && d@.status.len()
                > 0 && signals_permission_failure(d@.status),
            Err(ReadError::Other) => r matches DumpResponse::Silent,
        }),
{
    proof {
        assert(state_ranges(*state).len() == state.mem_regions@.len());
        assert(state_ranges(*state)[state.region_index as int] == state.mem_regions@[
            state.region_index as int].range);
    }
    let entry = &state.mem_regions[state.region_index];
    let size = entry.range.size();
    let address = entry.range.start + state.offset_within_region;
    match read {
        Ok(data) => {
            let pct = percent(state.offset_within_region, size);
            let mut status = String::from_str("Progress: ");
            let mut pct_field: Vec<u8> = Vec::new();
            push_dec(&mut pct_field, pct);
            proof {
                lemma_dec_digits_ascii(pct as nat);
            }
            status.append(ascii_string(pct_field).as_str());
            status.append("% | Offset: ");
            let mut prog_field: Vec<u8> = Vec::new();
            push_dec(&mut prog_field, state.offset_within_region as u64);
            proof {
                lemma_dec_digits_ascii(state.offset_within_region as nat);
            }
            status.append(ascii_string(prog_field).as_str());
            status.append(" / ");
            let mut size_field: Vec<u8> = Vec::new();
            push_dec(&mut size_field, size as u64);
            proof {
                lemma_dec_digits_ascii(size as nat);
            }
            status.append(ascii_string(size_field).as_str());
            status.append(" bytes");
            let lines = format_memory_chunk(address, data.as_slice());
            let dump = MemoryDump {
                status,
                region_index: state.region_index as u32,
                region_start: entry.range.start as u64,
                region_end: entry.range.end as u64,
                region_name: entry.name.clone(),
                lines,
            };
            proof {
                assert(dump@.status =~= spec_status(
                    spec_percent(
                        state.offset_within_region as int,
                        size as int,
                    ) as nat,
                    state.offset_within_region as nat,
                    size as nat,
                ));
                assert(dump@ =~= spec_ok_dump(*state, data@));
            }
            DumpResponse::Send(dump, false)
        },
        Err(ReadError::PermissionDenied) => {
            let mut status = String::from_str(
                "Insufficient permission to read memory of PID ",
            );
            let mut pid_field: Vec<u8> = Vec::new();
            push_dec(&mut pid_field, state.pid as u64);
            proof {
                lemma_dec_digits_ascii(state.pid as nat);
            }
            status.append(ascii_string(pid_field).as_str());
            status.append(". Run with sudo or check access rights.");
            proof {
                reveal_strlit(
                    "Insufficient permission to read memory of PID ",
                );
                assert(status@ =~= spec_denied_status(state.pid as nat));
                assert(status@.len() > 0);
            }
            let dump = MemoryDump {
                status,
                region_index: 0,
                region_start: 0,
                region_end: 0,
                region_name: String::new(),
                lines: Vec::new(),
            };
            proof {
                assert(dump@ =~= spec_denial_dump(state.pid as nat));
                lemma_denied_status_signals(state.pid as nat);
            }
            DumpResponse::Send(dump, true)
        },
        Err(ReadError::Other) => DumpResponse::Silent,
    }
}

} // verus!
