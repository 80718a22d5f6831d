//! The per-session navigation state machine: a cursor over the region
//! list fixed at session start, advanced chunkwise by up/down commands.
//!
//! The region list is captured once, when the session is initialized,
//! and never re-enumerated while the session is active; a later change
//! of the target's mappings is deliberately not reflected here.

use vstd::prelude::*;
use crate::range::AddressRange;
use crate::protocol::CommandType;

verus! {

/// The fixed paging granularity: bytes read and shown per step.
pub const CHUNK_SIZE: usize = 128;

/// One region of the list captured at session start.
#[derive(Clone, Debug)]
pub struct RegionEntry {
    pub range: AddressRange,
    pub name: String,
}

/// The session state: target process, cursor, and the region list fixed
/// at initialization.
#[derive(Clone, Debug)]
pub struct ClientState {
    pub pid: u32,
    pub region_index: usize,
    pub offset_within_region: usize,
    pub mem_regions: Vec<RegionEntry>,
}

/// What a navigation command did to the cursor.
#[derive(Clone, Copy, Debug, PartialEq, Eq, Structural)]
pub enum NavOutcome {
    /// The cursor moved.
    Moved,
    /// The cursor was already at the first or last chunk: no-op.
    Boundary,
    /// The command does not move the cursor.
    Ignored,
}

pub open spec fn ranges_wf(rs: Seq<AddressRange>) -> bool {
    forall|i: int| 0 <= i < rs.len() ==> (#[trigger] rs[i]).wf()
}

pub open spec fn cursor_ok(rs: Seq<AddressRange>, idx: int, off: int) -> bool {
    &&& rs.len() > 0
    &&& 0 <= idx < rs.len()
    &&& 0 <= off < rs[idx].spec_size()
}

/// The ranges of a session's region list.
pub open spec fn state_ranges(s: ClientState) -> Seq<AddressRange> {
    s.mem_regions@.map_values(|e: RegionEntry| e.range)
}

/// Well-formedness of a session state: a nonempty list of nonempty
/// regions, and a cursor inside the selected region.
pub open spec fn state_wf(s: ClientState) -> bool {
    &&& ranges_wf(state_ranges(s))
    &&& cursor_ok(state_ranges(s), s.region_index as int, s.offset_within_region as int)
}

/// The cursor after an up step: back one chunk, or onto the last chunk
/// of the previous region, or unchanged at the very first chunk.
pub open spec fn spec_up(rs: Seq<AddressRange>, idx: int, off: int) -> (int, int) {
    if off >= CHUNK_SIZE {
        (idx, off - CHUNK_SIZE)
    } else if idx > 0 {
        (
            idx - 1,
            if rs[idx - 1].spec_size() >= CHUNK_SIZE {
                rs[idx - 1].spec_size() - CHUNK_SIZE
            } else {
                0
            },
        )
    } else {
        (idx, off)
    }
}

/// The cursor after a down step: forward one chunk, or onto the first
/// chunk of the next region, or unchanged at the very last chunk.
pub open spec fn spec_down(rs: Seq<AddressRange>, idx: int, off: int) -> (int, int) {
    if off + CHUNK_SIZE < rs[idx].spec_size() {
        (idx, off + CHUNK_SIZE)
    } else if idx + 1 < rs.len() {
        (idx + 1, 0)
    } else {
        (idx, off)
    }
}

/// The cursor a command leads to.
pub open spec fn spec_step(
    rs: Seq<AddressRange>,
    cmd: CommandType,
    idx: int,
    off: int,
) -> (int, int) {
    match cmd {
        CommandType::Up => spec_up(rs, idx, off),
        CommandType::Down => spec_down(rs, idx, off),
        _ => (idx, off),
    }
}

/// The outcome a command reports.
pub open spec fn spec_outcome(
    rs: Seq<AddressRange>,
    cmd: CommandType,
    idx: int,
    off: int,
) -> NavOutcome {
    match cmd {
        CommandType::Up => if off < CHUNK_SIZE && idx == 0 {
            NavOutcome::Boundary
        } else {
            NavOutcome::Moved
        },
        CommandType::Down => if off + CHUNK_SIZE >= rs[idx].spec_size() && idx + 1
            == rs.len() {
            NavOutcome::Boundary
        } else {
            NavOutcome::Moved
        },
        _ => NavOutcome::Ignored,
    }
}

impl ClientState {
    /// Applies one navigation command to the cursor.  `Up` and `Down`
    /// move chunkwise as `spec_up`/`spec_down` say; at a boundary the
    /// cursor is left unchanged and the boundary is reported; any other
    /// command leaves the state untouched.
    pub fn process_command(&mut self, cmd: CommandType) -> (r: NavOutcome)
        requires
            state_wf(*old(self)),
        ensures
            state_wf(*final(self)),
            final(self).pid == old(self).pid,
            final(self).mem_regions == old(self).mem_regions,
            (final(self).region_index as int, final(self).offset_within_region as int)
                == spec_step(
                state_ranges(*old(self)),
                cmd,
                old(self).region_index as int,
                old(self).offset_within_region as int,
            ),
            r == spec_outcome(
                state_ranges(*old(self)),
                cmd,
                old(self).region_index as int,
                old(self).offset_within_region as int,
            ),
    {
        let ghost rs = state_ranges(*old(self));
        match cmd {
            CommandType::Up => {
                if self.offset_within_region >= CHUNK_SIZE {
                    self.offset_within_region = self.offset_within_region - CHUNK_SIZE;
                    NavOutcome::Moved
                } else if self.region_index > 0 {
                    self.region_index = self.region_index - 1;
                    let r = &self.mem_regions[self.region_index].range;
                    proof {
                        assert(rs[self.region_index as int] == self.mem_regions@[
                            self.region_index as int].range);
                    }
                    let size = r.size();
                    if size >= CHUNK_SIZE {
                        self.offset_within_region = size - CHUNK_SIZE;
                    } else {
                        self.offset_within_region = 0;
                    }
                    NavOutcome::Moved
                } else {
                    NavOutcome::Boundary
                }
            },
            CommandType::Down => {
                proof {
                    assert(rs.len() == self.mem_regions@.len());
                    assert(rs[self.region_index as int] == self.mem_regions@[
                        self.region_index as int].range);
                    assert(self.region_index < self.mem_regions@.len());
                }
                let nregions = self.mem_regions.len();
                proof {
                    assert(nregions >= 1);
                }
                let r = &self.mem_regions[self.region_index].range;
                let size = r.size();
                if size - self.offset_within_region > CHUNK_SIZE {
                    self.offset_within_region = self.offset_within_region + CHUNK_SIZE;
                    NavOutcome::Moved
                } else if self.region_index < nregions - 1 {
                    self.region_index = self.region_index + 1;
                    self.offset_within_region = 0;
                    proof {
                        assert(rs[self.region_index as int] == self.mem_regions@[
                            self.region_index as int].range);
                    }
                    NavOutcome::Moved
                } else {
                    NavOutcome::Boundary
                }
            },
            _ => NavOutcome::Ignored,
        }
    }
}

/// Law: `Up` at the first chunk of the first region is a no-op that
/// reports the boundary.
pub proof fn lemma_up_at_origin(rs: Seq<AddressRange>, idx: int, off: int)
    requires
        cursor_ok(rs, idx, off),
        idx == 0,
        off == 0,
    ensures
        spec_up(rs, idx, off) == (idx, off),
        spec_outcome(rs, CommandType::Up, idx, off) == NavOutcome::Boundary,
{
}

/// Law: `Down` at the last chunk of the last region is a no-op that
/// reports the boundary.
pub proof fn lemma_down_at_end(rs: Seq<AddressRange>, idx: int, off: int)
    requires
        cursor_ok(rs, idx, off),
        idx == rs.len() - 1,
        off + CHUNK_SIZE >= rs[idx].spec_size(),
    ensures
        spec_down(rs, idx, off) == (idx, off),
        spec_outcome(rs, CommandType::Down, idx, off) == NavOutcome::Boundary,
{
}

// ---------------------------------------------------------------------
// Round trip of repeated downs and ups
// ---------------------------------------------------------------------
/// A cursor reachable by chunk steps: aligned to the chunk size.
pub open spec fn cursor_aligned(rs: Seq<AddressRange>, idx: int, off: int) -> bool {
    cursor_ok(rs, idx, off) && off % (CHUNK_SIZE as int) == 0
}

/// Every region's size is a whole number of chunks.
pub open spec fn sizes_chunked(rs: Seq<AddressRange>) -> bool {
    forall|i: int|
        0 <= i < rs.len() ==> (#[trigger] rs[i]).spec_size() % (CHUNK_SIZE as int) == 0
}

/// The cursor after `n` down steps.
pub open spec fn downs(rs: Seq<AddressRange>, idx: int, off: int, n: nat) -> (int, int)
    decreases n,
{
    if n == 0 {
        (idx, off)
    } else {
        let c = downs(rs, idx, off, (n - 1) as nat);
        spec_down(rs, c.0, c.1)
    }
}

/// The cursor after `n` up steps.
pub open spec fn ups(rs: Seq<AddressRange>, idx: int, off: int, n: nat) -> (int, int)
    decreases n,
{
    if n == 0 {
        (idx, off)
    } else {
        let c = ups(rs, idx, off, (n - 1) as nat);
        spec_up(rs, c.0, c.1)
    }
}

proof fn lemma_down_preserves(rs: Seq<AddressRange>, idx: int, off: int)
    requires
        ranges_wf(rs),
        sizes_chunked(rs),
        cursor_aligned(rs, idx, off),
    ensures
        cursor_aligned(rs, spec_down(rs, idx, off).0, spec_down(rs, idx, off).1),
{
}

/// One up step undoes one down step that actually moved, on chunked
/// region layouts.
proof fn lemma_up_undoes_down(rs: Seq<AddressRange>, idx: int, off: int)
    requires
        ranges_wf(rs),
        sizes_chunked(rs),
        cursor_aligned(rs, idx, off),
        spec_down(rs, idx, off) != (idx, off),
    ensures
        spec_up(rs, spec_down(rs, idx, off).0, spec_down(rs, idx, off).1) == (idx, off),
{
    let size = rs[idx].spec_size();
    if off + CHUNK_SIZE < size {
    } else if idx + 1 < rs.len() {
        assert(rs[idx].wf());
        assert(size % (CHUNK_SIZE as int) == 0);
        assert(off % (CHUNK_SIZE as int) == 0);
        assert(off < size <= off + CHUNK_SIZE);
        assert(size == off + CHUNK_SIZE) by {
            let d = size - off;
            assert(0 < d <= CHUNK_SIZE);
            if d < CHUNK_SIZE {
                vstd::arithmetic::div_mod::lemma_add_mod_noop(
                    off,
                    d,
                    CHUNK_SIZE as int,
                );
                vstd::arithmetic::div_mod::lemma_small_mod(d as nat, CHUNK_SIZE as nat);
                assert(size % (CHUNK_SIZE as int) == d);
                assert(false);
            }
        }
        assert(size >= CHUNK_SIZE);
    } else {
        assert(false);
    }
}

/// A down step from a valid cursor either moves or is the terminal
/// no-op; it never leaves validity.
proof fn lemma_downs_preserve(rs: Seq<AddressRange>, idx: int, off: int, n: nat)
    requires
        ranges_wf(rs),
        sizes_chunked(rs),
        cursor_aligned(rs, idx, off),
    ensures
        cursor_aligned(rs, downs(rs, idx, off, n).0, downs(rs, idx, off, n).1),
    decreases n,
{
    if n == 0 {
    } else {
        lemma_downs_preserve(rs, idx, off, (n - 1) as nat);
        let c = downs(rs, idx, off, (n - 1) as nat);
        lemma_down_preserves(rs, c.0, c.1);
    }
}

/// Law: from the initial cursor, `n` downs followed by `n` ups return to
/// the initial cursor, on a region layout whose sizes are whole chunks
/// and that does not change between the calls.
pub proof fn lemma_down_up_roundtrip(rs: Seq<AddressRange>, n: nat)
    requires
        ranges_wf(rs),
        sizes_chunked(rs),
        rs.len() > 0,
    ensures
        ups(rs, downs(rs, 0, 0, n).0, downs(rs, 0, 0, n).1, n) == (0int, 0int),
    decreases n,
{
    assert(rs[0].wf());
    assert(cursor_aligned(rs, 0, 0));
    if n == 0 {
    } else {
        lemma_down_up_roundtrip(rs, (n - 1) as nat);
        let t = downs(rs, 0, 0, (n - 1) as nat);
        lemma_downs_preserve(rs, 0, 0, (n - 1) as nat);
        let d = downs(rs, 0, 0, n);
        assert(d == spec_down(rs, t.0, t.1));
        if spec_down(rs, t.0, t.1) == (t.0, t.1) {
            // the extra down was a no-op; the extra up is absorbed at the
            // origin after the inner round trip
            lemma_ups_shift(rs, d.0, d.1, (n - 1) as nat);
            assert(ups(rs, d.0, d.1, n) == spec_up(
                rs,
                ups(rs, d.0, d.1, (n - 1) as nat).0,
                ups(rs, d.0, d.1, (n - 1) as nat).1,
            ));
            assert(ups(rs, d.0, d.1, (n - 1) as nat) == (0int, 0int));
            assert(spec_up(rs, 0, 0) == (0int, 0int));
        } else {
            lemma_up_undoes_down(rs, t.0, t.1);
            lemma_ups_first(rs, d.0, d.1, n);
            assert(ups(rs, d.0, d.1, n) == ups(
                rs,
                spec_up(rs, d.0, d.1).0,
                spec_up(rs, d.0, d.1).1,
                (n - 1) as nat,
            ));
            assert(spec_up(rs, d.0, d.1) == (t.0, t.1));
        }
    }
}

/// Iterated ups, peeling the last step.
proof fn lemma_ups_shift(rs: Seq<AddressRange>, idx: int, off: int, n: nat)
    ensures
        ups(rs, idx, off, (n + 1) as nat) == spec_up(
            rs,
            ups(rs, idx, off, n).0,
            ups(rs, idx, off, n).1,
        ),
{
}

/// Iterated ups, peeling the first step.
proof fn lemma_ups_first(rs: Seq<AddressRange>, idx: int, off: int, n: nat)
    requires
        n >= 1,
    ensures
        ups(rs, idx, off, n) == ups(
            rs,
            spec_up(rs, idx, off).0,
            spec_up(rs, idx, off).1,
            (n - 1) as nat,
        ),
    decreases n,
{
    let u = spec_up(rs, idx, off);
    if n == 1 {
        assert(ups(rs, idx, off, 1) == spec_up(rs, ups(rs, idx, off, 0).0, ups(rs, idx, off, 0).1));
        assert(ups(rs, idx, off, 0) == (idx, off));
        assert(ups(rs, u.0, u.1, 0) == u);
    } else {
        lemma_ups_first(rs, idx, off, (n - 1) as nat);
        assert(ups(rs, idx, off, n) == spec_up(
            rs,
            ups(rs, idx, off, (n - 1) as nat).0,
            ups(rs, idx, off, (n - 1) as nat).1,
        ));
        assert(ups(rs, u.0, u.1, (n - 1) as nat) == spec_up(
            rs,
            ups(rs, u.0, u.1, (n - 2) as nat).0,
            ups(rs, u.0, u.1, (n - 2) as nat).1,
        ));
    }
}

} // verus!
