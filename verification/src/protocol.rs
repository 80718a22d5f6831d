//! The session protocol codec: navigation commands and memory-dump
//! responses as length-bounded binary wire messages.
//!
//! Integers travel little-endian; text travels as length-prefixed UTF-8.
//! Each message is one self-contained byte buffer.

use vstd::prelude::*;
use vstd::utf8::{decode_utf8, encode_utf8, encode_utf8_decode_utf8, encode_utf8_valid_utf8, valid_utf8};
use vstd::string::StrSliceExecFns;

verus! {

/// The kind of a navigation command.
#[derive(Clone, Copy, Debug, PartialEq, Eq, Structural)]
pub enum CommandType {
    /// Select a target process and start the session.
    Init,
    /// One chunk towards lower addresses.
    Up,
    /// One chunk towards higher addresses.
    Down,
    /// Carries no navigation meaning.
    Unknown,
}

/// A command message.  `pid` matters only for `Init`.
#[derive(Clone, Copy, Debug, PartialEq, Eq, Structural)]
pub struct Command {
    pub command_type: CommandType,
    pub pid: u32,
}

/// A memory-dump response message.
#[derive(Clone, Debug)]
pub struct MemoryDump {
    pub status: String,
    pub region_index: u32,
    pub region_start: u64,
    pub region_end: u64,
    pub region_name: String,
    pub lines: Vec<String>,
}

/// The mathematical content of a dump message.
#[verifier::ext_equal]
pub struct DumpSpec {
    pub status: Seq<char>,
    pub region_index: int,
    pub region_start: int,
    pub region_end: int,
    pub region_name: Seq<char>,
    pub lines: Seq<Seq<char>>,
}

impl View for MemoryDump {
    type V = DumpSpec;

    open spec fn view(&self) -> DumpSpec {
        DumpSpec {
            status: self.status@,
            region_index: self.region_index as int,
            region_start: self.region_start as int,
            region_end: self.region_end as int,
            region_name: self.region_name@,
            lines: self.lines@.map_values(|l: String| l@),
        }
    }
}

// ---------------------------------------------------------------------
// Little-endian integers
// ---------------------------------------------------------------------
pub open spec fn u32_le(n: u32) -> Seq<u8> {
    seq![
        (n & 0xff) as u8,
        ((n >> 8) & 0xff) as u8,
        ((n >> 16) & 0xff) as u8,
        ((n >> 24) & 0xff) as u8,
    ]
}

pub open spec fn u64_le(n: u64) -> Seq<u8> {
    seq![
        (n & 0xff) as u8,
        ((n >> 8) & 0xff) as u8,
        ((n >> 16) & 0xff) as u8,
        ((n >> 24) & 0xff) as u8,
        ((n >> 32) & 0xff) as u8,
        ((n >> 40) & 0xff) as u8,
        ((n >> 48) & 0xff) as u8,
        ((n >> 56) & 0xff) as u8,
    ]
}

pub open spec fn u32_of_le(b0: u8, b1: u8, b2: u8, b3: u8) -> u32 {
    (b0 as u32) | ((b1 as u32) << 8) | ((b2 as u32) << 16) | ((b3 as u32) << 24)
}

pub open spec fn u64_of_le(
    b0: u8,
    b1: u8,
    b2: u8,
    b3: u8,
    b4: u8,
    b5: u8,
    b6: u8,
    b7: u8,
) -> u64 {
    (b0 as u64) | ((b1 as u64) << 8) | ((b2 as u64) << 16) | ((b3 as u64) << 24) | (
    (b4 as u64) << 32) | ((b5 as u64) << 40) | ((b6 as u64) << 48) | ((b7 as u64) << 56)
}

proof fn lemma_u32_le_inverse(n: u32)
    ensures
        u32_of_le(
            (n & 0xff) as u8,
            ((n >> 8) & 0xff) as u8,
            ((n >> 16) & 0xff) as u8,
            ((n >> 24) & 0xff) as u8,
        ) == n,
{
    assert(((n & 0xff) as u8 as u32) | (((n >> 8) & 0xff) as u8 as u32) << 8 | (((n >> 16)
        & 0xff) as u8 as u32) << 16 | (((n >> 24) & 0xff) as u8 as u32) << 24 == n)
        by (bit_vector);
}

proof fn lemma_u64_le_inverse(n: u64)
    ensures
        u64_of_le(
            (n & 0xff) as u8,
            ((n >> 8) & 0xff) as u8,
            ((n >> 16) & 0xff) as u8,
            ((n >> 24) & 0xff) as u8,
            ((n >> 32) & 0xff) as u8,
            ((n >> 40) & 0xff) as u8,
            ((n >> 48) & 0xff) as u8,
            ((n >> 56) & 0xff) as u8,
        ) == n,
{
    assert(((n & 0xff) as u8 as u64) | (((n >> 8) & 0xff) as u8 as u64) << 8 | (((n >> 16)
        & 0xff) as u8 as u64) << 16 | (((n >> 24) & 0xff) as u8 as u64) << 24 | (((n >> 32)
        & 0xff) as u8 as u64) << 32 | (((n >> 40) & 0xff) as u8 as u64) << 40 | (((n >> 48)
        & 0xff) as u8 as u64) << 48 | (((n >> 56) & 0xff) as u8 as u64) << 56 == n)
        by (bit_vector);
}

proof fn lemma_le_u32_inverse(b0: u8, b1: u8, b2: u8, b3: u8)
    ensures
        u32_le(u32_of_le(b0, b1, b2, b3)) =~= seq![b0, b1, b2, b3],
{
    let n = u32_of_le(b0, b1, b2, b3);
    assert((((b0 as u32) | ((b1 as u32) << 8) | ((b2 as u32) << 16) | ((b3 as u32) << 24))
        & 0xff) as u8 == b0) by (bit_vector);
    assert(((((b0 as u32) | ((b1 as u32) << 8) | ((b2 as u32) << 16) | ((b3 as u32) << 24))
        >> 8) & 0xff) as u8 == b1) by (bit_vector);
    assert(((((b0 as u32) | ((b1 as u32) << 8) | ((b2 as u32) << 16) | ((b3 as u32) << 24))
        >> 16) & 0xff) as u8 == b2) by (bit_vector);
    assert(((((b0 as u32) | ((b1 as u32) << 8) | ((b2 as u32) << 16) | ((b3 as u32) << 24))
        >> 24) & 0xff) as u8 == b3) by (bit_vector);
}

fn encode_u32(out: &mut Vec<u8>, n: u32)
    ensures
        final(out)@ == old(out)@ + u32_le(n),
{
    out.push((n & 0xff) as u8);
    out.push(((n >> 8) & 0xff) as u8);
    out.push(((n >> 16) & 0xff) as u8);
    out.push(((n >> 24) & 0xff) as u8);
    proof {
        assert(out@ =~= old(out)@ + u32_le(n));
    }
}

fn encode_u64(out: &mut Vec<u8>, n: u64)
    ensures
        final(out)@ == old(out)@ + u64_le(n),
{
    out.push((n & 0xff) as u8);
    out.push(((n >> 8) & 0xff) as u8);
    out.push(((n >> 16) & 0xff) as u8);
    out.push(((n >> 24) & 0xff) as u8);
    out.push(((n >> 32) & 0xff) as u8);
    out.push(((n >> 40) & 0xff) as u8);
    out.push(((n >> 48) & 0xff) as u8);
    out.push(((n >> 56) & 0xff) as u8);
    proof {
        assert(out@ =~= old(out)@ + u64_le(n));
    }
}

fn decode_u32(s: &[u8], at: usize) -> (r: u32)
    requires
        at + 4 <= s@.len(),
    ensures
        r == u32_of_le(s@[at as int], s@[at + 1], s@[at + 2], s@[at + 3]),
{
    (s[at] as u32) | ((s[at + 1] as u32) << 8u32) | ((s[at + 2] as u32) << 16u32) | ((s[at
        + 3] as u32) << 24u32)
}

fn decode_u64(s: &[u8], at: usize) -> (r: u64)
    requires
        at + 8 <= s@.len(),
    ensures
        r == u64_of_le(
            s@[at as int],
            s@[at + 1],
            s@[at + 2],
            s@[at + 3],
            s@[at + 4],
            s@[at + 5],
            s@[at + 6],
            s@[at + 7],
        ),
{
    (s[at] as u64) | ((s[at + 1] as u64) << 8u64) | ((s[at + 2] as u64) << 16u64) | ((s[at
        + 3] as u64) << 24u64) | ((s[at + 4] as u64) << 32u64) | ((s[at + 5] as u64)
        << 40u64) | ((s[at + 6] as u64) << 48u64) | ((s[at + 7] as u64) << 56u64)
}

// ---------------------------------------------------------------------
// Command messages
// ---------------------------------------------------------------------
/// The wire tag of a command kind.
pub open spec fn tag_of(t: CommandType) -> u8 {
    match t {
        CommandType::Unknown => 0,
        CommandType::Init => 1,
        CommandType::Up => 2,
        CommandType::Down => 3,
    }
}

/// A command message on the wire: one tag byte, then the pid.
pub open spec fn spec_encode_command(c: Command) -> Seq<u8> {
    seq![tag_of(c.command_type)] + u32_le(c.pid)
}

/// Encodes a command message.
pub fn encode_command(c: &Command) -> (r: Vec<u8>)
    ensures
        r@ == spec_encode_command(*c),
{
    let mut out: Vec<u8> = Vec::new();
    let tag: u8 = match c.command_type {
        CommandType::Unknown => 0,
        CommandType::Init => 1,
        CommandType::Up => 2,
        CommandType::Down => 3,
    };
    out.push(tag);
    encode_u32(&mut out, c.pid);
    proof {
        assert(out@ =~= spec_encode_command(*c));
    }
    out
}

/// Decodes a command message.  Succeeds exactly on the buffers that some
/// command encodes to, and then returns that command.
pub fn decode_command(s: &[u8]) -> (r: Option<Command>)
    ensures
        match r {
            Some(c) => s@ == spec_encode_command(c),
            None => forall|c: Command| s@ != spec_encode_command(c),
        },
{
    if s.len() != 5 {
        proof {
            assert forall|c: Command| s@ != spec_encode_command(c) by {
                assert(spec_encode_command(c).len() == 5);
            }
        }
        return None;
    }
    let command_type = match s[0] {
        0 => CommandType::Unknown,
        1 => CommandType::Init,
        2 => CommandType::Up,
        3 => CommandType::Down,
        _ => {
            proof {
                assert forall|c: Command| s@ != spec_encode_command(c) by {
                    assert(spec_encode_command(c)[0] == tag_of(c.command_type));
                    assert(tag_of(c.command_type) <= 3);
                }
            }
            return None;
        },
    };
    let pid = decode_u32(s, 1);
    let c = Command { command_type, pid };
    proof {
        lemma_le_u32_inverse(s@[1], s@[2], s@[3], s@[4]);
        assert(s@ =~= spec_encode_command(c));
    }
    Some(c)
}

/// Law: decoding an encoded command returns that command.
pub proof fn lemma_command_roundtrip(a: Command, b: Command)
    requires
        spec_encode_command(a) == spec_encode_command(b),
    ensures
        a == b,
{
    assert(spec_encode_command(a)[0] == tag_of(a.command_type));
    assert(spec_encode_command(b)[0] == tag_of(b.command_type));
    assert(a.command_type == b.command_type);
    lemma_u32_le_inverse(a.pid);
    lemma_u32_le_inverse(b.pid);
    assert(spec_encode_command(a)[1] == u32_le(a.pid)[0]);
    assert(spec_encode_command(a)[2] == u32_le(a.pid)[1]);
    assert(spec_encode_command(a)[3] == u32_le(a.pid)[2]);
    assert(spec_encode_command(a)[4] == u32_le(a.pid)[3]);
    assert(a.pid == u32_of_le(
        u32_le(a.pid)[0],
        u32_le(a.pid)[1],
        u32_le(a.pid)[2],
        u32_le(a.pid)[3],
    ));
    assert(b.pid == u32_of_le(
        u32_le(b.pid)[0],
        u32_le(b.pid)[1],
        u32_le(b.pid)[2],
        u32_le(b.pid)[3],
    ));
}

// ---------------------------------------------------------------------
// Dump messages
// ---------------------------------------------------------------------
/// Text on the wire: a length prefix, then the UTF-8 bytes.
pub open spec fn len_prefixed(b: Seq<u8>) -> Seq<u8> {
    u32_le(b.len() as u32) + b
}

/// The wire bytes of a sequence of text lines.
pub open spec fn lines_bytes(lines: Seq<Seq<char>>) -> Seq<u8>
    decreases lines.len(),
{
    if lines.len() == 0 {
        Seq::empty()
    } else {
        len_prefixed(encode_utf8(lines[0])) + lines_bytes(lines.drop_first())
    }
}

/// A dump message on the wire.
pub open spec fn spec_encode_dump(d: DumpSpec) -> Seq<u8> {
    len_prefixed(encode_utf8(d.status)) + u32_le(d.region_index as u32) + u64_le(
        d.region_start as u64,
    ) + u64_le(d.region_end as u64) + len_prefixed(encode_utf8(d.region_name)) + u32_le(
        d.lines.len() as u32,
    ) + lines_bytes(d.lines)
}

/// Every text field of the dump fits a 32-bit length prefix.
pub open spec fn dump_lengths_ok(d: DumpSpec) -> bool {
    &&& encode_utf8(d.status).len() <= u32::MAX
    &&& encode_utf8(d.region_name).len() <= u32::MAX
    &&& d.lines.len() <= u32::MAX
    &&& forall|i: int|
        0 <= i < d.lines.len() ==> encode_utf8(#[trigger] d.lines[i]).len() <= u32::MAX
}

fn push_str_bytes(out: &mut Vec<u8>, s: &str)
    ensures
        final(out)@ == old(out)@ + encode_utf8(s@),
{
    let bytes = s.as_bytes_vec();
    let mut i: usize = 0;
    while i < bytes.len()
        invariant
            0 <= i <= bytes@.len(),
            bytes@ == encode_utf8(s@),
            out@ =~= old(out)@ + bytes@.take(i as int),
        decreases bytes@.len() - i,
    {
        out.push(bytes[i]);
        proof {
            assert(out@ =~= old(out)@ + bytes@.take(i as int + 1));
        }
        i = i + 1;
    }
    proof {
        assert(bytes@.take(bytes@.len() as int) =~= bytes@);
    }
}

/// Appends one length-prefixed text field; fails exactly when the text
/// is too long for the prefix.
fn push_text_field(out: &mut Vec<u8>, s: &str) -> (r: bool)
    ensures
        r ==> final(out)@ == old(out)@ + len_prefixed(encode_utf8(s@)) && encode_utf8(
            s@,
        ).len() <= u32::MAX,
        !r ==> final(out)@ == old(out)@ && encode_utf8(s@).len() > u32::MAX,
{
    let blen = s.as_bytes().len();
    if blen > u32::MAX as usize {
        return false;
    }
    encode_u32(out, blen as u32);
    push_str_bytes(out, s);
    proof {
        assert(out@ =~= old(out)@ + len_prefixed(encode_utf8(s@)));
    }
    true
}

/// Encodes a dump message.  Succeeds exactly when every text field fits
/// its length prefix, and then yields the canonical wire bytes.
pub fn encode_dump(d: &MemoryDump) -> (r: Option<Vec<u8>>)
    ensures
        match r {
            Some(v) => dump_lengths_ok(d@) && v@ == spec_encode_dump(d@),
            None => !dump_lengths_ok(d@),
        },
{
    let mut out: Vec<u8> = Vec::new();
    if !push_text_field(&mut out, d.status.as_str()) {
        return None;
    }
    encode_u32(&mut out, d.region_index);
    encode_u64(&mut out, d.region_start);
    encode_u64(&mut out, d.region_end);
    if !push_text_field(&mut out, d.region_name.as_str()) {
        proof {
            assert(!dump_lengths_ok(d@));
        }
        return None;
    }
    if d.lines.len() > u32::MAX as usize {
        return None;
    }
    encode_u32(&mut out, d.lines.len() as u32);
    let ghost head = out@;
    let ghost dlines = d@.lines;
    let mut i: usize = 0;
    while i < d.lines.len()
        invariant
            0 <= i <= d.lines@.len(),
            dlines == d.lines@.map_values(|l: String| l@),
            dlines.len() == d.lines@.len(),
            out@ =~= head + lines_bytes(dlines.take(i as int)),
            forall|k: int|
                0 <= k < i ==> encode_utf8(#[trigger] dlines[k]).len() <= u32::MAX,
        decreases d.lines@.len() - i,
    {
        proof {
            assert(dlines[i as int] == d.lines@[i as int]@);
        }
        let ghost before = out@;
        if !push_text_field(&mut out, d.lines[i].as_str()) {
            return None;
        }
        proof {
            lemma_lines_bytes_snoc(dlines.take(i as int), dlines[i as int]);
            assert(dlines.take(i as int).push(dlines[i as int]) =~= dlines.take(
                i as int + 1,
            ));
            assert(out@ =~= head + lines_bytes(dlines.take(i as int + 1)));
        }
        i = i + 1;
    }
    proof {
        assert(dlines.take(dlines.len() as int) =~= dlines);
        assert(out@ =~= spec_encode_dump(d@));
    }
    Some(out)
}

/// What one length-prefixed text field at `at` decodes to: the text and
/// the position after it, or nothing when the prefix overruns the
/// buffer or the body is not UTF-8.
pub open spec fn text_field_at(s: Seq<u8>, at: int) -> Option<(Seq<char>, int)> {
    if 0 <= at && at + 4 <= s.len() {
        let n = u32_of_le(s[at], s[at + 1], s[at + 2], s[at + 3]) as int;
        if at + 4 + n <= s.len() && valid_utf8(s.subrange(at + 4, at + 4 + n)) {
            Some((decode_utf8(s.subrange(at + 4, at + 4 + n)), at + 4 + n))
        } else {
            None
        }
    } else {
        None
    }
}

/// What `k` consecutive text fields at `at` decode to.
pub open spec fn lines_at(s: Seq<u8>, at: int, k: nat) -> Option<(Seq<Seq<char>>, int)>
    decreases k,
{
    if k == 0 {
        Some((Seq::empty(), at))
    } else {
        match text_field_at(s, at) {
            None => None,
            Some((t, e)) => match lines_at(s, e, (k - 1) as nat) {
                None => None,
                Some((rest, end)) => Some((seq![t] + rest, end)),
            },
        }
    }
}

/// What a whole buffer decodes to as a dump message: the fields in
/// order, with nothing left over.
pub open spec fn spec_decode_dump(s: Seq<u8>) -> Option<DumpSpec> {
    match text_field_at(s, 0) {
        None => None,
        Some((status, p1)) => if p1 + 20 <= s.len() {
            let idx = u32_of_le(s[p1], s[p1 + 1], s[p1 + 2], s[p1 + 3]);
            let rstart = u64_of_le(
                s[p1 + 4],
                s[p1 + 5],
                s[p1 + 6],
                s[p1 + 7],
                s[p1 + 8],
                s[p1 + 9],
                s[p1 + 10],
                s[p1 + 11],
            );
            let rend = u64_of_le(
                s[p1 + 12],
                s[p1 + 13],
                s[p1 + 14],
                s[p1 + 15],
                s[p1 + 16],
                s[p1 + 17],
                s[p1 + 18],
                s[p1 + 19],
            );
            match text_field_at(s, p1 + 20) {
                None => None,
                Some((name, p3)) => if p3 + 4 <= s.len() {
                    let count = u32_of_le(s[p3], s[p3 + 1], s[p3 + 2], s[p3 + 3]);
                    match lines_at(s, p3 + 4, count as nat) {
                        None => None,
                        Some((lines, end)) => if end == s.len() {
                            Some(
                                DumpSpec {
                                    status,
                                    region_index: idx as int,
                                    region_start: rstart as int,
                                    region_end: rend as int,
                                    region_name: name,
                                    lines,
                                },
                            )
                        } else {
                            None
                        },
                    }
                } else {
                    None
                },
            }
        } else {
            None
        },
    }
}

/// Reads one length-prefixed text field at `at`.  On success the
/// consumed bytes are exactly the field's canonical encoding.
fn read_text(s: &[u8], at: usize) -> (r: Option<(String, usize)>)
    requires
        at <= s@.len(),
    ensures
        r matches Some(p) ==> at + 4 <= p.1 <= s@.len() && s@.subrange(at as int, p.1 as int)
            == len_prefixed(encode_utf8(p.0@)),
        match r {
            Some(p) => text_field_at(s@, at as int) == Some((p.0@, p.1 as int)),
            None => text_field_at(s@, at as int) is None,
        },
{
    if s.len() - at < 4 {
        return None;
    }
    let n = decode_u32(s, at);
    if n as usize > s.len() - at - 4 {
        return None;
    }
    let body_start = at + 4;
    let body_end = body_start + n as usize;
    let body = vstd::slice::slice_subrange(s, body_start, body_end);
    let bytes: Vec<u8> = vstd::slice::slice_to_vec(body);
    let ghost raw = bytes@;
    let t = match crate::text::utf8_string(bytes) {
        Some(t) => t,
        None => {
            return None;
        },
    };
    proof {
        vstd::utf8::decode_utf8_encode_utf8(raw);
        assert(encode_utf8(t@) == raw);
        assert(raw.len() == n);
        lemma_le_u32_inverse(s@[at as int], s@[at + 1], s@[at + 2], s@[at + 3]);
        assert(u32_le(n) =~= s@.subrange(at as int, at + 4));
        assert(s@.subrange(at as int, body_end as int) =~= s@.subrange(at as int, at + 4)
            + s@.subrange(at + 4, body_end as int));
        assert(s@.subrange(at + 4, body_end as int) =~= raw);
        assert(s@.subrange(at as int, body_end as int) =~= len_prefixed(encode_utf8(t@)));
    }
    Some((t, body_end))
}

/// Decodes a dump message: exactly `spec_decode_dump`.  A buffer is
/// accepted only if it is the canonical encoding of the returned dump:
/// trailing bytes, bad length prefixes and invalid text all fail.
#[verifier::rlimit(80)]
pub fn decode_dump(s: &[u8]) -> (r: Option<MemoryDump>)
    ensures
        r matches Some(m) ==> s@ == spec_encode_dump(m@),
        match r {
            Some(m) => spec_decode_dump(s@) == Some(m@),
            None => spec_decode_dump(s@) is None,
        },
{
    let (status, p1) = match read_text(s, 0) {
        Some(p) => p,
        None => {
            return None;
        },
    };
    if s.len() - p1 < 20 {
        return None;
    }
    let region_index = decode_u32(s, p1);
    let region_start = decode_u64(s, p1 + 4);
    let region_end = decode_u64(s, p1 + 12);
    let p2 = p1 + 20;
    proof {
        lemma_le_u32_inverse(s@[p1 as int], s@[p1 + 1], s@[p1 + 2], s@[p1 + 3]);
        lemma_le_u64_inverse_bytes(s@, p1 + 4);
        lemma_le_u64_inverse_bytes(s@, p1 + 12);
    }
    let (region_name, p3) = match read_text(s, p2) {
        Some(p) => p,
        None => {
            return None;
        },
    };
    if s.len() - p3 < 4 {
        return None;
    }
    let count = decode_u32(s, p3);
    let p4 = p3 + 4;
    proof {
        lemma_le_u32_inverse(s@[p3 as int], s@[p3 + 1], s@[p3 + 2], s@[p3 + 3]);
    }
    let mut lines: Vec<String> = Vec::new();
    let mut pos = p4;
    let mut k: u32 = 0;
    while k < count
        invariant
            k <= count,
            p4 <= pos <= s@.len(),
            lines@.len() == k,
            p4 == p3 + 4,
            p2 == p1 + 20,
            p1 + 20 <= s@.len(),
            p3 + 4 <= s@.len(),
            text_field_at(s@, 0) == Some((status@, p1 as int)),
            text_field_at(s@, p2 as int) == Some((region_name@, p3 as int)),
            region_index == u32_of_le(s@[p1 as int], s@[p1 + 1], s@[p1 + 2], s@[p1 + 3]),
            count == u32_of_le(s@[p3 as int], s@[p3 + 1], s@[p3 + 2], s@[p3 + 3]),
            s@.subrange(p4 as int, pos as int) == lines_bytes(
                lines@.map_values(|l: String| l@),
            ),
            lines_at(s@, p4 as int, count as nat) == (match lines_at(
                s@,
                pos as int,
                (count - k) as nat,
            ) {
                None => None::<(Seq<Seq<char>>, int)>,
                Some(p) => Some((lines@.map_values(|l: String| l@) + p.0, p.1)),
            }),
        decreases count - k,
    {
        let ghost old_lines = lines@.map_values(|l: String| l@);
        let (line, next) = match read_text(s, pos) {
            Some(p) => p,
            None => {
                proof {
                    assert(lines_at(s@, pos as int, (count - k) as nat) is None);
                    assert(lines_at(s@, p4 as int, count as nat) is None);
                }
                return None;
            },
        };
        lines.push(line);
        proof {
            lemma_lines_bytes_snoc(old_lines, line@);
            assert(lines@.map_values(|l: String| l@) =~= old_lines.push(line@));
            assert(s@.subrange(p4 as int, next as int) =~= s@.subrange(p4 as int, pos as int)
                + s@.subrange(pos as int, next as int));
            assert(s@.subrange(p4 as int, next as int) =~= lines_bytes(
                lines@.map_values(|l: String| l@),
            ));
            assert(lines_at(s@, pos as int, (count - k) as nat) == (match lines_at(
                s@,
                next as int,
                (count - k - 1) as nat,
            ) {
                None => None::<(Seq<Seq<char>>, int)>,
                Some(p) => Some((seq![line@] + p.0, p.1)),
            }));
            assert forall|p: (Seq<Seq<char>>, int)|
                lines_at(s@, next as int, (count - k - 1) as nat) == Some(p) implies old_lines
                + (seq![line@] + p.0) =~= lines@.map_values(|l: String| l@) + p.0 by {}
        }
        pos = next;
        k = k + 1;
    }
    proof {
        assert(lines_at(s@, pos as int, 0) == Some((Seq::<Seq<char>>::empty(), pos as int)));
        assert(lines@.map_values(|l: String| l@) + Seq::<Seq<char>>::empty()
            =~= lines@.map_values(|l: String| l@));
    }
    if pos != s.len() {
        return None;
    }
    let m = MemoryDump { status, region_index, region_start, region_end, region_name, lines };
    proof {
        assert(s@.subrange(0, p1 as int) == len_prefixed(encode_utf8(m@.status)));
        assert(s@.subrange(p1 as int, p1 + 4) =~= u32_le(region_index));
        assert(s@.subrange(p1 + 4, p1 + 12) =~= u64_le(region_start));
        assert(s@.subrange(p1 + 12, p2 as int) =~= u64_le(region_end));
        assert(s@.subrange(p2 as int, p3 as int) == len_prefixed(encode_utf8(m@.region_name)));
        assert(s@.subrange(p3 as int, p4 as int) =~= u32_le(count));
        assert(count == m@.lines.len());
        assert(s@ =~= s@.subrange(0, p1 as int) + s@.subrange(p1 as int, p1 + 4)
            + s@.subrange(p1 + 4, p1 + 12) + s@.subrange(p1 + 12, p2 as int) + s@.subrange(
            p2 as int,
            p3 as int,
        ) + s@.subrange(p3 as int, p4 as int) + s@.subrange(p4 as int, pos as int));
        assert(s@ =~= spec_encode_dump(m@));
        assert(lines_at(s@, p4 as int, count as nat) == Some(
            (m@.lines, pos as int),
        ));
        assert(spec_decode_dump(s@) matches Some(d2) && d2 =~= m@);
    }
    Some(m)
}

/// Law: a dump whose fields fit the wire's widths decodes back from its
/// own encoding.
#[verifier::rlimit(80)]
pub proof fn lemma_dump_roundtrip(d: DumpSpec)
    requires
        dump_wf(d),
    ensures
        spec_decode_dump(spec_encode_dump(d)) == Some(d),
{
    let sb = encode_utf8(d.status);
    let nb = encode_utf8(d.region_name);
    let s = spec_encode_dump(d);
    let p1 = 4 + sb.len() as int;
    let p2 = p1 + 20;
    let p3 = p2 + 4 + nb.len() as int;
    let p4 = p3 + 4;
    let glen = lines_bytes(d.lines).len() as int;
    assert(s.len() == p4 + glen);
    // the status field
    assert(s.subrange(0, 4) =~= u32_le(sb.len() as u32));
    lemma_le_u32_of(sb.len() as u32);
    assert(s.subrange(4, p1) =~= sb);
    encode_utf8_valid_utf8(d.status);
    encode_utf8_decode_utf8(d.status);
    assert(text_field_at(s, 0) == Some((d.status, p1)));
    // the fixed-width fields
    assert(s.subrange(p1, p1 + 4) =~= u32_le(d.region_index as u32));
    lemma_le_u32_of(d.region_index as u32);
    assert(u32_of_le(s[p1], s[p1 + 1], s[p1 + 2], s[p1 + 3]) == d.region_index as u32);
    assert(s.subrange(p1 + 4, p1 + 12) =~= u64_le(d.region_start as u64));
    assert(s.subrange(p1 + 12, p2) =~= u64_le(d.region_end as u64));
    lemma_u64_le_inverse(d.region_start as u64);
    lemma_u64_le_inverse(d.region_end as u64);
    // the name field
    assert(s.subrange(p2, p2 + 4) =~= u32_le(nb.len() as u32));
    lemma_le_u32_of(nb.len() as u32);
    assert(s.subrange(p2 + 4, p3) =~= nb);
    encode_utf8_valid_utf8(d.region_name);
    encode_utf8_decode_utf8(d.region_name);
    assert(text_field_at(s, p2) == Some((d.region_name, p3)));
    // the line count and the lines
    assert(s.subrange(p3, p4) =~= u32_le(d.lines.len() as u32));
    lemma_le_u32_of(d.lines.len() as u32);
    assert(s.subrange(p4, p4 + glen) =~= lines_bytes(d.lines));
    lemma_lines_at(s, p4, d.lines);
    assert(lines_at(s, p4, d.lines.len()) == Some((d.lines, s.len() as int)));
    assert(spec_decode_dump(s) matches Some(d2) && d2 =~= d);
}

/// Every field of the dump fits its wire width.
pub open spec fn dump_wf(d: DumpSpec) -> bool {
    &&& dump_lengths_ok(d)
    &&& 0 <= d.region_index <= u32::MAX
    &&& 0 <= d.region_start <= u64::MAX
    &&& 0 <= d.region_end <= u64::MAX
}

/// The little-endian bytes of `n` read back as `n`.
proof fn lemma_le_u32_of(n: u32)
    ensures
        u32_of_le(u32_le(n)[0], u32_le(n)[1], u32_le(n)[2], u32_le(n)[3]) == n,
{
    lemma_u32_le_inverse(n);
}

/// Consecutive text fields that hold exactly the encodings of `lines`
/// decode back to `lines`.
proof fn lemma_lines_at(s: Seq<u8>, at: int, lines: Seq<Seq<char>>)
    requires
        0 <= at,
        at + lines_bytes(lines).len() <= s.len(),
        s.subrange(at, at + lines_bytes(lines).len() as int) == lines_bytes(lines),
        forall|i: int|
            0 <= i < lines.len() ==> encode_utf8(#[trigger] lines[i]).len() <= u32::MAX,
    ensures
        lines_at(s, at, lines.len()) == Some((lines, at + lines_bytes(lines).len() as int)),
    decreases lines.len(),
{
    if lines.len() == 0 {
        assert(lines_at(s, at, 0) == Some((Seq::<Seq<char>>::empty(), at)));
        assert(Seq::<Seq<char>>::empty() =~= lines);
    } else {
        let l0 = lines[0];
        let b0 = encode_utf8(l0);
        let rest = lines.drop_first();
        let flen = 4 + b0.len() as int;
        assert(lines_bytes(lines) == len_prefixed(b0) + lines_bytes(rest));
        let total = lines_bytes(lines).len() as int;
        assert(total == flen + lines_bytes(rest).len());
        assert forall|i: int| 0 <= i < total implies s[at + i] == lines_bytes(lines)[i] by {
            assert(s.subrange(at, at + total)[i] == s[at + i]);
        }
        assert(s.subrange(at, at + 4) =~= u32_le(b0.len() as u32));
        lemma_le_u32_of(b0.len() as u32);
        assert forall|i: int| 0 <= i < b0.len() implies s[at + 4 + i] == b0[i] by {
            assert(lines_bytes(lines)[4 + i] == len_prefixed(b0)[4 + i]);
        }
        assert(s.subrange(at + 4, at + flen) =~= b0);
        encode_utf8_valid_utf8(l0);
        encode_utf8_decode_utf8(l0);
        assert(text_field_at(s, at) == Some((l0, at + flen)));
        assert forall|i: int| 0 <= i < lines_bytes(rest).len() implies s[at + flen + i]
            == lines_bytes(rest)[i] by {
            assert(lines_bytes(lines)[flen + i] == lines_bytes(rest)[i]);
        }
        assert(s.subrange(at + flen, at + total) =~= lines_bytes(rest));
        assert forall|i: int|
            0 <= i < rest.len() implies encode_utf8(#[trigger] rest[i]).len()
            <= u32::MAX by {
            assert(rest[i] == lines[i + 1]);
        }
        lemma_lines_at(s, at + flen, rest);
        assert(seq![l0] + rest =~= lines);
    }
}

proof fn lemma_le_u64_inverse_bytes(s: Seq<u8>, at: int)
    requires
        0 <= at,
        at + 8 <= s.len(),
    ensures
        u64_le(
            u64_of_le(s[at], s[at + 1], s[at + 2], s[at + 3], s[at + 4], s[at + 5], s[at + 6], s[at + 7]),
        ) =~= s.subrange(at, at + 8),
{
    let b0 = s[at];
    let b1 = s[at + 1];
    let b2 = s[at + 2];
    let b3 = s[at + 3];
    let b4 = s[at + 4];
    let b5 = s[at + 5];
    let b6 = s[at + 6];
    let b7 = s[at + 7];
    let n = u64_of_le(b0, b1, b2, b3, b4, b5, b6, b7);
    assert((((b0 as u64) | ((b1 as u64) << 8) | ((b2 as u64) << 16) | ((b3 as u64) << 24)
        | ((b4 as u64) << 32) | ((b5 as u64) << 40) | ((b6 as u64) << 48) | ((b7 as u64)
        << 56)) & 0xff) as u8 == b0) by (bit_vector);
    assert(((((b0 as u64) | ((b1 as u64) << 8) | ((b2 as u64) << 16) | ((b3 as u64) << 24)
        | ((b4 as u64) << 32) | ((b5 as u64) << 40) | ((b6 as u64) << 48) | ((b7 as u64)
        << 56)) >> 8) & 0xff) as u8 == b1) by (bit_vector);
    assert(((((b0 as u64) | ((b1 as u64) << 8) | ((b2 as u64) << 16) | ((b3 as u64) << 24)
        | ((b4 as u64) << 32) | ((b5 as u64) << 40) | ((b6 as u64) << 48) | ((b7 as u64)
        << 56)) >> 16) & 0xff) as u8 == b2) by (bit_vector);
    assert(((((b0 as u64) | ((b1 as u64) << 8) | ((b2 as u64) << 16) | ((b3 as u64) << 24)
        | ((b4 as u64) << 32) | ((b5 as u64) << 40) | ((b6 as u64) << 48) | ((b7 as u64)
        << 56)) >> 24) & 0xff) as u8 == b3) by (bit_vector);
    assert(((((b0 as u64) | ((b1 as u64) << 8) | ((b2 as u64) << 16) | ((b3 as u64) << 24)
        | ((b4 as u64) << 32) | ((b5 as u64) << 40) | ((b6 as u64) << 48) | ((b7 as u64)
        << 56)) >> 32) & 0xff) as u8 == b4) by (bit_vector);
    assert(((((b0 as u64) | ((b1 as u64) << 8) | ((b2 as u64) << 16) | ((b3 as u64) << 24)
        | ((b4 as u64) << 32) | ((b5 as u64) << 40) | ((b6 as u64) << 48) | ((b7 as u64)
        << 56)) >> 40) & 0xff) as u8 == b5) by (bit_vector);
    assert(((((b0 as u64) | ((b1 as u64) << 8) | ((b2 as u64) << 16) | ((b3 as u64) << 24)
        | ((b4 as u64) << 32) | ((b5 as u64) << 40) | ((b6 as u64) << 48) | ((b7 as u64)
        << 56)) >> 48) & 0xff) as u8 == b6) by (bit_vector);
    assert(((((b0 as u64) | ((b1 as u64) << 8) | ((b2 as u64) << 16) | ((b3 as u64) << 24)
        | ((b4 as u64) << 32) | ((b5 as u64) << 40) | ((b6 as u64) << 48) | ((b7 as u64)
        << 56)) >> 56) & 0xff) as u8 == b7) by (bit_vector);
}

proof fn lemma_lines_bytes_snoc(lines: Seq<Seq<char>>, l: Seq<char>)
    ensures
        lines_bytes(lines.push(l)) =~= lines_bytes(lines) + len_prefixed(encode_utf8(l)),
    decreases lines.len(),
{
    if lines.len() == 0 {
        assert(lines.push(l).drop_first() =~= Seq::<Seq<char>>::empty());
        assert(lines.push(l)[0] == l);
        assert(lines_bytes(lines.push(l)) == len_prefixed(encode_utf8(l)) + lines_bytes(
            Seq::<Seq<char>>::empty(),
        ));
        assert(lines_bytes(Seq::<Seq<char>>::empty()) == Seq::<u8>::empty());
        assert(lines_bytes(lines) == Seq::<u8>::empty());
    } else {
        assert(lines.push(l).drop_first() =~= lines.drop_first().push(l));
        assert(lines.push(l)[0] == lines[0]);
        lemma_lines_bytes_snoc(lines.drop_first(), l);
        assert(lines_bytes(lines.push(l)) == len_prefixed(encode_utf8(lines[0]))
            + lines_bytes(lines.drop_first().push(l)));
        assert(lines_bytes(lines) == len_prefixed(encode_utf8(lines[0])) + lines_bytes(
            lines.drop_first(),
        ));
    }
}

} // verus!
