//! The region enumerator: parses a process's mapping table into ordered,
//! typed metadata records.
//!
//! A mapping-table line has the shape
//! `start-end perms offset device inode [path]`, with the addresses and
//! the offset in hexadecimal and the inode in decimal.  A malformed line
//! is silently skipped, and a region without read permission is excluded
//! entirely.  A missing path defaults to the sentinel `"[anonymous]"`.

use vstd::prelude::*;
use crate::range::AddressRange;
use crate::text::{
    all_hex_digits, dec_value, hex_value, parse_dec_usize, parse_hex_usize, all_dec_digits,
    utf8_string,
};
use vstd::slice::{slice_subrange, slice_to_vec};
use vstd::string::{StringExecFns, StrSliceExecFns};
use vstd::utf8::{decode_utf8, valid_utf8};

verus! {

/// One record of the mapping table, immutable once created.
#[derive(Clone, Debug)]
pub struct AddressSpaceMetadata {
    pub range: AddressRange,
    pub permissions: String,
    pub offset: usize,
    pub device: String,
    pub inode: usize,
    pub path: String,
    pub size: usize,
}

/// The mathematical content of a metadata record.
#[verifier::ext_equal]
pub struct RegionSpec {
    pub range: AddressRange,
    pub permissions: Seq<char>,
    pub offset: int,
    pub device: Seq<char>,
    pub inode: int,
    pub path: Seq<char>,
    pub size: int,
}

impl View for AddressSpaceMetadata {
    type V = RegionSpec;

    open spec fn view(&self) -> RegionSpec {
        RegionSpec {
            range: self.range,
            permissions: self.permissions@,
            offset: self.offset as int,
            device: self.device@,
            inode: self.inode as int,
            path: self.path@,
            size: self.size as int,
        }
    }
}

/// A metadata record is well formed when its range is nonempty, its size
/// agrees with the range, and it grants read access.
pub open spec fn region_wf(m: RegionSpec) -> bool {
    m.range.wf() && m.size == m.range.end - m.range.start && contains_char(
        m.permissions,
        'r',
    )
}

pub open spec fn contains_char(s: Seq<char>, c: char) -> bool {
    exists|i: int| 0 <= i < s.len() && s[i] == c
}

// ---------------------------------------------------------------------
// Whitespace tokenization
// ---------------------------------------------------------------------
pub open spec fn is_ws(b: u8) -> bool {
    b == 0x20 || b == 0x09
}

/// Length of the maximal non-whitespace prefix.
pub open spec fn token_len(s: Seq<u8>) -> nat
    decreases s.len(),
{
    if s.len() == 0 || is_ws(s[0]) {
        0
    } else {
        (1 + token_len(s.drop_first())) as nat
    }
}

proof fn lemma_token_len_le(s: Seq<u8>)
    ensures
        token_len(s) <= s.len(),
    decreases s.len(),
{
    if s.len() == 0 || is_ws(s[0]) {
    } else {
        lemma_token_len_le(s.drop_first());
    }
}

/// The whitespace-separated tokens of `s`, in order, without empties.
pub open spec fn spec_tokens(s: Seq<u8>) -> Seq<Seq<u8>>
    decreases s.len(),
    when s.len() >= 0
    via spec_tokens_dec
{
    if s.len() == 0 {
        Seq::empty()
    } else if is_ws(s[0]) {
        spec_tokens(s.drop_first())
    } else {
        seq![s.take(token_len(s) as int)] + spec_tokens(s.skip(token_len(s) as int))
    }
}

#[via_fn]
proof fn spec_tokens_dec(s: Seq<u8>) {
    lemma_token_len_le(s);
}

/// `token_len` is the unique scan bound: all bytes before it are
/// non-whitespace and the byte at it, if any, is whitespace.
proof fn lemma_token_len_is(s: Seq<u8>, k: int)
    requires
        0 <= k <= s.len(),
        forall|l: int| 0 <= l < k ==> !is_ws(#[trigger] s[l]),
        k < s.len() ==> is_ws(s[k]),
    ensures
        token_len(s) == k,
    decreases s.len(),
{
    if s.len() == 0 {
    } else if is_ws(s[0]) {
        assert(k == 0);
    } else {
        assert(k >= 1);
        let t = s.drop_first();
        assert forall|l: int| 0 <= l < k - 1 implies !is_ws(#[trigger] t[l]) by {
            assert(t[l] == s[l + 1]);
        }
        if k - 1 < t.len() {
            assert(t[k - 1] == s[k]);
        }
        lemma_token_len_is(t, k - 1);
    }
}

fn is_ws_exec(b: u8) -> (r: bool)
    ensures
        r == is_ws(b),
{
    b == 0x20 || b == 0x09
}

/// Splits a line into its whitespace-separated tokens.
pub fn tokenize(s: &[u8]) -> (r: Vec<Vec<u8>>)
    ensures
        r@.map_values(|t: Vec<u8>| t@) == spec_tokens(s@),
{
    let mut out: Vec<Vec<u8>> = Vec::new();
    let mut i: usize = 0;
    proof {
        assert(s@.skip(0) =~= s@);
        assert(out@.map_values(|t: Vec<u8>| t@) + spec_tokens(s@) =~= spec_tokens(s@));
    }
    while i < s.len()
        invariant
            0 <= i <= s@.len(),
            spec_tokens(s@) == out@.map_values(|t: Vec<u8>| t@) + spec_tokens(
                s@.skip(i as int),
            ),
        decreases s@.len() - i,
    {
        if is_ws_exec(s[i]) {
            proof {
                assert(s@.skip(i as int).drop_first() =~= s@.skip(i as int + 1));
            }
            i = i + 1;
        } else {
            let start = i;
            let mut j = i + 1;
            while j < s.len() && !is_ws_exec(s[j])
                invariant
                    start < j <= s@.len(),
                    start < s@.len(),
                    forall|l: int| start <= l < j ==> !is_ws(#[trigger] s@[l]),
                decreases s@.len() - j,
            {
                j = j + 1;
            }
            let tok_slice = slice_subrange(s, start, j);
            let tok: Vec<u8> = slice_to_vec(tok_slice);
            proof {
                let rest = s@.skip(start as int);
                assert forall|l: int| 0 <= l < j - start implies !is_ws(#[trigger] rest[l]) by {
                    assert(rest[l] == s@[start + l]);
                }
                if j < s@.len() {
                    assert(rest[j - start] == s@[j as int]);
                }
                lemma_token_len_is(rest, j - start);
                assert(rest.take(j - start) =~= s@.subrange(start as int, j as int));
                assert(rest.skip(j - start) =~= s@.skip(j as int));
            }
            let ghost old_out = out@;
            out.push(tok);
            proof {
                assert(out@.map_values(|t: Vec<u8>| t@) =~= old_out.map_values(
                    |t: Vec<u8>| t@,
                ) + seq![tok@]);
                assert(out@.map_values(|t: Vec<u8>| t@) + spec_tokens(s@.skip(j as int))
                    =~= old_out.map_values(|t: Vec<u8>| t@) + spec_tokens(
                    s@.skip(start as int),
                ));
            }
            i = j;
        }
    }
    proof {
        assert(s@.skip(i as int) =~= Seq::<u8>::empty());
        assert(out@.map_values(|t: Vec<u8>| t@) =~= spec_tokens(s@));
    }
    out
}

// ---------------------------------------------------------------------
// Line splitting
// ---------------------------------------------------------------------
/// Length of the prefix before the first line feed.
pub open spec fn line_len(s: Seq<u8>) -> nat
    decreases s.len(),
{
    if s.len() == 0 || s[0] == 0x0a {
        0
    } else {
        (1 + line_len(s.drop_first())) as nat
    }
}

proof fn lemma_line_len_le(s: Seq<u8>)
    ensures
        line_len(s) <= s.len(),
    decreases s.len(),
{
    if s.len() == 0 || s[0] == 0x0a {
    } else {
        lemma_line_len_le(s.drop_first());
    }
}

/// The lines of `s`, split at line feeds; no trailing empty line after a
/// final line feed.
pub open spec fn spec_lines(s: Seq<u8>) -> Seq<Seq<u8>>
    decreases s.len(),
    when s.len() >= 0
    via spec_lines_dec
{
    if s.len() == 0 {
        Seq::empty()
    } else if line_len(s) == s.len() {
        seq![s]
    } else {
        seq![s.take(line_len(s) as int)] + spec_lines(s.skip(line_len(s) as int + 1))
    }
}

#[via_fn]
proof fn spec_lines_dec(s: Seq<u8>) {
    lemma_line_len_le(s);
}

proof fn lemma_line_len_is(s: Seq<u8>, k: int)
    requires
        0 <= k <= s.len(),
        forall|l: int| 0 <= l < k ==> #[trigger] s[l] != 0x0a,
        k < s.len() ==> s[k] == 0x0a,
    ensures
        line_len(s) == k,
    decreases s.len(),
{
    if s.len() == 0 {
    } else if s[0] == 0x0a {
        assert(k == 0);
    } else {
        assert(k >= 1);
        let t = s.drop_first();
        assert forall|l: int| 0 <= l < k - 1 implies #[trigger] t[l] != 0x0a by {
            assert(t[l] == s[l + 1]);
        }
        if k - 1 < t.len() {
            assert(t[k - 1] == s[k]);
        }
        lemma_line_len_is(t, k - 1);
    }
}

/// Splits a byte buffer into its lines.
pub fn split_lines(s: &[u8]) -> (r: Vec<Vec<u8>>)
    ensures
        r@.map_values(|t: Vec<u8>| t@) == spec_lines(s@),
{
    let mut out: Vec<Vec<u8>> = Vec::new();
    let mut i: usize = 0;
    proof {
        assert(s@.skip(0) =~= s@);
        assert(out@.map_values(|t: Vec<u8>| t@) + spec_lines(s@) =~= spec_lines(s@));
    }
    while i < s.len()
        invariant
            0 <= i <= s@.len(),
            spec_lines(s@) == out@.map_values(|t: Vec<u8>| t@) + spec_lines(
                s@.skip(i as int),
            ),
        decreases s@.len() - i,
    {
        let start = i;
        let mut j = i;
        while j < s.len() && s[j] != 0x0a
            invariant
                start <= j <= s@.len(),
                forall|l: int| start <= l < j ==> #[trigger] s@[l] != 0x0a,
            decreases s@.len() - j,
        {
            j = j + 1;
        }
        let line_slice = slice_subrange(s, start, j);
        let line: Vec<u8> = slice_to_vec(line_slice);
        proof {
            let rest = s@.skip(start as int);
            assert forall|l: int| 0 <= l < j - start implies #[trigger] rest[l] != 0x0a by {
                assert(rest[l] == s@[start + l]);
            }
            if j < s@.len() {
                assert(rest[j - start] == s@[j as int]);
            }
            lemma_line_len_is(rest, j - start);
            assert(rest.take(j - start) =~= s@.subrange(start as int, j as int));
            if j < s.len() {
                assert(rest.skip(j - start + 1) =~= s@.skip(j as int + 1));
            } else {
                assert(rest.take(j - start) =~= rest);
            }
        }
        let ghost old_out = out@;
        out.push(line);
        proof {
            assert(out@.map_values(|t: Vec<u8>| t@) =~= old_out.map_values(|t: Vec<u8>| t@)
                + seq![line@]);
            if j < s.len() {
                assert(out@.map_values(|t: Vec<u8>| t@) + spec_lines(s@.skip(j as int + 1))
                    =~= old_out.map_values(|t: Vec<u8>| t@) + spec_lines(
                    s@.skip(start as int),
                ));
            } else {
                assert(spec_lines(s@.skip(start as int)) =~= seq![line@]);
                assert(out@.map_values(|t: Vec<u8>| t@) =~= old_out.map_values(
                    |t: Vec<u8>| t@,
                ) + spec_lines(s@.skip(start as int)));
                assert(s@.skip(s@.len() as int) =~= Seq::<u8>::empty());
            }
        }
        if j < s.len() {
            i = j + 1;
        } else {
            i = j;
            proof {
                assert(s@.skip(i as int) =~= Seq::<u8>::empty());
            }
        }
    }
    proof {
        assert(s@.skip(i as int) =~= Seq::<u8>::empty());
        assert(out@.map_values(|t: Vec<u8>| t@) =~= spec_lines(s@));
    }
    out
}

// ---------------------------------------------------------------------
// One line of the mapping table
// ---------------------------------------------------------------------
/// Index of the first occurrence of `b`, or the length when absent.
pub open spec fn first_index(s: Seq<u8>, b: u8) -> nat
    decreases s.len(),
{
    if s.len() == 0 || s[0] == b {
        0
    } else {
        (1 + first_index(s.drop_first(), b)) as nat
    }
}

proof fn lemma_first_index_is(s: Seq<u8>, b: u8, k: int)
    requires
        0 <= k <= s.len(),
        forall|l: int| 0 <= l < k ==> #[trigger] s[l] != b,
        k < s.len() ==> s[k] == b,
    ensures
        first_index(s, b) == k,
    decreases s.len(),
{
    if s.len() == 0 {
    } else if s[0] == b {
        assert(k == 0);
    } else {
        assert(k >= 1);
        let t = s.drop_first();
        assert forall|l: int| 0 <= l < k - 1 implies #[trigger] t[l] != b by {
            assert(t[l] == s[l + 1]);
        }
        if k - 1 < t.len() {
            assert(t[k - 1] == s[k]);
        }
        lemma_first_index_is(t, b, k - 1);
    }
}

/// The hexadecimal start-address token of a `start-end` range field.
pub open spec fn range_start_tok(t: Seq<u8>) -> Seq<u8> {
    t.take(first_index(t, 0x2d) as int)
}

/// The hexadecimal end-address token of a `start-end` range field: the
/// part between the first dash and the following dash or the end.
pub open spec fn range_end_tok(t: Seq<u8>) -> Seq<u8> {
    let rest = t.skip(first_index(t, 0x2d) as int + 1);
    rest.take(first_index(rest, 0x2d) as int)
}

/// A hexadecimal token that denotes an address representable in `usize`.
pub open spec fn hex_tok_ok(t: Seq<u8>) -> bool {
    t.len() > 0 && all_hex_digits(t) && hex_value(t) <= usize::MAX
}

/// Syntactic validity of one mapping-table line, read permission
/// included: such a line, and no other, yields a metadata record.
pub open spec fn line_ok(line: Seq<u8>) -> bool {
    let toks = spec_tokens(line);
    &&& toks.len() >= 5
    &&& first_index(toks[0], 0x2d) < toks[0].len()
    &&& hex_tok_ok(range_start_tok(toks[0]))
    &&& hex_tok_ok(range_end_tok(toks[0]))
    &&& hex_value(range_start_tok(toks[0])) < hex_value(range_end_tok(toks[0]))
    &&& valid_utf8(toks[1])
    &&& contains_char(decode_utf8(toks[1]), 'r')
    &&& valid_utf8(toks[3])
    &&& (toks.len() >= 6 ==> valid_utf8(toks[5]))
}

/// The record a valid line denotes.
pub open spec fn line_record(line: Seq<u8>) -> RegionSpec
    recommends
        line_ok(line),
{
    let toks = spec_tokens(line);
    let start = hex_value(range_start_tok(toks[0]));
    let end = hex_value(range_end_tok(toks[0]));
    RegionSpec {
        range: AddressRange { start: start as usize, end: end as usize },
        permissions: decode_utf8(toks[1]),
        offset: if toks[2].len() > 0 && all_hex_digits(toks[2]) && hex_value(toks[2])
            <= usize::MAX {
            hex_value(toks[2]) as int
        } else {
            0
        },
        device: decode_utf8(toks[3]),
        inode: if toks[4].len() > 0 && all_dec_digits(toks[4]) && dec_value(toks[4])
            <= usize::MAX {
            dec_value(toks[4]) as int
        } else {
            0
        },
        path: if toks.len() >= 6 {
            decode_utf8(toks[5])
        } else {
            "[anonymous]"@
        },
        size: end - start,
    }
}

fn string_contains_char(s: &str, c: char) -> (r: bool)
    ensures
        r == contains_char(s@, c),
{
    let n = s.unicode_len();
    let mut i: usize = 0;
    while i < n
        invariant
            0 <= i <= n,
            n == s@.len(),
            forall|l: int| 0 <= l < i ==> #[trigger] s@[l] != c,
        decreases n - i,
    {
        if s.get_char(i) == c {
            return true;
        }
        i = i + 1;
    }
    false
}

fn find_byte(t: &[u8], b: u8) -> (r: usize)
    ensures
        r == first_index(t@, b),
        r <= t@.len(),
{
    let mut i: usize = 0;
    while i < t.len()
        invariant
            0 <= i <= t@.len(),
            forall|l: int| 0 <= l < i ==> #[trigger] t@[l] != b,
        decreases t@.len() - i,
    {
        if t[i] == b {
            proof {
                lemma_first_index_is(t@, b, i as int);
            }
            return i;
        }
        i = i + 1;
    }
    proof {
        lemma_first_index_is(t@, b, i as int);
    }
    i
}

/// Builds a `String` from a token; fails exactly on bytes that are not
/// UTF-8.
fn token_string(t: &[u8]) -> (r: Option<String>)
    ensures
        match r {
            Some(s) => valid_utf8(t@) && s@ == decode_utf8(t@),
            None => !valid_utf8(t@),
        },
{
    let v: Vec<u8> = slice_to_vec(t);
    utf8_string(v)
}

/// Parses one mapping-table line.  Returns a record exactly for a
/// syntactically valid line that grants read permission; every other
/// line is skipped.
pub fn parse_maps_line(line: &[u8]) -> (r: Option<AddressSpaceMetadata>)
    ensures
        match r {
            Some(m) => line_ok(line@) && m@ == line_record(line@) && region_wf(m@),
            None => !line_ok(line@),
        },
{
    let toks = tokenize(line);
    let ghost stoks = spec_tokens(line@);
    if toks.len() < 5 {
        return None;
    }
    proof {
        assert(stoks[0] == toks@.map_values(|t: Vec<u8>| t@)[0]);
        assert(stoks[1] == toks@.map_values(|t: Vec<u8>| t@)[1]);
        assert(stoks[2] == toks@.map_values(|t: Vec<u8>| t@)[2]);
        assert(stoks[3] == toks@.map_values(|t: Vec<u8>| t@)[3]);
        assert(stoks[4] == toks@.map_values(|t: Vec<u8>| t@)[4]);
    }
    let tok0: &Vec<u8> = &toks[0];
    let dash = find_byte(tok0.as_slice(), 0x2d);
    if dash >= tok0.len() {
        return None;
    }
    let start_slice = slice_subrange(tok0.as_slice(), 0, dash);
    proof {
        assert(start_slice@ =~= range_start_tok(stoks[0]));
    }
    let start = match parse_hex_usize(start_slice) {
        Some(v) => v,
        None => {
            return None;
        },
    };
    let rest = slice_subrange(tok0.as_slice(), dash + 1, tok0.len());
    proof {
        assert(rest@ =~= stoks[0].skip(first_index(stoks[0], 0x2d) as int + 1));
    }
    let dash2 = find_byte(rest, 0x2d);
    let end_slice = slice_subrange(rest, 0, dash2);
    proof {
        assert(end_slice@ =~= range_end_tok(stoks[0]));
    }
    let end = match parse_hex_usize(end_slice) {
        Some(v) => v,
        None => {
            return None;
        },
    };
    if start >= end {
        return None;
    }
    let permissions = match token_string(toks[1].as_slice()) {
        Some(s) => s,
        None => {
            return None;
        },
    };
    if !string_contains_char(permissions.as_str(), 'r') {
        return None;
    }
    let device = match token_string(toks[3].as_slice()) {
        Some(s) => s,
        None => {
            return None;
        },
    };
    let offset = match parse_hex_usize(toks[2].as_slice()) {
        Some(v) => v,
        None => 0,
    };
    let inode = match parse_dec_usize(toks[4].as_slice()) {
        Some(v) => v,
        None => 0,
    };
    let path: String;
    if toks.len() >= 6 {
        proof {
            assert(stoks[5] == toks@.map_values(|t: Vec<u8>| t@)[5]);
        }
        path = match token_string(toks[5].as_slice()) {
            Some(s) => s,
            None => {
                return None;
            },
        };
    } else {
        path = String::from_str("[anonymous]");
    }
    let m = AddressSpaceMetadata {
        range: AddressRange { start, end },
        permissions,
        offset,
        device,
        inode,
        path,
        size: end - start,
    };
    proof {
        assert(m@ =~= line_record(line@));
    }
    Some(m)
}

/// The records of all valid lines, in order of the table.
pub open spec fn spec_enumerate(lines: Seq<Seq<u8>>) -> Seq<RegionSpec>
    decreases lines.len(),
{
    if lines.len() == 0 {
        Seq::empty()
    } else {
        (if line_ok(lines[0]) {
            seq![line_record(lines[0])]
        } else {
            Seq::empty()
        }) + spec_enumerate(lines.drop_first())
    }
}

/// Parses a whole mapping table: the records of its valid lines, in
/// table order.
pub fn parse_maps_bytes(contents: &[u8]) -> (r: Vec<AddressSpaceMetadata>)
    ensures
        r@.map_values(|m: AddressSpaceMetadata| m@) == spec_enumerate(spec_lines(contents@)),
        forall|k: int| 0 <= k < r@.len() ==> region_wf(#[trigger] r@[k]@),
{
    let lines = split_lines(contents);
    let ghost slines = spec_lines(contents@);
    let mut out: Vec<AddressSpaceMetadata> = Vec::new();
    let mut i: usize = 0;
    proof {
        assert(slines.skip(0) =~= slines);
        assert(out@.map_values(|m: AddressSpaceMetadata| m@) + spec_enumerate(slines)
            =~= spec_enumerate(slines));
    }
    while i < lines.len()
        invariant
            0 <= i <= lines@.len(),
            lines@.map_values(|t: Vec<u8>| t@) == slines,
            out@.map_values(|m: AddressSpaceMetadata| m@) + spec_enumerate(
                slines.skip(i as int),
            ) == spec_enumerate(slines),
            forall|k: int| 0 <= k < out@.len() ==> region_wf(#[trigger] out@[k]@),
        decreases lines@.len() - i,
    {
        proof {
            assert(lines@[i as int]@ == slines[i as int]);
            assert(slines.skip(i as int).drop_first() =~= slines.skip(i as int + 1));
            assert(slines.skip(i as int)[0] == slines[i as int]);
        }
        let ghost old_out = out@;
        match parse_maps_line(lines[i].as_slice()) {
            Some(m) => {
                out.push(m);
                proof {
                    assert(out@.map_values(|m: AddressSpaceMetadata| m@) =~= old_out.map_values(
                        |m: AddressSpaceMetadata| m@,
                    ) + seq![line_record(slines[i as int])]);
                    assert(out@.map_values(|m: AddressSpaceMetadata| m@) + spec_enumerate(
                        slines.skip(i as int + 1),
                    ) =~= spec_enumerate(slines));
                }
            },
            None => {
                proof {
                    assert(out@.map_values(|m: AddressSpaceMetadata| m@) + spec_enumerate(
                        slines.skip(i as int + 1),
                    ) =~= spec_enumerate(slines));
                }
            },
        }
        i = i + 1;
    }
    proof {
        assert(slines.skip(i as int) =~= Seq::<Seq<u8>>::empty());
        assert(out@.map_values(|m: AddressSpaceMetadata| m@) =~= spec_enumerate(slines));
    }
    out
}

/// Law: a line whose permissions field lacks read access yields no
/// record.
pub proof fn lemma_unreadable_line_rejected(line: Seq<u8>)
    requires
        spec_tokens(line).len() >= 2,
        !contains_char(decode_utf8(spec_tokens(line)[1]), 'r'),
    ensures
        !line_ok(line),
{
}

} // verus!
