//! The snapshot cache: the most recent full capture of all readable
//! regions, shared between one refresher and any number of readers.
//!
//! A snapshot is replaced wholesale under a write lock and observed
//! under a read lock, so every query sees one whole generation: the
//! lock's invariant `data_wf` holds of every value a reader can borrow,
//! and each query's results are all drawn from that one borrowed value.

use vstd::prelude::*;
use vstd::multiset::Multiset;
use vstd::rwlock::RwLock;
use crate::range::AddressRange;
use crate::reader::{map_wf, spec_slice, MemoryMap};
use vstd::slice::slice_to_vec;

verus! {

/// One installed snapshot: the captures and, alongside, their ranges in
/// ascending order of start address.
pub struct MemoryRefData {
    pub maps: Vec<MemoryMap>,
    pub ranges: Vec<AddressRange>,
}

pub open spec fn ranges_sorted(rs: Seq<AddressRange>) -> bool {
    forall|i: int, j: int| 0 <= i < j < rs.len() ==> rs[i].start <= rs[j].start
}

/// A snapshot is well formed when the sorted range list mirrors the
/// captures one for one and every capture spans its region.
pub open spec fn data_wf(d: MemoryRefData) -> bool {
    &&& d.ranges@.len() == d.maps@.len()
    &&& forall|i: int|
        0 <= i < d.maps@.len() ==> d.ranges@[i] == (#[trigger] d.maps@[i]).metadata.range
    &&& forall|i: int| 0 <= i < d.maps@.len() ==> map_wf(#[trigger] d.maps@[i])
    &&& ranges_sorted(d.ranges@)
}

pub open spec fn start_le(a: MemoryMap, b: MemoryMap) -> bool {
    a.metadata.range.start <= b.metadata.range.start
}

pub open spec fn maps_sorted(ms: Seq<MemoryMap>) -> bool {
    forall|i: int, j: int| 0 <= i < j < ms.len() ==> start_le(#[trigger] ms[i], #[trigger] ms[j])
}

/// Sorts captures by start address; the result holds exactly the given
/// captures.
fn sort_maps(v: Vec<MemoryMap>) -> (r: Vec<MemoryMap>)
    ensures
        maps_sorted(r@),
        r@.to_multiset() == v@.to_multiset(),
        r@.len() == v@.len(),
{
    let ghost orig = v@;
    let mut src = v;
    let mut out: Vec<MemoryMap> = Vec::new();
    proof {
        assert(out@.to_multiset() =~= Multiset::<MemoryMap>::empty()) by {
            vstd::seq_lib::to_multiset_len(out@);
        }
        assert(out@.to_multiset().add(src@.to_multiset()) =~= orig.to_multiset());
    }
    while src.len() > 0
        invariant
            out@.to_multiset().add(src@.to_multiset()) =~= orig.to_multiset(),
            out@.len() + src@.len() == orig.len(),
            maps_sorted(out@),
            forall|a: int, b: int|
                0 <= a < out@.len() && 0 <= b < src@.len() ==> start_le(
                    #[trigger] out@[a],
                    #[trigger] src@[b],
                ),
        decreases src@.len(),
    {
        let mut best: usize = 0;
        let mut j: usize = 1;
        while j < src.len()
            invariant
                0 <= best < j <= src@.len(),
                src@.len() > 0,
                forall|k: int| 0 <= k < j ==> start_le(src@[best as int], #[trigger] src@[k]),
            decreases src@.len() - j,
        {
            if src[j].metadata.range.start < src[best].metadata.range.start {
                best = j;
            }
            j = j + 1;
        }
        let ghost old_src = src@;
        let ghost old_out = out@;
        let m = src.remove(best);
        out.push(m);
        proof {
            vstd::seq_lib::to_multiset_build(old_out, m);
            vstd::seq_lib::to_multiset_remove(old_src, best as int);
            assert(out@.to_multiset() =~= old_out.to_multiset().insert(m));
            assert(src@.to_multiset() =~= old_src.to_multiset().remove(m));
            assert(old_src[best as int] == m);
            assert(old_src.contains(m));
            vstd::seq_lib::to_multiset_contains(old_src, m);
            assert(old_src.to_multiset().count(m) > 0);
            assert(out@.to_multiset().add(src@.to_multiset()) =~= orig.to_multiset());
            assert forall|a: int, b: int|
                0 <= a < out@.len() && 0 <= b < src@.len() implies start_le(
                #[trigger] out@[a],
                #[trigger] src@[b],
            ) by {
                if a < old_out.len() {
                    assert(out@[a] == old_out[a]);
                } else {
                    assert(out@[a] == m);
                }
                if b < best {
                    assert(src@[b] == old_src[b]);
                } else {
                    assert(src@[b] == old_src[b + 1]);
                }
            }
        }
    }
    proof {
        broadcast use vstd::multiset::group_multiset_axioms;

        assert forall|x: MemoryMap| out@.to_multiset().count(x) == orig.to_multiset()
            .count(x) by {
            vstd::seq_lib::to_multiset_contains(src@, x);
            assert(!src@.contains(x));
            assert(src@.to_multiset().count(x) == 0);
        }
        assert(out@.to_multiset() =~= orig.to_multiset());
    }
    out
}

/// Builds a well-formed snapshot from captured segments: the captures
/// sorted by start address, and the matching range list.
pub fn build_snapshot(memory_maps: Vec<MemoryMap>) -> (d: MemoryRefData)
    requires
        forall|k: int| 0 <= k < memory_maps@.len() ==> map_wf(#[trigger] memory_maps@[k]),
    ensures
        data_wf(d),
        d.maps@.to_multiset() == memory_maps@.to_multiset(),
        d.maps@.len() == memory_maps@.len(),
{
    let ghost input = memory_maps@;
    let sorted = sort_maps(memory_maps);
    let mut ranges: Vec<AddressRange> = Vec::new();
    let mut i: usize = 0;
    while i < sorted.len()
        invariant
            0 <= i <= sorted@.len(),
            ranges@.len() == i,
            forall|k: int|
                0 <= k < i ==> ranges@[k] == (#[trigger] sorted@[k]).metadata.range,
        decreases sorted@.len() - i,
    {
        ranges.push(sorted[i].metadata.range);
        i = i + 1;
    }
    proof {
        assert forall|k: int| 0 <= k < sorted@.len() implies map_wf(
            #[trigger] sorted@[k],
        ) by {
            assert(sorted@.contains(sorted@[k]));
            vstd::seq_lib::to_multiset_contains(sorted@, sorted@[k]);
            vstd::seq_lib::to_multiset_contains(input, sorted@[k]);
            assert(input.contains(sorted@[k]));
            let j = choose|j: int| 0 <= j < input.len() && input[j] == sorted@[k];
            assert(map_wf(input[j]));
        }
        assert forall|a: int, b: int| 0 <= a < b < ranges@.len() implies ranges@[a].start
            <= ranges@[b].start by {
            assert(start_le(sorted@[a], sorted@[b]));
        }
    }
    MemoryRefData { maps: sorted, ranges }
}

/// The index of the first range containing `a`, or the length when none
/// does.
pub open spec fn first_containing(rs: Seq<AddressRange>, a: usize) -> nat
    decreases rs.len(),
{
    if rs.len() == 0 {
        0
    } else if rs.first().spec_contains(a) {
        0
    } else {
        (1 + first_containing(rs.drop_first(), a)) as nat
    }
}

proof fn lemma_first_containing_is(rs: Seq<AddressRange>, a: usize, k: int)
    requires
        0 <= k <= rs.len(),
        forall|l: int| 0 <= l < k ==> !(#[trigger] rs[l]).spec_contains(a),
        k < rs.len() ==> rs[k].spec_contains(a),
    ensures
        first_containing(rs, a) == k,
    decreases rs.len(),
{
    if rs.len() == 0 {
    } else if rs.first().spec_contains(a) {
        assert(k == 0);
    } else {
        assert(k >= 1);
        let t = rs.drop_first();
        assert forall|l: int| 0 <= l < k - 1 implies !(#[trigger] t[l]).spec_contains(
            a,
        ) by {
            assert(t[l] == rs[l + 1]);
        }
        if k - 1 < t.len() {
            assert(t[k - 1] == rs[k]);
        }
        lemma_first_containing_is(t, a, k - 1);
    }
}

/// What one query returns, all drawn from the one snapshot `d`.
pub open spec fn query_post(
    d: MemoryRefData,
    start: usize,
    end: usize,
    idx: usize,
    meta: Option<MemoryMap>,
    bytes: Seq<u8>,
) -> bool {
    let i = first_containing(d.ranges@, start);
    if i < d.ranges@.len() {
        &&& idx == i
        &&& meta matches Some(m) && m.pid == d.maps@[i as int].pid && m.metadata@
            == d.maps@[i as int].metadata@ && m.memory@ == d.maps@[i as int].memory@
        &&& bytes == spec_slice(d.maps@[i as int], start, end)
    } else {
        &&& idx == 0
        &&& meta is None
        &&& bytes.len() == end - start
        &&& forall|k: int| 0 <= k < bytes.len() ==> bytes[k] == 0
    }
}

/// The thread-safe, swap-on-replace snapshot store.
pub struct AtomicMemoryReference {
    lock: RwLock<MemoryRefData, spec_fn(MemoryRefData) -> bool>,
}

impl AtomicMemoryReference {
    /// The store's invariant: exactly the well-formed snapshots can be
    /// installed.
    pub closed spec fn wf(&self) -> bool {
        forall|d: MemoryRefData| #[trigger] self.lock.inv(d) <==> data_wf(d)
    }

    /// Creates a store holding the empty snapshot.
    pub fn new() -> (r: AtomicMemoryReference)
        ensures
            r.wf(),
    {
        let d = MemoryRefData { maps: Vec::new(), ranges: Vec::new() };
        let lock = RwLock::new(d, Ghost(|x: MemoryRefData| data_wf(x)));
        AtomicMemoryReference { lock }
    }

    /// Atomically installs a complete snapshot built from the given
    /// captures; readers see the prior snapshot or this one, never a
    /// mixture.
    pub fn set_maps(&self, memory_maps: Vec<MemoryMap>)
        requires
            self.wf(),
            forall|k: int|
                0 <= k < memory_maps@.len() ==> map_wf(#[trigger] memory_maps@[k]),
    {
        let d = build_snapshot(memory_maps);
        let (_, handle) = self.lock.acquire_write();
        handle.release_write(d);
    }

    /// Looks up the capture whose range contains `start` in the
    /// currently installed snapshot and hands back its index, a copy of
    /// the capture, and the bytes of `[start, end)` it holds; without a
    /// match, index zero, no capture, and `end - start` zero bytes.
    /// Everything returned comes from one snapshot generation.
    pub fn get_range(&self, start: usize, end: usize) -> (r: (usize, Option<MemoryMap>, Vec<u8>))
        requires
            self.wf(),
            start <= end,
        ensures
            exists|d: MemoryRefData|
                #[trigger] data_wf(d) && query_post(d, start, end, r.0, r.1, r.2@),
    {
        let read_handle = self.lock.acquire_read();
        let data = read_handle.borrow();
        let ghost d = *data;
        let mut i: usize = 0;
        let mut result: (usize, Option<MemoryMap>, Vec<u8>) = (0, None, Vec::new());
        let mut found = false;
        while i < data.ranges.len()
            invariant
                0 <= i <= data.ranges@.len(),
                data_wf(*data),
                d == *data,
                start <= end,
                !found,
                forall|l: int| 0 <= l < i ==> !(#[trigger] data.ranges@[l]).spec_contains(start),
            decreases data.ranges@.len() - i,
        {
            if data.ranges[i].contains(start) {
                proof {
                    lemma_first_containing_is(data.ranges@, start, i as int);
                    assert(map_wf(d.maps@[i as int]));
                }
                let m = &data.maps[i];
                let bytes: Vec<u8> = slice_to_vec(m.slice(start, end));
                let copy = m.duplicate();
                let out: (usize, Option<MemoryMap>, Vec<u8>) = (i, Some(copy), bytes);
                proof {
                    assert(query_post(d, start, end, out.0, out.1, out.2@));
                }
                read_handle.release_read();
                return out;
            }
            i = i + 1;
        }
        proof {
            lemma_first_containing_is(data.ranges@, start, data.ranges@.len() as int);
        }
        read_handle.release_read();
        let zeros = crate::reader::zero_vec(end - start);
        let out: (usize, Option<MemoryMap>, Vec<u8>) = (0, None, zeros);
        proof {
            assert(query_post(d, start, end, out.0, out.1, out.2@));
        }
        out
    }

    /// A copy of the installed snapshot's sorted range list.
    pub fn ranges(&self) -> (r: Vec<AddressRange>)
        requires
            self.wf(),
        ensures
            ranges_sorted(r@),
            exists|d: MemoryRefData| #[trigger] data_wf(d) && r@ == d.ranges@,
    {
        let read_handle = self.lock.acquire_read();
        let data = read_handle.borrow();
        let ghost d = *data;
        let mut out: Vec<AddressRange> = Vec::new();
        let mut i: usize = 0;
        while i < data.ranges.len()
            invariant
                0 <= i <= data.ranges@.len(),
                d == *data,
                out@ =~= data.ranges@.take(i as int),
            decreases data.ranges@.len() - i,
        {
            out.push(data.ranges[i]);
            proof {
                assert(out@ =~= data.ranges@.take(i as int + 1));
            }
            i = i + 1;
        }
        proof {
            assert(data.ranges@.take(data.ranges@.len() as int) =~= data.ranges@);
        }
        read_handle.release_read();
        out
    }
}

} // verus!
