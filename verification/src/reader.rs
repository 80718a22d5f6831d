//! The segment reader: captures byte ranges of a process's memory
//! through its pseudo-files, all-or-nothing per region, and carries the
//! region metadata alongside the bytes.

use vstd::prelude::*;
use crate::dump::ReadError;
use crate::maps::{parse_maps_bytes, region_wf, AddressSpaceMetadata};
use crate::nav::RegionEntry;
use crate::range::AddressRange;
use crate::stack_pointer::StackProbe;
use crate::sys::{sys_close, sys_open_read, sys_pread_at, sys_read_chunk, SysErr};
use crate::text::{ascii_string, chars_of_ascii, dec_digits, lemma_dec_digits_ascii, push_dec};
use vstd::string::{StringExecFns, StrSliceExecFns};

verus! {

/// At most this many chunks are read from one pseudo-file.
pub const MAX_FILE_CHUNKS: usize = 4096;

/// The path of a per-process pseudo-file.
pub open spec fn spec_proc_path(pid: nat, kind: Seq<char>) -> Seq<char> {
    "/proc/"@ + chars_of_ascii(dec_digits(pid)) + "/"@ + kind
}

/// Builds `/proc/<pid>/<kind>`.
pub fn proc_path(pid: i32, kind: &str) -> (r: String)
    requires
        pid >= 0,
    ensures
        r@ == spec_proc_path(pid as nat, kind@),
{
    let mut s = String::from_str("/proc/");
    let mut digits: Vec<u8> = Vec::new();
    push_dec(&mut digits, pid as u64);
    proof {
        lemma_dec_digits_ascii(pid as nat);
    }
    s.append(ascii_string(digits).as_str());
    s.append("/");
    s.append(kind);
    proof {
        assert(s@ =~= spec_proc_path(pid as nat, kind@));
    }
    s
}

/// Reads a pseudo-file to its end (or to the chunk cap), chunk by chunk.
pub(crate) fn read_whole_file(fd: i32) -> (r: Option<Vec<u8>>) {
    let mut out: Vec<u8> = Vec::new();
    let mut rounds: usize = 0;
    while rounds < MAX_FILE_CHUNKS
        invariant
            0 <= rounds <= MAX_FILE_CHUNKS,
        decreases MAX_FILE_CHUNKS - rounds,
    {
        let mut chunk = match sys_read_chunk(fd) {
            Some(c) => c,
            None => {
                return None;
            },
        };
        if chunk.len() == 0 {
            return Some(out);
        }
        out.append(&mut chunk);
        rounds = rounds + 1;
    }
    Some(out)
}

/// A buffer of `len` zero bytes.
pub fn zero_vec(len: usize) -> (r: Vec<u8>)
    ensures
        r@.len() == len,
        forall|i: int| 0 <= i < len ==> #[trigger] r@[i] == 0,
{
    let mut out: Vec<u8> = Vec::new();
    let mut k: usize = 0;
    while k < len
        invariant
            0 <= k <= len,
            out@.len() == k,
            forall|i: int| 0 <= i < k ==> #[trigger] out@[i] == 0,
        decreases len - k,
    {
        out.push(0);
        k = k + 1;
    }
    out
}

/// Reads exactly `len` bytes at the given offset, or fails: a short read
/// is never handed on.
fn read_exact_at(fd: i32, len: usize, offset: u64) -> (r: Result<Vec<u8>, SysErr>)
    requires
        offset + len <= i64::MAX,
    ensures
        r matches Ok(v) ==> v@.len() == len,
{
    let mut buf: Vec<u8> = Vec::new();
    while buf.len() < len
        invariant
            buf@.len() <= len,
            offset + len <= i64::MAX,
        decreases len - buf@.len(),
    {
        let want = len - buf.len();
        let pos = offset + buf.len() as u64;
        let mut chunk = match sys_pread_at(fd, want, pos) {
            Ok(c) => c,
            Err(e) => {
                return Err(e);
            },
        };
        if chunk.len() == 0 {
            return Err(SysErr::Other);
        }
        buf.append(&mut chunk);
    }
    Ok(buf)
}

/// One captured region: the metadata and the bytes, whose length always
/// equals the region's size.
#[derive(Debug)]
pub struct MemoryMap {
    pub pid: i32,
    pub metadata: AddressSpaceMetadata,
    pub memory: Vec<u8>,
}

/// A capture is well formed when its buffer spans exactly its region.
pub open spec fn map_wf(m: MemoryMap) -> bool {
    &&& region_wf(m.metadata@)
    &&& m.memory@.len() == m.metadata.size
}

/// The bytes of `[start, end)` that a capture holds: the window into
/// its buffer, clipped to the buffer; addresses below the region map to
/// its beginning.
pub open spec fn spec_slice(m: MemoryMap, start: usize, end: usize) -> Seq<u8>
    recommends
        map_wf(m),
        start <= m.metadata.range.end,
{
    let off = if start >= m.metadata.range.start {
        start - m.metadata.range.start
    } else {
        0
    };
    let want = if end >= start {
        end - start
    } else {
        0
    };
    let avail = m.memory@.len() - off;
    let cnt = if want <= avail {
        want
    } else {
        avail
    };
    m.memory@.subrange(off, off + cnt)
}

impl MemoryMap {
    /// The bytes of `[start, end)` that this capture holds, clipped to
    /// the captured buffer.
    pub fn slice(&self, start: usize, end: usize) -> (r: &[u8])
        requires
            map_wf(*self),
            start <= self.metadata.range.end,
        ensures
            r@ == spec_slice(*self, start, end),
    {
        let off = if start >= self.metadata.range.start {
            start - self.metadata.range.start
        } else {
            0
        };
        let want = if end >= start {
            end - start
        } else {
            0
        };
        let avail = self.memory.len() - off;
        let cnt = if want <= avail {
            want
        } else {
            avail
        };
        vstd::slice::slice_subrange(self.memory.as_slice(), off, off + cnt)
    }

    /// A field-for-field copy of this capture.
    pub fn duplicate(&self) -> (r: MemoryMap)
        ensures
            r.pid == self.pid,
            r.metadata@ == self.metadata@,
            r.memory@ == self.memory@,
    {
        let r = MemoryMap {
            pid: self.pid,
            metadata: duplicate_metadata(&self.metadata),
            memory: duplicate_bytes(&self.memory),
        };
        proof {
            assert(r.metadata@ =~= self.metadata@);
        }
        r
    }
}

/// A field-for-field copy of a metadata record.
pub fn duplicate_metadata(m: &AddressSpaceMetadata) -> (r: AddressSpaceMetadata)
    ensures
        r@ == m@,
{
    let r = AddressSpaceMetadata {
        range: m.range,
        permissions: m.permissions.clone(),
        offset: m.offset,
        device: m.device.clone(),
        inode: m.inode,
        path: m.path.clone(),
        size: m.size,
    };
    proof {
        assert(r@ =~= m@);
    }
    r
}

fn duplicate_bytes(v: &Vec<u8>) -> (r: Vec<u8>)
    ensures
        r@ == v@,
{
    let mut out: Vec<u8> = Vec::new();
    let mut k: usize = 0;
    while k < v.len()
        invariant
            0 <= k <= v@.len(),
            out@ =~= v@.take(k as int),
        decreases v@.len() - k,
    {
        out.push(v[k]);
        proof {
            assert(out@ =~= v@.take(k as int + 1));
        }
        k = k + 1;
    }
    proof {
        assert(v@.take(v@.len() as int) =~= v@);
    }
    out
}

/// Enumerates the readable regions of a process for a session's region
/// list; an unreadable mapping table yields the empty list.
pub fn enumerate_regions(pid: i32) -> (r: Vec<RegionEntry>)
    requires
        pid >= 0,
    ensures
        forall|k: int| 0 <= k < r@.len() ==> (#[trigger] r@[k].range).wf(),
{
    let path = proc_path(pid, "maps");
    let fd = match sys_open_read(path.as_str()) {
        Ok(fd) => fd,
        Err(_) => {
            return Vec::new();
        },
    };
    let contents = read_whole_file(fd);
    sys_close(fd);
    let bytes = match contents {
        Some(b) => b,
        None => {
            return Vec::new();
        },
    };
    let metas = parse_maps_bytes(bytes.as_slice());
    let mut out: Vec<RegionEntry> = Vec::new();
    let mut i: usize = 0;
    while i < metas.len()
        invariant
            0 <= i <= metas@.len(),
            forall|k: int| 0 <= k < metas@.len() ==> region_wf(#[trigger] metas@[k]@),
            forall|k: int| 0 <= k < out@.len() ==> (#[trigger] out@[k].range).wf(),
        decreases metas@.len() - i,
    {
        let m = &metas[i];
        proof {
            assert(region_wf(metas@[i as int]@));
            assert(metas@[i as int]@.range == metas@[i as int].range);
        }
        out.push(RegionEntry { range: m.range, name: m.path.clone() });
        i = i + 1;
    }
    out
}

/// Reads `size` bytes of a process's memory at an absolute address, in
/// full or not at all, with permission failures distinguished.  A range
/// beyond what the kernel can address is rejected before any call.
pub fn read_chunk_at(pid: i32, address: usize, size: usize) -> (r: Result<Vec<u8>, ReadError>)
    requires
        pid >= 0,
    ensures
        r matches Ok(v) ==> v@.len() == size,
        address + size > i64::MAX ==> r == Err::<Vec<u8>, ReadError>(ReadError::Other),
{
    if size as u64 > i64::MAX as u64 || address as u64 > i64::MAX as u64 - size as u64 {
        return Err(ReadError::Other);
    }
    let path = proc_path(pid, "mem");
    let fd = match sys_open_read(path.as_str()) {
        Ok(fd) => fd,
        Err(SysErr::Permission) => {
            return Err(ReadError::PermissionDenied);
        },
        Err(SysErr::Other) => {
            return Err(ReadError::Other);
        },
    };
    let r = read_exact_at(fd, size, address as u64);
    sys_close(fd);
    match r {
        Ok(v) => Ok(v),
        Err(SysErr::Permission) => Err(ReadError::PermissionDenied),
        Err(SysErr::Other) => Err(ReadError::Other),
    }
}

/// Captures one region: its full byte range on success, a same-length
/// all-zero buffer on any failure.
fn read_memory_segment(pid: i32, meta: &AddressSpaceMetadata) -> (r: Vec<u8>)
    requires
        pid >= 0,
    ensures
        r@.len() == meta.size,
{
    let path = proc_path(pid, "mem");
    let fd = match sys_open_read(path.as_str()) {
        Ok(fd) => fd,
        Err(_) => {
            return zero_vec(meta.size);
        },
    };
    if meta.size as u64 > i64::MAX as u64 || meta.range.start as u64 > i64::MAX as u64
        - meta.size as u64 {
        sys_close(fd);
        return zero_vec(meta.size);
    }
    let r = read_exact_at(fd, meta.size, meta.range.start as u64);
    sys_close(fd);
    match r {
        Ok(v) => v,
        Err(_) => zero_vec(meta.size),
    }
}

/// Enumerates and captures a process's readable regions on demand.
#[derive(Debug)]
pub struct MemoryReader {
    pid: i32,
    maps: Vec<AddressSpaceMetadata>,
    probe: StackProbe,
}

impl MemoryReader {
    /// The reader's invariant: a sensible process id and only readable,
    /// well-formed region records.
    pub closed spec fn wf(&self) -> bool {
        &&& self.pid >= 0
        &&& forall|k: int| 0 <= k < self.maps@.len() ==> region_wf(#[trigger] self.maps@[k]@)
    }

    /// The process this reader targets.
    pub closed spec fn spec_pid(&self) -> int {
        self.pid as int
    }

    /// The stack-pointer strategy this reader was built with.
    pub closed spec fn spec_probe(&self) -> StackProbe {
        self.probe
    }

    /// Creates a reader for a process and enumerates its regions once;
    /// an unreadable mapping table leaves the region list empty.  The
    /// probe is the attach-based one exactly when `use_ptrace`, else the
    /// passive one; it is fixed here and no method changes it.
    pub fn new(pid: i32, use_ptrace: bool) -> (r: MemoryReader)
        requires
            pid >= 0,
        ensures
            r.wf(),
            r.spec_pid() == pid,
            use_ptrace ==> r.spec_probe() is Attach,
            !use_ptrace ==> r.spec_probe() is Passive,
    {
        let mut reader = MemoryReader {
            pid,
            maps: Vec::new(),
            probe: StackProbe::select(use_ptrace),
        };
        reader.refresh_maps();
        reader
    }

    /// Obtains an initial viewing address by running `spec_probe()` on
    /// the target.
    pub fn get_stack_pointer(&self) -> (r: Option<usize>)
        requires
            self.wf(),
    {
        self.probe.read(self.pid)
    }

    /// Re-reads the mapping table; an unreadable table leaves the
    /// region list empty.
    fn refresh_maps(&mut self)
        requires
            old(self).wf(),
        ensures
            final(self).wf(),
            final(self).pid == old(self).pid,
            final(self).probe == old(self).probe,
    {
        let path = proc_path(self.pid, "maps");
        let fd = match sys_open_read(path.as_str()) {
            Ok(fd) => fd,
            Err(_) => {
                self.maps = Vec::new();
                return;
            },
        };
        let contents = read_whole_file(fd);
        sys_close(fd);
        match contents {
            Some(bytes) => {
                self.maps = parse_maps_bytes(bytes.as_slice());
            },
            None => {
                self.maps = Vec::new();
            },
        }
    }

    /// Re-enumerates the regions and captures each readable one, in
    /// table order; every capture's buffer spans exactly its region,
    /// zero-filled where the read failed.
    pub fn read_memory(&mut self) -> (r: Vec<MemoryMap>)
        requires
            old(self).wf(),
        ensures
            final(self).wf(),
            final(self).spec_pid() == old(self).spec_pid(),
            final(self).spec_probe() == old(self).spec_probe(),
            forall|k: int| 0 <= k < r@.len() ==> map_wf(#[trigger] r@[k]),
            forall|k: int| 0 <= k < r@.len() ==> (#[trigger] r@[k]).pid == old(self).spec_pid(),
    {
        self.refresh_maps();
        let mut out: Vec<MemoryMap> = Vec::new();
        let mut i: usize = 0;
        while i < self.maps.len()
            invariant
                0 <= i <= self.maps@.len(),
                self.wf(),
                self.pid >= 0,
                self.pid == old(self).pid,
                self.probe == old(self).probe,
                forall|k: int| 0 <= k < out@.len() ==> map_wf(#[trigger] out@[k]),
                forall|k: int| 0 <= k < out@.len() ==> (#[trigger] out@[k]).pid == old(self).pid,
            decreases self.maps@.len() - i,
        {
            let meta = duplicate_metadata(&self.maps[i]);
            let memory = read_memory_segment(self.pid, &meta);
            proof {
                assert(region_wf(meta@));
            }
            out.push(MemoryMap { pid: self.pid, metadata: meta, memory });
            i = i + 1;
        }
        out
    }
}

} // verus!
