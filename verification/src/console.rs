//! The local interactive viewer's state: its construction parameters
//! and the pure cursor and scrolling decisions its input loop applies.
//! Drawing and key handling live outside the library; every decision
//! about where the view moves is made here.

use vstd::prelude::*;
use crate::cache::AtomicMemoryReference;

verus! {

/// The local viewer: a window of `width` by `height` bytes over the
/// snapshot cache, starting at `start`.
pub struct Console {
    pub pid: i32,
    pub start: usize,
    pub width: usize,
    pub height: usize,
    pub convert_ascii: bool,
    pub memref: AtomicMemoryReference,
}

impl Console {
    /// Bundles the viewer's parameters with the shared snapshot store.
    pub fn new(
        pid: i32,
        start: usize,
        memref: AtomicMemoryReference,
        height: usize,
        width: usize,
        convert_ascii: bool,
    ) -> (r: Console)
        ensures
            r.pid == pid,
            r.start == start,
            r.width == width,
            r.height == height,
            r.convert_ascii == convert_ascii,
            r.memref == memref,
    {
        Console { pid, start, width, height, convert_ascii, memref }
    }
}

/// Moves the region-list cursor one entry up, stopping at the first.
pub fn list_cursor_up(pos: usize) -> (r: usize)
    ensures
        r == if pos > 0 {
            pos - 1
        } else {
            0int
        },
{
    if pos > 0 {
        pos - 1
    } else {
        0
    }
}

/// Moves the region-list cursor one entry down, stopping at the last of
/// `count` entries.
pub fn list_cursor_down(pos: usize, count: usize) -> (r: usize)
    requires
        count > 0,
        pos < count,
    ensures
        r == if pos + 1 < count {
            pos + 1
        } else {
            pos as int
        },
{
    if pos + 1 < count {
        pos + 1
    } else {
        pos
    }
}

/// Turns a typed digit into a region-list index when one exists: the
/// digit keys are one-based.
pub fn select_region(digit: u32, count: usize) -> (r: Option<usize>)
    ensures
        match r {
            Some(i) => 1 <= digit <= 9 && i == digit - 1 && i < count,
            None => digit < 1 || digit > 9 || digit - 1 >= count,
        },
{
    if 1 <= digit && digit <= 9 {
        let i = (digit - 1) as usize;
        if i < count {
            Some(i)
        } else {
            None
        }
    } else {
        None
    }
}

/// Scrolls the memory window one row towards lower offsets, stopping at
/// the top.
pub fn scroll_up(offset: usize, width: usize) -> (r: usize)
    ensures
        r == if offset >= width {
            offset - width
        } else {
            0int
        },
{
    if offset >= width {
        offset - width
    } else {
        0
    }
}

/// Scrolls the memory window one row towards higher offsets while a
/// full window still fits before `len`.
pub fn scroll_down(offset: usize, width: usize, height: usize, len: usize) -> (r: usize)
    requires
        height >= 1,
    ensures
        r == if offset + width * height < len {
            offset + width
        } else {
            offset as int
        },
{
    let window = match width.checked_mul(height) {
        Some(w) => w,
        None => {
            return offset;
        },
    };
    proof {
        vstd::arithmetic::mul::lemma_mul_inequality(1, height as int, width as int);
        vstd::arithmetic::mul::lemma_mul_is_commutative(width as int, height as int);
    }
    match offset.checked_add(window) {
        Some(reach) => {
            if reach < len {
                offset + width
            } else {
                offset
            }
        },
        None => offset,
    }
}

} // verus!
