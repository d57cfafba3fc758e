//! Sizing rules of the grow-on-demand GPU storage buffers.

use vstd::prelude::*;

verus! {

/// Smallest buffer ever allocated, in bytes.
pub const MIN_BUFFER_BYTES: u64 = 16;

/// Smallest size a buffer grows to, in bytes.
pub const MIN_GROWN_BYTES: u64 = 1024;

/// Largest piece of a zero fill, in bytes.
pub const ZERO_CHUNK_BYTES: u64 = 4096;

/// Largest per-block voice output buffer, in bytes (1.5 GiB).
pub const MAX_VOICE_OUT_BYTES: u64 = 1610612736;

/// Whether `voices` voices can render a block of `block` frames: their
/// output (two channels of 4-byte samples per frame) must fit in
/// [`MAX_VOICE_OUT_BYTES`].
pub fn voice_output_fits(voices: u32, block: u32) -> (r: bool)
    ensures
        r == (voices as int * block as int * 8 <= MAX_VOICE_OUT_BYTES),
{
    let v = voices as u64;
    let b = block as u64;
    assert(v * b <= 0xFFFF_FFFF_FFFF_FFFF) by (nonlinear_arith)
        requires
            v <= 0xFFFF_FFFF,
            b <= 0xFFFF_FFFF,
    ;
    let prod: u64 = v * b;
    if prod > MAX_VOICE_OUT_BYTES / 8 {
        false
    } else {
        prod * 8 <= MAX_VOICE_OUT_BYTES
    }
}

/// The size a buffer is created with for a requested capacity.
pub fn initial_size(capacity: u64) -> (size: u64)
    ensures
        size == (if capacity < MIN_BUFFER_BYTES { MIN_BUFFER_BYTES } else { capacity }),
{
    if capacity < MIN_BUFFER_BYTES {
        MIN_BUFFER_BYTES
    } else {
        capacity
    }
}

/// Twice the old size, or the end to hold, or 1024, whichever is largest.
pub open spec fn growth(size: u64, end: u64) -> int {
    let floor: int = if end > MIN_GROWN_BYTES { end as int } else { MIN_GROWN_BYTES as int };
    if 2 * size > floor {
        2 * size
    } else {
        floor
    }
}

/// The new size of a buffer of `size` bytes that must hold bytes up to
/// `end`: `None` when it already does, else [`growth`].
pub fn grown_size(size: u64, end: u64) -> (r: Option<u64>)
    requires
        size <= u64::MAX / 2,
    ensures
        r == (if end <= size { None } else { Some(growth(size, end) as u64) }),
        r matches Some(n) ==> n >= end,
{
    if end <= size {
        return None;
    }
    let doubled: u64 = size * 2;
    let floor: u64 = if end > MIN_GROWN_BYTES { end } else { MIN_GROWN_BYTES };
    Some(if doubled > floor { doubled } else { floor })
}

/// The writes that zero a buffer of `size` bytes: `(offset, length)` pieces
/// of at most 4096 bytes, back to back from 0 to `size`.
pub fn zero_fill_writes(size: u64) -> (r: Vec<(u64, u64)>)
    ensures
        forall|i: int|
            0 <= i < r@.len() ==> {
                &&& (#[trigger] r@[i]).0 == i * ZERO_CHUNK_BYTES
                &&& r@[i].1 == (if size - r@[i].0 < ZERO_CHUNK_BYTES { size - r@[i].0 } else { ZERO_CHUNK_BYTES as int })
                &&& r@[i].0 < size
            },
        r@.len() * ZERO_CHUNK_BYTES >= size,
{
    let mut out: Vec<(u64, u64)> = Vec::new();
    let mut off: u64 = 0;
    while off < size
        invariant
            off <= size,
            off == out@.len() * ZERO_CHUNK_BYTES || (off == size && out@.len() * ZERO_CHUNK_BYTES >= size),
            forall|i: int|
                0 <= i < out@.len() ==> {
                    &&& (#[trigger] out@[i]).0 == i * ZERO_CHUNK_BYTES
                    &&& out@[i].1 == (if size - out@[i].0 < ZERO_CHUNK_BYTES { size - out@[i].0 } else { ZERO_CHUNK_BYTES as int })
                    &&& out@[i].0 < size
                },
        decreases size - off,
    {
        let rest: u64 = size - off;
        let n: u64 = if rest < ZERO_CHUNK_BYTES { rest } else { ZERO_CHUNK_BYTES };
        out.push((off, n));
        off = off + n;
    }
    out
}

} // verus!
